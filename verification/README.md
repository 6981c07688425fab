# eva_motion_control

Client-side logic for a two-axis motion controller with a camera, verified
with Verus.

- `src/bits.rs` — bits packed most significant first into bytes, 32-bit words
  big-endian; the `bitty` calls that pack and unpack bits.
- `src/task/message.rs` — command frames: eight flags, byte registers and
  float registers, set by name.
- `src/task/reader.rs` — state frames: a layout built from named fields of
  given kinds, decoding of a frame into those fields, and checks of field
  values; the proof that a reader laid out like a command frame decodes that
  frame into the command's registers.
- `src/task/db.rs`, `src/task/db/table.rs` — the register tables and their
  key tables.
- `src/task.rs` — a task as a step machine: each step is planned as a list of
  effects (frames to send, states to wait for, pauses, camera work), and the
  outcome of the effects is reported back.
- `app/` — the connection to the controller, the camera and HTTP calls, the
  waiting loops, and a stand-in controller (`fake_server`).

Floats are carried in the library as their IEEE-754 bit patterns; `app/`
converts to and from `f32`.
