//! Client-side logic of a two-axis motion controller: the frames that are sent
//! to the controller, the decoding of the state frames that it sends back,
//! the register tables, and the step machine that runs a task.

pub mod bits;
pub mod task;
