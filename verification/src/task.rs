//! A task: a list of motions that the controller performs one step at a time.
//! Each step is planned here as a list of effects (frames to send, states to
//! wait for, pauses, camera work); whoever drives the task performs the
//! effects and reports back their outcome.

pub mod db;
pub mod message;
pub mod reader;

use vstd::prelude::*;
use self::message::{Msg, Value, frame, lemma_command_slots, command_slot};
use self::reader::{
    Reader, ValueType, total_bits, entry_key, layout, key_texts, decimal, decoded, decimal_text,
};
use crate::bits::{
    msb_bits, msb_value, byte_bits, be_words, be_bytes, lemma_value_byte_bits, lemma_be_words,
    lemma_be_roundtrip,
};

verus! {

/// One motion of a task. Floats are carried as IEEE-754 bit patterns.
#[derive(Clone)]
pub enum MotionType {
    /// Move to (x, y) at the given speed.
    MoveTo(u32, u32, u32),
    InitCamera,
    StopCamera,
    Capture,
    /// Wait until every (key, value) pair holds in the controller's state.
    GoOnIf(Vec<(&'static str, Value)>),
    Stop,
    Reset,
    Light(bool),
}

/// Receives the images a task captures and the reasons it fails.
pub trait AddImage {
    fn add_image(&mut self, image: Vec<u8>, filename: String);

    fn change_status(&mut self, status: String);
}

/// Where a task stands.
#[derive(PartialEq, Eq, Debug, Clone, Copy, Structural)]
pub enum Status {
    Pending,
    Working,
    Fail,
    Done,
}

/// Outside work that a step of a task asks for. Whoever drives the task
/// performs the effects of a step in order. A failed `Send`, `StartCamera`
/// or `Capture` is reported through `Task::effect_failed`, which says how the
/// step goes on; an `Await` polls the controller's state through
/// `Task::poll_confirmation` until it is confirmed or timed out; a captured
/// image goes through `Task::store_image`. The reasons and named images that
/// these give back are handed to the task's receiver.
pub enum Effect {
    /// Send this frame to the controller.
    Send(Vec<u8>),
    /// Wait until every (key, value) pair holds in the controller's state.
    Await(Vec<(&'static str, Value)>),
    /// Sleep this many milliseconds.
    Pause(u64),
    StartCamera,
    StopCamera,
    Capture,
}

/// What an effect asks for, over plain values.
pub enum EffectView {
    Send(Seq<u8>),
    Await(Seq<(&'static str, Value)>),
    Pause(u64),
    StartCamera,
    StopCamera,
    Capture,
}

impl View for Effect {
    type V = EffectView;

    open spec fn view(&self) -> EffectView {
        match self {
            Effect::Send(bytes) => EffectView::Send(bytes@),
            Effect::Await(conditions) => EffectView::Await(conditions@),
            Effect::Pause(ms) => EffectView::Pause(*ms),
            Effect::StartCamera => EffectView::StartCamera,
            Effect::StopCamera => EffectView::StopCamera,
            Effect::Capture => EffectView::Capture,
        }
    }
}

/// The views of a list of effects.
pub open spec fn effect_views(effects: Seq<Effect>) -> Seq<EffectView> {
    effects.map_values(|e: Effect| e@)
}

/// Eight flags, all clear but those at positions `set`.
pub open spec fn flags_with(set: Set<int>) -> Seq<bool> {
    Seq::new(8, |i: int| set.contains(i))
}

/// The first frame of a move: position, speed, light on.
pub open spec fn move_frame(x: u32, y: u32, speed: u32) -> Seq<u8> {
    frame(flags_with(set![7int]), Seq::empty(), seq![x, y, speed])
}

/// The conditions set by the first frame of a move.
pub open spec fn move_conditions(x: u32, y: u32, speed: u32) -> Seq<(&'static str, Value)> {
    seq![
        ("X_POSITION", Value::Float(x)),
        ("Y_POSITION", Value::Float(y)),
        ("LIGHT", Value::Bool(true)),
        ("SPEED", Value::Float(speed)),
    ]
}

/// The second frame of a move: as the first, with both axis triggers set.
pub open spec fn trigger_frame(x: u32, y: u32, speed: u32) -> Seq<u8> {
    frame(flags_with(set![7int, 4int, 3int]), Seq::empty(), seq![x, y, speed])
}

/// The conditions set by the second frame of a move.
pub open spec fn trigger_conditions(x: u32, y: u32, speed: u32) -> Seq<(&'static str, Value)> {
    move_conditions(x, y, speed) + seq![
        ("X_TRIGGER", Value::Bool(true)),
        ("Y_TRIGGER", Value::Bool(true)),
    ]
}

/// The effects of one motion.
pub open spec fn motion_effects(motion: MotionType) -> Seq<EffectView> {
    match motion {
        MotionType::MoveTo(x, y, speed) => seq![
            EffectView::Send(move_frame(x, y, speed)),
            EffectView::Await(move_conditions(x, y, speed)),
            EffectView::Send(trigger_frame(x, y, speed)),
            EffectView::Await(trigger_conditions(x, y, speed)),
        ],
        MotionType::GoOnIf(conditions) => seq![EffectView::Await(conditions@)],
        MotionType::InitCamera => seq![EffectView::StartCamera, EffectView::Pause(10000)],
        MotionType::StopCamera => seq![EffectView::StopCamera],
        MotionType::Capture => seq![EffectView::Capture],
        MotionType::Stop => Seq::empty(),
        MotionType::Reset => seq![
            EffectView::Send(frame(flags_with(set![6int, 5int]), Seq::empty(), seq![0u32, 0u32, 0u32])),
            EffectView::Pause(100),
            EffectView::Await(seq![("X_FINISHED", Value::Bool(true)), ("Y_FINISHED", Value::Bool(true))]),
        ],
        MotionType::Light(on) => seq![
            EffectView::Send(frame(
                if on { flags_with(set![7int]) } else { flags_with(Set::empty()) },
                Seq::empty(),
                seq![0u32, 0u32, 0u32],
            )),
            EffectView::Await(seq![("LIGHT", Value::Bool(on))]),
        ],
    }
}

/// A copy of a list of conditions.
fn copy_conditions(conditions: &Vec<(&'static str, Value)>) -> (copy: Vec<(&'static str, Value)>)
    ensures
        copy@ == conditions@,
{
    let mut copy: Vec<(&'static str, Value)> = Vec::new();
    let mut i: usize = 0;
    while i < conditions.len()
        invariant
            i <= conditions@.len(),
            copy@ == conditions@.subrange(0, i as int),
        decreases conditions@.len() - i,
    {
        copy.push(conditions[i]);
        i += 1;
        assert(copy@ =~= conditions@.subrange(0, i as int));
    }
    assert(conditions@.subrange(0, conditions@.len() as int) =~= conditions@);
    copy
}

/// The name of captured image number `index`: its decimal digits, then `.png`.
fn image_file_name(index: usize) -> (name: String)
    ensures
        name@ == decimal(index as nat) + ".png"@,
{
    let mut name = decimal_text(index);
    name.append(".png");
    name
}

/// The effects of a move: send position, speed and light, wait for them; set
/// both axis triggers, send again, wait again.
fn move_to(x: u32, y: u32, speed: u32) -> (effects: Vec<Effect>)
    ensures
        effect_views(effects@) == motion_effects(MotionType::MoveTo(x, y, speed)),
{
    proof {
        lemma_command_slots();
    }
    let mut msg = Msg::new();
    let _ = msg.set("X_POSITION", Value::Float(x));
    let _ = msg.set("Y_POSITION", Value::Float(y));
    let _ = msg.set("LIGHT", Value::Bool(true));
    let _ = msg.set("SPEED", Value::Float(speed));
    assert(msg.bools@ =~= flags_with(set![7int]));
    assert(msg.floats@ =~= seq![x, y, speed]);
    assert(msg.conditions@ =~= move_conditions(x, y, speed));
    let first = msg.to_bytes();
    let first_conditions = copy_conditions(&msg.conditions);
    let _ = msg.set("X_TRIGGER", Value::Bool(true));
    let _ = msg.set("Y_TRIGGER", Value::Bool(true));
    assert(msg.bools@ =~= flags_with(set![7int, 4int, 3int]));
    assert(msg.conditions@ =~= trigger_conditions(x, y, speed));
    let second = msg.to_bytes();
    let second_conditions = copy_conditions(&msg.conditions);
    let effects = vec![
        Effect::Send(first),
        Effect::Await(first_conditions),
        Effect::Send(second),
        Effect::Await(second_conditions),
    ];
    assert(effect_views(effects@) =~= motion_effects(MotionType::MoveTo(x, y, speed)));
    effects
}

/// The effects of switching the light: send the light flag, wait for it.
fn light(on: bool) -> (effects: Vec<Effect>)
    ensures
        effect_views(effects@) == motion_effects(MotionType::Light(on)),
{
    proof {
        lemma_command_slots();
    }
    let mut msg = Msg::new();
    let _ = msg.set("LIGHT", Value::Bool(on));
    assert(msg.bools@ =~= if on { flags_with(set![7int]) } else { flags_with(Set::empty()) });
    let bytes = msg.to_bytes();
    let conditions = copy_conditions(&msg.conditions);
    let effects = vec![Effect::Send(bytes), Effect::Await(conditions)];
    assert(effect_views(effects@) =~= motion_effects(MotionType::Light(on)));
    effects
}

/// The effects of a reset: send both rest flags, pause, wait for both axes
/// to report that they finished.
fn reset() -> (effects: Vec<Effect>)
    ensures
        effect_views(effects@) == motion_effects(MotionType::Reset),
{
    proof {
        lemma_command_slots();
    }
    let mut msg = Msg::new();
    let _ = msg.set("X_REST_STATE", Value::Bool(true));
    let _ = msg.set("Y_REST_STATE", Value::Bool(true));
    assert(msg.bools@ =~= flags_with(set![6int, 5int]));
    let bytes = msg.to_bytes();
    let effects = vec![
        Effect::Send(bytes),
        Effect::Pause(100),
        Effect::Await(vec![("X_FINISHED", Value::Bool(true)), ("Y_FINISHED", Value::Bool(true))]),
    ];
    assert(effect_views(effects@) =~= motion_effects(MotionType::Reset));
    effects
}

/// Every condition of `conditions` can be checked by `reader`.
pub open spec fn all_checkable(reader: Reader, conditions: Seq<(&'static str, Value)>) -> bool {
    forall|i: int| 0 <= i < conditions.len() ==> reader.checkable(#[trigger] conditions[i].0@, conditions[i].1)
}

/// Every condition of `conditions` holds in what `reader` last decoded.
pub open spec fn all_hold(reader: Reader, conditions: Seq<(&'static str, Value)>) -> bool {
    forall|i: int| 0 <= i < conditions.len() ==> reader.holds(#[trigger] conditions[i].0@, conditions[i].1)
}

/// What checking a snapshot finds: with no snapshot, the conditions are not
/// confirmed; with one, `before` must be able to load it and `after` (the
/// reader once loaded) must be able to check every condition, and the answer
/// is whether they all hold. `None` where the snapshot cannot be checked.
pub open spec fn checked(
    before: Reader,
    after: Reader,
    snapshot: Option<Vec<u8>>,
    conditions: Seq<(&'static str, Value)>,
) -> Option<bool> {
    match snapshot {
        None => Some(false),
        Some(states) => if before.readable(states@.len()) && all_checkable(after, conditions) {
            Some(all_hold(after, conditions))
        } else {
            None
        },
    }
}

/// What follows when an effect of a step fails.
pub enum Setback {
    /// The step ends at once with this error and stays unfinished.
    Abort(&'static str),
    /// The task failed: `reason` is to be handed to the receiver, and the
    /// step goes on with its remaining effects unless `skip_rest`.
    Failed { reason: String, skip_rest: bool },
}

/// The outcome of one poll while waiting for a confirmation.
pub enum Poll {
    /// The conditions do not hold yet; poll again.
    Waiting,
    /// The conditions hold; the wait is over.
    Confirmed,
    /// Too long without confirmation: the task failed, and this is the
    /// reason to hand to the receiver.
    TimedOut(String),
}

/// A confirmation needs every condition: checking a snapshot answers `true`
/// only when each awaited (key, value) holds in the decoded state, and
/// `false` for a snapshot only when some condition does not hold.
pub proof fn law_confirmation_needs_every_condition(
    before: Reader,
    after: Reader,
    snapshot: Option<Vec<u8>>,
    conditions: Seq<(&'static str, Value)>,
)
    ensures
        checked(before, after, snapshot, conditions) == Some(true) ==> forall|i: int|
            0 <= i < conditions.len() ==> after.holds(#[trigger] conditions[i].0@, conditions[i].1),
        snapshot is Some && checked(before, after, snapshot, conditions) == Some(false) ==> exists|i: int|
            0 <= i < conditions.len() && !after.holds(#[trigger] conditions[i].0@, conditions[i].1),
        snapshot is None ==> checked(before, after, snapshot, conditions) == Some(false),
{
}

/// Flag `p` of a command frame `f`: bit `7 - p` of its first byte.
pub open spec fn frame_flag(f: Seq<u8>, p: int) -> bool {
    (f[0] >> ((7 - p) as u8)) & 1u8 == 1u8
}

/// Float register `q` of a command frame `f`: the big-endian word at byte `1 + 4 * q`.
pub open spec fn frame_float(f: Seq<u8>, q: int) -> nat {
    (f[1 + 4 * q] as nat) * 0x100_0000 + (f[2 + 4 * q] as nat) * 0x1_0000 + (f[3 + 4 * q] as nat) * 0x100
        + (f[4 + 4 * q] as nat)
}

/// `f` is a command frame of eight flags and three floats in which each
/// (key, value) of `sets` stands in the register its key names, and every
/// register that no pair names is clear.
pub open spec fn frame_sets(f: Seq<u8>, sets: Seq<(&'static str, Value)>) -> bool {
    &&& f.len() == 13
    &&& forall|j: int|
        0 <= j < sets.len() ==> match (command_slot(#[trigger] sets[j].0@), sets[j].1) {
            (Some(s), Value::Bool(b)) => frame_flag(f, s as int) == b,
            (Some(s), Value::Float(w)) => frame_float(f, s as int) == w,
            _ => false,
        }
    &&& forall|p: int|
        0 <= p < 8 && (forall|j: int| 0 <= j < sets.len() ==> !(command_slot(#[trigger] sets[j].0@)
            == Some(p as usize) && sets[j].1 is Bool)) ==> !frame_flag(f, p)
    &&& forall|q: int|
        0 <= q < 3 && (forall|j: int| 0 <= j < sets.len() ==> !(command_slot(#[trigger] sets[j].0@)
            == Some(q as usize) && sets[j].1 is Float)) ==> frame_float(f, q) == 0
}

proof fn lemma_frame_registers(flags: Seq<bool>, floats: Seq<u32>)
    requires
        flags.len() == 8,
        floats.len() == 3,
    ensures
        frame(flags, Seq::empty(), floats).len() == 13,
        forall|p: int| 0 <= p < 8 ==> frame_flag(frame(flags, Seq::empty(), floats), p) == flags[p],
        forall|q: int| 0 <= q < 3 ==> frame_float(frame(flags, Seq::empty(), floats), q) == floats[q],
{
    let f = frame(flags, Seq::empty(), floats);
    lemma_value_byte_bits(flags);
    lemma_be_words(floats);
    assert forall|p: int| 0 <= p < 8 implies frame_flag(f, p) == flags[p] by {
        assert(byte_bits(f[0])[p] == flags[p]);
    }
    assert forall|q: int| 0 <= q < 3 implies frame_float(f, q) == floats[q] by {
        lemma_be_roundtrip(floats[q]);
        assert(be_words(floats)[4 * q + 0] == be_bytes(floats[q])[0]);
        assert(be_words(floats)[4 * q + 1] == be_bytes(floats[q])[1]);
        assert(be_words(floats)[4 * q + 2] == be_bytes(floats[q])[2]);
        assert(be_words(floats)[4 * q + 3] == be_bytes(floats[q])[3]);
    }
}

/// Every frame a move, a light switch or a reset sends carries what the
/// step asks of the controller: a move sends position `(x, y)`, `speed`
/// and the light, awaits exactly those, then sends the same registers with
/// both axis triggers added and awaits those too; switching the light sends
/// the light flag alone and awaits it; a reset sends the two rest flags
/// alone, pauses, and awaits both axes finished. No other register of these
/// frames is set.
pub proof fn law_steps_send_what_they_await(x: u32, y: u32, speed: u32, on: bool)
    ensures
        ({
            let m = motion_effects(MotionType::MoveTo(x, y, speed));
            let first = seq![
                ("X_POSITION", Value::Float(x)),
                ("Y_POSITION", Value::Float(y)),
                ("LIGHT", Value::Bool(true)),
                ("SPEED", Value::Float(speed)),
            ];
            let second = first + seq![("X_TRIGGER", Value::Bool(true)), ("Y_TRIGGER", Value::Bool(true))];
            &&& m.len() == 4
            &&& m[0] matches EffectView::Send(f) && frame_sets(f, first)
            &&& m[1] == EffectView::Await(first)
            &&& m[2] matches EffectView::Send(f) && frame_sets(f, second)
            &&& m[3] == EffectView::Await(second)
        }),
        ({
            let m = motion_effects(MotionType::Light(on));
            let sets = seq![("LIGHT", Value::Bool(on))];
            &&& m.len() == 2
            &&& m[0] matches EffectView::Send(f) && frame_sets(f, sets)
            &&& m[1] == EffectView::Await(sets)
        }),
        ({
            let m = motion_effects(MotionType::Reset);
            &&& m.len() == 3
            &&& m[0] matches EffectView::Send(f) && frame_sets(
                f,
                seq![("X_REST_STATE", Value::Bool(true)), ("Y_REST_STATE", Value::Bool(true))],
            )
            &&& m[1] == EffectView::Pause(100)
            &&& m[2] == EffectView::Await(
                seq![("X_FINISHED", Value::Bool(true)), ("Y_FINISHED", Value::Bool(true))],
            )
        }),
{
    lemma_command_slots();
    let zeros = seq![0u32, 0u32, 0u32];
    lemma_frame_registers(flags_with(set![7int]), seq![x, y, speed]);
    lemma_frame_registers(flags_with(set![7int, 4int, 3int]), seq![x, y, speed]);
    lemma_frame_registers(flags_with(set![7int]), zeros);
    lemma_frame_registers(flags_with(Set::empty()), zeros);
    lemma_frame_registers(flags_with(set![6int, 5int]), zeros);
    let first = seq![
        ("X_POSITION", Value::Float(x)),
        ("Y_POSITION", Value::Float(y)),
        ("LIGHT", Value::Bool(true)),
        ("SPEED", Value::Float(speed)),
    ];
    let second = first + seq![("X_TRIGGER", Value::Bool(true)), ("Y_TRIGGER", Value::Bool(true))];
    assert(move_conditions(x, y, speed) =~= first);
    assert(trigger_conditions(x, y, speed) =~= second);
    let f1 = move_frame(x, y, speed);
    assert forall|p: int|
        0 <= p < 8 && (forall|j: int| 0 <= j < first.len() ==> !(command_slot(#[trigger] first[j].0@)
            == Some(p as usize) && first[j].1 is Bool)) implies !frame_flag(f1, p) by {
        assert(frame_flag(f1, p) == flags_with(set![7int])[p]);
        if p == 7 {
            assert(command_slot(first[2].0@) == Some(7usize));
            assert(first[2].1 is Bool);
        } else {
            assert(!set![7int].contains(p));
        }
    }
    assert forall|j: int| 0 <= j < first.len() implies match (command_slot(#[trigger] first[j].0@), first[j].1) {
        (Some(s), Value::Bool(b)) => frame_flag(f1, s as int) == b,
        (Some(s), Value::Float(w)) => frame_float(f1, s as int) == w,
        _ => false,
    } by {
        assert(0 <= j < 4);
        if j == 0 {
            assert(first[0] == first[j]);
        }
        if j == 1 {
            assert(first[1] == first[j]);
        }
        if j == 2 {
            assert(first[2] == first[j]);
        }
        if j == 3 {
            assert(first[3] == first[j]);
        }
    }
    assert forall|q: int|
        0 <= q < 3 && (forall|j: int| 0 <= j < first.len() ==> !(command_slot(#[trigger] first[j].0@)
            == Some(q as usize) && first[j].1 is Float)) implies frame_float(f1, q) == 0 by {
        assert(command_slot(first[0].0@) == command_slot(first[0].0@));
        assert(command_slot(first[1].0@) == command_slot(first[1].0@));
        assert(command_slot(first[2].0@) == command_slot(first[2].0@));
        assert(command_slot(first[3].0@) == command_slot(first[3].0@));
    }
    assert(frame_sets(f1, first));
    let f2 = trigger_frame(x, y, speed);
    assert forall|p: int|
        0 <= p < 8 && (forall|j: int| 0 <= j < second.len() ==> !(command_slot(#[trigger] second[j].0@)
            == Some(p as usize) && second[j].1 is Bool)) implies !frame_flag(f2, p) by {
        assert(frame_flag(f2, p) == flags_with(set![7int, 4int, 3int])[p]);
        if p == 7 {
            assert(command_slot(second[2].0@) == Some(7usize));
        } else if p == 4 {
            assert(command_slot(second[4].0@) == Some(4usize));
        } else if p == 3 {
            assert(command_slot(second[5].0@) == Some(3usize));
        } else {
            assert(!set![7int, 4int, 3int].contains(p));
        }
    }
    assert forall|j: int| 0 <= j < second.len() implies match (command_slot(#[trigger] second[j].0@), second[j].1) {
        (Some(s), Value::Bool(b)) => frame_flag(f2, s as int) == b,
        (Some(s), Value::Float(w)) => frame_float(f2, s as int) == w,
        _ => false,
    } by {
        assert(0 <= j < 6);
        let fs = flags_with(set![7int, 4int, 3int]);
        assert(frame_flag(f2, 7) == fs[7] && frame_flag(f2, 4) == fs[4] && frame_flag(f2, 3) == fs[3]);
        assert(frame_float(f2, 0) == x && frame_float(f2, 1) == y && frame_float(f2, 2) == speed);
        assert(second[4] == ("X_TRIGGER", Value::Bool(true)) && second[5] == ("Y_TRIGGER", Value::Bool(true)));
        if j == 0 {
            assert(second[0] == second[j]);
        }
        if j == 1 {
            assert(second[1] == second[j]);
        }
        if j == 2 {
            assert(second[2] == second[j]);
        }
        if j == 3 {
            assert(second[3] == second[j]);
        }
        if j == 4 {
            assert(second[4] == second[j]);
        }
        if j == 5 {
            assert(second[5] == second[j]);
        }
    }
    assert forall|q: int|
        0 <= q < 3 && (forall|j: int| 0 <= j < second.len() ==> !(command_slot(#[trigger] second[j].0@)
            == Some(q as usize) && second[j].1 is Float)) implies frame_float(f2, q) == 0 by {
        assert(command_slot(second[0].0@) == command_slot(second[0].0@));
        assert(command_slot(second[1].0@) == command_slot(second[1].0@));
        assert(command_slot(second[2].0@) == command_slot(second[2].0@));
        assert(command_slot(second[3].0@) == command_slot(second[3].0@));
        assert(command_slot(second[4].0@) == command_slot(second[4].0@));
        assert(command_slot(second[5].0@) == command_slot(second[5].0@));
    }
    assert(frame_sets(f2, second));
    let fl = frame(if on { flags_with(set![7int]) } else { flags_with(Set::empty()) }, Seq::empty(), zeros);
    let sl = seq![("LIGHT", Value::Bool(on))];
    assert forall|p: int|
        0 <= p < 8 && (forall|j: int| 0 <= j < sl.len() ==> !(command_slot(#[trigger] sl[j].0@)
            == Some(p as usize) && sl[j].1 is Bool)) implies !frame_flag(fl, p) by {
        if on {
            assert(frame_flag(fl, p) == flags_with(set![7int])[p]);
        } else {
            assert(frame_flag(fl, p) == flags_with(Set::<int>::empty())[p]);
        }
        if p == 7 {
            assert(command_slot(sl[0].0@) == Some(7usize));
        }
    }
    assert forall|q: int|
        0 <= q < 3 && (forall|j: int| 0 <= j < sl.len() ==> !(command_slot(#[trigger] sl[j].0@)
            == Some(q as usize) && sl[j].1 is Float)) implies frame_float(fl, q) == 0 by {}
    assert forall|j: int| 0 <= j < sl.len() implies match (command_slot(#[trigger] sl[j].0@), sl[j].1) {
        (Some(s), Value::Bool(b)) => frame_flag(fl, s as int) == b,
        (Some(s), Value::Float(w)) => frame_float(fl, s as int) == w,
        _ => false,
    } by {
        assert(j == 0);
        if on {
            assert(frame_flag(fl, 7) == flags_with(set![7int])[7]);
        } else {
            assert(frame_flag(fl, 7) == flags_with(Set::<int>::empty())[7]);
        }
    }
    assert(frame_sets(fl, sl));
    let fr = frame(flags_with(set![6int, 5int]), Seq::empty(), zeros);
    let sr = seq![("X_REST_STATE", Value::Bool(true)), ("Y_REST_STATE", Value::Bool(true))];
    assert forall|p: int|
        0 <= p < 8 && (forall|j: int| 0 <= j < sr.len() ==> !(command_slot(#[trigger] sr[j].0@)
            == Some(p as usize) && sr[j].1 is Bool)) implies !frame_flag(fr, p) by {
        assert(frame_flag(fr, p) == flags_with(set![6int, 5int])[p]);
        if p == 6 {
            assert(command_slot(sr[0].0@) == Some(6usize));
        } else if p == 5 {
            assert(command_slot(sr[1].0@) == Some(5usize));
        } else {
            assert(!set![6int, 5int].contains(p));
        }
    }
    assert forall|q: int|
        0 <= q < 3 && (forall|j: int| 0 <= j < sr.len() ==> !(command_slot(#[trigger] sr[j].0@)
            == Some(q as usize) && sr[j].1 is Float)) implies frame_float(fr, q) == 0 by {}
    assert forall|j: int| 0 <= j < sr.len() implies match (command_slot(#[trigger] sr[j].0@), sr[j].1) {
        (Some(s), Value::Bool(b)) => frame_flag(fr, s as int) == b,
        (Some(s), Value::Float(w)) => frame_float(fr, s as int) == w,
        _ => false,
    } by {
        assert(frame_flag(fr, 6) == flags_with(set![6int, 5int])[6]);
        assert(frame_flag(fr, 5) == flags_with(set![6int, 5int])[5]);
        if j == 0 {
            assert(sr[0] == sr[j]);
        } else {
            assert(sr[1] == sr[j]);
        }
    }
    assert(frame_sets(fr, sr));
}

/// A task: its motions, where it stands, how far it has got, the reader of
/// the controller's state, the receiver of its images and failures, and how
/// many images it has stored.
pub struct Task<T> {
    pub actions: Vec<MotionType>,
    pub status: Status,
    pub current_step: usize,
    pub reader: Reader,
    pub image_receiver: T,
    pub current_image: usize,
}

impl<T: AddImage> Task<T> {
    /// A pending task with no motions, whose reader lays out the fields of
    /// `reader_keys` (see `Reader::new`).
    pub fn new(can_add_image: T, reader_keys: Vec<(&'static str, ValueType)>) -> (task: Task<T>)
        requires
            total_bits(reader_keys@) <= usize::MAX,
        ensures
            task.actions@ == Seq::<MotionType>::empty(),
            task.status == Status::Pending,
            task.current_step == 0,
            task.current_image == 0,
            task.image_receiver == can_add_image,
            key_texts(task.reader.keys@) == Seq::new(
                reader_keys@.len(),
                |i: int| entry_key(reader_keys@, i),
            ),
            task.reader.indexes@ == layout(reader_keys@),
            task.reader.bools@ == Seq::<bool>::empty(),
            task.reader.ints@ == Seq::<u8>::empty(),
            task.reader.floats@ == Seq::<u32>::empty(),
    {
        Task {
            actions: Vec::new(),
            status: Status::Pending,
            current_step: 0,
            reader: Reader::new(reader_keys),
            image_receiver: can_add_image,
            current_image: 0,
        }
    }

    /// Starts a task that is pending and has not run a step: it becomes
    /// working. Any other task is refused with `Err("Task is not pending")`
    /// and left as it was.
    pub fn start(&mut self) -> (r: Result<(), &'static str>)
        ensures
            if old(self).status == Status::Pending && old(self).current_step == 0 {
                &&& r == Ok::<(), &'static str>(())
                &&& final(self).status == Status::Working
            } else {
                &&& r == Err::<(), &'static str>("Task is not pending")
                &&& final(self).status == old(self).status
            },
            final(self).actions@ == old(self).actions@,
            final(self).current_step == old(self).current_step,
            final(self).current_image == old(self).current_image,
            final(self).reader == old(self).reader,
            final(self).image_receiver == old(self).image_receiver,
    {
        if self.status == Status::Pending && self.current_step == 0 {
            self.status = Status::Working;
            Ok(())
        } else {
            Err("Task is not pending")
        }
    }

    /// Plans the next step: a failed task is refused with
    /// `Err("Task Failed")`, a finished one with `Err("Task is Done")`; any
    /// other gets the effects of its current motion.
    pub fn plan_step(&self) -> (r: Result<Vec<Effect>, &'static str>)
        requires
            self.status != Status::Fail && self.status != Status::Done ==> self.current_step
                < self.actions@.len(),
        ensures
            match self.status {
                Status::Fail => r == Err::<Vec<Effect>, &'static str>("Task Failed"),
                Status::Done => r == Err::<Vec<Effect>, &'static str>("Task is Done"),
                _ => r matches Ok(effects) && effect_views(effects@) == motion_effects(
                    self.actions@[self.current_step as int],
                ),
            },
    {
        if self.status == Status::Fail {
            return Err("Task Failed");
        }
        if self.status == Status::Done {
            return Err("Task is Done");
        }
        let effects = match &self.actions[self.current_step] {
            MotionType::MoveTo(x, y, speed) => move_to(*x, *y, *speed),
            MotionType::GoOnIf(conditions) => {
                let v = vec![Effect::Await(copy_conditions(conditions))];
                assert(effect_views(v@) =~= motion_effects(self.actions@[self.current_step as int]));
                v
            },
            MotionType::InitCamera => {
                let v = vec![Effect::StartCamera, Effect::Pause(10000)];
                assert(effect_views(v@) =~= motion_effects(self.actions@[self.current_step as int]));
                v
            },
            MotionType::StopCamera => {
                let v = vec![Effect::StopCamera];
                assert(effect_views(v@) =~= motion_effects(self.actions@[self.current_step as int]));
                v
            },
            MotionType::Capture => {
                let v = vec![Effect::Capture];
                assert(effect_views(v@) =~= motion_effects(self.actions@[self.current_step as int]));
                v
            },
            MotionType::Stop => {
                let v: Vec<Effect> = Vec::new();
                assert(effect_views(v@) =~= motion_effects(self.actions@[self.current_step as int]));
                v
            },
            MotionType::Reset => reset(),
            MotionType::Light(on) => light(*on),
        };
        Ok(effects)
    }

    /// Loads the controller's state `states` into the reader and tells
    /// whether every condition holds in it. `None` where a state frame of
    /// that length does not hold every field of the reader (the reader is
    /// then left as it was), or where some condition cannot be checked
    /// against the decoded state.
    pub fn conditions_hold(
        &mut self,
        states: &mut Vec<u8>,
        conditions: &Vec<(&'static str, Value)>,
    ) -> (r: Option<bool>)
        ensures
            final(states)@ == old(states)@,
            final(self).actions@ == old(self).actions@,
            final(self).status == old(self).status,
            final(self).current_step == old(self).current_step,
            final(self).current_image == old(self).current_image,
            final(self).image_receiver == old(self).image_receiver,
            final(self).reader.keys@ == old(self).reader.keys@,
            final(self).reader.indexes@ == old(self).reader.indexes@,
            !old(self).reader.readable(old(states)@.len()) ==> {
                &&& r is None
                &&& final(self).reader == old(self).reader
            },
            old(self).reader.readable(old(states)@.len()) ==> {
                &&& (final(self).reader.bools@, final(self).reader.ints@, final(self).reader.floats@)
                    == decoded(key_texts(old(self).reader.keys@), old(self).reader.indexes@, msb_bits(old(states)@))
                &&& r == if all_checkable(final(self).reader, conditions@) {
                    Some(all_hold(final(self).reader, conditions@))
                } else {
                    None::<bool>
                }
            },
            r == Some(true) ==> forall|i: int|
                0 <= i < conditions@.len() ==> final(self).reader.holds(#[trigger] conditions@[i].0@, conditions@[i].1),
            r == Some(false) ==> exists|i: int|
                0 <= i < conditions@.len() && !final(self).reader.holds(#[trigger] conditions@[i].0@, conditions@[i].1),
    {
        if !self.reader.can_load(states.len()) {
            return None;
        }
        self.reader.load(states);
        let mut result = true;
        let mut i: usize = 0;
        #[verifier::loop_isolation(false)]
        while i < conditions.len()
            invariant
                i <= conditions@.len(),
                forall|t: int| 0 <= t < i ==> self.reader.checkable(#[trigger] conditions@[t].0@, conditions@[t].1),
                result == forall|t: int| 0 <= t < i ==> self.reader.holds(#[trigger] conditions@[t].0@, conditions@[t].1),
            decreases conditions@.len() - i,
        {
            let (key, value) = conditions[i];
            if !self.reader.can_check(key, value) {
                return None;
            }
            let holds = self.reader.check(key, value);
            result = result && holds;
            i += 1;
        }
        Some(result)
    }

    /// The controller did not confirm a state in time: the task fails, and
    /// the reason to hand to the receiver's `change_status` is
    /// "Arguments confirmation timeout".
    pub fn confirmation_timed_out(&mut self) -> (reason: String)
        ensures
            reason@ == "Arguments confirmation timeout"@,
            final(self).status == Status::Fail,
            final(self).actions@ == old(self).actions@,
            final(self).current_step == old(self).current_step,
            final(self).current_image == old(self).current_image,
            final(self).reader == old(self).reader,
            final(self).image_receiver == old(self).image_receiver,
    {
        self.status = Status::Fail;
        "Arguments confirmation timeout".to_owned()
    }

    /// The camera could not be started: the task fails, and the reason to
    /// hand to the receiver's `change_status` is "Cannot start camera".
    pub fn camera_failed(&mut self) -> (reason: String)
        ensures
            reason@ == "Cannot start camera"@,
            final(self).status == Status::Fail,
            final(self).actions@ == old(self).actions@,
            final(self).current_step == old(self).current_step,
            final(self).current_image == old(self).current_image,
            final(self).reader == old(self).reader,
            final(self).image_receiver == old(self).image_receiver,
    {
        self.status = Status::Fail;
        "Cannot start camera".to_owned()
    }

    /// The camera could not be reached: the task fails, and the reason to
    /// hand to the receiver's `change_status` is "Cannot connect to camera".
    pub fn capture_failed(&mut self) -> (reason: String)
        ensures
            reason@ == "Cannot connect to camera"@,
            final(self).status == Status::Fail,
            final(self).actions@ == old(self).actions@,
            final(self).current_step == old(self).current_step,
            final(self).current_image == old(self).current_image,
            final(self).reader == old(self).reader,
            final(self).image_receiver == old(self).image_receiver,
    {
        self.status = Status::Fail;
        "Cannot connect to camera".to_owned()
    }

    /// An effect of the current step failed (only sending a frame, starting
    /// the camera and capturing can fail). A failed send ends the step with
    /// `Err("Cannot send data")`, unfinished and with the task unchanged; a
    /// camera that cannot be started fails the task and skips the rest of the
    /// step; a camera that cannot be reached fails the task, and the step
    /// goes on. In every case the step stays where it is until
    /// `finish_step`.
    pub fn effect_failed(&mut self, effect: &Effect) -> (setback: Setback)
        requires
            effect is Send || effect is StartCamera || effect is Capture,
        ensures
            final(self).actions@ == old(self).actions@,
            final(self).current_step == old(self).current_step,
            final(self).current_image == old(self).current_image,
            final(self).reader == old(self).reader,
            final(self).image_receiver == old(self).image_receiver,
            match effect {
                Effect::Send(_) => {
                    &&& setback matches Setback::Abort(e) && e == "Cannot send data"
                    &&& final(self).status == old(self).status
                },
                Effect::StartCamera => {
                    &&& setback matches Setback::Failed { reason, skip_rest }
                        && reason@ == "Cannot start camera"@ && skip_rest
                    &&& final(self).status == Status::Fail
                },
                _ => {
                    &&& setback matches Setback::Failed { reason, skip_rest }
                        && reason@ == "Cannot connect to camera"@ && !skip_rest
                    &&& final(self).status == Status::Fail
                },
            },
    {
        match effect {
            Effect::Send(_) => Setback::Abort("Cannot send data"),
            Effect::StartCamera => Setback::Failed { reason: self.camera_failed(), skip_rest: true },
            _ => Setback::Failed { reason: self.capture_failed(), skip_rest: false },
        }
    }

    /// Counts a captured image and gives it back with the name it is to be
    /// handed to the receiver's `add_image` under:
    /// `<number of images stored before it>.png`, so images are named
    /// `0.png`, `1.png`, ... in order.
    pub fn store_image(&mut self, image: Vec<u8>) -> (named: (Vec<u8>, String))
        requires
            old(self).current_image < usize::MAX,
        ensures
            named.0@ == image@,
            named.1@ == decimal(old(self).current_image as nat) + ".png"@,
            final(self).current_image == old(self).current_image + 1,
            final(self).status == old(self).status,
            final(self).actions@ == old(self).actions@,
            final(self).current_step == old(self).current_step,
            final(self).reader == old(self).reader,
            final(self).image_receiver == old(self).image_receiver,
    {
        let name = image_file_name(self.current_image);
        self.current_image += 1;
        (image, name)
    }

    /// One poll while waiting for the controller to confirm `conditions`,
    /// `elapsed_secs` seconds after the wait began. `snapshot` is the
    /// controller's latest state, or `None` where it could not be had.
    /// The snapshot, if any, is checked first (see `conditions_hold`); then,
    /// past ten seconds, the task fails whatever the check found
    /// (`TimedOut` with the reason for the receiver); otherwise the wait is
    /// over when the conditions hold (`Confirmed`) and goes on when they do
    /// not (`Waiting`). `None` where the snapshot cannot be checked.
    pub fn poll_confirmation(
        &mut self,
        snapshot: Option<Vec<u8>>,
        conditions: &Vec<(&'static str, Value)>,
        elapsed_secs: u64,
    ) -> (r: Option<Poll>)
        ensures
            final(self).actions@ == old(self).actions@,
            final(self).current_step == old(self).current_step,
            final(self).current_image == old(self).current_image,
            final(self).image_receiver == old(self).image_receiver,
            final(self).reader.keys@ == old(self).reader.keys@,
            final(self).reader.indexes@ == old(self).reader.indexes@,
            match snapshot {
                Some(states) => old(self).reader.readable(states@.len()) ==> (
                    final(self).reader.bools@,
                    final(self).reader.ints@,
                    final(self).reader.floats@,
                ) == decoded(key_texts(old(self).reader.keys@), old(self).reader.indexes@, msb_bits(states@)),
                None => final(self).reader == old(self).reader,
            },
            match checked(old(self).reader, final(self).reader, snapshot, conditions@) {
                None => r is None && final(self).status == old(self).status,
                Some(held) => if elapsed_secs > 10 {
                    &&& r matches Some(Poll::TimedOut(reason))
                    &&& reason@ == "Arguments confirmation timeout"@
                    &&& final(self).status == Status::Fail
                } else {
                    &&& final(self).status == old(self).status
                    &&& if held { r matches Some(Poll::Confirmed) } else { r matches Some(Poll::Waiting) }
                },
            },
            r matches Some(Poll::Confirmed) ==> snapshot is Some && elapsed_secs <= 10 && forall|i: int|
                0 <= i < conditions@.len() ==> final(self).reader.holds(#[trigger] conditions@[i].0@, conditions@[i].1),
            r matches Some(Poll::Waiting) ==> elapsed_secs <= 10 && (snapshot is None || exists|i: int|
                0 <= i < conditions@.len() && !final(self).reader.holds(#[trigger] conditions@[i].0@, conditions@[i].1)),
    {
        let held = match snapshot {
            Some(states) => {
                let mut states = states;
                match self.conditions_hold(&mut states, conditions) {
                    Some(h) => h,
                    None => {
                        return None;
                    },
                }
            },
            None => false,
        };
        if elapsed_secs > 10 {
            let reason = self.confirmation_timed_out();
            Some(Poll::TimedOut(reason))
        } else if held {
            Some(Poll::Confirmed)
        } else {
            Some(Poll::Waiting)
        }
    }

    /// Ends the current step: the task moves to the next motion, and is done
    /// when none is left. Tells whether it is done, that is, whether the
    /// connection to the controller is to be shut down.
    pub fn finish_step(&mut self) -> (done: bool)
        requires
            old(self).current_step < usize::MAX,
        ensures
            final(self).current_step == old(self).current_step + 1,
            done == (final(self).current_step == old(self).actions@.len()),
            final(self).status == if done { Status::Done } else { old(self).status },
            final(self).actions@ == old(self).actions@,
            final(self).current_image == old(self).current_image,
            final(self).reader == old(self).reader,
            final(self).image_receiver == old(self).image_receiver,
    {
        self.current_step += 1;
        if self.current_step == self.actions.len() {
            self.status = Status::Done;
            true
        } else {
            false
        }
    }

    /// The frame that sets all eight flags and all three floats at once.
    pub fn invoke(&self, bools: Vec<bool>, floats: Vec<u32>) -> (bytes: Vec<u8>)
        requires
            bools@.len() == 8,
            floats@.len() == 3,
        ensures
            bytes@ == frame(bools@, Seq::empty(), floats@),
    {
        let mut msg = Msg::new();
        msg.load(bools, floats);
        msg.to_bytes()
    }

    /// Appends a motion.
    pub fn add(&mut self, motion_type: MotionType)
        ensures
            final(self).actions@ == old(self).actions@.push(motion_type),
            final(self).status == old(self).status,
            final(self).current_step == old(self).current_step,
            final(self).current_image == old(self).current_image,
            final(self).reader == old(self).reader,
            final(self).image_receiver == old(self).image_receiver,
    {
        self.actions.push(motion_type)
    }
}

} // verus!
