use eva_motion_control::bits::{pack_bits, unpack_bits};
use eva_motion_control::task::message::{Msg, Value};
use eva_motion_control::task::reader::{Reader, ValueType};

#[test]
fn fresh_message_frame() {
    let msg = Msg::new();
    assert_eq!(msg.bools, vec![false; 8]);
    assert_eq!(msg.floats, vec![0u32; 3]);
    assert!(msg.ints.is_empty());
    assert!(msg.conditions.is_empty());
    assert_eq!(msg.to_bytes(), vec![0u8; 13]);
}

#[test]
fn command_keys_name_their_registers() {
    let msg = Msg::new();
    assert_eq!(msg.index("LIGHT"), Ok(7));
    assert_eq!(msg.index("X_REST_STATE"), Ok(6));
    assert_eq!(msg.index("Y_REST_STATE"), Ok(5));
    assert_eq!(msg.index("X_TRIGGER"), Ok(4));
    assert_eq!(msg.index("Y_TRIGGER"), Ok(3));
    assert_eq!(msg.index("X_POSITION"), Ok(0));
    assert_eq!(msg.index("Y_POSITION"), Ok(1));
    assert_eq!(msg.index("SPEED"), Ok(2));
    assert_eq!(msg.index("X_SPEED"), Err("Found nothing"));
}

#[test]
fn set_writes_register_and_records_condition() {
    let mut msg = Msg::new();
    assert_eq!(msg.set("LIGHT", Value::Bool(true)), Ok(()));
    assert_eq!(msg.set("X_POSITION", Value::Float(15.0f32.to_bits())), Ok(()));
    assert_eq!(msg.bools, vec![false, false, false, false, false, false, false, true]);
    assert_eq!(msg.floats, vec![15.0f32.to_bits(), 0, 0]);
    assert_eq!(
        msg.conditions,
        vec![("LIGHT", Value::Bool(true)), ("X_POSITION", Value::Float(15.0f32.to_bits()))]
    );
    // flags byte, then x = 15.0 big-endian, then two zero floats
    assert_eq!(msg.to_bytes(), vec![1, 0x41, 0x70, 0, 0, 0, 0, 0, 0, 0, 0, 0, 0]);
}

#[test]
fn set_with_unknown_key_changes_nothing() {
    let mut msg = Msg::new();
    assert_eq!(msg.set("X_FINISHED", Value::Bool(true)), Err("Found nothing"));
    assert_eq!(msg.bools, vec![false; 8]);
    assert!(msg.conditions.is_empty());
}

#[test]
fn first_flag_is_the_most_significant_bit() {
    let mut msg = Msg::new();
    msg.load(vec![true, false, false, false, false, true, true, false], vec![1.0f32.to_bits(), 0, 0]);
    assert_eq!(msg.to_bytes()[0], 0b1000_0110);
    assert_eq!(&msg.to_bytes()[1..5], &[0x3F, 0x80, 0, 0]);
}

#[test]
fn fewer_flags_fill_the_low_bits() {
    let mut msg = Msg::new();
    msg.load(vec![true, false, true], vec![]);
    assert_eq!(msg.to_bytes(), vec![0b101]);
}

#[test]
fn reader_with_command_layout_decodes_the_frame() {
    let keys = vec![
        ("_", ValueType::Bool),
        ("_", ValueType::Bool),
        ("_", ValueType::Bool),
        ("Y_TRIGGER", ValueType::Bool),
        ("X_TRIGGER", ValueType::Bool),
        ("Y_REST_STATE", ValueType::Bool),
        ("X_REST_STATE", ValueType::Bool),
        ("LIGHT", ValueType::Bool),
        ("X_POSITION", ValueType::Float),
        ("Y_POSITION", ValueType::Float),
        ("SPEED", ValueType::Float),
    ];
    let mut reader = Reader::new(keys);
    let mut msg = Msg::new();
    msg.set("X_POSITION", Value::Float(15.0f32.to_bits())).unwrap();
    msg.set("Y_POSITION", Value::Float(13.0f32.to_bits())).unwrap();
    msg.set("SPEED", Value::Float(20.0f32.to_bits())).unwrap();
    msg.set("LIGHT", Value::Bool(true)).unwrap();
    msg.set("X_TRIGGER", Value::Bool(true)).unwrap();
    let mut frame = msg.to_bytes();
    reader.load(&mut frame);
    assert_eq!(reader.bools, msg.bools);
    assert_eq!(reader.floats, msg.floats);
    for (key, value) in msg.conditions.clone() {
        assert!(reader.check(key, value));
    }
    assert!(reader.check("Y_TRIGGER", Value::Bool(false)));
}

#[test]
fn pack_and_unpack_undo_each_other() {
    let data = vec![0u8, 1, 0x80, 0xA5, 0xFF];
    let bits = unpack_bits(&data);
    assert_eq!(bits.len(), 40);
    assert_eq!(&bits[16..24], &[true, false, false, false, false, false, false, false]);
    assert_eq!(pack_bits(&bits), data);
}

#[test]
fn pack_reads_a_short_last_chunk_as_its_own_number() {
    let bits = vec![true, true, true, true, true, true, true, true, true, false, true];
    assert_eq!(pack_bits(&bits), vec![0xFF, 0b101]);
}
