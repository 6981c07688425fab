use eva_motion_control::task::message::Value;
use eva_motion_control::task::reader::{Reader, ValueType, same_float};

#[test]
fn test_index() {
    let keys = vec![
        ("_",              ValueType::Bool),
        ("SHOULD_BE_B1",   ValueType::Bool),
        ("SHOULD_BE_B2",   ValueType::Bool),
        ("SHOULD_BE_F0",   ValueType::Float),
        ("SHOULD_BE_I0",   ValueType::Int),
        ("_",              ValueType::Bool),
        ("SHOULD_BE_B4",   ValueType::Bool),
    ];

    let reader = Reader::new(keys);

    assert_eq!(reader.index("SHOULD_BE_B1").unwrap(), 1);
    assert_eq!(reader.index("SHOULD_BE_B2").unwrap(), 2);
    assert_eq!(reader.index("SHOULD_BE_F0").unwrap(), 0);
    assert_eq!(reader.index("SHOULD_BE_I0").unwrap(), 0);
    assert_eq!(reader.index("SHOULD_BE_B4").unwrap(), 4);
}

#[test]
fn test_load() {
    let keys = vec![
        ("_",              ValueType::Bool),
        ("_",              ValueType::Bool),
        ("_",              ValueType::Bool),
        ("_",              ValueType::Bool),
        ("D",              ValueType::Bool),
        ("C",              ValueType::Bool),
        ("B",              ValueType::Bool),
        ("A",              ValueType::Bool),
        ("FLOAT",          ValueType::Float),
        ("INT",            ValueType::Int)
    ];

    let mut reader = Reader::new(keys);

    let mut data = vec![2u8];
    let mut float_bytes = (0.15625_f32).to_bits().to_be_bytes().to_vec();
    data.append(&mut float_bytes);
    let mut int_bytes = (214u8).to_be_bytes().to_vec();
    data.append(&mut int_bytes);

    reader.load(&mut data);
    assert_eq!(reader.check("A",        Value::Bool(false)), true);
    assert_eq!(reader.check("B",        Value::Bool(true)), true);
    assert_eq!(reader.check("C",        Value::Bool(false)), true);
    assert_eq!(reader.check("FLOAT",    Value::Float(0.15625f32.to_bits())), true);
    assert_eq!(reader.check("INT",      Value::Int(214)), true);
}

#[test]
fn placeholder_fields_are_named_by_bit_offset() {
    let keys = vec![
        ("_", ValueType::Bool),
        ("F", ValueType::Float),
        ("I", ValueType::Int),
        ("_", ValueType::Bool),
    ];
    let reader = Reader::new(keys);
    let names: Vec<&str> = reader.keys.iter().map(|k| k.as_str()).collect();
    assert_eq!(names, vec!["KEY_0", "F", "I", "KEY_41"]);
    assert_eq!(reader.index("KEY_0").unwrap(), 0);
    assert_eq!(reader.index("KEY_41").unwrap(), 1);
    assert_eq!(reader.indexes.get("I").copied(), Some((33, 0, ValueType::Int)));
}

#[test]
fn unknown_key_is_not_found() {
    let reader = Reader::new(vec![("A", ValueType::Bool)]);
    assert_eq!(reader.index("B"), Err("Found nothing"));
    assert_eq!(reader.check("B", Value::Bool(true)), false);
}

#[test]
fn a_repeated_name_stands_for_its_last_field() {
    let keys = vec![
        ("X", ValueType::Bool),
        ("Y", ValueType::Bool),
        ("X", ValueType::Bool),
    ];
    let mut reader = Reader::new(keys);
    assert_eq!(reader.index("X").unwrap(), 2);
    let mut data = vec![0b1000_0000u8];
    reader.load(&mut data);
    assert_eq!(reader.bools, vec![false, false, false]);
    assert!(reader.check("X", Value::Bool(false)));
    let mut data = vec![0b0010_0000u8];
    reader.load(&mut data);
    assert_eq!(reader.bools, vec![true, false, true]);
    assert_eq!(data, vec![0b0010_0000u8]);
}

#[test]
fn load_reads_bytes_and_floats_most_significant_bit_first() {
    let keys = vec![
        ("FLAG", ValueType::Bool),
        ("BYTE", ValueType::Int),
        ("WORD", ValueType::Float),
    ];
    let mut reader = Reader::new(keys);
    // bits: 1 | 1010 0101 | 0100 0001 0010 0000 0000 0000 0000 0000 | pad
    let word = 10.0f32.to_bits();
    let mut bits = vec![true];
    for k in (0..8).rev() {
        bits.push((0xA5u8 >> k) & 1 == 1);
    }
    for k in (0..32).rev() {
        bits.push((word >> k) & 1 == 1);
    }
    while bits.len() % 8 != 0 {
        bits.push(false);
    }
    let mut data = eva_motion_control::bits::pack_bits(&bits);
    reader.load(&mut data);
    assert_eq!(reader.bools, vec![true]);
    assert_eq!(reader.ints, vec![0xA5]);
    assert_eq!(reader.floats, vec![word]);
    assert!(reader.check("WORD", Value::Float(10.0f32.to_bits())));
    assert!(!reader.check("WORD", Value::Float(10.5f32.to_bits())));
}

#[test]
fn can_load_and_can_check_tell_what_load_and_check_need() {
    let mut reader = Reader::new(vec![("A", ValueType::Bool), ("W", ValueType::Float)]);
    assert!(!reader.can_load(4));
    assert!(reader.can_load(5));
    assert!(!reader.can_check("A", Value::Bool(true)));
    assert!(reader.can_check("Z", Value::Bool(true)));
    let mut data = vec![0u8; 5];
    reader.load(&mut data);
    assert!(reader.can_check("A", Value::Bool(true)));
    assert!(reader.can_check("W", Value::Float(0)));
    assert!(!reader.can_check("W", Value::Int(0)));
}

#[test]
fn floats_compare_as_numbers() {
    let nan = f32::NAN.to_bits();
    assert!(!same_float(nan, nan));
    assert!(same_float(0.0f32.to_bits(), (-0.0f32).to_bits()));
    assert!(same_float(1.25f32.to_bits(), 1.25f32.to_bits()));
    assert!(!same_float(1.25f32.to_bits(), 1.5f32.to_bits()));
}
