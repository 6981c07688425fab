use eva_motion_control::task::db::table::{Table, __SetAndGet};

#[test]
fn test_to_bytes() {
    let table = Table::new(10, 1);
    assert_eq!(table.to_bytes().len(), 14usize);
    assert_eq!(table.to_bytes()[10], 0u8);
    assert_eq!(table.to_bytes()[11], 0u8);
    assert_eq!(table.to_bytes()[12], 0u8);
    assert_eq!(table.to_bytes()[13], 0u8);
}

#[test]
fn from_bytes() {
    let mut table = Table::new(1, 1);
    let data = vec![0b0001u8, 0b10111110u8, 0b00100000u8, 0b00000000u8, 0b00000000u8];
    table.from_bytes(&data);
    assert_eq!(f32::from_bits(table.f32_range[0]), -0.15625);
}

#[test]
fn set_and_get() {
    let mut table = Table::new(1, 1);
    table.set(0, 25u8);
    table.set(0, 3.5f32.to_bits());
    assert_eq!(table.get_u8(0), 25);
    assert_eq!(f32::from_bits(table.get_f32(0)), 3.5f32);
}

#[test]
fn to_bytes_writes_floats_big_endian_after_the_bytes() {
    let mut table = Table::new(2, 2);
    table.set(0, 7u8);
    table.set(1, 9u8);
    table.set(0, 0x0102_0304u32);
    table.set(1, (-0.15625f32).to_bits());
    assert_eq!(table.to_bytes(), vec![7, 9, 1, 2, 3, 4, 0xBE, 0x20, 0, 0]);
}

#[test]
fn table_round_trips_through_bytes() {
    let mut source = Table::new(3, 2);
    source.set(0, 1u8);
    source.set(2, 200u8);
    source.set(0, 1.5f32.to_bits());
    source.set(1, (-42.25f32).to_bits());
    let bytes = source.to_bytes();
    let mut target = Table::new(3, 2);
    target.from_bytes(&bytes);
    assert_eq!(target.u8_range, source.u8_range);
    assert_eq!(target.f32_range, source.f32_range);
}

#[test]
fn from_bytes_ignores_trailing_bytes() {
    let mut table = Table::new(1, 0);
    table.from_bytes(&[5, 6, 7]);
    assert_eq!(table.u8_range, vec![5]);
    assert!(table.f32_range.is_empty());
}
