use eva_motion_control::task::db::DB;

#[test]
fn write_keys_name_their_registers() {
    assert_eq!(DB::find_write_table_index_by_key("X_REST_STATE"), Ok(0));
    assert_eq!(DB::find_write_table_index_by_key("Y_REST_STATE"), Ok(1));
    assert_eq!(DB::find_write_table_index_by_key("X_TRIGGER"), Ok(2));
    assert_eq!(DB::find_write_table_index_by_key("Y_TRIGGER"), Ok(3));
    assert_eq!(DB::find_write_table_index_by_key("LIGHT"), Ok(4));
    assert_eq!(DB::find_write_table_index_by_key("X_POSITION"), Ok(0));
    assert_eq!(DB::find_write_table_index_by_key("Y_POSITION"), Ok(1));
    assert_eq!(DB::find_write_table_index_by_key("SPEED"), Ok(2));
    assert_eq!(DB::find_write_table_index_by_key("X_SPEED"), Err("Cannot find key"));
}

#[test]
fn state_frame_fills_the_read_table() {
    let mut db = DB::new();
    let mut data = vec![0u8; 500];
    data[0] = 3;
    data[99] = 4;
    data[100] = 0x3F;
    data[101] = 0x80;
    data[499] = 1;
    db.write_local(&data);
    assert_eq!(db.read_table.get_u8(0), 3);
    assert_eq!(db.read_table.get_u8(99), 4);
    assert_eq!(f32::from_bits(db.read_table.get_f32(0)), 1.0);
    assert_eq!(db.read_table.get_f32(99), 1);
}

#[test]
fn prepared_data_is_the_write_table() {
    let db = DB::new();
    let bytes = db.prepared_data();
    assert_eq!(bytes.len(), 500);
    assert!(bytes.iter().all(|b| *b == 0));
}
