//! The register store of the controller: a read table filled from the
//! controller's state and a write table sent to it, with the key tables that
//! name their registers.

pub mod table;

use vstd::prelude::*;
use crate::bits::{be_words, be_word_at};
use crate::task::message::same_text;
use self::table::Table;

verus! {

/// The registers of the write table, by key: flags `X_REST_STATE`,
/// `Y_REST_STATE`, `X_TRIGGER`, `Y_TRIGGER`, `LIGHT` at byte registers 0 to 4,
/// floats `X_POSITION`, `Y_POSITION`, `SPEED` at float registers 0 to 2.
pub open spec fn write_table_spec() -> Seq<(&'static str, usize)> {
    seq![
        ("X_REST_STATE", 0usize),
        ("Y_REST_STATE", 1usize),
        ("X_TRIGGER", 2usize),
        ("Y_TRIGGER", 3usize),
        ("LIGHT", 4usize),
        ("X_POSITION", 0usize),
        ("Y_POSITION", 1usize),
        ("SPEED", 2usize),
    ]
}

/// The registers of the read table, by key.
pub open spec fn read_table_spec() -> Seq<(&'static str, usize)> {
    seq![
        ("Y_REST_STATE", 0usize),
        ("X_ACTIVATION", 1usize),
        ("X_READY", 2usize),
        ("X_DIRECTION", 3usize),
        ("X_TRIGGER", 4usize),
        ("X_COMPLETED", 6usize),
        ("Y_TRIGGER", 14usize),
        ("Y_COMPLETED", 16usize),
        ("LIGHT", 20usize),
        ("X_POSITION", 10usize),
        ("X_SPEED", 15usize),
        ("Y_POSITION", 20usize),
        ("Y_SPEED", 25usize),
    ]
}

/// The register of the last entry of `table` whose key is `key`.
pub open spec fn last_match(table: Seq<(&'static str, usize)>, key: Seq<char>) -> Option<usize>
    decreases table.len(),
{
    if table.len() == 0 {
        None
    } else if table.last().0@ == key {
        Some(table.last().1)
    } else {
        last_match(table.drop_last(), key)
    }
}

fn write_table_indices() -> (table: Vec<(&'static str, usize)>)
    ensures
        table@ == write_table_spec(),
{
    let table = vec![
        ("X_REST_STATE", 0usize),
        ("Y_REST_STATE", 1usize),
        ("X_TRIGGER", 2usize),
        ("Y_TRIGGER", 3usize),
        ("LIGHT", 4usize),
        ("X_POSITION", 0usize),
        ("Y_POSITION", 1usize),
        ("SPEED", 2usize),
    ];
    assert(table@ =~= write_table_spec());
    table
}

fn read_table_indices() -> (table: Vec<(&'static str, usize)>)
    ensures
        table@ == read_table_spec(),
{
    let table = vec![
        ("Y_REST_STATE", 0usize),
        ("X_ACTIVATION", 1usize),
        ("X_READY", 2usize),
        ("X_DIRECTION", 3usize),
        ("X_TRIGGER", 4usize),
        ("X_COMPLETED", 6usize),
        ("Y_TRIGGER", 14usize),
        ("Y_COMPLETED", 16usize),
        ("LIGHT", 20usize),
        ("X_POSITION", 10usize),
        ("X_SPEED", 15usize),
        ("Y_POSITION", 20usize),
        ("Y_SPEED", 25usize),
    ];
    assert(table@ =~= read_table_spec());
    table
}

/// The register of `key`, scanning the first `count` entries of `entries`;
/// a later matching entry overrides an earlier one.
fn scan_table(entries: &Vec<(&'static str, usize)>, count: usize, key: &str) -> (r: Result<usize, &'static str>)
    requires
        count <= entries@.len(),
    ensures
        match last_match(entries@.take(count as int), key@) {
            Some(index) => r == Ok::<usize, &'static str>(index),
            None => r == Err::<usize, &'static str>("Cannot find key"),
        },
{
    let mut result: Result<usize, &'static str> = Err("Cannot find key");
    let mut i: usize = 0;
    while i < count
        invariant
            i <= count,
            count <= entries@.len(),
            match last_match(entries@.take(i as int), key@) {
                Some(index) => result == Ok::<usize, &'static str>(index),
                None => result == Err::<usize, &'static str>("Cannot find key"),
            },
        decreases count - i,
    {
        let (key_word, index) = entries[i];
        proof {
            assert(entries@.take(i + 1).drop_last() =~= entries@.take(i as int));
            assert(entries@.take(i + 1).last() == entries@[i as int]);
        }
        if same_text(key_word, key) {
            result = Ok(index);
        }
        i += 1;
    }
    result
}

/// The two register tables of the controller.
pub struct DB {
    pub read_table: Table,
    pub write_table: Table,
}

impl DB {
    /// Both tables with 100 byte registers and 100 float registers, all zero.
    pub fn new() -> (db: DB)
        ensures
            db.read_table.u8_range@ == Seq::new(100, |i: int| 0u8),
            db.read_table.f32_range@ == Seq::new(100, |i: int| 0u32),
            db.write_table.u8_range@ == Seq::new(100, |i: int| 0u8),
            db.write_table.f32_range@ == Seq::new(100, |i: int| 0u32),
    {
        DB { read_table: Table::new(100, 100), write_table: Table::new(100, 100) }
    }

    /// Stores a state frame of the controller into the read table.
    pub fn write_local(&mut self, data: &[u8])
        requires
            old(self).read_table.u8_range@.len() + 4 * old(self).read_table.f32_range@.len()
                <= data@.len(),
        ensures
            final(self).read_table.u8_range@ == data@.subrange(
                0,
                old(self).read_table.u8_range@.len() as int,
            ),
            final(self).read_table.f32_range@.len() == old(self).read_table.f32_range@.len(),
            forall|fi: int|
                0 <= fi < old(self).read_table.f32_range@.len()
                    ==> #[trigger] final(self).read_table.f32_range@[fi] == be_word_at(
                    data@,
                    old(self).read_table.u8_range@.len() + 4 * fi,
                ),
            final(self).write_table == old(self).write_table,
    {
        self.read_table.from_bytes(data);
    }

    /// The frame to send: the write table as bytes.
    pub fn prepared_data(&self) -> (bytes: Vec<u8>)
        ensures
            bytes@ == self.write_table.u8_range@ + be_words(self.write_table.f32_range@),
    {
        self.write_table.to_bytes()
    }

    /// The write-table register of `key`, or `Err("Cannot find key")`.
    pub fn find_write_table_index_by_key(key: &str) -> (r: Result<usize, &'static str>)
        ensures
            match last_match(write_table_spec(), key@) {
                Some(index) => r == Ok::<usize, &'static str>(index),
                None => r == Err::<usize, &'static str>("Cannot find key"),
            },
    {
        let entries = write_table_indices();
        assert(entries@.take(8) =~= write_table_spec());
        scan_table(&entries, entries.len(), key)
    }

    /// Scans as many entries as the read table has, but reads them from the
    /// write table, which is shorter: the scan runs past the end of the write
    /// table, so the call can only be made where the read table is no longer
    /// than the write table.
    pub fn find_read_table_index_by_key(key: &str) -> (r: Result<usize, &'static str>)
        requires
            read_table_spec().len() <= write_table_spec().len(),
        ensures
            match last_match(write_table_spec().take(read_table_spec().len() as int), key@) {
                Some(index) => r == Ok::<usize, &'static str>(index),
                None => r == Err::<usize, &'static str>("Cannot find key"),
            },
    {
        let reads = read_table_indices();
        let writes = write_table_indices();
        scan_table(&writes, reads.len(), key)
    }

    /// The read-table byte register that the read key table gives for `key`.
    pub fn get_u8_by_key(&self, key: &str) -> (value: u8)
        requires
            read_table_spec().len() <= write_table_spec().len(),
            last_match(write_table_spec().take(read_table_spec().len() as int), key@) matches Some(i)
                && i < self.read_table.u8_range@.len(),
        ensures
            value == self.read_table.u8_range@[last_match(
                write_table_spec().take(read_table_spec().len() as int),
                key@,
            )->Some_0 as int],
    {
        let index = Self::find_read_table_index_by_key(key).unwrap();
        self.read_table.u8_range[index]
    }

    /// The read-table float register (bit pattern) that the read key table
    /// gives for `key`.
    pub fn get_f32_by_key(&self, key: &str) -> (value: u32)
        requires
            read_table_spec().len() <= write_table_spec().len(),
            last_match(write_table_spec().take(read_table_spec().len() as int), key@) matches Some(i)
                && i < self.read_table.f32_range@.len(),
        ensures
            value == self.read_table.f32_range@[last_match(
                write_table_spec().take(read_table_spec().len() as int),
                key@,
            )->Some_0 as int],
    {
        let index = Self::find_read_table_index_by_key(key).unwrap();
        self.read_table.f32_range[index]
    }
}

} // verus!
