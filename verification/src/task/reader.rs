//! Decoding of the state frames that the controller sends: a reader is built
//! from an ordered list of named fields of given kinds, which fixes where each
//! field stands in the frame, and then loads frames and checks field values.

use vstd::prelude::*;
use vstd::hash_map::StringHashMap;
use vstd::arithmetic::power2::lemma2_to64;
use crate::bits::{
    msb_value, msb_bits, unpack_bits, chunk_value, word_value, byte_bits, be_value, be_words,
    be_bytes, lemma_byte_bits_value, lemma_value_byte_bits, lemma_msb_concat, lemma_be_words,
    lemma_be_roundtrip,
};
use crate::task::message::{Value, same_text, frame};

verus! {

/// The kind of a field.
#[derive(Clone, Copy, Debug, PartialEq, Eq, Structural)]
pub enum ValueType {
    Bool,
    Int,
    Float,
}

/// Bits that a field of kind `t` takes in a state frame.
pub open spec fn width(t: ValueType) -> nat {
    match t {
        ValueType::Float => 32,
        ValueType::Int => 8,
        ValueType::Bool => 1,
    }
}

/// Bits taken by all the fields of `data`.
pub open spec fn total_bits(data: Seq<(&'static str, ValueType)>) -> nat
    decreases data.len(),
{
    if data.len() == 0 {
        0
    } else {
        total_bits(data.drop_last()) + width(data.last().1)
    }
}

/// How many fields of `data` are of kind `t`.
pub open spec fn kind_count(data: Seq<(&'static str, ValueType)>, t: ValueType) -> nat
    decreases data.len(),
{
    if data.len() == 0 {
        0
    } else {
        kind_count(data.drop_last(), t) + if data.last().1 == t { 1nat } else { 0nat }
    }
}

/// The decimal digits of `n`.
pub open spec fn decimal(n: nat) -> Seq<char>
    decreases n,
{
    let digit = seq!['0', '1', '2', '3', '4', '5', '6', '7', '8', '9'][(n % 10) as int];
    if n < 10 {
        seq![digit]
    } else {
        decimal(n / 10).push(digit)
    }
}

/// The name a field is known by: its own, or for the placeholder name `_`,
/// `KEY_` followed by the field's bit offset in decimal.
pub open spec fn field_name(key: Seq<char>, offset: nat) -> Seq<char> {
    if key == "_"@ {
        "KEY_"@ + decimal(offset)
    } else {
        key
    }
}

/// The name of field `i` of `data`.
pub open spec fn entry_key(data: Seq<(&'static str, ValueType)>, i: int) -> Seq<char> {
    field_name(data[i].0@, total_bits(data.take(i)))
}

/// Where field `i` of `data` stands: its bit offset in the frame, its rank
/// among the fields of its kind before it, and its kind.
pub open spec fn entry_slot(data: Seq<(&'static str, ValueType)>, i: int) -> (usize, usize, ValueType) {
    (total_bits(data.take(i)) as usize, kind_count(data.take(i), data[i].1) as usize, data[i].1)
}

/// Each field name of `data` mapped to where its last field of that name stands.
pub open spec fn layout(data: Seq<(&'static str, ValueType)>) -> Map<Seq<char>, (usize, usize, ValueType)>
    decreases data.len(),
{
    if data.len() == 0 {
        Map::empty()
    } else {
        layout(data.drop_last()).insert(
            entry_key(data, data.len() - 1),
            entry_slot(data, data.len() - 1),
        )
    }
}

/// The texts of `keys`.
pub open spec fn key_texts(keys: Seq<String>) -> Seq<Seq<char>> {
    keys.map_values(|k: String| k@)
}

/// One past the last bit of a field standing at `slot`.
pub open spec fn slot_end(slot: (usize, usize, ValueType)) -> nat {
    slot.0 as nat + width(slot.2)
}

/// The values that a frame whose bits are `bits` gives for the fields named
/// `keys` in order, each read where `slots` places it, sorted by kind:
/// (flags, bytes, float bit patterns). A multi-bit field is read most
/// significant bit first.
pub open spec fn decoded(
    keys: Seq<Seq<char>>,
    slots: Map<Seq<char>, (usize, usize, ValueType)>,
    bits: Seq<bool>,
) -> (Seq<bool>, Seq<u8>, Seq<u32>)
    decreases keys.len(),
{
    if keys.len() == 0 {
        (Seq::empty(), Seq::empty(), Seq::empty())
    } else {
        let prev = decoded(keys.drop_last(), slots, bits);
        let slot = slots[keys.last()];
        let at = slot.0 as int;
        match slot.2 {
            ValueType::Bool => (prev.0.push(bits[at]), prev.1, prev.2),
            ValueType::Int => (prev.0, prev.1.push(msb_value(bits.subrange(at, at + 8)) as u8), prev.2),
            ValueType::Float => (prev.0, prev.1, prev.2.push(
                msb_value(bits.subrange(at, at + 32)) as u32,
            )),
        }
    }
}

/// IEEE-754 single precision: the pattern is a NaN.
pub open spec fn is_nan(x: u32) -> bool {
    x & 0x7f80_0000 == 0x7f80_0000 && x & 0x007f_ffff != 0
}

/// IEEE-754 single precision equality of two bit patterns: no NaN equals
/// anything, +0 equals -0, and otherwise equal patterns are equal numbers.
pub open spec fn float_eq(a: u32, b: u32) -> bool {
    !is_nan(a) && !is_nan(b) && (a == b || (a & 0x7fff_ffff == 0 && b & 0x7fff_ffff == 0))
}

/// IEEE-754 single precision `==` on bit patterns.
pub fn same_float(a: u32, b: u32) -> (eq: bool)
    ensures
        eq == float_eq(a, b),
{
    let a_nan = (a & 0x7f80_0000) == 0x7f80_0000 && (a & 0x007f_ffff) != 0;
    let b_nan = (b & 0x7f80_0000) == 0x7f80_0000 && (b & 0x007f_ffff) != 0;
    !a_nan && !b_nan && (a == b || ((a & 0x7fff_ffff) == 0 && (b & 0x7fff_ffff) == 0))
}

/// `format!("{:?}", index)` from std: the decimal digits of `index`, as
/// `Debug` writes an integer.
#[verifier::external_body]
pub(crate) fn decimal_text(index: usize) -> (text: String)
    ensures
        text@ == decimal(index as nat),
{
    format!("{:?}", index)
}

/// The name of a placeholder field at bit offset `offset`: `KEY_` then the
/// offset in decimal.
fn placeholder_key(offset: usize) -> (key: String)
    ensures
        key@ == "KEY_"@ + decimal(offset as nat),
{
    let mut key = "KEY_".to_owned();
    let digits = decimal_text(offset);
    key.append(digits.as_str());
    key
}

pub proof fn lemma_total_bits_prefix(data: Seq<(&'static str, ValueType)>, j: int)
    requires
        0 <= j <= data.len(),
    ensures
        total_bits(data.take(j)) <= total_bits(data),
    decreases data.len(),
{
    if j == data.len() {
        assert(data.take(j) =~= data);
    } else {
        lemma_total_bits_prefix(data.drop_last(), j);
        assert(data.drop_last().take(j) =~= data.take(j));
    }
}

pub proof fn lemma_kind_count_bound(data: Seq<(&'static str, ValueType)>, t: ValueType)
    ensures
        kind_count(data, t) <= data.len(),
    decreases data.len(),
{
    if data.len() > 0 {
        lemma_kind_count_bound(data.drop_last(), t);
    }
}

/// Decoded fields, by kind, and the layout of a frame.
pub struct Reader {
    pub bools: Vec<bool>,
    pub ints: Vec<u8>,
    pub floats: Vec<u32>,
    pub indexes: StringHashMap<(usize, usize, ValueType)>,
    pub keys: Vec<String>,
}

impl Reader {
    /// Whether a frame of `data_len` bytes holds every field of this reader.
    pub open spec fn readable(&self, data_len: nat) -> bool {
        &&& 8 * data_len <= usize::MAX
        &&& forall|i: int|
            0 <= i < self.keys@.len() ==> {
                &&& self.indexes@.contains_key(#[trigger] self.keys@[i]@)
                &&& slot_end(self.indexes@[self.keys@[i]@]) <= 8 * data_len
            }
    }

    /// Whether `check` can compare field `key` with `value`: an unknown key
    /// can always be checked; a known one needs a value of `value`'s kind at
    /// the field's rank.
    pub open spec fn checkable(&self, key: Seq<char>, value: Value) -> bool {
        self.indexes@.contains_key(key) ==> {
            let rank = self.indexes@[key].1;
            match value {
                Value::Bool(_) => rank < self.bools@.len(),
                Value::Int(_) => rank < self.ints@.len(),
                Value::Float(_) => rank < self.floats@.len(),
            }
        }
    }

    /// What `check` answers for `key` and `value`.
    pub open spec fn holds(&self, key: Seq<char>, value: Value) -> bool {
        &&& self.indexes@.contains_key(key)
        &&& {
            let rank = self.indexes@[key].1 as int;
            match value {
                Value::Bool(v) => self.bools@[rank] == v,
                Value::Int(v) => self.ints@[rank] == v,
                Value::Float(v) => float_eq(self.floats@[rank], v),
            }
        }
    }

    /// A reader for the fields of `data`, in order: each field takes 1 bit
    /// (flag), 8 bits (byte) or 32 bits (float) of the frame, right after the
    /// field before it; a field named `_` gets the name `KEY_<offset>`. When
    /// two fields share a name, the name stands for the later one.
    pub fn new(data: Vec<(&'static str, ValueType)>) -> (reader: Reader)
        requires
            total_bits(data@) <= usize::MAX,
        ensures
            key_texts(reader.keys@) == Seq::new(data@.len(), |i: int| entry_key(data@, i)),
            reader.indexes@ == layout(data@),
            reader.bools@ == Seq::<bool>::empty(),
            reader.ints@ == Seq::<u8>::empty(),
            reader.floats@ == Seq::<u32>::empty(),
    {
        let mut reader = Reader {
            bools: Vec::new(),
            floats: Vec::new(),
            ints: Vec::new(),
            indexes: StringHashMap::new(),
            keys: Vec::new(),
        };
        let mut current_index: usize = 0;
        let mut bool_index: usize = 0;
        let mut int_index: usize = 0;
        let mut float_index: usize = 0;
        let n = data.len();
        let mut i: usize = 0;
        while i < n
            invariant
                n == data@.len(),
                i <= n,
                total_bits(data@) <= usize::MAX,
                current_index == total_bits(data@.take(i as int)),
                bool_index == kind_count(data@.take(i as int), ValueType::Bool),
                int_index == kind_count(data@.take(i as int), ValueType::Int),
                float_index == kind_count(data@.take(i as int), ValueType::Float),
                reader.keys@.len() == i,
                forall|t: int| 0 <= t < i ==> #[trigger] reader.keys@[t]@ == entry_key(data@, t),
                reader.indexes@ == layout(data@.take(i as int)),
                reader.bools@ == Seq::<bool>::empty(),
                reader.ints@ == Seq::<u8>::empty(),
                reader.floats@ == Seq::<u32>::empty(),
            decreases n - i,
        {
            let (key, value_type) = data[i];
            let ghost before = data@.take(i as int);
            let ghost after = data@.take(i + 1);
            proof {
                assert(after.drop_last() =~= before);
                assert(after.last() == data@[i as int]);
                assert(after.take(i as int) =~= before);
                lemma_total_bits_prefix(data@, i + 1);
                lemma_kind_count_bound(before, ValueType::Bool);
                lemma_kind_count_bound(before, ValueType::Int);
                lemma_kind_count_bound(before, ValueType::Float);
            }
            let new_key = if same_text(key, "_") {
                placeholder_key(current_index)
            } else {
                key.to_owned()
            };
            assert(new_key@ == entry_key(data@, i as int));
            reader.keys.push(new_key.clone());
            match value_type {
                ValueType::Float => {
                    reader.indexes.insert(new_key, (current_index, float_index, value_type));
                    current_index += 32;
                    float_index += 1;
                },
                ValueType::Int => {
                    reader.indexes.insert(new_key, (current_index, int_index, value_type));
                    current_index += 8;
                    int_index += 1;
                },
                ValueType::Bool => {
                    reader.indexes.insert(new_key, (current_index, bool_index, value_type));
                    current_index += 1;
                    bool_index += 1;
                },
            }
            proof {
                assert(entry_slot(after, i as int) == entry_slot(data@, i as int));
                assert(entry_key(after, i as int) == entry_key(data@, i as int));
            }
            i += 1;
        }
        proof {
            assert(data@.take(n as int) =~= data@);
            assert(key_texts(reader.keys@) =~= Seq::new(data@.len(), |i: int| entry_key(data@, i)));
        }
        reader
    }

    /// Decodes a state frame: every field is read from `data` where the layout
    /// places it, in the order of `keys`, and the values replace the decoded
    /// flags, bytes and floats. `data` is left as it was.
    pub fn load(&mut self, data: &mut Vec<u8>)
        requires
            old(self).readable(old(data)@.len()),
        ensures
            final(data)@ == old(data)@,
            final(self).keys@ == old(self).keys@,
            final(self).indexes@ == old(self).indexes@,
            (final(self).bools@, final(self).ints@, final(self).floats@) == decoded(
                key_texts(old(self).keys@),
                old(self).indexes@,
                msb_bits(old(data)@),
            ),
    {
        let bits = unpack_bits(&*data);
        self.bools = Vec::new();
        self.floats = Vec::new();
        self.ints = Vec::new();
        let ghost texts = key_texts(self.keys@);
        let n = self.keys.len();
        let mut i: usize = 0;
        while i < n
            invariant
                n == self.keys@.len(),
                i <= n,
                texts == key_texts(self.keys@),
                self.keys@ == old(self).keys@,
                self.indexes@ == old(self).indexes@,
                bits@ == msb_bits(data@),
                bits@.len() == 8 * data@.len(),
                self.readable(data@.len()),
                (self.bools@, self.ints@, self.floats@) == decoded(
                    texts.take(i as int),
                    self.indexes@,
                    bits@,
                ),
            decreases n - i,
        {
            let ghost k = self.keys@[i as int]@;
            let slot = *self.indexes.get(self.keys[i].as_str()).unwrap();
            proof {
                assert(texts.take(i + 1).drop_last() =~= texts.take(i as int));
                assert(texts.take(i + 1).last() == k);
                assert(slot == self.indexes@[k]);
                assert(slot_end(slot) <= 8 * data@.len());
            }
            let index = slot.0;
            match slot.2 {
                ValueType::Float => {
                    let w = word_value(&bits, index);
                    self.floats.push(w);
                },
                ValueType::Int => {
                    let b = chunk_value(&bits, index, 8);
                    self.ints.push(b);
                },
                ValueType::Bool => {
                    self.bools.push(bits[index]);
                },
            }
            i += 1;
        }
        assert(texts.take(n as int) =~= texts);
    }

    /// Whether a frame of `data_len` bytes holds every field of this reader.
    pub fn can_load(&self, data_len: usize) -> (ok: bool)
        ensures
            ok == self.readable(data_len as nat),
    {
        if data_len > usize::MAX / 8 {
            return false;
        }
        let n = self.keys.len();
        let mut i: usize = 0;
        while i < n
            invariant
                n == self.keys@.len(),
                i <= n,
                8 * data_len <= usize::MAX,
                forall|t: int|
                    0 <= t < i ==> {
                        &&& self.indexes@.contains_key(#[trigger] self.keys@[t]@)
                        &&& slot_end(self.indexes@[self.keys@[t]@]) <= 8 * data_len
                    },
            decreases n - i,
        {
            match self.indexes.get(self.keys[i].as_str()) {
                None => {
                    return false;
                },
                Some(slot) => {
                    let w: usize = match slot.2 {
                        ValueType::Float => 32,
                        ValueType::Int => 8,
                        ValueType::Bool => 1,
                    };
                    if slot.0 > 8 * data_len || w > 8 * data_len - slot.0 {
                        return false;
                    }
                },
            }
            i += 1;
        }
        true
    }

    /// The rank of field `key` among the fields of its kind, or
    /// `Err("Found nothing")` for an unknown key.
    pub fn index(&self, key: &str) -> (r: Result<usize, &'static str>)
        ensures
            if self.indexes@.contains_key(key@) {
                r == Ok::<usize, &'static str>(self.indexes@[key@].1)
            } else {
                r == Err::<usize, &'static str>("Found nothing")
            },
    {
        match self.indexes.get(key) {
            Some(slot) => Ok(slot.1),
            None => Err("Found nothing"),
        }
    }

    /// Whether `check` can compare field `key` with `value`.
    pub fn can_check(&self, key: &str, value: Value) -> (ok: bool)
        ensures
            ok == self.checkable(key@, value),
    {
        match self.indexes.get(key) {
            None => true,
            Some(slot) => match value {
                Value::Bool(_) => slot.1 < self.bools.len(),
                Value::Int(_) => slot.1 < self.ints.len(),
                Value::Float(_) => slot.1 < self.floats.len(),
            },
        }
    }

    /// Whether field `key` was last decoded as `value`: the decoded value of
    /// `value`'s kind at the field's rank equals `value` (floats compare as
    /// IEEE-754 numbers). An unknown key gives `false`.
    pub fn check(&self, key: &str, value: Value) -> (r: bool)
        requires
            self.checkable(key@, value),
        ensures
            r == self.holds(key@, value),
    {
        let index = match self.index(key) {
            Ok(i) => i,
            Err(_e) => {
                return false;
            },
        };
        match value {
            Value::Bool(v) => self.bools[index] == v,
            Value::Float(v) => same_float(self.floats[index], v),
            Value::Int(v) => self.ints[index] == v,
        }
    }
}

/// Fields follow each other without gaps or overlap: each field starts where
/// the one before it ends, and the last one ends at the total width; the
/// fields of a kind are ranked 0, 1, 2, ... in order.
pub proof fn law_fields_are_contiguous(data: Seq<(&'static str, ValueType)>, i: int)
    requires
        total_bits(data) <= usize::MAX,
        0 <= i < data.len(),
    ensures
        i == 0 ==> entry_slot(data, i).0 == 0,
        i + 1 < data.len() ==> entry_slot(data, i + 1).0 == slot_end(entry_slot(data, i)),
        i + 1 == data.len() ==> slot_end(entry_slot(data, i)) == total_bits(data),
        forall|j: int|
            0 <= j < i && data[j].1 == data[i].1 ==> entry_slot(data, j).1 < entry_slot(data, i).1,
{
    lemma_total_bits_prefix(data, i);
    lemma_total_bits_prefix(data, i + 1);
    assert(data.take(i + 1).drop_last() =~= data.take(i));
    assert(data.take(i + 1).last() == data[i]);
    if i + 1 == data.len() {
        assert(data.take(i + 1) =~= data);
    }
    if i == 0 {
        assert(data.take(0) =~= Seq::<(&'static str, ValueType)>::empty());
    }
    assert forall|j: int| 0 <= j < i && data[j].1 == data[i].1 implies entry_slot(data, j).1
        < entry_slot(data, i).1 by {
        lemma_kind_count_grows(data, j, i);
        lemma_kind_count_bound(data.take(i), data[i].1);
        lemma_len_le_total_bits(data);
    }
}

proof fn lemma_len_le_total_bits(data: Seq<(&'static str, ValueType)>)
    ensures
        data.len() <= total_bits(data),
    decreases data.len(),
{
    if data.len() > 0 {
        lemma_len_le_total_bits(data.drop_last());
    }
}

proof fn lemma_kind_count_grows(data: Seq<(&'static str, ValueType)>, j: int, i: int)
    requires
        0 <= j < i <= data.len(),
    ensures
        kind_count(data.take(j), data[j].1) < kind_count(data.take(i), data[j].1),
    decreases i - j,
{
    assert(data.take(i).drop_last() =~= data.take(i - 1));
    if i == j + 1 {
        assert(data.take(i).last() == data[j]);
    } else {
        lemma_kind_count_grows(data, j, i - 1);
    }
}

/// A reload replaces everything decoded before: what a reader holds after
/// loading a frame, and whether it can load a frame of a given length,
/// depend only on its fields (keys and layout), never on what it decoded
/// from earlier frames. So a reader that has loaded other frames decodes a
/// frame just as a fresh reader with the same fields does.
pub proof fn law_reload_replaces(loaded: Reader, fresh: Reader, data: Seq<u8>)
    requires
        loaded.keys@ == fresh.keys@,
        loaded.indexes@ == fresh.indexes@,
    ensures
        loaded.readable(data.len()) == fresh.readable(data.len()),
        decoded(key_texts(loaded.keys@), loaded.indexes@, msb_bits(data)) == decoded(
            key_texts(fresh.keys@),
            fresh.indexes@,
            msb_bits(data),
        ),
{
}

/// How many of the first `n` fields named by `keys` are, by `slots`, of kind `t`.
pub open spec fn kind_rank(
    keys: Seq<Seq<char>>,
    slots: Map<Seq<char>, (usize, usize, ValueType)>,
    n: int,
    t: ValueType,
) -> nat
    decreases n,
{
    if n <= 0 {
        0
    } else {
        kind_rank(keys, slots, n - 1, t) + if slots[keys[n - 1]].2 == t { 1nat } else { 0nat }
    }
}

proof fn lemma_kind_rank_prefix(
    keys: Seq<Seq<char>>,
    slots: Map<Seq<char>, (usize, usize, ValueType)>,
    n: int,
    t: ValueType,
)
    requires
        0 <= n < keys.len(),
    ensures
        kind_rank(keys.drop_last(), slots, n, t) == kind_rank(keys, slots, n, t),
    decreases n,
{
    if n > 0 {
        lemma_kind_rank_prefix(keys, slots, n - 1, t);
    }
}

proof fn lemma_decoded_lengths(
    keys: Seq<Seq<char>>,
    slots: Map<Seq<char>, (usize, usize, ValueType)>,
    bits: Seq<bool>,
)
    ensures
        decoded(keys, slots, bits).0.len() == kind_rank(keys, slots, keys.len() as int, ValueType::Bool),
        decoded(keys, slots, bits).1.len() == kind_rank(keys, slots, keys.len() as int, ValueType::Int),
        decoded(keys, slots, bits).2.len() == kind_rank(keys, slots, keys.len() as int, ValueType::Float),
    decreases keys.len(),
{
    if keys.len() > 0 {
        let n = keys.len() - 1;
        lemma_decoded_lengths(keys.drop_last(), slots, bits);
        lemma_kind_rank_prefix(keys, slots, n, ValueType::Bool);
        lemma_kind_rank_prefix(keys, slots, n, ValueType::Int);
        lemma_kind_rank_prefix(keys, slots, n, ValueType::Float);
        assert(keys.last() == keys[n]);
    }
}

proof fn lemma_decoded_field(
    keys: Seq<Seq<char>>,
    slots: Map<Seq<char>, (usize, usize, ValueType)>,
    bits: Seq<bool>,
    i: int,
)
    requires
        0 <= i < keys.len(),
    ensures
        ({
            let s = slots[keys[i]];
            let at = s.0 as int;
            let out = decoded(keys, slots, bits);
            match s.2 {
                ValueType::Bool => {
                    let r = kind_rank(keys, slots, i, ValueType::Bool) as int;
                    r < out.0.len() && out.0[r] == bits[at]
                },
                ValueType::Int => {
                    let r = kind_rank(keys, slots, i, ValueType::Int) as int;
                    r < out.1.len() && out.1[r] == msb_value(bits.subrange(at, at + 8)) as u8
                },
                ValueType::Float => {
                    let r = kind_rank(keys, slots, i, ValueType::Float) as int;
                    r < out.2.len() && out.2[r] == msb_value(bits.subrange(at, at + 32)) as u32
                },
            }
        }),
    decreases keys.len(),
{
    let n = keys.len() - 1;
    let dl = keys.drop_last();
    lemma_decoded_lengths(dl, slots, bits);
    if i < n {
        lemma_decoded_field(dl, slots, bits, i);
        lemma_kind_rank_prefix(keys, slots, i, ValueType::Bool);
        lemma_kind_rank_prefix(keys, slots, i, ValueType::Int);
        lemma_kind_rank_prefix(keys, slots, i, ValueType::Float);
        assert(dl[i] == keys[i]);
    } else {
        if n > 0 {
            lemma_kind_rank_prefix(keys, slots, n, ValueType::Bool);
            lemma_kind_rank_prefix(keys, slots, n, ValueType::Int);
            lemma_kind_rank_prefix(keys, slots, n, ValueType::Float);
        }
        assert(keys.last() == keys[i]);
    }
}

/// What loading a frame gives for each field, in terms of the frame's bytes:
/// a field placed at bit offset `k` (bits counted from the most significant
/// bit of the first byte) goes to its kind's list at its rank among the
/// fields of that kind read before it. A flag is bit `k` of the frame, for
/// every offset `k`; a byte field on a byte boundary is that byte; a float
/// field on a byte boundary is the big-endian word of its four bytes.
pub proof fn law_load_reads_each_field(
    keys: Seq<Seq<char>>,
    slots: Map<Seq<char>, (usize, usize, ValueType)>,
    data: Seq<u8>,
    i: int,
)
    requires
        0 <= i < keys.len(),
        slots.contains_key(keys[i]),
        slot_end(slots[keys[i]]) <= 8 * data.len(),
    ensures
        ({
            let k = slots[keys[i]].0 as int;
            let out = decoded(keys, slots, msb_bits(data));
            match slots[keys[i]].2 {
                ValueType::Bool => {
                    let r = kind_rank(keys, slots, i, ValueType::Bool) as int;
                    &&& r < out.0.len()
                    &&& out.0[r] == ((data[k / 8] >> ((7 - k % 8) as u8)) & 1u8 == 1u8)
                },
                ValueType::Int => {
                    let r = kind_rank(keys, slots, i, ValueType::Int) as int;
                    &&& r < out.1.len()
                    &&& k % 8 == 0 ==> out.1[r] == data[k / 8]
                },
                ValueType::Float => {
                    let r = kind_rank(keys, slots, i, ValueType::Float) as int;
                    let a = k / 8;
                    &&& r < out.2.len()
                    &&& k % 8 == 0 ==> out.2[r] == (data[a] as nat) * 0x100_0000 + (data[a + 1] as nat)
                        * 0x1_0000 + (data[a + 2] as nat) * 0x100 + (data[a + 3] as nat)
                },
            }
        }),
{
    let bits = msb_bits(data);
    lemma_decoded_field(keys, slots, bits, i);
    let k = slots[keys[i]].0 as int;
    let a = k / 8;
    match slots[keys[i]].2 {
        ValueType::Bool => {},
        ValueType::Int => {
            if k % 8 == 0 {
                lemma_frame_byte(data, a);
                lemma_byte_bits_value(data[a]);
            }
        },
        ValueType::Float => {
            if k % 8 == 0 {
                lemma_frame_word(data, a);
                let (b0, b1, b2, b3) = (data[a], data[a + 1], data[a + 2], data[a + 3]);
                assert(be_value(b0, b1, b2, b3) < 0x1_0000_0000) by (nonlinear_arith);
            }
        },
    }
}

/// IEEE-754 single precision equality on bit patterns: a NaN equals nothing;
/// every other pattern equals itself; equality is symmetric; patterns whose
/// magnitudes (all bits but the sign) differ are never equal; and patterns
/// of the same magnitude but opposite signs are equal only when they are the
/// two zeros.
pub proof fn law_float_equality(a: u32, b: u32)
    ensures
        (a & 0x7f80_0000 == 0x7f80_0000 && a & 0x007f_ffff != 0) ==> !float_eq(a, b) && !float_eq(b, a),
        !(a & 0x7f80_0000 == 0x7f80_0000 && a & 0x007f_ffff != 0) ==> float_eq(a, a),
        float_eq(a, b) == float_eq(b, a),
        a & 0x7fff_ffff != b & 0x7fff_ffff ==> !float_eq(a, b),
        a != b && a & 0x7fff_ffff == b & 0x7fff_ffff ==> (float_eq(a, b) <==> a & 0x7fff_ffff == 0),
{
    assert(a & 0x7fff_ffff != b & 0x7fff_ffff ==> a != b) by (bit_vector);
    assert(a & 0x7fff_ffff == 0 && b & 0x7fff_ffff == 0 ==> a & 0x7fff_ffff == b & 0x7fff_ffff)
        by (bit_vector);
    assert(a & 0x7fff_ffff == 0 ==> !(a & 0x7f80_0000 == 0x7f80_0000 && a & 0x007f_ffff != 0))
        by (bit_vector);
    assert(b & 0x7fff_ffff == 0 ==> !(b & 0x7f80_0000 == 0x7f80_0000 && b & 0x007f_ffff != 0))
        by (bit_vector);
}

/// The kind of field `i` in the layout of a command frame with `n_ints` byte
/// registers: eight flags, then the bytes, then the floats.
pub open spec fn command_kind(i: int, n_ints: nat) -> ValueType {
    if i < 8 {
        ValueType::Bool
    } else if i < 8 + n_ints {
        ValueType::Int
    } else {
        ValueType::Float
    }
}

/// `data` lays out fields just as a command frame with `n_ints` byte registers
/// and `n_floats` float registers is laid out.
pub open spec fn command_shape(data: Seq<(&'static str, ValueType)>, n_ints: nat, n_floats: nat) -> bool {
    &&& data.len() == 8 + n_ints + n_floats
    &&& forall|i: int| 0 <= i < data.len() ==> (#[trigger] data[i]).1 == command_kind(i, n_ints)
}

/// Bit offset of field `i` in a command frame with `n_ints` byte registers.
pub open spec fn command_offset(i: int, n_ints: nat) -> int {
    if i <= 8 {
        i
    } else if i <= 8 + n_ints {
        8 + 8 * (i - 8)
    } else {
        8 + 8 * n_ints + 32 * (i - 8 - n_ints)
    }
}

/// Rank of field `i` among the fields of its kind in a command frame.
pub open spec fn command_rank(i: int, n_ints: nat) -> int {
    if i < 8 {
        i
    } else if i < 8 + n_ints {
        i - 8
    } else {
        i - 8 - n_ints
    }
}

proof fn lemma_entry_prefix(data: Seq<(&'static str, ValueType)>, n: int, i: int)
    requires
        0 <= i < n <= data.len(),
    ensures
        entry_key(data.take(n), i) == entry_key(data, i),
        entry_slot(data.take(n), i) == entry_slot(data, i),
{
    assert(data.take(n).take(i) =~= data.take(i));
}

/// With `key_i` not reused by a later field, the layout places `key_i` where field `i` stands.
pub proof fn lemma_layout_lookup(data: Seq<(&'static str, ValueType)>, i: int)
    requires
        0 <= i < data.len(),
        forall|j: int| i < j < data.len() ==> entry_key(data, j) != entry_key(data, i),
    ensures
        layout(data).contains_key(entry_key(data, i)),
        layout(data)[entry_key(data, i)] == entry_slot(data, i),
    decreases data.len(),
{
    let n = data.len() - 1;
    if i < n {
        let dl = data.drop_last();
        assert(dl =~= data.take(n));
        assert forall|j: int| i < j < dl.len() implies entry_key(dl, j) != entry_key(dl, i) by {
            lemma_entry_prefix(data, n, j);
            lemma_entry_prefix(data, n, i);
        }
        lemma_layout_lookup(dl, i);
        lemma_entry_prefix(data, n, i);
    }
}

proof fn lemma_command_offsets(data: Seq<(&'static str, ValueType)>, n_ints: nat, n_floats: nat, i: int)
    requires
        command_shape(data, n_ints, n_floats),
        0 <= i <= data.len(),
    ensures
        total_bits(data.take(i)) == command_offset(i, n_ints),
        kind_count(data.take(i), ValueType::Bool) == if i < 8 { i } else { 8 },
        kind_count(data.take(i), ValueType::Int) == if i < 8 { 0 } else if i < 8 + n_ints { i - 8 } else { n_ints as int },
        kind_count(data.take(i), ValueType::Float) == if i < 8 + n_ints { 0 } else { i - 8 - n_ints },
    decreases i,
{
    if i > 0 {
        lemma_command_offsets(data, n_ints, n_floats, i - 1);
        assert(data.take(i).drop_last() =~= data.take(i - 1));
        assert(data.take(i).last() == data[i - 1]);
    }
}

proof fn lemma_frame_byte(f: Seq<u8>, a: int)
    requires
        0 <= a < f.len(),
    ensures
        msb_bits(f).subrange(8 * a, 8 * a + 8) == byte_bits(f[a]),
{
    let sub = msb_bits(f).subrange(8 * a, 8 * a + 8);
    assert forall|j: int| 0 <= j < 8 implies sub[j] == byte_bits(f[a])[j] by {
        assert((8 * a + j) / 8 == a && (8 * a + j) % 8 == j);
    }
    assert(sub =~= byte_bits(f[a]));
}

proof fn lemma_frame_word(f: Seq<u8>, a: int)
    requires
        0 <= a,
        a + 4 <= f.len(),
    ensures
        msb_value(msb_bits(f).subrange(8 * a, 8 * a + 32)) == be_value(f[a], f[a + 1], f[a + 2], f[a + 3]),
{
    let bits = msb_bits(f);
    let c0 = bits.subrange(8 * a, 8 * a + 8);
    let c1 = bits.subrange(8 * a + 8, 8 * a + 16);
    let c2 = bits.subrange(8 * a + 16, 8 * a + 24);
    let c3 = bits.subrange(8 * a + 24, 8 * a + 32);
    lemma_frame_byte(f, a);
    lemma_frame_byte(f, a + 1);
    lemma_frame_byte(f, a + 2);
    lemma_frame_byte(f, a + 3);
    lemma_byte_bits_value(f[a]);
    lemma_byte_bits_value(f[a + 1]);
    lemma_byte_bits_value(f[a + 2]);
    lemma_byte_bits_value(f[a + 3]);
    lemma2_to64();
    lemma_msb_concat(c0, c1);
    lemma_msb_concat(c0 + c1, c2);
    lemma_msb_concat(c0 + c1 + c2, c3);
    assert(c0 + c1 + c2 + c3 =~= bits.subrange(8 * a, 8 * a + 32));
    let (b0, b1, b2, b3) = (f[a], f[a + 1], f[a + 2], f[a + 3]);
    assert(((b0 * 256 + b1) * 256 + b2) * 256 + b3 == be_value(b0, b1, b2, b3)) by (nonlinear_arith);
}

proof fn lemma_command_slot(data: Seq<(&'static str, ValueType)>, n_ints: nat, n_floats: nat, i: int)
    requires
        command_shape(data, n_ints, n_floats),
        total_bits(data) <= usize::MAX,
        0 <= i < data.len(),
    ensures
        entry_slot(data, i).0 == command_offset(i, n_ints),
        entry_slot(data, i).1 == command_rank(i, n_ints),
        entry_slot(data, i).2 == command_kind(i, n_ints),
        slot_end(entry_slot(data, i)) <= total_bits(data),
{
    lemma_command_offsets(data, n_ints, n_floats, i);
    lemma_command_offsets(data, n_ints, n_floats, i + 1);
    lemma_total_bits_prefix(data, i + 1);
    assert(data.take(i + 1).drop_last() =~= data.take(i));
    assert(data.take(i + 1).last() == data[i]);
    assert(data[i].1 == command_kind(i, n_ints));
    assert(total_bits(data.take(i + 1)) == total_bits(data.take(i)) + width(data[i].1));
    assert(command_rank(i, n_ints) <= command_offset(i, n_ints));
}

proof fn lemma_frame_flag(bools: Seq<bool>, ints: Seq<u8>, floats: Seq<u32>, p: int)
    requires
        bools.len() == 8,
        0 <= p < 8,
    ensures
        msb_bits(frame(bools, ints, floats))[p] == bools[p],
{
    let f = frame(bools, ints, floats);
    lemma_value_byte_bits(bools);
    assert(f[0] == msb_value(bools) as u8);
    assert(msb_bits(f)[p] == byte_bits(f[0])[p]);
}

proof fn lemma_frame_int(bools: Seq<bool>, ints: Seq<u8>, floats: Seq<u32>, q: int)
    requires
        bools.len() == 8,
        0 <= q < ints.len(),
    ensures
        msb_value(msb_bits(frame(bools, ints, floats)).subrange(8 + 8 * q, 8 + 8 * q + 8)) as u8 == ints[q],
{
    let f = frame(bools, ints, floats);
    let a = 1 + q;
    lemma_frame_byte(f, a);
    lemma_byte_bits_value(f[a]);
    assert(f[a] == ints[q]);
}

proof fn lemma_frame_float(bools: Seq<bool>, ints: Seq<u8>, floats: Seq<u32>, r: int)
    requires
        bools.len() == 8,
        0 <= r < floats.len(),
    ensures
        msb_value(msb_bits(frame(bools, ints, floats)).subrange(
            8 + 8 * ints.len() + 32 * r,
            8 + 8 * ints.len() + 32 * r + 32,
        )) as u32 == floats[r],
{
    let f = frame(bools, ints, floats);
    let k = ints.len();
    let a = 1 + k + 4 * r;
    lemma_be_words(floats);
    lemma_frame_word(f, a);
    lemma_be_roundtrip(floats[r]);
    assert(be_words(floats)[4 * r + 0] == be_bytes(floats[r])[0]);
    assert(be_words(floats)[4 * r + 1] == be_bytes(floats[r])[1]);
    assert(be_words(floats)[4 * r + 2] == be_bytes(floats[r])[2]);
    assert(be_words(floats)[4 * r + 3] == be_bytes(floats[r])[3]);
    assert(f[a] == be_bytes(floats[r])[0] && f[a + 1] == be_bytes(floats[r])[1]
        && f[a + 2] == be_bytes(floats[r])[2] && f[a + 3] == be_bytes(floats[r])[3]);
    assert(8 * a == 8 + 8 * k + 32 * r);
}

#[verifier::spinoff_prover]
#[verifier::rlimit(60)]
proof fn lemma_decoded_prefix(
    data: Seq<(&'static str, ValueType)>,
    bools: Seq<bool>,
    ints: Seq<u8>,
    floats: Seq<u32>,
    j: int,
)
    requires
        bools.len() == 8,
        command_shape(data, ints.len(), floats.len()),
        0 <= j <= data.len(),
        forall|i: int|
            0 <= i < data.len() ==> {
                &&& layout(data).contains_key(#[trigger] entry_key(data, i))
                &&& layout(data)[entry_key(data, i)] == entry_slot(data, i)
                &&& entry_slot(data, i).0 == command_offset(i, ints.len())
                &&& entry_slot(data, i).1 == command_rank(i, ints.len())
            },
    ensures
        decoded(
            Seq::new(data.len(), |i: int| entry_key(data, i)).take(j),
            layout(data),
            msb_bits(frame(bools, ints, floats)),
        ) == (
            bools.take(if j < 8 { j } else { 8 }),
            ints.take(if j < 8 { 0 } else if j < 8 + ints.len() { j - 8 } else { ints.len() as int }),
            floats.take(if j < 8 + ints.len() { 0 } else { j - 8 - ints.len() }),
        ),
    decreases j,
{
    let k = ints.len();
    let f = frame(bools, ints, floats);
    let keys = Seq::new(data.len(), |i: int| entry_key(data, i));
    let bits = msb_bits(f);
    if j == 0 {
        assert(keys.take(0) =~= Seq::<Seq<char>>::empty());
        assert(bools.take(0) =~= Seq::<bool>::empty());
        assert(ints.take(0) =~= Seq::<u8>::empty());
        assert(floats.take(0) =~= Seq::<u32>::empty());
    } else {
        let p = j - 1;
        lemma_decoded_prefix(data, bools, ints, floats, p);
        assert(keys.take(j).drop_last() =~= keys.take(p));
        assert(keys.take(j).last() == entry_key(data, p));
        let slot = entry_slot(data, p);
        assert(slot.2 == command_kind(p, k));
        if p < 8 {
            lemma_frame_flag(bools, ints, floats, p);
            assert(bools.take(j) =~= bools.take(p).push(bools[p]));
        } else if p < 8 + k {
            lemma_frame_int(bools, ints, floats, p - 8);
            assert(ints.take(p - 8 + 1) =~= ints.take(p - 8).push(ints[p - 8]));
        } else {
            let r = p - 8 - k;
            lemma_frame_float(bools, ints, floats, r);
            assert(floats.take(r + 1) =~= floats.take(r).push(floats[r]));
        }
    }
}

/// The central property of the frames: a reader whose fields are laid out as
/// a command frame (eight flags, then `ints.len()` bytes, then
/// `floats.len()` floats, all field names distinct) can load the frame of a
/// command with eight flags, and decodes from it exactly that command's
/// flags, byte registers and float registers.
pub proof fn law_command_frame_decodes(
    data: Seq<(&'static str, ValueType)>,
    bools: Seq<bool>,
    ints: Seq<u8>,
    floats: Seq<u32>,
)
    requires
        bools.len() == 8,
        command_shape(data, ints.len(), floats.len()),
        total_bits(data) <= usize::MAX,
        forall|i: int, j: int| 0 <= i < j < data.len() ==> entry_key(data, i) != entry_key(data, j),
    ensures
        8 * frame(bools, ints, floats).len() == total_bits(data),
        forall|i: int|
            0 <= i < data.len() ==> {
                &&& layout(data).contains_key(#[trigger] entry_key(data, i))
                &&& slot_end(layout(data)[entry_key(data, i)]) <= total_bits(data)
            },
        decoded(
            Seq::new(data.len(), |i: int| entry_key(data, i)),
            layout(data),
            msb_bits(frame(bools, ints, floats)),
        ) == (bools, ints, floats),
{
    let k = ints.len();
    let m = floats.len();
    let f = frame(bools, ints, floats);
    let keys = Seq::new(data.len(), |i: int| entry_key(data, i));
    let slots = layout(data);
    let bits = msb_bits(f);
    lemma_be_words(floats);
    lemma_command_offsets(data, k, m, data.len() as int);
    assert(data.take(data.len() as int) =~= data);
    assert(f.len() == 1 + k + 4 * m);
    lemma_value_byte_bits(bools);
    assert forall|i: int| 0 <= i < data.len() implies {
        &&& slots.contains_key(#[trigger] entry_key(data, i))
        &&& slots[entry_key(data, i)] == entry_slot(data, i)
        &&& entry_slot(data, i).0 == command_offset(i, k)
        &&& entry_slot(data, i).1 == command_rank(i, k)
        &&& slot_end(slots[entry_key(data, i)]) <= total_bits(data)
    } by {
        lemma_layout_lookup(data, i);
        lemma_command_slot(data, k, m, i);
    }
    lemma_decoded_prefix(data, bools, ints, floats, data.len() as int);
    assert(keys.take(data.len() as int) =~= keys);
    assert(bools.take(8) =~= bools);
    assert(ints.take(k as int) =~= ints);
    assert(floats.take(m as int) =~= floats);
}

} // verus!
