//! A register table: a block of byte registers followed by a block of 32-bit
//! float registers, each float register held as its IEEE-754 bit pattern.

use vstd::prelude::*;
use crate::bits::{
    be_words, be_word_at, be_bytes, push_be, word_from_be, lemma_be_words, lemma_be_roundtrip,
    lemma_be_bytes_of_value,
};

verus! {

/// Which block of a table a register lives in.
pub enum Scope {
    U8,
    Float,
}

/// Byte registers and float registers (held as bit patterns).
pub struct Table {
    pub u8_range: Vec<u8>,
    pub f32_range: Vec<u32>,
}

impl Table {
    /// A table of `u8_size` byte registers and `f32_size` float registers, all zero.
    pub fn new(u8_size: usize, f32_size: usize) -> (table: Table)
        ensures
            table.u8_range@ == Seq::new(u8_size as nat, |i: int| 0u8),
            table.f32_range@ == Seq::new(f32_size as nat, |i: int| 0u32),
    {
        let t = Table { u8_range: vec![0u8; u8_size], f32_range: vec![0u32; f32_size] };
        assert(t.u8_range@ =~= Seq::new(u8_size as nat, |i: int| 0u8));
        assert(t.f32_range@ =~= Seq::new(f32_size as nat, |i: int| 0u32));
        t
    }

    /// The byte registers, then each float register as four big-endian bytes.
    pub fn to_bytes(&self) -> (bytes: Vec<u8>)
        ensures
            bytes@ == self.u8_range@ + be_words(self.f32_range@),
    {
        let mut results: Vec<u8> = Vec::new();
        let mut i: usize = 0;
        while i < self.u8_range.len()
            invariant
                i <= self.u8_range@.len(),
                results@ == self.u8_range@.subrange(0, i as int),
            decreases self.u8_range@.len() - i,
        {
            results.push(self.u8_range[i]);
            i += 1;
            assert(results@ =~= self.u8_range@.subrange(0, i as int));
        }
        let mut fi: usize = 0;
        while fi < self.f32_range.len()
            invariant
                fi <= self.f32_range@.len(),
                results@ == self.u8_range@ + be_words(self.f32_range@.subrange(0, fi as int)),
            decreases self.f32_range@.len() - fi,
        {
            push_be(&mut results, self.f32_range[fi]);
            proof {
                let ws = self.f32_range@.subrange(0, fi + 1);
                assert(ws.drop_last() =~= self.f32_range@.subrange(0, fi as int));
            }
            fi += 1;
        }
        assert(self.f32_range@.subrange(0, self.f32_range@.len() as int) =~= self.f32_range@);
        results
    }

    /// Byte register `index`.
    pub fn get_u8(&self, index: usize) -> (value: u8)
        requires
            index < self.u8_range@.len(),
        ensures
            value == self.u8_range@[index as int],
    {
        self.u8_range[index]
    }

    /// Float register `index`, as its bit pattern.
    pub fn get_f32(&self, index: usize) -> (value: u32)
        requires
            index < self.f32_range@.len(),
        ensures
            value == self.f32_range@[index as int],
    {
        self.f32_range[index]
    }

    /// Overwrites every register from `data`: the byte registers from its first
    /// bytes, then each float register from the next four bytes, big-endian.
    /// Bytes beyond those are ignored.
    pub fn from_bytes(&mut self, data: &[u8])
        requires
            old(self).u8_range@.len() + 4 * old(self).f32_range@.len() <= data@.len(),
        ensures
            final(self).u8_range@ == data@.subrange(0, old(self).u8_range@.len() as int),
            final(self).f32_range@.len() == old(self).f32_range@.len(),
            forall|fi: int|
                0 <= fi < old(self).f32_range@.len() ==> #[trigger] final(self).f32_range@[fi]
                    == be_word_at(data@, old(self).u8_range@.len() + 4 * fi),
    {
        let u8_size = self.u8_range.len();
        let f32_size = self.f32_range.len();
        let dlen = data.len();
        let mut ui: usize = 0;
        while ui < u8_size
            invariant
                u8_size == self.u8_range@.len(),
                f32_size == self.f32_range@.len(),
                self.f32_range@ == old(self).f32_range@,
                u8_size == old(self).u8_range@.len(),
                u8_size + 4 * f32_size <= data@.len(),
                ui <= u8_size,
                forall|t: int| 0 <= t < ui ==> self.u8_range@[t] == data@[t],
            decreases u8_size - ui,
        {
            self.u8_range.set(ui, data[ui]);
            ui += 1;
        }
        let mut fi: usize = 0;
        while fi < f32_size
            invariant
                u8_size == self.u8_range@.len(),
                f32_size == self.f32_range@.len(),
                f32_size == old(self).f32_range@.len(),
                u8_size == old(self).u8_range@.len(),
                u8_size + 4 * f32_size <= data@.len(),
                dlen == data@.len(),
                fi <= f32_size,
                self.u8_range@ == data@.subrange(0, u8_size as int),
                forall|t: int| 0 <= t < fi ==> #[trigger] self.f32_range@[t] == be_word_at(data@, u8_size + 4 * t),
            decreases f32_size - fi,
        {
            let at = u8_size + fi * 4;
            let w = word_from_be(data[at], data[at + 1], data[at + 2], data[at + 3]);
            self.f32_range.set(fi, w);
            fi += 1;
        }
        assert(self.u8_range@ =~= data@.subrange(0, u8_size as int));
    }
}

/// Round trip of a table through bytes: the bytes that `to_bytes` gives for
/// registers `u8s` and `f32s` are long enough for `from_bytes` on a table of
/// the same shape, and `from_bytes` reads back every register as it was.
pub proof fn law_table_bytes_roundtrip(u8s: Seq<u8>, f32s: Seq<u32>)
    ensures
        u8s.len() + 4 * f32s.len() <= (u8s + be_words(f32s)).len(),
        (u8s + be_words(f32s)).subrange(0, u8s.len() as int) == u8s,
        forall|fi: int|
            0 <= fi < f32s.len() ==> #[trigger] be_word_at(u8s + be_words(f32s), u8s.len() + 4 * fi)
                == f32s[fi],
{
    let data = u8s + be_words(f32s);
    lemma_be_words(f32s);
    assert(data.subrange(0, u8s.len() as int) =~= u8s);
    assert forall|fi: int| 0 <= fi < f32s.len() implies #[trigger] be_word_at(data, u8s.len() + 4 * fi)
        == f32s[fi] by {
        let at = u8s.len() + 4 * fi;
        assert(data[at] == be_words(f32s)[4 * fi + 0]);
        assert(data[at + 1] == be_words(f32s)[4 * fi + 1]);
        assert(data[at + 2] == be_words(f32s)[4 * fi + 2]);
        assert(data[at + 3] == be_words(f32s)[4 * fi + 3]);
        lemma_be_roundtrip(f32s[fi]);
    }
}

/// Round trip of bytes through a table: reading a buffer of exactly
/// `u8_len + 4 * f32_len` bytes into a table of that shape (`from_bytes`)
/// and writing the table out (`to_bytes`) gives the buffer back.
pub proof fn law_bytes_table_roundtrip(data: Seq<u8>, u8_len: nat, f32_len: nat)
    requires
        data.len() == u8_len + 4 * f32_len,
    ensures
        data.subrange(0, u8_len as int) + be_words(
            Seq::new(f32_len, |fi: int| be_word_at(data, u8_len + 4 * fi)),
        ) == data,
{
    let words = Seq::new(f32_len, |fi: int| be_word_at(data, u8_len + 4 * fi));
    let out = data.subrange(0, u8_len as int) + be_words(words);
    lemma_be_words(words);
    assert forall|k: int| 0 <= k < data.len() implies out[k] == data[k] by {
        if k >= u8_len {
            let fi = (k - u8_len) / 4;
            let j = (k - u8_len) % 4;
            let at = u8_len + 4 * fi;
            assert(k == at + j);
            lemma_be_bytes_of_value(data[at], data[at + 1], data[at + 2], data[at + 3]);
            assert(be_words(words)[4 * fi + j] == be_bytes(words[fi])[j]);
        }
    }
    assert(out =~= data);
}

/// Writing one register of a table.
pub trait __SetAndGet<T, U> {
    /// Whether `index` names a register of the block that `set` writes.
    spec fn has_slot(&self, index: T) -> bool;

    fn set(&mut self, index: T, value: U)
        requires
            old(self).has_slot(index),
    ;
}

impl __SetAndGet<usize, u8> for Table {
    open spec fn has_slot(&self, index: usize) -> bool {
        index < self.u8_range@.len()
    }

    /// Writes byte register `index`.
    fn set(&mut self, index: usize, value: u8)
        ensures
            final(self).u8_range@ == old(self).u8_range@.update(index as int, value),
            final(self).f32_range@ == old(self).f32_range@,
    {
        self.u8_range.set(index, value);
    }
}

impl __SetAndGet<usize, u32> for Table {
    open spec fn has_slot(&self, index: usize) -> bool {
        index < self.f32_range@.len()
    }

    /// Writes float register `index` (its bit pattern).
    fn set(&mut self, index: usize, value: u32)
        ensures
            final(self).f32_range@ == old(self).f32_range@.update(index as int, value),
            final(self).u8_range@ == old(self).u8_range@,
    {
        self.f32_range.set(index, value);
    }
}

} // verus!
