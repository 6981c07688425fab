//! Bit-level encoding shared by the frames: bits packed most significant
//! first into bytes, and 32-bit words written big-endian.

use vstd::prelude::*;
use vstd::arithmetic::power2::{pow2, lemma_pow2_unfold, lemma2_to64};
use vstd::arithmetic::power::lemma_pow0;
use bitty::{AsBits, FromBits};

verus! {

/// 1 for a set bit, 0 for a clear one.
pub open spec fn bit_value(b: bool) -> nat {
    if b { 1 } else { 0 }
}

/// The number spelled by `bits` when the first bit is the most significant one.
pub open spec fn msb_value(bits: Seq<bool>) -> nat
    decreases bits.len(),
{
    if bits.len() == 0 {
        0
    } else {
        2 * msb_value(bits.drop_last()) + bit_value(bits.last())
    }
}

/// The number spelled by `bits` when the first bit is the least significant one.
pub open spec fn lsb_value(bits: Seq<bool>) -> nat
    decreases bits.len(),
{
    if bits.len() == 0 {
        0
    } else {
        bit_value(bits[0]) + 2 * lsb_value(bits.drop_first())
    }
}

/// Bit `k` of `x`, counted from the least significant bit.
pub open spec fn bit_of(x: u8, k: int) -> bool {
    (x >> (k as u8)) & 1u8 == 1u8
}

/// The eight bits of `x`, most significant first.
pub open spec fn byte_bits(x: u8) -> Seq<bool> {
    Seq::new(8, |j: int| bit_of(x, 7 - j))
}

/// The bits of all bytes of `data` in order, each byte most significant bit first.
pub open spec fn msb_bits(data: Seq<u8>) -> Seq<bool> {
    Seq::new(8 * data.len(), |k: int| bit_of(data[k / 8], 7 - k % 8))
}

/// The four bytes of `x`, most significant first.
pub open spec fn be_bytes(x: u32) -> Seq<u8> {
    seq![
        (x / 0x100_0000) as u8,
        (x / 0x1_0000 % 0x100) as u8,
        (x / 0x100 % 0x100) as u8,
        (x % 0x100) as u8,
    ]
}

/// The number that four bytes spell, the first one most significant.
pub open spec fn be_value(b0: u8, b1: u8, b2: u8, b3: u8) -> nat {
    (b0 as nat) * 0x100_0000 + (b1 as nat) * 0x1_0000 + (b2 as nat) * 0x100 + (b3 as nat)
}

/// The bytes of the words of `words`, each word big-endian.
pub open spec fn be_words(words: Seq<u32>) -> Seq<u8>
    decreases words.len(),
{
    if words.len() == 0 {
        Seq::empty()
    } else {
        be_words(words.drop_last()) + be_bytes(words.last())
    }
}

/// The word stored big-endian at byte offset `at` of `data`.
pub open spec fn be_word_at(data: Seq<u8>, at: int) -> u32 {
    be_value(data[at], data[at + 1], data[at + 2], data[at + 3]) as u32
}

/// Chunk `i` of `bits` cut into pieces of eight; the last chunk may be shorter.
pub open spec fn chunk_of(bits: Seq<bool>, i: int) -> Seq<bool> {
    let end = if 8 * i + 8 <= bits.len() { 8 * i + 8 } else { bits.len() as int };
    bits.subrange(8 * i, end)
}

/// Number of chunks of eight bits needed to hold `n` bits.
pub open spec fn chunk_count(n: nat) -> nat {
    (n + 7) / 8
}

/// Reading bits least significant first from the reversed sequence is
/// reading them most significant first.
pub proof fn lemma_lsb_reverse(s: Seq<bool>)
    ensures
        lsb_value(s.reverse()) == msb_value(s),
    decreases s.len(),
{
    if s.len() > 0 {
        let r = s.reverse();
        lemma_lsb_reverse(s.drop_last());
        assert(r[0] == s.last());
        assert(r.drop_first() =~= s.drop_last().reverse());
    }
}

/// The bits of `a` followed by those of `b`: `a` shifted left past `b`, plus `b`.
pub proof fn lemma_msb_concat(a: Seq<bool>, b: Seq<bool>)
    ensures
        msb_value(a + b) == msb_value(a) * pow2(b.len()) + msb_value(b),
    decreases b.len(),
{
    if b.len() == 0 {
        assert(a + b =~= a);
        lemma_pow0(2);
        assert(pow2(0) == 1);
        assert(msb_value(a) * pow2(b.len()) == msb_value(a));
    } else {
        let n = b.len();
        assert((a + b).drop_last() =~= a + b.drop_last());
        assert((a + b).last() == b.last());
        lemma_msb_concat(a, b.drop_last());
        lemma_pow2_unfold(n);
        let x = msb_value(a);
        let p = pow2((n - 1) as nat);
        assert(2 * (x * p) == x * (2 * p)) by (nonlinear_arith);
        assert(msb_value(a + b) == 2 * msb_value(a + b.drop_last()) + bit_value(b.last()));
        assert(msb_value(b) == 2 * msb_value(b.drop_last()) + bit_value(b.last()));
    }
}

proof fn lemma_msb_of_eight(s: Seq<bool>)
    requires
        s.len() == 8,
    ensures
        msb_value(s) == 128 * bit_value(s[0]) + 64 * bit_value(s[1]) + 32 * bit_value(s[2])
            + 16 * bit_value(s[3]) + 8 * bit_value(s[4]) + 4 * bit_value(s[5])
            + 2 * bit_value(s[6]) + bit_value(s[7]),
{
    let s7 = s.drop_last();
    let s6 = s7.drop_last();
    let s5 = s6.drop_last();
    let s4 = s5.drop_last();
    let s3 = s4.drop_last();
    let s2 = s3.drop_last();
    let s1 = s2.drop_last();
    let s0 = s1.drop_last();
    assert(s0.len() == 0);
    assert(msb_value(s0) == 0);
    assert(s1.last() == s[0] && s2.last() == s[1] && s3.last() == s[2] && s4.last() == s[3]);
    assert(s5.last() == s[4] && s6.last() == s[5] && s7.last() == s[6]);
    assert(msb_value(s1) == bit_value(s[0]));
    assert(msb_value(s2) == 2 * msb_value(s1) + bit_value(s[1]));
    assert(msb_value(s3) == 2 * msb_value(s2) + bit_value(s[2]));
    assert(msb_value(s4) == 2 * msb_value(s3) + bit_value(s[3]));
    assert(msb_value(s5) == 2 * msb_value(s4) + bit_value(s[4]));
    assert(msb_value(s6) == 2 * msb_value(s5) + bit_value(s[5]));
    assert(msb_value(s7) == 2 * msb_value(s6) + bit_value(s[6]));
    assert(msb_value(s) == 2 * msb_value(s7) + bit_value(s[7]));
}

/// The eight bits of a byte, most significant first, spell the byte.
pub proof fn lemma_byte_bits_value(x: u8)
    ensures
        msb_value(byte_bits(x)) == x,
{
    let s = byte_bits(x);
    lemma_msb_of_eight(s);
    assert(x == (if bit_of(x, 7) { 128u8 } else { 0u8 }) + (if bit_of(x, 6) { 64u8 } else { 0u8 })
        + (if bit_of(x, 5) { 32u8 } else { 0u8 }) + (if bit_of(x, 4) { 16u8 } else { 0u8 })
        + (if bit_of(x, 3) { 8u8 } else { 0u8 }) + (if bit_of(x, 2) { 4u8 } else { 0u8 })
        + (if bit_of(x, 1) { 2u8 } else { 0u8 }) + (if bit_of(x, 0) { 1u8 } else { 0u8 }))
        by (bit_vector);
}

/// Eight bits read most significant first give a byte whose bits are those eight bits.
pub proof fn lemma_value_byte_bits(s: Seq<bool>)
    requires
        s.len() == 8,
    ensures
        msb_value(s) < 256,
        byte_bits(msb_value(s) as u8) == s,
{
    lemma_msb_of_eight(s);
    let (b0, b1, b2, b3, b4, b5, b6, b7) = (s[0], s[1], s[2], s[3], s[4], s[5], s[6], s[7]);
    let x = msb_value(s) as u8;
    assert(x == (if b0 { 128u8 } else { 0u8 }) + (if b1 { 64u8 } else { 0u8 })
        + (if b2 { 32u8 } else { 0u8 }) + (if b3 { 16u8 } else { 0u8 })
        + (if b4 { 8u8 } else { 0u8 }) + (if b5 { 4u8 } else { 0u8 })
        + (if b6 { 2u8 } else { 0u8 }) + (if b7 { 1u8 } else { 0u8 }));
    assert(bit_of(x, 7) == b0 && bit_of(x, 6) == b1 && bit_of(x, 5) == b2 && bit_of(x, 4) == b3
        && bit_of(x, 3) == b4 && bit_of(x, 2) == b5 && bit_of(x, 1) == b6 && bit_of(x, 0) == b7)
        by (bit_vector)
        requires
            x == (if b0 { 128u8 } else { 0u8 }) + (if b1 { 64u8 } else { 0u8 })
                + (if b2 { 32u8 } else { 0u8 }) + (if b3 { 16u8 } else { 0u8 })
                + (if b4 { 8u8 } else { 0u8 }) + (if b5 { 4u8 } else { 0u8 })
                + (if b6 { 2u8 } else { 0u8 }) + (if b7 { 1u8 } else { 0u8 }),
    ;
    assert(byte_bits(x) =~= s);
}

/// `bits` cut into chunks of eight, each chunk read most significant bit first.
pub open spec fn packed(bits: Seq<bool>) -> Seq<u8> {
    Seq::new(chunk_count(bits.len()), |i: int| msb_value(chunk_of(bits, i)) as u8)
}

/// A big-endian word written out and read back is the same word.
pub proof fn lemma_be_roundtrip(x: u32)
    ensures
        be_bytes(x).len() == 4,
        be_value(be_bytes(x)[0], be_bytes(x)[1], be_bytes(x)[2], be_bytes(x)[3]) == x,
{
    let b = be_bytes(x);
    assert(((x / 0x100_0000) as u8) as nat * 0x100_0000 + ((x / 0x1_0000 % 0x100) as u8) as nat
        * 0x1_0000 + ((x / 0x100 % 0x100) as u8) as nat * 0x100 + ((x % 0x100) as u8) as nat == x)
        by (bit_vector);
}

/// Four bytes read as a big-endian word and written out again are the same bytes.
pub proof fn lemma_be_bytes_of_value(b0: u8, b1: u8, b2: u8, b3: u8)
    ensures
        be_bytes(be_value(b0, b1, b2, b3) as u32) == seq![b0, b1, b2, b3],
{
    let x = be_value(b0, b1, b2, b3) as u32;
    assert(be_value(b0, b1, b2, b3) < 0x1_0000_0000) by (nonlinear_arith);
    assert(x == (b0 as u32) * 0x100_0000 + (b1 as u32) * 0x1_0000 + (b2 as u32) * 0x100 + (b3 as u32));
    assert((x / 0x100_0000) as u8 == b0 && (x / 0x1_0000 % 0x100) as u8 == b1 && (x / 0x100
        % 0x100) as u8 == b2 && (x % 0x100) as u8 == b3) by (bit_vector)
        requires
            x == (b0 as u32) * 0x100_0000 + (b1 as u32) * 0x1_0000 + (b2 as u32) * 0x100 + (b3 as u32),
    ;
    assert(be_bytes(x) =~= seq![b0, b1, b2, b3]);
}

/// Where each word of `words` stands in `be_words(words)`.
pub proof fn lemma_be_words(words: Seq<u32>)
    ensures
        be_words(words).len() == 4 * words.len(),
        forall|i: int, k: int|
            0 <= i < words.len() && 0 <= k < 4 ==> #[trigger] be_words(words)[4 * i + k]
                == be_bytes(words[i])[k],
    decreases words.len(),
{
    if words.len() > 0 {
        lemma_be_words(words.drop_last());
        let n = words.len() - 1;
        assert forall|i: int, k: int|
            0 <= i < words.len() && 0 <= k < 4 implies #[trigger] be_words(words)[4 * i + k]
                == be_bytes(words[i])[k] by {
            if i < n {
                assert(words.drop_last()[i] == words[i]);
            }
        }
    }
}

/// Packing undoes unpacking: the bytes that `pack_bits` makes of the bits
/// that `unpack_bits` spreads out of `data` are `data`.
pub proof fn law_pack_unpack(data: Seq<u8>)
    ensures
        packed(msb_bits(data)) == data,
{
    let bits = msb_bits(data);
    assert(chunk_count(bits.len()) == data.len());
    assert forall|i: int| 0 <= i < data.len() implies #[trigger] packed(bits)[i] == data[i] by {
        let c = chunk_of(bits, i);
        assert(c =~= byte_bits(data[i]));
        lemma_byte_bits_value(data[i]);
    }
    assert(packed(bits) =~= data);
}

/// Unpacking undoes packing when the bits fill whole bytes: the bits that
/// `unpack_bits` spreads out of the bytes that `pack_bits` makes of `bits`
/// are `bits`.
pub proof fn law_unpack_pack(bits: Seq<bool>)
    requires
        bits.len() % 8 == 0,
    ensures
        msb_bits(packed(bits)) == bits,
{
    let bytes = packed(bits);
    assert(bytes.len() * 8 == bits.len());
    assert forall|k: int| 0 <= k < bits.len() implies #[trigger] msb_bits(bytes)[k] == bits[k] by {
        let i = k / 8;
        let c = chunk_of(bits, i);
        assert(c.len() == 8);
        lemma_value_byte_bits(c);
        assert(byte_bits(bytes[i])[k % 8] == c[k % 8]);
    }
    assert(msb_bits(bytes) =~= bits);
}

/// The value of `len` bits of `bits` from `start`, most significant first,
/// read through `bitty`: the chunk reversed, then read least significant
/// first.
pub(crate) fn chunk_value(bits: &Vec<bool>, start: usize, len: usize) -> (value: u8)
    requires
        len <= 8,
        start + len <= bits@.len(),
    ensures
        value == msb_value(bits@.subrange(start as int, start + len)),
{
    let n = bits.len();
    let mut rev: Vec<bool> = Vec::new();
    let mut j: usize = 0;
    while j < len
        invariant
            n == bits@.len(),
            j <= len,
            len <= 8,
            start + len <= bits@.len(),
            rev@.len() == j,
            forall|t: int| 0 <= t < j ==> rev@[t] == bits@[start + len - 1 - t],
        decreases len - j,
    {
        rev.push(bits[start + len - 1 - j]);
        j += 1;
    }
    let ghost sub = bits@.subrange(start as int, start + len);
    proof {
        assert(rev@ =~= sub.reverse());
        lemma_lsb_reverse(sub);
    }
    u8_from_bits(rev.as_slice())
}

/// The word that `bits[b0..b0 + 32]` spells, most significant bit first.
pub(crate) fn word_value(bits: &Vec<bool>, start: usize) -> (value: u32)
    requires
        start + 32 <= bits@.len(),
    ensures
        value == msb_value(bits@.subrange(start as int, start + 32)),
{
    let _n = bits.len();
    let b0 = chunk_value(bits, start, 8);
    let b1 = chunk_value(bits, start + 8, 8);
    let b2 = chunk_value(bits, start + 16, 8);
    let b3 = chunk_value(bits, start + 24, 8);
    proof {
        let s = start as int;
        let c0 = bits@.subrange(s, s + 8);
        let c1 = bits@.subrange(s + 8, s + 16);
        let c2 = bits@.subrange(s + 16, s + 24);
        let c3 = bits@.subrange(s + 24, s + 32);
        lemma2_to64();
        lemma_msb_concat(c0, c1);
        lemma_msb_concat(c0 + c1, c2);
        lemma_msb_concat(c0 + c1 + c2, c3);
        assert(c1.len() == 8 && c2.len() == 8 && c3.len() == 8);
        assert(msb_value(c0 + c1) == b0 * 256 + b1);
        assert(msb_value(c0 + c1 + c2) == (b0 * 256 + b1) * 256 + b2);
        assert(msb_value(c0 + c1 + c2 + c3) == ((b0 * 256 + b1) * 256 + b2) * 256 + b3);
        assert(c0 + c1 + c2 + c3 =~= bits@.subrange(s, s + 32));
        assert(((b0 * 256 + b1) * 256 + b2) * 256 + b3 == be_value(b0, b1, b2, b3)) by (nonlinear_arith);
        assert(msb_value(bits@.subrange(s, s + 32)) == be_value(b0, b1, b2, b3));
    }
    word_from_be(b0, b1, b2, b3)
}

/// The word whose big-endian bytes are `b0 b1 b2 b3`.
pub(crate) fn word_from_be(b0: u8, b1: u8, b2: u8, b3: u8) -> (w: u32)
    ensures
        w == be_value(b0, b1, b2, b3),
{
    let w = ((b0 as u32) << 24u32) | ((b1 as u32) << 16u32) | ((b2 as u32) << 8u32) | (b3 as u32);
    assert(w == (b0 as u32) * 0x100_0000 + (b1 as u32) * 0x1_0000 + (b2 as u32) * 0x100
        + (b3 as u32)) by (bit_vector)
        requires
            w == ((b0 as u32) << 24u32) | ((b1 as u32) << 16u32) | ((b2 as u32) << 8u32) | (b3 as u32),
    ;
    w
}

/// Appends the four bytes of `x`, most significant first.
pub(crate) fn push_be(out: &mut Vec<u8>, x: u32)
    ensures
        final(out)@ == old(out)@ + be_bytes(x),
{
    let b0 = (x >> 24u32) as u8;
    let b1 = ((x >> 16u32) & 0xff) as u8;
    let b2 = ((x >> 8u32) & 0xff) as u8;
    let b3 = (x & 0xff) as u8;
    assert(b0 == (x / 0x100_0000) as u8 && b1 == (x / 0x1_0000 % 0x100) as u8 && b2 == (x / 0x100
        % 0x100) as u8 && b3 == (x % 0x100) as u8) by (bit_vector)
        requires
            b0 == (x >> 24u32) as u8,
            b1 == ((x >> 16u32) & 0xff) as u8,
            b2 == ((x >> 8u32) & 0xff) as u8,
            b3 == (x & 0xff) as u8,
    ;
    out.push(b0);
    out.push(b1);
    out.push(b2);
    out.push(b3);
    assert(final(out)@ =~= old(out)@ + be_bytes(x));
}

/// Spreads bytes into bits, each byte most significant bit first, the way the
/// state frames are read: each byte's bits as `bitty` gives them, reversed.
pub fn unpack_bits(data: &Vec<u8>) -> (bits: Vec<bool>)
    requires
        8 * data@.len() <= usize::MAX,
    ensures
        bits@ == msb_bits(data@),
{
    let mut bits: Vec<bool> = Vec::new();
    let mut i: usize = 0;
    while i < data.len()
        invariant
            i <= data@.len(),
            8 * data@.len() <= usize::MAX,
            bits@.len() == 8 * i,
            forall|k: int| 0 <= k < 8 * i ==> bits@[k] == bit_of(data@[k / 8], 7 - k % 8),
        decreases data@.len() - i,
    {
        let value = u8_as_bits(data[i]);
        let mut j: usize = 0;
        while j < 8
            invariant
                i < data@.len(),
                j <= 8,
                value@.len() == 8,
                forall|k: int| 0 <= k < 8 ==> value@[k] == bit_of(data@[i as int], k),
                bits@.len() == 8 * i + j,
                forall|k: int| 0 <= k < 8 * i + j ==> bits@[k] == bit_of(data@[k / 8], 7 - k % 8),
            decreases 8 - j,
        {
            bits.push(value[7 - j]);
            assert((8 * i + j) / 8 == i as int && (8 * i + j) % 8 == j as int);
            j += 1;
        }
        i += 1;
    }
    assert(bits@ =~= msb_bits(data@));
    bits
}

/// Packs bits into bytes eight at a time, each chunk most significant bit
/// first; a last chunk of fewer than eight bits gives the number it spells.
pub fn pack_bits(bits: &Vec<bool>) -> (bytes: Vec<u8>)
    ensures
        bytes@ == packed(bits@),
{
    let n = bits.len();
    let count: usize = n / 8 + if n % 8 != 0 { 1 } else { 0 };
    assert(count == chunk_count(n as nat));
    let mut bytes: Vec<u8> = Vec::new();
    let mut i: usize = 0;
    while i < count
        invariant
            n == bits@.len(),
            count == chunk_count(n as nat),
            i <= count,
            bytes@.len() == i,
            forall|t: int| 0 <= t < i ==> bytes@[t] == msb_value(chunk_of(bits@, t)) as u8,
        decreases count - i,
    {
        let start = 8 * i;
        let len: usize = if n - start >= 8 { 8 } else { n - start };
        let b = chunk_value(bits, start, len);
        assert(bits@.subrange(start as int, start + len) == chunk_of(bits@, i as int));
        bytes.push(b);
        i += 1;
    }
    assert(bytes@ =~= packed(bits@));
    bytes
}

/// `bitty::FromBits::from_bits` for `u8`: the first bit of the slice is the
/// least significant bit of the result; the crate panics on more than eight bits.
#[verifier::external_body]
pub(crate) fn u8_from_bits(bits: &[bool]) -> (value: u8)
    requires
        bits@.len() <= 8,
    ensures
        value == lsb_value(bits@),
{
    u8::from_bits(bits)
}

/// `bitty::AsBits::as_bits` for `u8`: the eight bits of the byte, least
/// significant first.
#[verifier::external_body]
pub(crate) fn u8_as_bits(x: u8) -> (bits: Vec<bool>)
    ensures
        bits@.len() == 8,
        forall|k: int| 0 <= k < 8 ==> bits@[k] == bit_of(x, k),
{
    x.as_bits()
}

} // verus!
