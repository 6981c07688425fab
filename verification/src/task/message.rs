//! Command frames sent to the controller: eight flag bits, byte registers and
//! float registers, set by name.

use vstd::prelude::*;
use crate::bits::{msb_value, be_words, lemma_lsb_reverse, u8_from_bits, push_be};

verus! {

/// A register value. A float is carried as its IEEE-754 bit pattern.
#[derive(Clone, Copy, Debug, PartialEq, Eq, Structural)]
pub enum Value {
    Bool(bool),
    Int(u8),
    Float(u32),
}

/// Whether two strings are the same text.
pub fn same_text(a: &str, b: &str) -> (same: bool)
    ensures
        same == (a@ == b@),
{
    a.to_owned() == b.to_owned()
}

/// The register that `key` names in a command frame: flags `LIGHT`,
/// `X_REST_STATE`, `Y_REST_STATE`, `X_TRIGGER`, `Y_TRIGGER` at flag positions
/// 7 down to 3; floats `X_POSITION`, `Y_POSITION`, `SPEED` at 0, 1, 2.
pub open spec fn command_slot(key: Seq<char>) -> Option<usize> {
    if key == "LIGHT"@ {
        Some(7)
    } else if key == "X_REST_STATE"@ {
        Some(6)
    } else if key == "Y_REST_STATE"@ {
        Some(5)
    } else if key == "X_TRIGGER"@ {
        Some(4)
    } else if key == "Y_TRIGGER"@ {
        Some(3)
    } else if key == "X_POSITION"@ {
        Some(0)
    } else if key == "Y_POSITION"@ {
        Some(1)
    } else if key == "SPEED"@ {
        Some(2)
    } else {
        None
    }
}

/// Where each of the eight command keys stands.
pub proof fn lemma_command_slots()
    ensures
        command_slot("LIGHT"@) == Some(7usize),
        command_slot("X_REST_STATE"@) == Some(6usize),
        command_slot("Y_REST_STATE"@) == Some(5usize),
        command_slot("X_TRIGGER"@) == Some(4usize),
        command_slot("Y_TRIGGER"@) == Some(3usize),
        command_slot("X_POSITION"@) == Some(0usize),
        command_slot("Y_POSITION"@) == Some(1usize),
        command_slot("SPEED"@) == Some(2usize),
{
    reveal_strlit("LIGHT");
    reveal_strlit("X_REST_STATE");
    reveal_strlit("Y_REST_STATE");
    reveal_strlit("X_TRIGGER");
    reveal_strlit("Y_TRIGGER");
    reveal_strlit("X_POSITION");
    reveal_strlit("Y_POSITION");
    reveal_strlit("SPEED");
    assert("LIGHT"@.len() == 5 && "SPEED"@.len() == 5);
    assert("X_REST_STATE"@.len() == 12 && "Y_REST_STATE"@.len() == 12);
    assert("X_TRIGGER"@.len() == 9 && "Y_TRIGGER"@.len() == 9);
    assert("X_POSITION"@.len() == 10 && "Y_POSITION"@.len() == 10);
    assert("LIGHT"@[0] != "SPEED"@[0]);
    assert("X_REST_STATE"@[0] != "Y_REST_STATE"@[0]);
    assert("X_TRIGGER"@[0] != "Y_TRIGGER"@[0]);
    assert("X_POSITION"@[0] != "Y_POSITION"@[0]);
}

/// A command frame: the flags packed into one byte (first flag most
/// significant), then the byte registers, then each float big-endian.
pub open spec fn frame(bools: Seq<bool>, ints: Seq<u8>, floats: Seq<u32>) -> Seq<u8> {
    seq![msb_value(bools) as u8] + ints + be_words(floats)
}

/// A command being built: flags, float registers (bit patterns), byte
/// registers, and every (key, value) set so far, in order.
pub struct Msg {
    pub bools: Vec<bool>,
    pub floats: Vec<u32>,
    pub ints: Vec<u8>,
    pub conditions: Vec<(&'static str, Value)>,
}

impl Msg {
    /// Whether register `index` exists in the block that `value` is written to.
    pub open spec fn fits(&self, index: usize, value: Value) -> bool {
        match value {
            Value::Bool(_) => index < self.bools@.len(),
            Value::Int(_) => index < self.ints@.len(),
            Value::Float(_) => index < self.floats@.len(),
        }
    }

    /// A fresh command: eight clear flags, three zero floats, no byte
    /// registers, nothing set.
    pub fn new() -> (msg: Msg)
        ensures
            msg.bools@ == seq![false, false, false, false, false, false, false, false],
            msg.floats@ == seq![0u32, 0u32, 0u32],
            msg.ints@ == Seq::<u8>::empty(),
            msg.conditions@ == Seq::<(&'static str, Value)>::empty(),
    {
        let msg = Msg {
            bools: vec![false; 8],
            floats: vec![0u32; 3],
            ints: Vec::new(),
            conditions: Vec::new(),
        };
        assert(msg.bools@ =~= seq![false, false, false, false, false, false, false, false]);
        assert(msg.floats@ =~= seq![0u32, 0u32, 0u32]);
        msg
    }

    /// Replaces the flags and the float registers.
    pub fn load(&mut self, bools: Vec<bool>, floats: Vec<u32>)
        ensures
            final(self).bools@ == bools@,
            final(self).floats@ == floats@,
            final(self).ints@ == old(self).ints@,
            final(self).conditions@ == old(self).conditions@,
    {
        self.bools = bools;
        self.floats = floats;
    }

    /// The register position of `key`, or `Err("Found nothing")`.
    pub fn index(&self, key: &str) -> (r: Result<usize, &'static str>)
        ensures
            match command_slot(key@) {
                Some(i) => r == Ok::<usize, &'static str>(i),
                None => r == Err::<usize, &'static str>("Found nothing"),
            },
    {
        if same_text(key, "LIGHT") {
            Ok(7)
        } else if same_text(key, "X_REST_STATE") {
            Ok(6)
        } else if same_text(key, "Y_REST_STATE") {
            Ok(5)
        } else if same_text(key, "X_TRIGGER") {
            Ok(4)
        } else if same_text(key, "Y_TRIGGER") {
            Ok(3)
        } else if same_text(key, "X_POSITION") {
            Ok(0)
        } else if same_text(key, "Y_POSITION") {
            Ok(1)
        } else if same_text(key, "SPEED") {
            Ok(2)
        } else {
            Err("Found nothing")
        }
    }

    /// Sets the register that `key` names to `value`, in the block of
    /// `value`'s kind, and records `(key, value)` among the conditions.
    /// An unknown key gives `Err("Found nothing")` and changes nothing.
    pub fn set(&mut self, key: &'static str, value: Value) -> (r: Result<(), &'static str>)
        requires
            command_slot(key@) matches Some(i) ==> old(self).fits(i, value),
        ensures
            match command_slot(key@) {
                None => {
                    &&& r == Err::<(), &'static str>("Found nothing")
                    &&& final(self).bools@ == old(self).bools@
                    &&& final(self).ints@ == old(self).ints@
                    &&& final(self).floats@ == old(self).floats@
                    &&& final(self).conditions@ == old(self).conditions@
                },
                Some(i) => {
                    &&& r == Ok::<(), &'static str>(())
                    &&& final(self).conditions@ == old(self).conditions@.push((key, value))
                    &&& final(self).bools@ == match value {
                        Value::Bool(v) => old(self).bools@.update(i as int, v),
                        _ => old(self).bools@,
                    }
                    &&& final(self).ints@ == match value {
                        Value::Int(v) => old(self).ints@.update(i as int, v),
                        _ => old(self).ints@,
                    }
                    &&& final(self).floats@ == match value {
                        Value::Float(v) => old(self).floats@.update(i as int, v),
                        _ => old(self).floats@,
                    }
                },
            },
    {
        let index = match self.index(key) {
            Ok(i) => i,
            Err(e) => {
                return Err(e);
            },
        };
        self.conditions.push((key, value));
        match value {
            Value::Bool(v) => {
                self.bools.set(index, v);
            },
            Value::Int(v) => {
                self.ints.set(index, v);
            },
            Value::Float(v) => {
                self.floats.set(index, v);
            },
        }
        Ok(())
    }

    /// The frame that carries this command.
    pub fn to_bytes(&self) -> (bytes: Vec<u8>)
        requires
            self.bools@.len() <= 8,
        ensures
            bytes@ == frame(self.bools@, self.ints@, self.floats@),
    {
        let n = self.bools.len();
        let mut reversed: Vec<bool> = Vec::new();
        let mut j: usize = 0;
        while j < n
            invariant
                n == self.bools@.len(),
                j <= n,
                reversed@.len() == j,
                forall|t: int| 0 <= t < j ==> reversed@[t] == self.bools@[n - 1 - t],
            decreases n - j,
        {
            reversed.push(self.bools[n - 1 - j]);
            j += 1;
        }
        proof {
            assert(reversed@ =~= self.bools@.reverse());
            lemma_lsb_reverse(self.bools@);
        }
        let flags = u8_from_bits(reversed.as_slice());
        let mut results: Vec<u8> = Vec::new();
        results.push(flags);
        let mut i: usize = 0;
        while i < self.ints.len()
            invariant
                i <= self.ints@.len(),
                results@ == seq![flags] + self.ints@.subrange(0, i as int),
            decreases self.ints@.len() - i,
        {
            results.push(self.ints[i]);
            i += 1;
            assert(results@ =~= seq![flags] + self.ints@.subrange(0, i as int));
        }
        assert(self.ints@.subrange(0, self.ints@.len() as int) =~= self.ints@);
        let mut fi: usize = 0;
        while fi < self.floats.len()
            invariant
                fi <= self.floats@.len(),
                results@ == seq![flags] + self.ints@ + be_words(self.floats@.subrange(0, fi as int)),
            decreases self.floats@.len() - fi,
        {
            push_be(&mut results, self.floats[fi]);
            proof {
                let ws = self.floats@.subrange(0, fi + 1);
                assert(ws.drop_last() =~= self.floats@.subrange(0, fi as int));
            }
            fi += 1;
        }
        assert(self.floats@.subrange(0, self.floats@.len() as int) =~= self.floats@);
        results
    }
}

} // verus!
