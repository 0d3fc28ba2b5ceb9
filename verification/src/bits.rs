//! A cursor that reads packed bytes one bit at a time, most significant bit first.

use vstd::prelude::*;

verus! {

/// The bit of `byte` that stands `k` places below its most significant bit,
/// for `k` from 0 to 7.
pub open spec fn bit_of_byte(byte: u8, k: int) -> u8 {
    if k == 0 {
        byte / 128 % 2
    } else if k == 1 {
        byte / 64 % 2
    } else if k == 2 {
        byte / 32 % 2
    } else if k == 3 {
        byte / 16 % 2
    } else if k == 4 {
        byte / 8 % 2
    } else if k == 5 {
        byte / 4 % 2
    } else if k == 6 {
        byte / 2 % 2
    } else {
        byte % 2
    }
}

/// Bit `i` of a packed byte string: the bit of byte `i / 8` that stands
/// `i % 8` places below that byte's most significant bit.
pub open spec fn bit_at(bytes: Seq<u8>, i: int) -> u8 {
    bit_of_byte(bytes[i / 8], i % 8)
}

/// On eight-bit values the shift pair `(byte << k) >> 7` selects the bit that
/// stands `k` places below the most significant one.
proof fn lemma_shift_selects_bit(byte: u8, k: u8)
    requires
        k < 8,
    ensures
        (byte << k) >> 7u8 == bit_of_byte(byte, k as int),
{
    let r = (byte << k) >> 7u8;
    assert({
        &&& k == 0 ==> r == byte / 128 % 2
        &&& k == 1 ==> r == byte / 64 % 2
        &&& k == 2 ==> r == byte / 32 % 2
        &&& k == 3 ==> r == byte / 16 % 2
        &&& k == 4 ==> r == byte / 8 % 2
        &&& k == 5 ==> r == byte / 4 % 2
        &&& k == 6 ==> r == byte / 2 % 2
        &&& k == 7 ==> r == byte % 2
    }) by (bit_vector)
        requires
            r == (byte << k) >> 7u8,
            k < 8,
    ;
}

/// A raw bit cursor over a byte slice. It has no length of its own: it yields
/// every bit of the slice, first to last, and then nothing.
pub struct BitIterator<'a> {
    slice: &'a [u8],
    byte: usize,
    bit: u8,
}

impl<'a> BitIterator<'a> {
    #[verifier::type_invariant]
    spec fn inv(self) -> bool {
        &&& self.byte <= self.slice@.len()
        &&& self.bit < 8
        &&& self.byte == self.slice@.len() ==> self.bit == 0
    }

    /// The bytes under the cursor.
    pub closed spec fn bytes(self) -> Seq<u8> {
        self.slice@
    }

    /// The index of the bit that `next` yields next.
    pub closed spec fn index(self) -> nat {
        (self.byte * 8 + self.bit) as nat
    }

    /// A cursor at the first bit of `slice`.
    pub fn new(slice: &'a [u8]) -> (iter: Self)
        ensures
            iter.bytes() == slice@,
            iter.index() == 0,
    {
        Self { slice, byte: 0, bit: 0 }
    }

    /// Yields the bit under the cursor and moves one bit on; at the end of
    /// the slice it yields nothing and stays where it is.
    pub fn next(&mut self) -> (bit: Option<u8>)
        ensures
            final(self).bytes() == old(self).bytes(),
            old(self).index() < 8 * old(self).bytes().len() ==> {
                &&& bit == Some(bit_at(old(self).bytes(), old(self).index() as int))
                &&& final(self).index() == old(self).index() + 1
            },
            old(self).index() >= 8 * old(self).bytes().len() ==> {
                &&& bit is None
                &&& final(self).index() == old(self).index()
            },
    {
        proof {
            use_type_invariant(&*self);
        }
        if self.byte >= self.slice.len() {
            return None;
        }
        let bits = self.slice[self.byte];
        let bit = (bits << self.bit) >> 7u8;
        proof {
            lemma_shift_selects_bit(bits, self.bit);
        }
        if self.bit == 7 {
            self.bit = 0;
            self.byte = self.byte + 1;
        } else {
            self.bit = self.bit + 1;
        }
        Some(bit)
    }

    /// Limits the cursor to its next `n` bits.
    pub fn take(self, n: usize) -> (taken: Take<'a>)
        ensures
            taken.bytes() == self.bytes(),
            taken.index() == self.index(),
            taken.remaining() == n,
    {
        Take { iter: self, n }
    }
}

/// A bit cursor that stops after a set number of steps.
pub struct Take<'a> {
    iter: BitIterator<'a>,
    n: usize,
}

impl<'a> Take<'a> {
    /// The bytes under the cursor.
    pub closed spec fn bytes(self) -> Seq<u8> {
        self.iter.bytes()
    }

    /// The index of the bit that `next` yields next.
    pub closed spec fn index(self) -> nat {
        self.iter.index()
    }

    /// How many more steps the cursor may take.
    pub closed spec fn remaining(self) -> nat {
        self.n as nat
    }

    /// Takes one step of the underlying cursor, unless the allowance is used
    /// up. A step at the end of the slice still counts against the allowance.
    pub fn next(&mut self) -> (bit: Option<u8>)
        ensures
            final(self).bytes() == old(self).bytes(),
            old(self).remaining() == 0 ==> {
                &&& bit is None
                &&& final(self).index() == old(self).index()
                &&& final(self).remaining() == 0
            },
            old(self).remaining() > 0 ==> final(self).remaining() == old(self).remaining() - 1,
            old(self).remaining() > 0 && old(self).index() < 8 * old(self).bytes().len() ==> {
                &&& bit == Some(bit_at(old(self).bytes(), old(self).index() as int))
                &&& final(self).index() == old(self).index() + 1
            },
            old(self).remaining() > 0 && old(self).index() >= 8 * old(self).bytes().len() ==> {
                &&& bit is None
                &&& final(self).index() == old(self).index()
            },
    {
        if self.n != 0 {
            self.n = self.n - 1;
            self.iter.next()
        } else {
            None
        }
    }
}

} // verus!
