//! Packed lists of bits over a byte buffer, used to store the long arrays of small values that
//! make up a right ciphertext.
//!
//! Bits are stored little-endian within each byte: bit 0 of a byte is the first one written.

use vstd::prelude::*;

use crate::error::Error;

verus! {

/// Bit `i` of a packed byte buffer.
pub open spec fn bit_at(bytes: Seq<u8>, i: int) -> bool {
    ((bytes[i / 8] >> ((i % 8) as u8)) & 1u8) == 1u8
}

/// Every bit of a packed byte buffer, in order.
pub open spec fn bits_of(bytes: Seq<u8>) -> Seq<bool> {
    Seq::new((8 * bytes.len()) as nat, |i: int| bit_at(bytes, i))
}

/// The number of bytes that hold `n` bits.
pub open spec fn bytes_for(n: nat) -> nat {
    (n + 7) / 8
}

proof fn lemma_or_bit(x: u8, k: u8, j: u8)
    requires
        k < 8,
        j < 8,
    ensures
        j == k ==> ((x | (1u8 << k)) >> j) & 1u8 == 1u8,
        j != k ==> ((x | (1u8 << k)) >> j) & 1u8 == (x >> j) & 1u8,
{
    assert(j == k ==> ((x | (1u8 << k)) >> j) & 1u8 == 1u8) by (bit_vector)
        requires
            k < 8,
            j < 8,
    ;
    assert(j != k ==> ((x | (1u8 << k)) >> j) & 1u8 == (x >> j) & 1u8) by (bit_vector)
        requires
            k < 8,
            j < 8,
    ;
}

proof fn lemma_zero_bits(j: u8)
    requires
        j < 8,
    ensures
        ((0u8 >> j) & 1u8) != 1u8,
{
    assert(((0u8 >> j) & 1u8) != 1u8) by (bit_vector);
}

/// A list of bits that can only grow at its end.
pub struct WritableBitList {
    /// Where the bits are stored.
    list: Vec<u8>,
    /// How many bits have been written.
    len: usize,
}

impl WritableBitList {
    /// The bytes written so far, trailing padding included.
    pub closed spec fn bytes(&self) -> Seq<u8> {
        self.list@
    }

    /// How many bits have been written.
    pub closed spec fn bit_count(&self) -> nat {
        self.len as nat
    }

    /// The bits written so far.
    pub open spec fn view(&self) -> Seq<bool> {
        bits_of(self.bytes()).take(self.bit_count() as int)
    }

    /// The view holds every bit written, and the bytes hold them all.
    pub proof fn lemma_view(&self)
        requires
            self.wf(),
        ensures
            self@.len() == self.bit_count(),
            self.bit_count() <= 8 * self.bytes().len(),
    {
    }

    /// How many bits have been written.
    pub fn len(&self) -> (r: usize)
        requires
            self.wf(),
        ensures
            r == self@.len(),
    {
        self.len
    }

    /// The bytes hold exactly the bits written, followed by zeros up to the byte boundary.
    pub closed spec fn wf(&self) -> bool {
        &&& self.list@.len() == bytes_for(self.len as nat)
        &&& forall|i: int|
            self.len <= i < 8 * self.list@.len() ==> !#[trigger] bit_at(self.list@, i)
    }

    /// Create an empty list; `capacity` is the number of bits expected, a hint only.
    pub fn new(capacity: usize) -> (r: Self)
        ensures
            r.wf(),
            r@ == Seq::<bool>::empty(),
            r.bytes() == Seq::<u8>::empty(),
    {
        let _ = capacity;
        let r = WritableBitList { list: Vec::new(), len: 0 };
        assert(r@ =~= Seq::<bool>::empty());
        r
    }

    /// Add a bit to the end of the list.
    pub fn push(&mut self, b: bool) -> (r: Result<(), Error>)
        requires
            old(self).wf(),
            old(self)@.len() < usize::MAX,
        ensures
            r is Ok,
            final(self).wf(),
            final(self)@ == old(self)@.push(b),
            final(self).bytes().len() == bytes_for(final(self)@.len()),
            forall|i: int|
                final(self)@.len() <= i < 8 * final(self).bytes().len() ==> !#[trigger] bit_at(
                    final(self).bytes(),
                    i,
                ),
    {
        let ghost old_list = self.list@;
        let len = self.len;
        if len % 8 == 0 {
            self.list.push(0u8);
        }
        let idx: usize = len / 8;
        let k: u8 = (len % 8) as u8;
        let ghost mid_list = self.list@;
        proof {
            assert forall|i: int| 0 <= i < 8 * mid_list.len() && i != len implies #[trigger] bit_at(
                mid_list,
                i,
            ) == (if i < 8 * old_list.len() {
                bit_at(old_list, i)
            } else {
                false
            }) by {
                if i >= 8 * old_list.len() {
                    lemma_zero_bits((i % 8) as u8);
                }
            }
            if len % 8 != 0 {
                assert(!bit_at(mid_list, len as int));
            } else {
                lemma_zero_bits(0);
            }
        }
        if b {
            let byte = self.list[idx];
            self.list.set(idx, byte | (1u8 << k));
            proof {
                assert forall|i: int| 0 <= i < 8 * self.list@.len() implies #[trigger] bit_at(
                    self.list@,
                    i,
                ) == (if i == len {
                    true
                } else {
                    bit_at(mid_list, i)
                }) by {
                    lemma_or_bit(byte, k, (i % 8) as u8);
                }
            }
        }
        self.len = len + 1;
        proof {
            assert(self@ =~= old(self)@.push(b));
        }
        Ok(())
    }

    /// The bytes holding the bits pushed so far, padded with zero bits to a whole byte.
    pub fn vec(&self) -> (r: Vec<u8>)
        ensures
            r@ == self.bytes(),
    {
        let mut v: Vec<u8> = Vec::new();
        let mut i: usize = 0;
        while i < self.list.len()
            invariant
                i <= self.list@.len(),
                v@ == self.list@.take(i as int),
            decreases self.list@.len() - i,
        {
            v.push(self.list[i]);
            i = i + 1;
            assert(v@ =~= self.list@.take(i as int));
        }
        assert(self.list@.take(i as int) =~= self.list@);
        v
    }
}

/// A list of bits read one at a time from the front.
pub struct ReadableBitList {
    /// Where the bits are read from.
    list: Vec<u8>,
    /// How many bits have been read.
    pos: usize,
}

impl ReadableBitList {
    /// The bytes being read.
    pub closed spec fn bytes(&self) -> Seq<u8> {
        self.list@
    }

    /// How many bits have been read.
    pub closed spec fn position(&self) -> nat {
        self.pos as nat
    }

    /// No more than the bits present have been read.
    pub closed spec fn wf(&self) -> bool {
        &&& self.pos <= 8 * self.list@.len()
        &&& 8 * self.list@.len() <= usize::MAX
    }

    /// A list over a copy of the given bytes, positioned at its first bit.
    pub fn from_slice(s: &[u8]) -> (r: Self)
        requires
            8 * s@.len() <= usize::MAX,
        ensures
            r.wf(),
            r.bytes() == s@,
            r.position() == 0,
    {
        let mut v: Vec<u8> = Vec::new();
        let mut i: usize = 0;
        while i < s.len()
            invariant
                i <= s@.len(),
                v@ == s@.take(i as int),
            decreases s@.len() - i,
        {
            v.push(s[i]);
            i = i + 1;
            assert(v@ =~= s@.take(i as int));
        }
        assert(s@.take(i as int) =~= s@);
        ReadableBitList { list: v, pos: 0 }
    }

    /// Read the next bit, or `None` past the end of the list.
    pub fn shift(&mut self) -> (r: Option<bool>)
        requires
            old(self).wf(),
        ensures
            final(self).wf(),
            final(self).bytes() == old(self).bytes(),
            old(self).position() < 8 * old(self).bytes().len() ==> r == Some(
                bit_at(old(self).bytes(), old(self).position() as int),
            ) && final(self).position() == old(self).position() + 1,
            old(self).position() >= 8 * old(self).bytes().len() ==> r is None
                && final(self).position() == old(self).position(),
    {
        let idx: usize = self.pos / 8;
        if idx < self.list.len() {
            let k: u8 = (self.pos % 8) as u8;
            let bit = ((self.list[idx] >> k) & 1u8) == 1u8;
            self.pos = self.pos + 1;
            Some(bit)
        } else {
            None
        }
    }

    /// Whether all bits but the padding bits of the last byte have been read.
    pub fn fully_consumed(&self) -> (r: bool)
        requires
            self.wf(),
        ensures
            r == (bytes_for(self.position()) == self.bytes().len()),
    {
        let whole: usize = self.pos / 8;
        if self.pos % 8 == 0 {
            whole == self.list.len()
        } else {
            whole + 1 == self.list.len()
        }
    }
}

} // verus!
