//! Reading unsigned integers from a byte sequence at arbitrary bit positions.

use vstd::prelude::*;
use vstd::slice::slice_subrange;
use vstd::arithmetic::power2::{lemma2_to64, lemma_pow2_unfold, pow2};
use crate::error::DecodeError;

verus! {

/// The weight of the bit at index `k` of a byte, counting from the most
/// significant bit (index 0) to the least significant one (index 7).
pub open spec fn bit_weight(k: int) -> int {
    if k == 0 {
        128
    } else if k == 1 {
        64
    } else if k == 2 {
        32
    } else if k == 3 {
        16
    } else if k == 4 {
        8
    } else if k == 5 {
        4
    } else if k == 6 {
        2
    } else {
        1
    }
}

/// Bit number `i` of `bytes` as 0 or 1, where bit 0 is the most significant
/// bit of the first byte.
pub open spec fn bit_at(bytes: Seq<u8>, i: int) -> nat {
    ((bytes[i / 8] as int / bit_weight(i % 8)) % 2) as nat
}

/// The number of bits in `bytes`.
pub open spec fn bit_len(bytes: Seq<u8>) -> nat {
    8 * bytes.len()
}

/// The unsigned integer written by the `count` bits of `bytes` that start at
/// bit `start`, most significant bit first.
pub open spec fn be_value(bytes: Seq<u8>, start: int, count: nat) -> nat
    decreases count,
{
    if count == 0 {
        0
    } else {
        2 * be_value(bytes, start, (count - 1) as nat) + bit_at(bytes, start + count - 1)
    }
}

/// The error of a nom parser over bit input.
#[verifier::external_type_specification]
#[verifier::external_body]
#[verifier::reject_recursive_types(E)]
pub struct ExNomErr<E>(nom::Err<E>);

/// The position and code that nom reports with a failed parse.
#[verifier::external_type_specification]
#[verifier::external_body]
#[verifier::reject_recursive_types(I)]
pub struct ExNomError<I>(nom::error::Error<I>);

/// Calls `nom::bits::complete::take` with `count` on the bit input
/// `(input, bit_offset)`.
///
/// Believed of nom: the parser fails exactly when `count` is positive and
/// fewer than `bit_offset + count` bits are in `input`; otherwise it returns
/// the big-endian value of the `count` bits after the first `bit_offset`
/// bits, together with the input that follows them: the bytes from the one
/// that holds the next unread bit on, and that bit's index in its byte.
#[verifier::external_body]
fn take_bits<'a>(input: &'a [u8], bit_offset: usize, count: usize) -> (r: Result<
    ((&'a [u8], usize), u64),
    nom::Err<nom::error::Error<(&'a [u8], usize)>>,
>)
    requires
        bit_offset < 8,
        count <= 64,
        8 * input@.len() <= usize::MAX,
    ensures
        r is Ok <==> count == 0 || bit_offset + count <= 8 * input@.len(),
        r matches Ok(((rest, off), v)) ==> {
            &&& rest@ == input@.skip((bit_offset + count) / 8)
            &&& off == (bit_offset + count) % 8
            &&& v == be_value(input@, bit_offset as int, count as nat)
        },
{
    nom::bits::complete::take(count)((input, bit_offset))
}

/// `count` bits spell a number below two to the power `count`.
pub proof fn lemma_be_value_bound(bytes: Seq<u8>, start: int, count: nat)
    ensures
        be_value(bytes, start, count) < pow2(count),
    decreases count,
{
    if count == 0 {
        lemma2_to64();
    } else {
        lemma_be_value_bound(bytes, start, (count - 1) as nat);
        lemma_pow2_unfold(count);
    }
}

/// One bit spells its own value.
pub proof fn lemma_be_value_one(bytes: Seq<u8>, start: int)
    ensures
        be_value(bytes, start, 1) == bit_at(bytes, start),
{
    reveal_with_fuel(be_value, 2);
}

/// Shifting the input by whole bytes shifts every bit index by a multiple
/// of eight.
pub proof fn lemma_be_value_skip(bytes: Seq<u8>, k: int, start: int, count: nat)
    requires
        0 <= k <= bytes.len(),
        0 <= start,
        start + count <= 8 * (bytes.len() - k),
    ensures
        be_value(bytes.skip(k), start, count) == be_value(bytes, 8 * k + start, count),
    decreases count,
{
    if count > 0 {
        lemma_be_value_skip(bytes, k, start, (count - 1) as nat);
    }
}

/// A read position in a byte sequence, counted in bits from its start.
///
/// Bits are consumed from the most significant bit of the first byte on;
/// the position only ever moves forward.
#[derive(Clone, Copy, Debug)]
pub struct BitCursor<'a> {
    bytes: &'a [u8],
    offset: usize,
}

impl<'a> BitCursor<'a> {
    /// The bytes that the cursor reads from.
    pub closed spec fn bytes(&self) -> Seq<u8> {
        self.bytes@
    }

    /// The number of bits consumed so far.
    pub closed spec fn pos(&self) -> nat {
        self.offset as nat
    }

    /// The position lies within the input, whose bit length fits a `usize`.
    pub open spec fn wf(&self) -> bool {
        &&& bit_len(self.bytes()) <= usize::MAX
        &&& self.pos() <= bit_len(self.bytes())
    }

    /// The number of bits that are left to read.
    pub open spec fn remaining(&self) -> nat {
        (bit_len(self.bytes()) - self.pos()) as nat
    }

    /// A cursor at the first bit of `bytes`.
    pub fn new(bytes: &'a [u8]) -> (c: Self)
        requires
            8 * bytes@.len() <= usize::MAX,
        ensures
            c.wf(),
            c.bytes() == bytes@,
            c.pos() == 0,
    {
        BitCursor { bytes, offset: 0 }
    }

    /// The number of bits that are left to read.
    pub fn remaining_bits(&self) -> (n: usize)
        requires
            self.wf(),
        ensures
            n == self.remaining(),
    {
        self.bytes.len() * 8 - self.offset
    }

    /// Reads the next `n` bits as an unsigned integer, most significant bit
    /// first, and moves past them. Where fewer than `n` bits are left, the
    /// cursor stays where it is.
    pub fn take(&mut self, n: usize) -> (r: Result<u64, DecodeError>)
        requires
            old(self).wf(),
            n <= 64,
        ensures
            final(self).wf(),
            final(self).bytes() == old(self).bytes(),
            match r {
                Ok(v) => {
                    &&& n <= old(self).remaining()
                    &&& v == be_value(old(self).bytes(), old(self).pos() as int, n as nat)
                    &&& final(self).pos() == old(self).pos() + n
                },
                Err(e) => {
                    &&& e == DecodeError::ExhaustedInput
                    &&& n > old(self).remaining()
                    &&& final(self).pos() == old(self).pos()
                },
            },
    {
        let first: usize = self.offset / 8;
        let rest = slice_subrange(self.bytes, first, self.bytes.len());
        match take_bits(rest, self.offset % 8, n) {
            Ok((_, v)) => {
                proof {
                    if n > 0 {
                        lemma_be_value_skip(
                            self.bytes@,
                            first as int,
                            (self.offset % 8) as int,
                            n as nat,
                        );
                    }
                }
                self.offset = self.offset + n;
                Ok(v)
            },
            Err(_) => Err(DecodeError::ExhaustedInput),
        }
    }
}

} // verus!
