//! A transmission from end to end: load, decode, evaluate.

use vstd::prelude::*;
use vstd::string::StringSliceAdditionalSpecFns;
use crate::bits::{be_value, bit_at, bit_len, BitCursor};
use crate::decoder::decode_packet;
use crate::error::DecodeError;
use crate::eval::{evaluate, evaluation, lemma_literal_evaluation};
use crate::loader::{load, loaded};
use crate::packet::{lemma_single_group_literal, parse_packet, LITERAL_TYPE};

verus! {

/// The value and the version sum of the packet that starts at bit `pos` of
/// `bytes`, in this order, and the number of bits that the packet takes.
pub open spec fn reading(bytes: Seq<u8>, pos: int) -> Result<((u64, u64), nat), DecodeError> {
    match parse_packet(bytes, pos) {
        Err(e) => Err(e),
        Ok((packet, used)) => match evaluation(packet) {
            Ok((versions, value)) => Ok(((value, versions), used)),
            Err(e) => Err(e),
        },
    }
}

/// Decodes the packet at the cursor and evaluates it: returns its value and
/// its version sum, in this order, and moves the cursor past the packet.
/// Where either step fails, the cursor stays where it is.
pub fn read(cursor: &mut BitCursor) -> (r: Result<(u64, u64), DecodeError>)
    requires
        old(cursor).wf(),
    ensures
        final(cursor).wf(),
        final(cursor).bytes() == old(cursor).bytes(),
        match reading(old(cursor).bytes(), old(cursor).pos() as int) {
            Ok((pair, used)) => r == Ok::<(u64, u64), DecodeError>(pair) && final(cursor).pos()
                == old(cursor).pos() + used,
            Err(e) => r == Err::<(u64, u64), DecodeError>(e) && final(cursor).pos() == old(
                cursor,
            ).pos(),
        },
{
    let mut cur = *cursor;
    let packet = match decode_packet(&mut cur) {
        Ok(p) => p,
        Err(e) => { return Err(e); },
    };
    match evaluate(&packet) {
        Ok((versions, value)) => {
            *cursor = cur;
            Ok((value, versions))
        },
        Err(e) => Err(e),
    }
}

/// The version sum and the value of the transmission `text`, in this order.
pub open spec fn answer(text: Seq<u8>) -> Result<(u64, u64), DecodeError> {
    match loaded(text) {
        Err(e) => Err(e),
        Ok(bytes) => match parse_packet(bytes, 0) {
            Err(e) => Err(e),
            Ok((packet, _)) => evaluation(packet),
        },
    }
}

/// Loads the hexadecimal text of a transmission, decodes the packet at its
/// start and evaluates it: returns the version sum and the value, in this
/// order. Bits after the packet are ignored.
pub fn run(text: &str) -> (r: Result<(u64, u64), DecodeError>)
    requires
        4 * text.spec_bytes().len() + 4 <= usize::MAX,
    ensures
        r == answer(text.spec_bytes()),
{
    let bytes = match load(text) {
        Ok(v) => v,
        Err(e) => { return Err(e); },
    };
    let mut cursor = BitCursor::new(bytes.as_slice());
    match decode_packet(&mut cursor) {
        Ok(packet) => evaluate(&packet),
        Err(e) => Err(e),
    }
}

/// A literal of one group has the four payload bits of that group for its
/// value and its own version for its version sum.
pub proof fn lemma_single_group_reading(bytes: Seq<u8>, pos: int)
    requires
        0 <= pos,
        pos + 11 <= bit_len(bytes),
        be_value(bytes, pos + 3, 3) == LITERAL_TYPE,
        bit_at(bytes, pos + 6) == 0,
    ensures
        reading(bytes, pos) == Ok::<((u64, u64), nat), DecodeError>(
            ((be_value(bytes, pos + 7, 4) as u64, be_value(bytes, pos, 3) as u64), 11),
        ),
{
    lemma_single_group_literal(bytes, pos);
    lemma_literal_evaluation(
        be_value(bytes, pos, 3) as u8,
        be_value(bytes, pos + 7, 4) as u64,
    );
}

} // verus!
