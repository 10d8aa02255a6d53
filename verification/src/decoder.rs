//! The recursive-descent decoder of the packet format.

use vstd::prelude::*;
use vstd::arithmetic::power2::{lemma2_to64, pow2};
use crate::bits::{
    be_value, bit_at, bit_len, lemma_be_value_bound, lemma_be_value_one, BitCursor,
};
use crate::error::DecodeError;
use crate::packet::{
    bits_left, lemma_children_bits_step, lemma_children_count_step, lemma_group_by_bits,
    lemma_models_push,
    lemma_prepend_done, lemma_prepend_twice, models, parse_children_bits, parse_children_count,
    after, parse_group, parse_length_mode, parse_literal, parse_packet, prepend, LengthMode,
    Packet, PacketModel, LITERAL_TYPE,
};

verus! {

/// The number of bits from bit `input.1` of `input.0` to its end.
pub fn calc_length(input: (&[u8], usize)) -> (n: usize)
    requires
        8 * input.0@.len() <= usize::MAX,
        input.1 <= 8 * input.0@.len(),
    ensures
        n == bits_left(input.0@, input.1 as int),
{
    input.0.len() * 8 - input.1
}

/// Reads the three bits of a packet's version.
pub fn read_version(cursor: &mut BitCursor) -> (r: Result<u8, DecodeError>)
    requires
        old(cursor).wf(),
    ensures
        final(cursor).wf(),
        final(cursor).bytes() == old(cursor).bytes(),
        match r {
            Ok(v) => {
                &&& old(cursor).remaining() >= 3
                &&& v == be_value(old(cursor).bytes(), old(cursor).pos() as int, 3)
                &&& v < 8
                &&& final(cursor).pos() == old(cursor).pos() + 3
            },
            Err(e) => {
                &&& e == DecodeError::ExhaustedInput
                &&& old(cursor).remaining() < 3
                &&& final(cursor).pos() == old(cursor).pos()
            },
        },
{
    proof {
        lemma2_to64();
    }
    read_small(cursor, 3)
}

/// Reads the three bits of a packet's type.
pub fn read_type(cursor: &mut BitCursor) -> (r: Result<u8, DecodeError>)
    requires
        old(cursor).wf(),
    ensures
        final(cursor).wf(),
        final(cursor).bytes() == old(cursor).bytes(),
        match r {
            Ok(v) => {
                &&& old(cursor).remaining() >= 3
                &&& v == be_value(old(cursor).bytes(), old(cursor).pos() as int, 3)
                &&& v < 8
                &&& final(cursor).pos() == old(cursor).pos() + 3
            },
            Err(e) => {
                &&& e == DecodeError::ExhaustedInput
                &&& old(cursor).remaining() < 3
                &&& final(cursor).pos() == old(cursor).pos()
            },
        },
{
    proof {
        lemma2_to64();
    }
    read_small(cursor, 3)
}

/// Reads a field of at most eight bits.
fn read_small(cursor: &mut BitCursor, n: usize) -> (r: Result<u8, DecodeError>)
    requires
        old(cursor).wf(),
        n <= 8,
    ensures
        final(cursor).wf(),
        final(cursor).bytes() == old(cursor).bytes(),
        match r {
            Ok(v) => {
                &&& old(cursor).remaining() >= n
                &&& v == be_value(old(cursor).bytes(), old(cursor).pos() as int, n as nat)
                &&& v < pow2(n as nat)
                &&& final(cursor).pos() == old(cursor).pos() + n
            },
            Err(e) => {
                &&& e == DecodeError::ExhaustedInput
                &&& old(cursor).remaining() < n
                &&& final(cursor).pos() == old(cursor).pos()
            },
        },
{
    proof {
        lemma_be_value_bound(cursor.bytes(), cursor.pos() as int, n as nat);
        lemma2_to64();
    }
    match cursor.take(n) {
        Ok(v) => Ok(v as u8),
        Err(e) => Err(e),
    }
}

/// Reads the groups of a literal and returns the number they spell. Where
/// they cannot be read, or spell a number that does not fit in 64 bits, the
/// cursor stays where it is.
pub fn read_literal(cursor: &mut BitCursor) -> (r: Result<u64, DecodeError>)
    requires
        old(cursor).wf(),
    ensures
        final(cursor).wf(),
        final(cursor).bytes() == old(cursor).bytes(),
        match parse_literal(old(cursor).bytes(), old(cursor).pos() as int, 0) {
            Ok((v, used)) => r == Ok::<u64, DecodeError>(v) && final(cursor).pos() == old(
                cursor,
            ).pos() + used,
            Err(e) => r == Err::<u64, DecodeError>(e) && final(cursor).pos() == old(cursor).pos(),
        },
{
    let mut cur = *cursor;
    let mut literal: u64 = 0;
    let ghost bytes = cursor.bytes();
    let ghost start = cursor.pos();
    loop
        invariant
            cur.wf(),
            cur.bytes() == bytes,
            *cursor == *old(cursor),
            bytes == cursor.bytes(),
            start == cursor.pos(),
            cursor.wf(),
            start <= cur.pos(),
            parse_literal(bytes, start as int, 0) == after(
                (cur.pos() - start) as nat,
                parse_literal(bytes, cur.pos() as int, literal as nat),
            ),
        decreases cur.remaining(),
    {
        let ghost group = cur.pos() as int;
        proof {
            lemma_be_value_one(bytes, group);
        }
        let more = match read_small(&mut cur, 1) {
            Ok(b) => b,
            Err(e) => { return Err(e); },
        };
        let nibble = match read_small(&mut cur, 4) {
            Ok(v) => v,
            Err(e) => { return Err(e); },
        };
        if literal > (u64::MAX - nibble as u64) / 16 {
            return Err(DecodeError::Overflow);
        }
        literal = literal * 16 + nibble as u64;
        if more == 0 {
            *cursor = cur;
            return Ok(literal);
        }
    }
}

/// Reads the length mode of an operator: the length type bit and the
/// length that goes with it. Where the input ends too early, the cursor
/// stays where it is.
pub fn read_length_mode(cursor: &mut BitCursor) -> (r: Result<LengthMode, DecodeError>)
    requires
        old(cursor).wf(),
    ensures
        final(cursor).wf(),
        final(cursor).bytes() == old(cursor).bytes(),
        match parse_length_mode(old(cursor).bytes(), old(cursor).pos() as int) {
            Ok((mode, used)) => r == Ok::<LengthMode, DecodeError>(mode) && final(cursor).pos()
                == old(cursor).pos() + used,
            Err(e) => r == Err::<LengthMode, DecodeError>(e) && final(cursor).pos() == old(
                cursor,
            ).pos(),
        },
{
    let mut cur = *cursor;
    proof {
        lemma_be_value_one(cursor.bytes(), cursor.pos() as int);
        lemma_be_value_bound(cursor.bytes(), cursor.pos() as int + 1, 15);
        lemma_be_value_bound(cursor.bytes(), cursor.pos() as int + 1, 11);
        lemma2_to64();
    }
    let by_count = match read_small(&mut cur, 1) {
        Ok(b) => b,
        Err(e) => { return Err(e); },
    };
    let mode = if by_count == 0 {
        match cur.take(15) {
            Ok(total) => LengthMode::TotalBits(total as usize),
            Err(e) => { return Err(e); },
        }
    } else {
        match cur.take(11) {
            Ok(count) => LengthMode::Count(count as usize),
            Err(e) => { return Err(e); },
        }
    };
    *cursor = cur;
    Ok(mode)
}

/// Reads the payload of an operator: its length mode and the sub-packets
/// that the mode delimits. Where that fails, the cursor stays where it is.
pub fn read_subpackets(cursor: &mut BitCursor) -> (r: Result<Vec<Packet>, DecodeError>)
    requires
        old(cursor).wf(),
    ensures
        final(cursor).wf(),
        final(cursor).bytes() == old(cursor).bytes(),
        match parse_group(old(cursor).bytes(), old(cursor).pos() as int) {
            Ok((children, used)) => {
                &&& r matches Ok(v)
                &&& models(v@) == children
                &&& final(cursor).pos() == old(cursor).pos() + used
            },
            Err(e) => {
                &&& r matches Err(x)
                &&& x == e
                &&& final(cursor).pos() == old(cursor).pos()
            },
        },
        r is Ok ==> (parse_length_mode(old(cursor).bytes(), old(cursor).pos() as int) matches Ok(
            (LengthMode::TotalBits(total), used),
        ) ==> final(cursor).pos() == old(cursor).pos() + used + total),
    decreases old(cursor).remaining(), 0nat,
{
    let mut cur = *cursor;
    let ghost bytes = cursor.bytes();
    let mut children: Vec<Packet> = Vec::new();
    proof {
        if let Ok((LengthMode::TotalBits(total), used)) = parse_length_mode(
            bytes,
            cursor.pos() as int,
        ) {
            lemma_group_by_bits(bytes, cursor.pos() as int, total, used);
        }
    }
    let mode = match read_length_mode(&mut cur) {
        Ok(mode) => mode,
        Err(e) => { return Err(e); },
    };
    let ghost first = cur.pos();
    match mode {
        LengthMode::TotalBits(total) => {
            let before: usize = cur.remaining_bits();
            while before - cur.remaining_bits() < total
                invariant
                    *cursor == *old(cursor),
                    cursor.wf(),
                    bytes == cursor.bytes(),
                    cur.wf(),
                    cur.bytes() == bytes,
                    cursor.pos() < first <= cur.pos(),
                    parse_group(bytes, cursor.pos() as int) == after(
                        (first - cursor.pos()) as nat,
                        parse_children_bits(bytes, first as int, total as nat),
                    ),
                    before == bits_left(bytes, first as int),
                    cur.pos() - first <= total,
                    parse_children_bits(bytes, first as int, total as nat) == prepend(
                        models(children@),
                        (cur.pos() - first) as nat,
                        parse_children_bits(
                            bytes,
                            cur.pos() as int,
                            (total - (cur.pos() - first)) as nat,
                        ),
                    ),
                decreases cur.remaining(),
            {
                let ghost at = cur.pos();
                let ghost budget = (total - (at - first)) as nat;
                proof {
                    lemma_children_bits_step(bytes, at as int, budget);
                }
                match decode_packet(&mut cur) {
                    Ok(child) => {
                        if before - cur.remaining_bits() > total {
                            return Err(DecodeError::MalformedGroup);
                        }
                        proof {
                            let took = (cur.pos() - at) as nat;
                            lemma_prepend_twice(
                                models(children@),
                                (at - first) as nat,
                                child@,
                                took,
                                parse_children_bits(
                                    bytes,
                                    cur.pos() as int,
                                    (budget - took) as nat,
                                ),
                            );
                            lemma_models_push(children@, child);
                        }
                        children.push(child);
                    },
                    Err(e) => { return Err(e); },
                }
            }
        },
        LengthMode::Count(count) => {
            let mut i: usize = 0;
            while i < count
                invariant
                    *cursor == *old(cursor),
                    cursor.wf(),
                    bytes == cursor.bytes(),
                    cur.wf(),
                    cur.bytes() == bytes,
                    cursor.pos() < first <= cur.pos(),
                    parse_group(bytes, cursor.pos() as int) == after(
                        (first - cursor.pos()) as nat,
                        parse_children_count(bytes, first as int, count as nat),
                    ),
                    i <= count,
                    parse_children_count(bytes, first as int, count as nat) == prepend(
                        models(children@),
                        (cur.pos() - first) as nat,
                        parse_children_count(bytes, cur.pos() as int, (count - i) as nat),
                    ),
                decreases count - i,
            {
                let ghost at = cur.pos();
                proof {
                    lemma_children_count_step(bytes, at as int, (count - i) as nat);
                }
                match decode_packet(&mut cur) {
                    Ok(child) => {
                        proof {
                            lemma_prepend_twice(
                                models(children@),
                                (at - first) as nat,
                                child@,
                                (cur.pos() - at) as nat,
                                parse_children_count(
                                    bytes,
                                    cur.pos() as int,
                                    (count - i - 1) as nat,
                                ),
                            );
                            lemma_models_push(children@, child);
                        }
                        children.push(child);
                        i = i + 1;
                    },
                    Err(e) => { return Err(e); },
                }
            }
        },
    }
    proof {
        lemma_prepend_done(models(children@), (cur.pos() - first) as nat);
    }
    *cursor = cur;
    Ok(children)
}

/// Decodes the packet that starts at the cursor, with all its sub-packets,
/// and moves the cursor past it. Where the input ends too early or is
/// malformed, the cursor stays where it is.
pub fn decode_packet(cursor: &mut BitCursor) -> (r: Result<Packet, DecodeError>)
    requires
        old(cursor).wf(),
    ensures
        final(cursor).wf(),
        final(cursor).bytes() == old(cursor).bytes(),
        match parse_packet(old(cursor).bytes(), old(cursor).pos() as int) {
            Ok((packet, used)) => {
                &&& r matches Ok(p)
                &&& p@ == packet
                &&& final(cursor).pos() == old(cursor).pos() + used
            },
            Err(e) => {
                &&& r matches Err(x)
                &&& x == e
                &&& final(cursor).pos() == old(cursor).pos()
            },
        },
    decreases old(cursor).remaining(), 1nat,
{
    let mut cur = *cursor;
    let version = match read_version(&mut cur) {
        Ok(v) => v,
        Err(e) => { return Err(e); },
    };
    let type_id = match read_type(&mut cur) {
        Ok(v) => v,
        Err(e) => { return Err(e); },
    };
    if type_id == LITERAL_TYPE {
        match read_literal(&mut cur) {
            Ok(value) => {
                *cursor = cur;
                Ok(Packet::Literal { version, value })
            },
            Err(e) => Err(e),
        }
    } else {
        match read_subpackets(&mut cur) {
            Ok(children) => {
                *cursor = cur;
                Ok(Packet::Operator { version, type_id, children })
            },
            Err(e) => Err(e),
        }
    }
}

} // verus!
