//! The packet tree and the grammar of its bit-level encoding.

use vstd::prelude::*;
use vstd::arithmetic::power2::lemma2_to64;
use crate::bits::{be_value, bit_at, bit_len, lemma_be_value_bound};
use crate::error::DecodeError;

verus! {

/// The type that marks a packet as a literal.
pub const LITERAL_TYPE: u8 = 4;

/// One decoded packet: a literal number, or an operator over sub-packets.
#[derive(Debug, PartialEq, Eq)]
pub enum Packet {
    /// A leaf that carries a number.
    Literal { version: u8, value: u64 },
    /// An inner node, whose `type_id` selects how its children combine.
    Operator { version: u8, type_id: u8, children: Vec<Packet> },
}

/// The mathematical value of a [`Packet`]: the same tree, with a sequence in
/// place of each vector of children.
pub enum PacketModel {
    Literal { version: u8, value: u64 },
    Operator { version: u8, type_id: u8, children: Seq<PacketModel> },
}

/// The models of a sequence of packets, in order.
pub open spec fn models(packets: Seq<Packet>) -> Seq<PacketModel>
    decreases packets,
{
    if packets.len() == 0 {
        Seq::empty()
    } else {
        models(packets.drop_last()).push(packets.last()@)
    }
}

impl View for Packet {
    type V = PacketModel;

    open spec fn view(&self) -> PacketModel
        decreases self,
    {
        match self {
            Packet::Literal { version, value } => PacketModel::Literal {
                version: *version,
                value: *value,
            },
            Packet::Operator { version, type_id, children } => PacketModel::Operator {
                version: *version,
                type_id: *type_id,
                children: models(children@),
            },
        }
    }
}

/// The number of bits of `bytes` from bit `pos` on; zero past the end.
pub open spec fn bits_left(bytes: Seq<u8>, pos: int) -> nat {
    if 0 <= pos <= bit_len(bytes) {
        (bit_len(bytes) - pos) as nat
    } else {
        0
    }
}

/// The version and type that the six header bits at `pos` spell, if the
/// input holds that many.
pub open spec fn parse_header(bytes: Seq<u8>, pos: int) -> Option<(u8, u8)> {
    if bits_left(bytes, pos) < 6 {
        None
    } else {
        Some((be_value(bytes, pos, 3) as u8, be_value(bytes, pos + 3, 3) as u8))
    }
}

/// The number that the groups of a literal spell from bit `pos` on, after
/// groups that spelt `acc`, and the number of bits they take.
///
/// A group is one continuation bit and four payload bits; the last group is
/// the first one whose continuation bit is 0. The number is the payloads in
/// order, read as hexadecimal digits. It must fit in 64 bits.
pub open spec fn parse_literal(bytes: Seq<u8>, pos: int, acc: nat) -> Result<
    (u64, nat),
    DecodeError,
>
    decreases bits_left(bytes, pos),
{
    if bits_left(bytes, pos) < 5 {
        Err(DecodeError::ExhaustedInput)
    } else {
        let value = 16 * acc + be_value(bytes, pos + 1, 4);
        if value > u64::MAX {
            Err(DecodeError::Overflow)
        } else if bit_at(bytes, pos) == 0 {
            Ok((value as u64, 5))
        } else {
            after(5, parse_literal(bytes, pos + 5, value))
        }
    }
}

/// A parse that took `used` bits, counted with the `bits` before it.
pub open spec fn after<T>(bits: nat, r: Result<(T, nat), DecodeError>) -> Result<
    (T, nat),
    DecodeError,
> {
    match r {
        Ok((value, used)) => Ok((value, used + bits)),
        Err(e) => Err(e),
    }
}

/// How the group of sub-packets of one operator ends: a choice made while
/// decoding, which the packet tree does not keep.
#[derive(Debug, Clone, Copy, PartialEq, Eq, Structural)]
pub enum LengthMode {
    /// The sub-packets take this many bits together.
    TotalBits(usize),
    /// There are this many sub-packets.
    Count(usize),
}

/// The length mode that an operator's payload starts with at bit `pos`,
/// and the number of bits it takes: the length type bit, and after a 0 the
/// total length in 15 bits, after a 1 the count in 11 bits.
pub open spec fn parse_length_mode(bytes: Seq<u8>, pos: int) -> Result<
    (LengthMode, nat),
    DecodeError,
> {
    if bits_left(bytes, pos) < 1 {
        Err(DecodeError::ExhaustedInput)
    } else if bit_at(bytes, pos) == 0 {
        if bits_left(bytes, pos) < 16 {
            Err(DecodeError::ExhaustedInput)
        } else {
            Ok((LengthMode::TotalBits(be_value(bytes, pos + 1, 15) as usize), 16))
        }
    } else {
        if bits_left(bytes, pos) < 12 {
            Err(DecodeError::ExhaustedInput)
        } else {
            Ok((LengthMode::Count(be_value(bytes, pos + 1, 11) as usize), 12))
        }
    }
}

/// The sub-packets of an operator whose payload starts at bit `pos`, and the
/// number of bits that the payload takes: the length mode, and the
/// sub-packets that it delimits.
pub open spec fn parse_group(bytes: Seq<u8>, pos: int) -> Result<
    (Seq<PacketModel>, nat),
    DecodeError,
>
    decreases bits_left(bytes, pos), 0nat,
{
    match parse_length_mode(bytes, pos) {
        Err(e) => Err(e),
        Ok((LengthMode::TotalBits(total), used)) => after(
            used,
            parse_children_bits(bytes, pos + used, total as nat),
        ),
        Ok((LengthMode::Count(count), used)) => after(
            used,
            parse_children_count(bytes, pos + used, count as nat),
        ),
    }
}

/// What follows the header of a packet of version `version` and type
/// `type_id`, from bit `pos` on: the packet, and the bits that its payload
/// takes.
pub open spec fn parse_body(bytes: Seq<u8>, pos: int, version: u8, type_id: u8) -> Result<
    (PacketModel, nat),
    DecodeError,
>
    decreases bits_left(bytes, pos), 1nat,
{
    if type_id == LITERAL_TYPE {
        match parse_literal(bytes, pos, 0) {
            Ok((value, used)) => Ok((PacketModel::Literal { version, value }, used)),
            Err(e) => Err(e),
        }
    } else {
        match parse_group(bytes, pos) {
            Ok((children, used)) => Ok(
                (PacketModel::Operator { version, type_id, children }, used),
            ),
            Err(e) => Err(e),
        }
    }
}

/// The packet that starts at bit `pos`, and the number of bits it takes.
pub open spec fn parse_packet(bytes: Seq<u8>, pos: int) -> Result<(PacketModel, nat), DecodeError> {
    match parse_header(bytes, pos) {
        None => Err(DecodeError::ExhaustedInput),
        Some((version, type_id)) => after(6, parse_body(bytes, pos + 6, version, type_id)),
    }
}

/// The packets that fill exactly `budget` bits from bit `pos` on, and the
/// number of bits they take. A packet that runs past the budget makes the
/// group malformed.
pub open spec fn parse_children_bits(bytes: Seq<u8>, pos: int, budget: nat) -> Result<
    (Seq<PacketModel>, nat),
    DecodeError,
>
    decreases bits_left(bytes, pos), 1nat,
{
    if budget == 0 {
        Ok((Seq::empty(), 0))
    } else {
        match parse_header(bytes, pos) {
            None => Err(DecodeError::ExhaustedInput),
            Some((version, type_id)) => match parse_body(bytes, pos + 6, version, type_id) {
                Err(e) => Err(e),
                Ok((first, used)) => if used + 6 > budget {
                    Err(DecodeError::MalformedGroup)
                } else {
                    match parse_children_bits(
                        bytes,
                        pos + 6 + used,
                        (budget - 6 - used) as nat,
                    ) {
                        Ok((rest, more)) => Ok((seq![first] + rest, used + 6 + more)),
                        Err(e) => Err(e),
                    }
                },
            },
        }
    }
}

/// The `count` packets that follow one another from bit `pos` on, and the
/// number of bits they take.
pub open spec fn parse_children_count(bytes: Seq<u8>, pos: int, count: nat) -> Result<
    (Seq<PacketModel>, nat),
    DecodeError,
>
    decreases bits_left(bytes, pos), 1nat,
{
    if count == 0 {
        Ok((Seq::empty(), 0))
    } else {
        match parse_header(bytes, pos) {
            None => Err(DecodeError::ExhaustedInput),
            Some((version, type_id)) => match parse_body(bytes, pos + 6, version, type_id) {
                Err(e) => Err(e),
                Ok((first, used)) => match parse_children_count(
                    bytes,
                    pos + 6 + used,
                    (count - 1) as nat,
                ) {
                    Ok((rest, more)) => Ok((seq![first] + rest, used + 6 + more)),
                    Err(e) => Err(e),
                },
            },
        }
    }
}

/// A parse of the rest of a group, after the packets `done` that took
/// `used` bits.
pub open spec fn prepend(
    done: Seq<PacketModel>,
    used: nat,
    r: Result<(Seq<PacketModel>, nat), DecodeError>,
) -> Result<(Seq<PacketModel>, nat), DecodeError> {
    match r {
        Ok((rest, more)) => Ok((done + rest, used + more)),
        Err(e) => Err(e),
    }
}

/// A group delimited by a bit length, seen as its first packet and the rest.
pub proof fn lemma_children_bits_step(bytes: Seq<u8>, pos: int, budget: nat)
    requires
        budget > 0,
    ensures
        parse_children_bits(bytes, pos, budget) == match parse_packet(bytes, pos) {
            Err(e) => Err(e),
            Ok((first, used)) => if used > budget {
                Err(DecodeError::MalformedGroup)
            } else {
                prepend(
                    seq![first],
                    used,
                    parse_children_bits(bytes, pos + used, (budget - used) as nat),
                )
            },
        },
{
}

/// A group delimited by a packet count, seen as its first packet and the
/// rest.
pub proof fn lemma_children_count_step(bytes: Seq<u8>, pos: int, count: nat)
    requires
        count > 0,
    ensures
        parse_children_count(bytes, pos, count) == match parse_packet(bytes, pos) {
            Err(e) => Err(e),
            Ok((first, used)) => prepend(
                seq![first],
                used,
                parse_children_count(bytes, pos + used, (count - 1) as nat),
            ),
        },
{
}

/// Prepending in two steps is prepending the concatenation.
pub proof fn lemma_prepend_twice(
    done: Seq<PacketModel>,
    used: nat,
    next: PacketModel,
    took: nat,
    r: Result<(Seq<PacketModel>, nat), DecodeError>,
)
    ensures
        prepend(done, used, prepend(seq![next], took, r)) == prepend(
            done.push(next),
            used + took,
            r,
        ),
{
    if let Ok((rest, _)) = r {
        assert(done + (seq![next] + rest) =~= done.push(next) + rest);
    }
}

/// Nothing is left to prepend to once a group is complete.
pub proof fn lemma_prepend_done(done: Seq<PacketModel>, used: nat)
    ensures
        prepend(done, used, Ok((Seq::empty(), 0))) == Ok::<
            (Seq<PacketModel>, nat),
            DecodeError,
        >((done, used)),
{
}

/// The models of a sequence that grew by one packet.
pub proof fn lemma_models_push(packets: Seq<Packet>, next: Packet)
    ensures
        models(packets.push(next)) == models(packets).push(next@),
{
    assert(packets.push(next).drop_last() =~= packets);
}

/// A literal of one group: where the type is 4 and the first group's
/// continuation bit is 0, the packet is a literal of eleven bits whose number
/// is the four payload bits of that group.
pub proof fn lemma_single_group_literal(bytes: Seq<u8>, pos: int)
    requires
        0 <= pos,
        pos + 11 <= bit_len(bytes),
        be_value(bytes, pos + 3, 3) == LITERAL_TYPE,
        bit_at(bytes, pos + 6) == 0,
    ensures
        parse_packet(bytes, pos) == Ok::<(PacketModel, nat), DecodeError>(
            (
                PacketModel::Literal {
                    version: be_value(bytes, pos, 3) as u8,
                    value: be_value(bytes, pos + 7, 4) as u64,
                },
                11,
            ),
        ),
        be_value(bytes, pos, 3) < 8,
        be_value(bytes, pos + 7, 4) < 16,
{
    lemma_be_value_bound(bytes, pos, 3);
    lemma_be_value_bound(bytes, pos + 7, 4);
    lemma2_to64();
    assert(parse_literal(bytes, pos + 6, 0) == Ok::<(u64, nat), DecodeError>(
        (be_value(bytes, pos + 7, 4) as u64, 5),
    ));
}

/// The packets of a group delimited by a bit length take exactly that many
/// bits.
pub proof fn lemma_bit_budget_exact(bytes: Seq<u8>, pos: int, budget: nat)
    ensures
        parse_children_bits(bytes, pos, budget) matches Ok((_, used)) ==> used == budget,
    decreases budget,
{
    if budget > 0 {
        lemma_children_bits_step(bytes, pos, budget);
        if let Ok((_, used)) = parse_packet(bytes, pos) {
            if used <= budget {
                lemma_bit_budget_exact(bytes, pos + used, (budget - used) as nat);
            }
        }
    }
}

/// The sub-packets of an operator whose length mode is a total of `total`
/// bits take exactly `total` bits.
pub proof fn lemma_group_by_bits(bytes: Seq<u8>, pos: int, total: usize, used: nat)
    requires
        parse_length_mode(bytes, pos) == Ok::<(LengthMode, nat), DecodeError>(
            (LengthMode::TotalBits(total), used),
        ),
    ensures
        parse_group(bytes, pos) matches Ok((_, all)) ==> all == used + total,
{
    lemma_bit_budget_exact(bytes, pos + used, total as nat);
}

/// Whether `packet` is a tree that the format can express: versions and
/// types are three bits wide, and the literal type marks literals only.
pub open spec fn expressible(packet: PacketModel) -> bool
    decreases packet,
{
    match packet {
        PacketModel::Literal { version, .. } => version < 8,
        PacketModel::Operator { version, type_id, children } => {
            &&& version < 8
            &&& type_id < 8
            &&& type_id != LITERAL_TYPE
            &&& forall|i: int| 0 <= i < children.len() ==> expressible(#[trigger] children[i])
        },
    }
}

/// Whether a parse, if it succeeded, took only bits that `bytes` has from
/// `pos` on, and made only expressible packets.
pub open spec fn sound(
    bytes: Seq<u8>,
    pos: int,
    r: Result<(Seq<PacketModel>, nat), DecodeError>,
) -> bool {
    r matches Ok((packets, used)) ==> {
        &&& used <= bits_left(bytes, pos)
        &&& forall|i: int| 0 <= i < packets.len() ==> expressible(#[trigger] packets[i])
    }
}

/// A literal takes only bits that the input has.
pub proof fn lemma_literal_within(bytes: Seq<u8>, pos: int, acc: nat)
    requires
        0 <= pos,
    ensures
        parse_literal(bytes, pos, acc) matches Ok((_, used)) ==> used <= bits_left(bytes, pos),
    decreases bits_left(bytes, pos),
{
    if bits_left(bytes, pos) >= 5 {
        lemma_literal_within(bytes, pos + 5, 16 * acc + be_value(bytes, pos + 1, 4));
    }
}

/// The six header bits spell a version and a type below 8.
pub proof fn lemma_header_range(bytes: Seq<u8>, pos: int)
    ensures
        parse_header(bytes, pos) matches Some((version, type_id)) ==> version < 8 && type_id < 8,
{
    lemma_be_value_bound(bytes, pos, 3);
    lemma_be_value_bound(bytes, pos + 3, 3);
    lemma2_to64();
}

/// A packet's payload takes only bits that the input has, and makes an
/// expressible packet.
pub proof fn lemma_body_sound(bytes: Seq<u8>, pos: int, version: u8, type_id: u8)
    requires
        0 <= pos,
        version < 8,
        type_id < 8,
    ensures
        parse_body(bytes, pos, version, type_id) matches Ok((packet, used)) ==> used
            <= bits_left(bytes, pos) && expressible(packet),
    decreases bits_left(bytes, pos), 1nat,
{
    if type_id == LITERAL_TYPE {
        lemma_literal_within(bytes, pos, 0);
    } else {
        lemma_group_sound(bytes, pos);
    }
}

/// An operator's payload takes only bits that the input has, and makes
/// expressible packets.
pub proof fn lemma_group_sound(bytes: Seq<u8>, pos: int)
    requires
        0 <= pos,
    ensures
        sound(bytes, pos, parse_group(bytes, pos)),
    decreases bits_left(bytes, pos), 0nat,
{
    match parse_length_mode(bytes, pos) {
        Ok((LengthMode::TotalBits(total), used)) => {
            lemma_children_bits_sound(bytes, pos + used, total as nat);
        },
        Ok((LengthMode::Count(count), used)) => {
            lemma_children_count_sound(bytes, pos + used, count as nat);
        },
        Err(_) => {},
    }
}

/// A group delimited by a bit length takes only bits that the input has,
/// and makes expressible packets.
pub proof fn lemma_children_bits_sound(bytes: Seq<u8>, pos: int, budget: nat)
    requires
        0 <= pos,
    ensures
        sound(bytes, pos, parse_children_bits(bytes, pos, budget)),
    decreases bits_left(bytes, pos), 1nat,
{
    if budget > 0 {
        lemma_header_range(bytes, pos);
        if let Some((version, type_id)) = parse_header(bytes, pos) {
            lemma_body_sound(bytes, pos + 6, version, type_id);
            if let Ok((first, used)) = parse_body(bytes, pos + 6, version, type_id) {
                if used + 6 <= budget {
                    let rest = parse_children_bits(
                        bytes,
                        pos + 6 + used,
                        (budget - 6 - used) as nat,
                    );
                    lemma_children_bits_sound(bytes, pos + 6 + used, (budget - 6 - used) as nat);
                    if let Ok((more, _)) = rest {
                        let all = seq![first] + more;
                        assert forall|i: int| 0 <= i < all.len() implies expressible(
                            #[trigger] all[i],
                        ) by {
                            if i > 0 {
                                assert(all[i] == more[i - 1]);
                            }
                        }
                    }
                }
            }
        }
    }
}

/// A group delimited by a packet count takes only bits that the input has,
/// and makes expressible packets.
pub proof fn lemma_children_count_sound(bytes: Seq<u8>, pos: int, count: nat)
    requires
        0 <= pos,
    ensures
        sound(bytes, pos, parse_children_count(bytes, pos, count)),
    decreases bits_left(bytes, pos), 1nat,
{
    if count > 0 {
        lemma_header_range(bytes, pos);
        if let Some((version, type_id)) = parse_header(bytes, pos) {
            lemma_body_sound(bytes, pos + 6, version, type_id);
            if let Ok((first, used)) = parse_body(bytes, pos + 6, version, type_id) {
                let rest = parse_children_count(bytes, pos + 6 + used, (count - 1) as nat);
                lemma_children_count_sound(bytes, pos + 6 + used, (count - 1) as nat);
                if let Ok((more, _)) = rest {
                    let all = seq![first] + more;
                    assert forall|i: int| 0 <= i < all.len() implies expressible(
                        #[trigger] all[i],
                    ) by {
                        if i > 0 {
                            assert(all[i] == more[i - 1]);
                        }
                    }
                }
            }
        }
    }
}

/// A decoded packet lies within the input and is expressible: each version
/// and type in it is below 8, and no operator has the literal type.
pub proof fn lemma_packet_sound(bytes: Seq<u8>, pos: int)
    requires
        0 <= pos,
    ensures
        parse_packet(bytes, pos) matches Ok((packet, used)) ==> used <= bits_left(bytes, pos)
            && expressible(packet),
{
    lemma_header_range(bytes, pos);
    if let Some((version, type_id)) = parse_header(bytes, pos) {
        lemma_body_sound(bytes, pos + 6, version, type_id);
    }
}

} // verus!
