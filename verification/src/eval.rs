//! What a packet tree amounts to: the sum of its versions, and its value.

use vstd::prelude::*;
use crate::error::DecodeError;
use crate::packet::{expressible, lemma_models_push, models, Packet, PacketModel};

verus! {

/// The sum of the numbers in `values`.
pub open spec fn sum(values: Seq<u64>) -> nat
    decreases values.len(),
{
    if values.len() == 0 {
        0
    } else {
        sum(values.drop_last()) + values.last() as nat
    }
}

/// The product of the numbers in `values`.
pub open spec fn product(values: Seq<u64>) -> nat
    decreases values.len(),
{
    if values.len() == 0 {
        1
    } else {
        product(values.drop_last()) * values.last() as nat
    }
}

/// The least of the numbers in `values`, which is not empty.
pub open spec fn minimum(values: Seq<u64>) -> u64
    recommends
        values.len() > 0,
    decreases values.len(),
{
    if values.len() <= 1 {
        values[0]
    } else if values.last() < minimum(values.drop_last()) {
        values.last()
    } else {
        minimum(values.drop_last())
    }
}

/// The greatest of the numbers in `values`, which is not empty.
pub open spec fn maximum(values: Seq<u64>) -> u64
    recommends
        values.len() > 0,
    decreases values.len(),
{
    if values.len() <= 1 {
        values[0]
    } else if values.last() > maximum(values.drop_last()) {
        values.last()
    } else {
        maximum(values.drop_last())
    }
}

/// `n` as a 64-bit value, if it is one.
pub open spec fn fits(n: nat) -> Result<u64, DecodeError> {
    if n > u64::MAX {
        Err(DecodeError::Overflow)
    } else {
        Ok(n as u64)
    }
}

/// 1 where `holds`, else 0.
pub open spec fn flag(holds: bool) -> u64 {
    if holds {
        1
    } else {
        0
    }
}

/// What an operator of type `type_id` makes of the values of its children.
///
/// Types 0 to 3 are sum, product, minimum and maximum; types 5 to 7 compare
/// two values: greater than, less than, equal to.
pub open spec fn combine(type_id: u8, values: Seq<u64>) -> Result<u64, DecodeError> {
    if type_id == 0 {
        fits(sum(values))
    } else if type_id == 1 {
        fits(product(values))
    } else if type_id == 2 || type_id == 3 {
        if values.len() == 0 {
            Err(DecodeError::InvalidChildCount)
        } else if type_id == 2 {
            Ok(minimum(values))
        } else {
            Ok(maximum(values))
        }
    } else if type_id == 5 || type_id == 6 || type_id == 7 {
        if values.len() != 2 {
            Err(DecodeError::InvalidChildCount)
        } else if type_id == 5 {
            Ok(flag(values[0] > values[1]))
        } else if type_id == 6 {
            Ok(flag(values[0] < values[1]))
        } else {
            Ok(flag(values[0] == values[1]))
        }
    } else {
        Err(DecodeError::UnknownPacketType)
    }
}

/// The sum of the versions of `packet` and of all packets below it.
pub open spec fn version_sum(packet: PacketModel) -> nat
    decreases packet,
{
    match packet {
        PacketModel::Literal { version, .. } => version as nat,
        PacketModel::Operator { version, children, .. } => version as nat + version_sums(
            children,
        ),
    }
}

/// The sum of the version sums of `packets`.
pub open spec fn version_sums(packets: Seq<PacketModel>) -> nat
    decreases packets,
{
    if packets.len() == 0 {
        0
    } else {
        version_sums(packets.drop_last()) + version_sum(packets.last())
    }
}

/// The value of `packet`: its number if it is a literal, else what its
/// operator makes of the values of its children. The first child without a
/// value, if there is one, decides the error.
pub open spec fn value(packet: PacketModel) -> Result<u64, DecodeError>
    decreases packet,
{
    match packet {
        PacketModel::Literal { value, .. } => Ok(value),
        PacketModel::Operator { type_id, children, .. } => match values(children) {
            Ok(vs) => combine(type_id, vs),
            Err(e) => Err(e),
        },
    }
}

/// The values of `packets`, in order, or the error of the first one that has
/// no value.
pub open spec fn values(packets: Seq<PacketModel>) -> Result<Seq<u64>, DecodeError>
    decreases packets,
{
    if packets.len() == 0 {
        Ok(Seq::empty())
    } else {
        match values(packets.drop_last()) {
            Err(e) => Err(e),
            Ok(vs) => match value(packets.last()) {
                Ok(v) => Ok(vs.push(v)),
                Err(e) => Err(e),
            },
        }
    }
}

/// The version sum and the value of `packet`, where it has a value and the
/// version sum fits in 64 bits.
pub open spec fn evaluation(packet: PacketModel) -> Result<(u64, u64), DecodeError> {
    match value(packet) {
        Err(e) => Err(e),
        Ok(v) => match fits(version_sum(packet)) {
            Ok(s) => Ok((s, v)),
            Err(e) => Err(e),
        },
    }
}

/// The minimum is one of the numbers, and none is less.
pub proof fn lemma_minimum_is_least(values: Seq<u64>)
    requires
        values.len() > 0,
    ensures
        values.contains(minimum(values)),
        forall|i: int| 0 <= i < values.len() ==> minimum(values) <= values[i],
    decreases values.len(),
{
    if values.len() > 1 {
        let front = values.drop_last();
        lemma_minimum_is_least(front);
        let k = choose|k: int| 0 <= k < front.len() && front[k] == minimum(front);
        assert(values[k] == minimum(front));
        assert forall|i: int| 0 <= i < values.len() implies minimum(values) <= values[i] by {
            if i < front.len() {
                assert(front[i] == values[i]);
            }
        }
    }
}

/// The maximum is one of the numbers, and none is greater.
pub proof fn lemma_maximum_is_greatest(values: Seq<u64>)
    requires
        values.len() > 0,
    ensures
        values.contains(maximum(values)),
        forall|i: int| 0 <= i < values.len() ==> maximum(values) >= values[i],
    decreases values.len(),
{
    if values.len() > 1 {
        let front = values.drop_last();
        lemma_maximum_is_greatest(front);
        let k = choose|k: int| 0 <= k < front.len() && front[k] == maximum(front);
        assert(values[k] == maximum(front));
        assert forall|i: int| 0 <= i < values.len() implies maximum(values) >= values[i] by {
            if i < front.len() {
                assert(front[i] == values[i]);
            }
        }
    }
}

/// The sum of a prefix is at most the sum of the whole.
pub proof fn lemma_sum_prefix(values: Seq<u64>, k: int)
    requires
        0 <= k <= values.len(),
    ensures
        sum(values.take(k)) <= sum(values),
    decreases values.len(),
{
    if k == values.len() {
        assert(values.take(k) =~= values);
    } else {
        lemma_sum_prefix(values.drop_last(), k);
        assert(values.take(k) =~= values.drop_last().take(k));
    }
}

/// A product with a factor 0 is 0.
pub proof fn lemma_product_zero(values: Seq<u64>, j: int)
    requires
        0 <= j < values.len(),
        values[j] == 0,
    ensures
        product(values) == 0,
    decreases values.len(),
{
    if j < values.len() - 1 {
        lemma_product_zero(values.drop_last(), j);
    }
    assert(product(values.drop_last()) * values.last() as nat == 0) by (nonlinear_arith)
        requires
            product(values.drop_last()) == 0 || values.last() == 0,
    ;
}

/// Among positive factors, the product of a prefix is positive and at most
/// the product of the whole.
pub proof fn lemma_product_prefix(values: Seq<u64>, k: int)
    requires
        0 <= k <= values.len(),
        forall|i: int| 0 <= i < values.len() ==> values[i] > 0,
    ensures
        0 < product(values.take(k)) <= product(values),
    decreases values.len(),
{
    if values.len() > 0 {
        let front = values.drop_last();
        lemma_product_prefix(front, front.len() as int);
        assert(0 < product(front) <= product(front) * values.last() as nat)
            by (nonlinear_arith)
            requires
                0 < product(front),
                values.last() > 0,
        ;
        if k == values.len() {
            assert(values.take(k) =~= values);
        } else {
            lemma_product_prefix(front, k);
            assert(values.take(k) =~= front.take(k));
        }
    }
}

/// A prefix that grows by one element.
proof fn lemma_take_next(values: Seq<u64>, i: int)
    requires
        0 <= i < values.len(),
    ensures
        values.take(i + 1).drop_last() == values.take(i),
        values.take(i + 1).last() == values[i],
        values.take(i + 1).len() == i + 1,
{
}

/// The sum of `values`, where it fits in 64 bits.
pub fn sum_values(values: &Vec<u64>) -> (r: Result<u64, DecodeError>)
    ensures
        r == fits(sum(values@)),
{
    let mut total: u64 = 0;
    let mut i: usize = 0;
    while i < values.len()
        invariant
            i <= values.len(),
            total == sum(values@.take(i as int)),
        decreases values.len() - i,
    {
        proof {
            lemma_take_next(values@, i as int);
            lemma_sum_prefix(values@, i + 1);
        }
        match total.checked_add(values[i]) {
            Some(t) => { total = t; },
            None => { return Err(DecodeError::Overflow); },
        }
        i = i + 1;
    }
    proof {
        assert(values@.take(i as int) =~= values@);
    }
    Ok(total)
}

/// The product of `values`, where it fits in 64 bits.
pub fn product_values(values: &Vec<u64>) -> (r: Result<u64, DecodeError>)
    ensures
        r == fits(product(values@)),
{
    let mut i: usize = 0;
    while i < values.len()
        invariant
            i <= values.len(),
            forall|j: int| 0 <= j < i ==> values@[j] > 0,
        decreases values.len() - i,
    {
        if values[i] == 0 {
            proof {
                lemma_product_zero(values@, i as int);
            }
            return Ok(0);
        }
        i = i + 1;
    }
    let mut total: u64 = 1;
    i = 0;
    while i < values.len()
        invariant
            i <= values.len(),
            forall|j: int| 0 <= j < values.len() ==> values@[j] > 0,
            total == product(values@.take(i as int)),
        decreases values.len() - i,
    {
        proof {
            lemma_take_next(values@, i as int);
            lemma_product_prefix(values@, i + 1);
        }
        match total.checked_mul(values[i]) {
            Some(t) => { total = t; },
            None => { return Err(DecodeError::Overflow); },
        }
        i = i + 1;
    }
    proof {
        assert(values@.take(i as int) =~= values@);
    }
    Ok(total)
}

/// The least of `values`, which is not empty.
pub fn min_value(values: &Vec<u64>) -> (m: u64)
    requires
        values@.len() > 0,
    ensures
        m == minimum(values@),
{
    let mut least: u64 = values[0];
    let mut i: usize = 1;
    while i < values.len()
        invariant
            1 <= i <= values.len(),
            least == minimum(values@.take(i as int)),
        decreases values.len() - i,
    {
        proof {
            lemma_take_next(values@, i as int);
        }
        if values[i] < least {
            least = values[i];
        }
        i = i + 1;
    }
    proof {
        assert(values@.take(i as int) =~= values@);
    }
    least
}

/// The greatest of `values`, which is not empty.
pub fn max_value(values: &Vec<u64>) -> (m: u64)
    requires
        values@.len() > 0,
    ensures
        m == maximum(values@),
{
    let mut greatest: u64 = values[0];
    let mut i: usize = 1;
    while i < values.len()
        invariant
            1 <= i <= values.len(),
            greatest == maximum(values@.take(i as int)),
        decreases values.len() - i,
    {
        proof {
            lemma_take_next(values@, i as int);
        }
        if values[i] > greatest {
            greatest = values[i];
        }
        i = i + 1;
    }
    proof {
        assert(values@.take(i as int) =~= values@);
    }
    greatest
}

/// What an operator of type `type_id` makes of `values`.
pub fn combine_values(type_id: u8, values: &Vec<u64>) -> (r: Result<u64, DecodeError>)
    ensures
        r == combine(type_id, values@),
{
    if type_id == 0 {
        sum_values(values)
    } else if type_id == 1 {
        product_values(values)
    } else if type_id == 2 || type_id == 3 {
        if values.len() == 0 {
            Err(DecodeError::InvalidChildCount)
        } else if type_id == 2 {
            Ok(min_value(values))
        } else {
            Ok(max_value(values))
        }
    } else if type_id == 5 || type_id == 6 || type_id == 7 {
        if values.len() != 2 {
            Err(DecodeError::InvalidChildCount)
        } else {
            let holds = if type_id == 5 {
                values[0] > values[1]
            } else if type_id == 6 {
                values[0] < values[1]
            } else {
                values[0] == values[1]
            };
            if holds {
                Ok(1)
            } else {
                Ok(0)
            }
        }
    } else {
        Err(DecodeError::UnknownPacketType)
    }
}

/// `n` as a 64-bit value, if it is one.
pub open spec fn bounded(n: nat) -> Option<u64> {
    if n > u64::MAX {
        None
    } else {
        Some(n as u64)
    }
}

/// The version sums and the values of a sequence that grew by one packet.
pub proof fn lemma_push_child(packets: Seq<PacketModel>, next: PacketModel)
    ensures
        version_sums(packets.push(next)) == version_sums(packets) + version_sum(next),
        values(packets.push(next)) == match values(packets) {
            Err(e) => Err(e),
            Ok(vs) => match value(next) {
                Ok(v) => Ok(vs.push(v)),
                Err(e) => Err(e),
            },
        },
{
    assert(packets.push(next).drop_last() =~= packets);
}

/// The version sum of `packet`, unless it exceeds 64 bits, and the value of
/// `packet`, both from one walk over the tree.
fn eval_node(packet: &Packet) -> (r: (Option<u64>, Result<u64, DecodeError>))
    ensures
        r.0 == bounded(version_sum(packet@)),
        r.1 == value(packet@),
    decreases packet,
{
    match packet {
        Packet::Literal { version, value } => (Some(*version as u64), Ok(*value)),
        Packet::Operator { version, type_id, children } => {
            let mut versions: Option<u64> = Some(*version as u64);
            let mut vals: Vec<u64> = Vec::new();
            let mut failed: Option<DecodeError> = None;
            let mut i: usize = 0;
            while i < children.len()
                invariant
                    i <= children.len(),
                    packet is Operator,
                    packet->Operator_children == *children,
                    versions == bounded(
                        *version as nat + version_sums(models(children@.take(i as int))),
                    ),
                    match values(models(children@.take(i as int))) {
                        Ok(vs) => failed is None && vals@ == vs,
                        Err(e) => failed == Some(e),
                    },
                decreases children.len() - i,
            {
                let (s, v) = eval_node(&children[i]);
                proof {
                    assert(children@.take(i + 1) =~= children@.take(i as int).push(
                        children@[i as int],
                    ));
                    lemma_models_push(children@.take(i as int), children@[i as int]);
                    lemma_push_child(models(children@.take(i as int)), children@[i as int]@);
                }
                versions = match (versions, s) {
                    (Some(a), Some(b)) => a.checked_add(b),
                    _ => None,
                };
                if failed.is_none() {
                    match v {
                        Ok(x) => { vals.push(x); },
                        Err(e) => { failed = Some(e); },
                    }
                }
                i = i + 1;
            }
            proof {
                assert(children@.take(i as int) =~= children@);
            }
            let value = match failed {
                Some(e) => Err(e),
                None => combine_values(*type_id, &vals),
            };
            (versions, value)
        },
    }
}

/// The version sum and the value of `packet`.
///
/// Fails with the error of the first packet, bottom-up and left to right,
/// whose value is not defined or does not fit in 64 bits; or with
/// `Overflow`, where every value is defined but the version sum does not fit
/// in 64 bits.
pub fn evaluate(packet: &Packet) -> (r: Result<(u64, u64), DecodeError>)
    ensures
        r == evaluation(packet@),
{
    let (versions, value) = eval_node(packet);
    match value {
        Err(e) => Err(e),
        Ok(v) => match versions {
            Some(s) => Ok((s, v)),
            None => Err(DecodeError::Overflow),
        },
    }
}

/// The sum of the versions of `packet` and of all packets below it,
/// whatever their types and whether or not they have a value; `Overflow`
/// where the sum does not fit in 64 bits.
pub fn sum_versions(packet: &Packet) -> (r: Result<u64, DecodeError>)
    ensures
        r == fits(version_sum(packet@)),
{
    match eval_node(packet).0 {
        Some(versions) => Ok(versions),
        None => Err(DecodeError::Overflow),
    }
}

/// A literal evaluates to its own version and its own number.
pub proof fn lemma_literal_evaluation(version: u8, value: u64)
    ensures
        evaluation(PacketModel::Literal { version, value }) == Ok::<(u64, u64), DecodeError>(
            (version as u64, value),
        ),
{
}

/// The version of `packet`.
pub open spec fn version_of(packet: PacketModel) -> u8 {
    match packet {
        PacketModel::Literal { version, .. } => version,
        PacketModel::Operator { version, .. } => version,
    }
}

/// The packets directly below `packet`.
pub open spec fn children_of(packet: PacketModel) -> Seq<PacketModel> {
    match packet {
        PacketModel::Literal { .. } => Seq::empty(),
        PacketModel::Operator { children, .. } => children,
    }
}

/// Whether `p` and `q` are trees of the same shape that carry the same
/// version at each node, whatever their types and numbers.
pub open spec fn same_versions(p: PacketModel, q: PacketModel) -> bool
    decreases p,
{
    &&& version_of(p) == version_of(q)
    &&& children_of(p).len() == children_of(q).len()
    &&& match p {
        PacketModel::Literal { .. } => true,
        PacketModel::Operator { children, .. } => forall|i: int|
            0 <= i < children.len() ==> same_versions(#[trigger] children[i], children_of(q)[i]),
    }
}

/// The version sum depends on the shape of the tree and the versions in it
/// alone: two trees that agree in these have the same version sum, whatever
/// operators and numbers they hold.
pub proof fn lemma_version_sum_by_shape(p: PacketModel, q: PacketModel)
    requires
        same_versions(p, q),
    ensures
        version_sum(p) == version_sum(q),
    decreases p, 1nat,
{
    if let PacketModel::Operator { children, .. } = p {
        lemma_version_sums_by_shape(p, children, children_of(q));
    }
}

/// The version sums of two sequences of trees that agree, place by place,
/// in shape and versions. The trees of the first sequence lie below
/// `parent`.
proof fn lemma_version_sums_by_shape(
    parent: PacketModel,
    ps: Seq<PacketModel>,
    qs: Seq<PacketModel>,
)
    requires
        ps.len() == qs.len(),
        forall|i: int| 0 <= i < ps.len() ==> same_versions(#[trigger] ps[i], qs[i]),
        forall|i: int| 0 <= i < ps.len() ==> decreases_to!(parent => #[trigger] ps[i]),
    ensures
        version_sums(ps) == version_sums(qs),
    decreases parent, 0nat, ps.len(),
{
    if ps.len() > 0 {
        let n = ps.len() - 1;
        lemma_version_sum_by_shape(ps[n], qs[n]);
        lemma_version_sums_by_shape(parent, ps.drop_last(), qs.drop_last());
    }
}

/// An expressible packet has an operation at each operator: its
/// evaluation never fails for an unknown type.
pub proof fn lemma_expressible_known(packet: PacketModel)
    requires
        expressible(packet),
    ensures
        value(packet) != Err::<u64, DecodeError>(DecodeError::UnknownPacketType),
    decreases packet, 1nat,
{
    if let PacketModel::Operator { children, .. } = packet {
        lemma_all_expressible_known(packet, children);
    }
}

/// The same of a sequence of expressible packets, which lie below `parent`.
proof fn lemma_all_expressible_known(parent: PacketModel, packets: Seq<PacketModel>)
    requires
        forall|i: int| 0 <= i < packets.len() ==> expressible(#[trigger] packets[i]),
        forall|i: int| 0 <= i < packets.len() ==> decreases_to!(parent => #[trigger] packets[i]),
    ensures
        values(packets) != Err::<Seq<u64>, DecodeError>(DecodeError::UnknownPacketType),
    decreases parent, 0nat, packets.len(),
{
    if packets.len() > 0 {
        let n = packets.len() - 1;
        lemma_expressible_known(packets[n]);
        lemma_all_expressible_known(parent, packets.drop_last());
    }
}

} // verus!
