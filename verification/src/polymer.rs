//! Growing a polymer: counting its pairs of neighbouring elements, and what
//! becomes of the pairs where an element is inserted into each of them.

use vstd::prelude::*;
use vstd::std_specs::iter::IteratorSpec;
use vstd::string::StringSliceAdditionalSpecFns;
use std::collections::HashMap;
use crate::text::{
    alpha1, after, is_letter, lemma_run, newline, run, starts_with, tag, ReadError,
};

verus! {

/// The number that stands for the pair of the elements with code points
/// `a` and `b`: `a` in the upper 32 bits, `b` in the lower.
pub open spec fn pair_code(a: int, b: int) -> u64 {
    (a * 0x1_0000_0000 + b) as u64
}

/// The code point of the first element of the pair `pair`.
pub open spec fn first_of(pair: u64) -> int {
    pair as int / 0x1_0000_0000
}

/// The code point of the second element of the pair `pair`.
pub open spec fn second_of(pair: u64) -> int {
    pair as int % 0x1_0000_0000
}

/// The number that stands for the pair of elements `a` and `b`.
pub fn pair_key(a: char, b: char) -> (pair: u64)
    ensures
        pair == pair_code(a as int, b as int),
        first_of(pair) == a as int,
        second_of(pair) == b as int,
{
    (a as u64) * 0x1_0000_0000 + (b as u64)
}

/// The number of places `i < upto` at which the bytes `i` and `i + 1` of
/// `poly` are the pair `pair`.
pub open spec fn occurrences(poly: Seq<u8>, pair: u64, upto: int) -> nat
    decreases upto,
{
    if upto <= 0 {
        0
    } else {
        occurrences(poly, pair, upto - 1) + if pair_code(
            poly[upto - 1] as int,
            poly[upto] as int,
        ) == pair {
            1nat
        } else {
            0nat
        }
    }
}

/// There are at most as many occurrences as places.
pub proof fn lemma_occurrences_bound(poly: Seq<u8>, pair: u64, upto: int)
    ensures
        occurrences(poly, pair, upto) <= if upto > 0 {
            upto
        } else {
            0
        },
    decreases upto,
{
    if upto > 0 {
        lemma_occurrences_bound(poly, pair, upto - 1);
    }
}

/// How often each pair of neighbouring elements occurs in the polymer
/// `poly`, whose elements are its bytes. Pairs that do not occur are not
/// listed.
pub fn poly_to_counts(poly: &str) -> (pair_counts: HashMap<u64, isize>)
    requires
        poly.spec_bytes().len() <= isize::MAX,
    ensures
        forall|pair: u64|
            pair_counts@.contains_key(pair) <==> occurrences(
                poly.spec_bytes(),
                pair,
                poly.spec_bytes().len() - 1,
            ) > 0,
        forall|pair: u64| #[trigger]
            pair_counts@.contains_key(pair) ==> pair_counts@[pair] == occurrences(
                poly.spec_bytes(),
                pair,
                poly.spec_bytes().len() - 1,
            ),
{
    let bytes = poly.as_bytes();
    let mut pair_counts: HashMap<u64, isize> = HashMap::new();
    if bytes.len() < 2 {
        return pair_counts;
    }
    let mut i: usize = 0;
    while i < bytes.len() - 1
        invariant
            2 <= bytes@.len() <= isize::MAX,
            i <= bytes@.len() - 1,
            forall|pair: u64|
                pair_counts@.contains_key(pair) <==> occurrences(bytes@, pair, i as int) > 0,
            forall|pair: u64| #[trigger]
                pair_counts@.contains_key(pair) ==> pair_counts@[pair] == occurrences(
                    bytes@,
                    pair,
                    i as int,
                ),
        decreases bytes.len() - i,
    {
        let key = (bytes[i] as u64) * 0x1_0000_0000 + (bytes[i + 1] as u64);
        proof {
            lemma_occurrences_bound(bytes@, key, i as int);
        }
        let known = match pair_counts.get(&key) {
            Some(c) => Some(*c),
            None => None,
        };
        match known {
            Some(c) => { pair_counts.insert(key, c + 1); },
            None => { pair_counts.insert(key, 1); },
        }
        i = i + 1;
    }
    pair_counts
}

/// The number of pairs that there are: one more than the greatest `u64`.
pub open spec fn pair_space() -> nat {
    0x1_0000_0000_0000_0000
}

/// The pair that a rule makes of the first element of `pair` and the
/// element `inserted`.
pub open spec fn left_child(pair: u64, inserted: char) -> u64 {
    pair_code(first_of(pair), inserted as int)
}

/// The pair that a rule makes of the element `inserted` and the second
/// element of `pair`.
pub open spec fn right_child(pair: u64, inserted: char) -> u64 {
    pair_code(inserted as int, second_of(pair))
}

/// How many of the two pairs that come of `pair`, where `inserted` goes
/// into it, are the pair `target`.
pub open spec fn hits(pair: u64, inserted: char, target: u64) -> int {
    let left: int = if left_child(pair, inserted) == target {
        1
    } else {
        0
    };
    let right: int = if right_child(pair, inserted) == target {
        1
    } else {
        0
    };
    left + right
}

/// How many pairs `target` come of the pairs `source` in one step: as many
/// as there are such pairs, for each way in which the rule for `source`
/// makes a `target`; none where no rule is for `source`.
pub open spec fn yield_of(
    counts: Map<u64, isize>,
    rules: Map<u64, char>,
    source: u64,
    target: u64,
) -> int {
    if counts.contains_key(source) && rules.contains_key(source) {
        counts[source] * hits(source, rules[source], target)
    } else {
        0
    }
}

/// How many pairs `target` come of all pairs below `bound` in one step.
pub open spec fn yield_below(
    counts: Map<u64, isize>,
    rules: Map<u64, char>,
    target: u64,
    bound: nat,
) -> int
    decreases bound,
{
    if bound == 0 {
        0
    } else {
        yield_below(counts, rules, target, (bound - 1) as nat) + yield_of(
            counts,
            rules,
            ((bound - 1) as nat) as u64,
            target,
        )
    }
}

/// Whether some pair that is counted and has a rule turns into `target`.
pub open spec fn reached(counts: Map<u64, isize>, rules: Map<u64, char>, target: u64) -> bool {
    exists|source: u64|
        counts.contains_key(source) && rules.contains_key(source) && #[trigger] hits(
            source,
            rules[source],
            target,
        ) > 0
}

/// The counts of the pairs after one step: each counted pair with a rule
/// turns into its two children, pairs without a rule vanish, and the pairs
/// listed are those that some pair turns into.
pub open spec fn after_step(counts: Map<u64, isize>, rules: Map<u64, char>) -> Map<u64, isize> {
    Map::new(
        |target: u64| reached(counts, rules, target),
        |target: u64| yield_below(counts, rules, target, pair_space()) as isize,
    )
}

/// The counts of the pairs after `n` steps.
pub open spec fn after_steps(counts: Map<u64, isize>, rules: Map<u64, char>, n: int) -> Map<
    u64,
    isize,
>
    decreases n,
{
    if n <= 0 {
        counts
    } else {
        after_step(after_steps(counts, rules, n - 1), rules)
    }
}

/// The count of `pair` in `counts`, which is 0 where it is not listed.
pub open spec fn count_at(counts: Map<u64, isize>, pair: u64) -> int {
    if counts.contains_key(pair) {
        counts[pair] as int
    } else {
        0
    }
}

/// No pair is counted a negative number of times.
pub open spec fn counted(counts: Map<u64, isize>) -> bool {
    forall|pair: u64| #[trigger] counts.contains_key(pair) ==> counts[pair] >= 0
}

/// Whether each count after one step fits an `isize`.
pub open spec fn can_grow(counts: Map<u64, isize>, rules: Map<u64, char>) -> bool {
    forall|target: u64| #[trigger]
        yield_below(counts, rules, target, pair_space()) <= isize::MAX
}

/// How many pairs `target` come, in one step, of the pairs that the first
/// `upto` rules of `list` are for.
pub open spec fn yield_upto(
    counts: Map<u64, isize>,
    rules: Map<u64, char>,
    target: u64,
    list: Seq<(u64, char)>,
    upto: int,
) -> int
    decreases upto,
{
    if upto <= 0 {
        0
    } else {
        yield_upto(counts, rules, target, list, upto - 1) + yield_of(
            counts,
            rules,
            list[upto - 1].0,
            target,
        )
    }
}

/// Whether `list` holds each rule of `rules` once.
pub open spec fn lists(list: Seq<(u64, char)>, rules: Map<u64, char>) -> bool {
    &&& forall|i: int|
        0 <= i < list.len() ==> rules.contains_key(#[trigger] list[i].0) && rules[list[i].0]
            == list[i].1
    &&& forall|i: int, j: int| 0 <= i < j < list.len() ==> list[i].0 != list[j].0
    &&& forall|pair: u64| #[trigger]
        rules.contains_key(pair) ==> exists|i: int| 0 <= i < list.len() && list[i].0 == pair
}

/// Nothing comes of pairs that are counted no negative number of times
/// but what is counted no negative number of times, and it grows with the
/// bound.
pub proof fn lemma_yield_grows(
    counts: Map<u64, isize>,
    rules: Map<u64, char>,
    target: u64,
    list: Seq<(u64, char)>,
    from: int,
    upto: int,
)
    requires
        counted(counts),
        0 <= from <= upto,
    ensures
        0 <= yield_upto(counts, rules, target, list, from) <= yield_upto(
            counts,
            rules,
            target,
            list,
            upto,
        ),
    decreases upto,
{
    if from < upto {
        lemma_yield_grows(counts, rules, target, list, from, upto - 1);
        lemma_yield_of_sign(counts, rules, list[upto - 1].0, target);
    } else if upto > 0 {
        lemma_yield_grows(counts, rules, target, list, from - 1, upto - 1);
        lemma_yield_of_sign(counts, rules, list[upto - 1].0, target);
    }
}

/// What comes of a pair that is counted no negative number of times is
/// counted no negative number of times.
pub proof fn lemma_yield_of_sign(
    counts: Map<u64, isize>,
    rules: Map<u64, char>,
    source: u64,
    target: u64,
)
    requires
        counted(counts),
    ensures
        0 <= yield_of(counts, rules, source, target),
{
    if counts.contains_key(source) && rules.contains_key(source) {
        let n = counts[source] as int;
        let h = hits(source, rules[source], target);
        assert(0 <= n * h) by (nonlinear_arith)
            requires
                0 <= n,
                0 <= h,
        ;
    }
}

/// Without the rule for `gone`, the pairs below `bound` yield what they
/// did, less what came of `gone`, if it is among them.
pub proof fn lemma_yield_without(
    counts: Map<u64, isize>,
    rules: Map<u64, char>,
    target: u64,
    gone: u64,
    bound: nat,
)
    requires
        bound <= pair_space(),
    ensures
        yield_below(counts, rules, target, bound) == yield_below(
            counts,
            rules.remove(gone),
            target,
            bound,
        ) + if gone < bound {
            yield_of(counts, rules, gone, target)
        } else {
            0
        },
    decreases bound,
{
    if bound > 0 {
        lemma_yield_without(counts, rules, target, gone, (bound - 1) as nat);
    }
}

/// What the first rules of a list yield does not depend on a rule for a
/// pair that is not among them.
pub proof fn lemma_yield_upto_without(
    counts: Map<u64, isize>,
    rules: Map<u64, char>,
    target: u64,
    list: Seq<(u64, char)>,
    upto: int,
    gone: u64,
)
    requires
        0 <= upto <= list.len(),
        forall|i: int| 0 <= i < upto ==> (#[trigger] list[i]).0 != gone,
    ensures
        yield_upto(counts, rules, target, list, upto) == yield_upto(
            counts,
            rules.remove(gone),
            target,
            list,
            upto,
        ),
    decreases upto,
{
    if upto > 0 {
        lemma_yield_upto_without(counts, rules, target, list, upto - 1, gone);
        assert(list[upto - 1].0 != gone);
    }
}

/// Walking the rules in any order, each once, yields what all pairs yield.
pub proof fn lemma_yield_in_any_order(
    counts: Map<u64, isize>,
    rules: Map<u64, char>,
    target: u64,
    list: Seq<(u64, char)>,
    upto: int,
)
    requires
        0 <= upto <= list.len(),
        forall|i: int, j: int| 0 <= i < j < upto ==> list[i].0 != list[j].0,
        forall|pair: u64| #[trigger]
            rules.contains_key(pair) ==> exists|i: int| 0 <= i < upto && list[i].0 == pair,
    ensures
        yield_upto(counts, rules, target, list, upto) == yield_below(
            counts,
            rules,
            target,
            pair_space(),
        ),
    decreases upto,
{
    if upto == 0 {
        lemma_no_rules_no_yield(counts, rules, target, pair_space());
    } else {
        let gone = list[upto - 1].0;
        let fewer = rules.remove(gone);
        assert forall|pair: u64| #[trigger] fewer.contains_key(pair) implies exists|i: int|
            0 <= i < upto - 1 && list[i].0 == pair by {
            assert(rules.contains_key(pair));
            let i = choose|i: int| 0 <= i < upto && list[i].0 == pair;
            assert(i != upto - 1);
        }
        lemma_yield_in_any_order(counts, fewer, target, list, upto - 1);
        lemma_yield_upto_without(counts, rules, target, list, upto - 1, gone);
        lemma_yield_without(counts, rules, target, gone, pair_space());
    }
}

/// Where no pair has a rule, nothing comes of any.
pub proof fn lemma_no_rules_no_yield(
    counts: Map<u64, isize>,
    rules: Map<u64, char>,
    target: u64,
    bound: nat,
)
    requires
        forall|pair: u64| !rules.contains_key(pair),
    ensures
        yield_below(counts, rules, target, bound) == 0,
    decreases bound,
{
    if bound > 0 {
        lemma_no_rules_no_yield(counts, rules, target, (bound - 1) as nat);
    }
}

/// The rules of `rules` as a list, each rule once, in no particular order.
fn rule_list(rules: &HashMap<u64, char>) -> (list: Vec<(u64, char)>)
    ensures
        lists(list@, rules@),
{
    let mut list: Vec<(u64, char)> = Vec::new();
    let ghost walked = rules.iter().remaining();
    for entry in it: rules.iter()
        invariant
            list@.len() == it.index(),
            it.seq() == walked,
            walked.no_duplicates(),
            forall|j: int|
                0 <= j < it.index() ==> #[trigger] list@[j] == (*walked[j].0, *walked[j].1),
    {
        let (pair, inserted) = entry;
        list.push((*pair, *inserted));
    }
    proof {
        assert(list@.len() == walked.len());
        assert forall|i: int, j: int| 0 <= i < j < list@.len() implies list@[i].0 != list@[j].0 by {
            if list@[i].0 == list@[j].0 {
                assert(rules@[*walked[i].0] == *walked[i].1);
                assert(rules@[*walked[j].0] == *walked[j].1);
                assert(walked[i] == walked[j]);
            }
        }
        assert forall|pair: u64| #[trigger] rules@.contains_key(pair) implies exists|i: int|
            0 <= i < list@.len() && list@[i].0 == pair by {
            assert(walked.contains((&pair, &rules@[pair])));
            let i = choose|i: int| 0 <= i < walked.len() && walked[i] == (&pair, &rules@[pair]);
            assert(list@[i].0 == pair);
        }
    }
    list
}

/// Whether one of the first `upto` rules of `list` turns a counted pair
/// into `target`.
pub open spec fn touched(
    counts: Map<u64, isize>,
    list: Seq<(u64, char)>,
    target: u64,
    upto: int,
) -> bool {
    exists|j: int|
        0 <= j < upto && counts.contains_key(list[j].0) && #[trigger] hits(
            list[j].0,
            list[j].1,
            target,
        ) > 0
}

/// The two pairs that come of `pair` where `inserted` goes into it.
fn children(pair: u64, inserted: char) -> (r: (u64, u64))
    ensures
        r.0 == left_child(pair, inserted),
        r.1 == right_child(pair, inserted),
{
    let middle: u64 = inserted as u64;
    ((pair / 0x1_0000_0000) * 0x1_0000_0000 + middle, middle * 0x1_0000_0000 + pair % 0x1_0000_0000)
}

/// Adds `count` to the count of `pair`, which starts at 0, unless the sum
/// does not fit an `isize`.
fn add_count(counts: &mut HashMap<u64, isize>, pair: u64, count: isize) -> (added: bool)
    ensures
        added == (isize::MIN <= count_at(old(counts)@, pair) + count <= isize::MAX),
        added ==> final(counts)@ == old(counts)@.insert(
            pair,
            (count_at(old(counts)@, pair) + count) as isize,
        ),
{
    let known = match counts.get(&pair) {
        Some(c) => *c,
        None => 0,
    };
    match known.checked_add(count) {
        Some(sum) => {
            counts.insert(pair, sum);
            true
        },
        None => false,
    }
}

/// The counts of the pairs after one step from `pair_counts`; `None`
/// where one of them does not fit an `isize`.
pub fn grow(pair_counts: &HashMap<u64, isize>, transforms: &HashMap<u64, char>) -> (r: Option<
    HashMap<u64, isize>,
>)
    requires
        counted(pair_counts@),
    ensures
        match r {
            Some(new_counts) => new_counts@ == after_step(pair_counts@, transforms@) && counted(
                new_counts@,
            ) && can_grow(pair_counts@, transforms@),
            None => !can_grow(pair_counts@, transforms@),
        },
{
    let mut new_counts: HashMap<u64, isize> = HashMap::new();
    let list = rule_list(transforms);
    let ghost counts = pair_counts@;
    let ghost rules = transforms@;
    let mut i: usize = 0;
    while i < list.len()
        invariant
            i <= list@.len(),
            counts == pair_counts@,
            rules == transforms@,
            counted(counts),
            lists(list@, rules),
            forall|target: u64|
                new_counts@.contains_key(target) <==> touched(counts, list@, target, i as int),
            forall|target: u64|
                count_at(new_counts@, target) == #[trigger] yield_upto(
                    counts,
                    rules,
                    target,
                    list@,
                    i as int,
                ),
        decreases list.len() - i,
    {
        let (pair, inserted) = list[i];
        let found = match pair_counts.get(&pair) {
            Some(c) => Some(*c),
            None => None,
        };
        let ghost old_counts = new_counts@;
        if let Some(count) = found {
            let (left, right) = children(pair, inserted);
            proof {
                assert(rules.contains_key(list@[i as int].0));
                lemma_growth_within(counts, rules, left, list@, i as int);
                lemma_growth_within(counts, rules, right, list@, i as int);
                assert(yield_upto(counts, rules, left, list@, i + 1) == yield_upto(
                    counts,
                    rules,
                    left,
                    list@,
                    i as int,
                ) + yield_of(counts, rules, pair, left));
                assert(yield_upto(counts, rules, right, list@, i + 1) == yield_upto(
                    counts,
                    rules,
                    right,
                    list@,
                    i as int,
                ) + yield_of(counts, rules, pair, right));
                assert(yield_of(counts, rules, pair, left) == count * hits(pair, inserted, left));
                assert(yield_of(counts, rules, pair, right) == count * hits(
                    pair,
                    inserted,
                    right,
                ));
                lemma_times_hits(count as int, pair, inserted, left);
                lemma_times_hits(count as int, pair, inserted, right);
            }
            if !add_count(&mut new_counts, left, count) {
                return None;
            }
            if !add_count(&mut new_counts, right, count) {
                return None;
            }
            proof {
                assert forall|target: u64|
                    count_at(new_counts@, target) == #[trigger] yield_upto(
                        counts,
                        rules,
                        target,
                        list@,
                        i + 1,
                    ) by {
                    assert(count_at(old_counts, target) == yield_upto(
                        counts,
                        rules,
                        target,
                        list@,
                        i as int,
                    ));
                    lemma_times_hits(count as int, pair, inserted, target);
                }
                assert forall|target: u64|
                    new_counts@.contains_key(target) <==> touched(
                        counts,
                        list@,
                        target,
                        i + 1,
                    ) by {
                    lemma_touched_next(counts, list@, target, i as int);
                }
            }
        } else {
            proof {
                assert forall|target: u64|
                    count_at(new_counts@, target) == #[trigger] yield_upto(
                        counts,
                        rules,
                        target,
                        list@,
                        i + 1,
                    ) by {
                    assert(count_at(old_counts, target) == yield_upto(
                        counts,
                        rules,
                        target,
                        list@,
                        i as int,
                    ));
                    assert(yield_of(counts, rules, pair, target) == 0);
                }
                assert forall|target: u64|
                    new_counts@.contains_key(target) <==> touched(
                        counts,
                        list@,
                        target,
                        i + 1,
                    ) by {
                    lemma_touched_next(counts, list@, target, i as int);
                }
            }
        }
        i = i + 1;
    }
    proof {
        assert forall|target: u64|
            new_counts@.contains_key(target) <==> reached(counts, rules, target) by {
            if reached(counts, rules, target) {
                let source = choose|source: u64|
                    counts.contains_key(source) && rules.contains_key(source) && #[trigger] hits(
                        source,
                        rules[source],
                        target,
                    ) > 0;
                let j = choose|j: int| 0 <= j < list@.len() && list@[j].0 == source;
                assert(hits(list@[j].0, list@[j].1, target) > 0);
                assert(touched(counts, list@, target, list@.len() as int));
            }
            if touched(counts, list@, target, list@.len() as int) {
                let j = choose|j: int|
                    0 <= j < list@.len() && counts.contains_key(list@[j].0) && #[trigger] hits(
                        list@[j].0,
                        list@[j].1,
                        target,
                    ) > 0;
                assert(rules.contains_key(list@[j].0) && rules[list@[j].0] == list@[j].1);
                assert(hits(list@[j].0, rules[list@[j].0], target) > 0);
            }
        }
        assert forall|target: u64| #[trigger]
            new_counts@.contains_key(target) implies new_counts@[target] == yield_below(
            counts,
            rules,
            target,
            pair_space(),
        ) && new_counts@[target] >= 0 by {
            lemma_yield_in_any_order(counts, rules, target, list@, list@.len() as int);
            lemma_yield_grows(counts, rules, target, list@, 0, list@.len() as int);
            assert(count_at(new_counts@, target) == yield_upto(
                counts,
                rules,
                target,
                list@,
                list@.len() as int,
            ));
        }
        assert(new_counts@ =~= after_step(counts, rules));
        assert forall|target: u64| #[trigger]
            yield_below(counts, rules, target, pair_space()) <= isize::MAX by {
            lemma_yield_in_any_order(counts, rules, target, list@, list@.len() as int);
        }
    }
    Some(new_counts)
}

/// What a rule yields of `target` is the count of its pair, once for each
/// hit: nothing, the count or twice the count.
proof fn lemma_times_hits(count: int, pair: u64, inserted: char, target: u64)
    ensures
        hits(pair, inserted, target) == 0 ==> count * hits(pair, inserted, target) == 0,
        hits(pair, inserted, target) == 1 ==> count * hits(pair, inserted, target) == count,
        hits(pair, inserted, target) == 2 ==> count * hits(pair, inserted, target) == count
            + count,
        0 <= hits(pair, inserted, target) <= 2,
{
    let h = hits(pair, inserted, target);
    assert(h == 0 ==> count * h == 0) by (nonlinear_arith);
    assert(h == 1 ==> count * h == count) by (nonlinear_arith);
    assert(h == 2 ==> count * h == count + count) by (nonlinear_arith);
}

/// What the first rules yield of `target` stays within what all pairs
/// yield of it.
proof fn lemma_growth_within(
    counts: Map<u64, isize>,
    rules: Map<u64, char>,
    target: u64,
    list: Seq<(u64, char)>,
    upto: int,
)
    requires
        counted(counts),
        lists(list, rules),
        0 <= upto < list.len(),
    ensures
        0 <= yield_upto(counts, rules, target, list, upto) <= yield_upto(
            counts,
            rules,
            target,
            list,
            upto + 1,
        ) <= yield_below(counts, rules, target, pair_space()),
{
    lemma_yield_grows(counts, rules, target, list, upto, upto + 1);
    lemma_yield_grows(counts, rules, target, list, upto + 1, list.len() as int);
    lemma_yield_in_any_order(counts, rules, target, list, list.len() as int);
}

/// A pair is touched by the first `upto + 1` rules where it is touched by
/// the first `upto`, or by the next one.
proof fn lemma_touched_next(
    counts: Map<u64, isize>,
    list: Seq<(u64, char)>,
    target: u64,
    upto: int,
)
    requires
        0 <= upto < list.len(),
    ensures
        touched(counts, list, target, upto + 1) <==> touched(counts, list, target, upto) || (
        counts.contains_key(list[upto].0) && hits(list[upto].0, list[upto].1, target) > 0),
{
    if touched(counts, list, target, upto + 1) {
        let j = choose|j: int|
            0 <= j < upto + 1 && counts.contains_key(list[j].0) && #[trigger] hits(
                list[j].0,
                list[j].1,
                target,
            ) > 0;
        if j < upto {
            assert(touched(counts, list, target, upto));
        }
    }
    if touched(counts, list, target, upto) {
        let j = choose|j: int|
            0 <= j < upto && counts.contains_key(list[j].0) && #[trigger] hits(
                list[j].0,
                list[j].1,
                target,
            ) > 0;
        assert(0 <= j < upto + 1);
    }
}

/// Whether each of the first `n` steps from `counts` stays within `isize`.
pub open spec fn can_grow_times(counts: Map<u64, isize>, rules: Map<u64, char>, n: int) -> bool {
    forall|k: int| 0 <= k < n ==> can_grow(#[trigger] after_steps(counts, rules, k), rules)
}

/// Puts in place of `pair_counts` the counts of the pairs after `n` steps,
/// in each of which `transforms` tells which element goes into which pair,
/// and returns `true`. With `n` below 1 nothing changes. Where a count of
/// some step does not fit an `isize`, the counts are left as they were
/// before that step, and the result is `false`.
pub fn apply_n(
    n: isize,
    pair_counts: &mut HashMap<u64, isize>,
    transforms: &HashMap<u64, char>,
) -> (done: bool)
    requires
        counted(old(pair_counts)@),
    ensures
        counted(final(pair_counts)@),
        done == can_grow_times(old(pair_counts)@, transforms@, n as int),
        done ==> final(pair_counts)@ == after_steps(old(pair_counts)@, transforms@, n as int),
        !done ==> exists|k: int|
            0 <= k < n && final(pair_counts)@ == #[trigger] after_steps(
                old(pair_counts)@,
                transforms@,
                k,
            ) && !can_grow(final(pair_counts)@, transforms@),
{
    let ghost start = pair_counts@;
    let mut k: isize = 0;
    while k < n
        invariant
            0 <= k,
            k <= n || k == 0,
            start == old(pair_counts)@,
            counted(pair_counts@),
            can_grow_times(start, transforms@, k as int),
            pair_counts@ == after_steps(start, transforms@, k as int),
        decreases n - k,
    {
        match grow(pair_counts, transforms) {
            Some(new_counts) => {
                assert(can_grow_times(start, transforms@, k + 1)) by {
                    assert forall|j: int| 0 <= j < k + 1 implies can_grow(
                        #[trigger] after_steps(start, transforms@, j),
                        transforms@,
                    ) by {
                        if j < k {
                            assert(can_grow(after_steps(start, transforms@, j), transforms@));
                        }
                    }
                }
                *pair_counts = new_counts;
            },
            None => {
                assert(!can_grow(after_steps(start, transforms@, k as int), transforms@));
                return false;
            },
        }
        k = k + 1;
    }
    assert(n <= 0 ==> after_steps(start, transforms@, n as int) == start);
    assert(n <= 0 ==> after_steps(start, transforms@, 0) == start);
    assert(can_grow_times(start, transforms@, n as int)) by {
        assert forall|j: int| 0 <= j < n implies can_grow(
            #[trigger] after_steps(start, transforms@, j),
            transforms@,
        ) by {
            assert(j < k);
        }
    }
    true
}

/// The rule at the start of `text`, and the number of bytes it takes: the
/// two elements of a pair, an arrow with a space on each side, and the
/// element that goes between the two. An element is one byte.
pub open spec fn rule(text: Seq<u8>) -> Result<(((char, char), char), nat), ReadError> {
    let arrow = " -> ".spec_bytes();
    if text.len() < 2 {
        Err(ReadError::Malformed)
    } else if !starts_with(text.skip(2), arrow) {
        Err(ReadError::Malformed)
    } else {
        let last = text.skip(2).skip(arrow.len() as int);
        if last.len() < 1 {
            Err(ReadError::Malformed)
        } else {
            Ok((((text[0] as char, text[1] as char), last[0] as char), 2 + arrow.len() + 1))
        }
    }
}

/// Reads the rule at the start of the input.
pub fn read_transform(input: &[u8]) -> (r: Result<(&[u8], ((char, char), char)), ReadError>)
    ensures
        match rule(input@) {
            Ok((t, n)) => r matches Ok((rest, found)) && found == t && rest@ == input@.skip(
                n as int,
            ) && 0 < n <= input@.len(),
            Err(e) => r matches Err(x) && x == e,
        },
{
    if input.len() < 2 {
        return Err(ReadError::Malformed);
    }
    let a = input[0] as char;
    let b = input[1] as char;
    let input1 = match tag(after(input, 2), " -> ".as_bytes()) {
        Ok(rest) => rest,
        Err(e) => { return Err(e); },
    };
    if input1.len() < 1 {
        return Err(ReadError::Malformed);
    }
    let right = input1[0] as char;
    let rest = after(input1, 1);
    assert(rest@ =~= input@.skip((2 + " -> ".spec_bytes().len() + 1) as int));
    Ok((rest, ((a, b), right)))
}

/// The rules that follow in `text`, each after a line feed, and the number
/// of bytes they take with their line feeds. The list ends before the first
/// line feed that no rule follows.
pub open spec fn more_rules(text: Seq<u8>) -> (Seq<((char, char), char)>, nat)
    decreases text.len(),
{
    if text.len() > 0 && text[0] == 10 {
        match rule(text.skip(1)) {
            Ok((t, n)) => {
                let (rest, m) = more_rules(text.skip(1 + n as int));
                (seq![t] + rest, 1 + n + m)
            },
            Err(_) => (Seq::empty(), 0),
        }
    } else {
        (Seq::empty(), 0)
    }
}

/// The rules at the start of `text`, one to a line, and the number of bytes
/// they take. There must be at least one.
pub open spec fn rules_of(text: Seq<u8>) -> Result<(Seq<((char, char), char)>, nat), ReadError> {
    match rule(text) {
        Err(e) => Err(e),
        Ok((t, n)) => {
            let (rest, m) = more_rules(text.skip(n as int));
            Ok((seq![t] + rest, n + m))
        },
    }
}

/// The instructions at the start of `text`, and the number of bytes they
/// take: the letters of the polymer template on a line, an empty line, and
/// the rules, one to a line.
pub open spec fn instructions(text: Seq<u8>) -> Result<
    ((Seq<u8>, Seq<((char, char), char)>), nat),
    ReadError,
> {
    let n = run(text, |c: u8| is_letter(c), 0);
    let lines = text.skip(n as int);
    if n == 0 {
        Err(ReadError::Malformed)
    } else if !(lines.len() > 1 && lines[0] == 10 && lines[1] == 10) {
        Err(ReadError::Malformed)
    } else {
        match rules_of(lines.skip(2)) {
            Err(e) => Err(e),
            Ok((rules, m)) => Ok(((text.take(n as int), rules), n + 2 + m)),
        }
    }
}

/// Reads the rules of the instructions, one to a line.
fn read_rules(input: &[u8]) -> (r: Result<(&[u8], Vec<((char, char), char)>), ReadError>)
    ensures
        match rules_of(input@) {
            Ok((rules, n)) => r matches Ok((rest, found)) && found@ == rules && rest@
                == input@.skip(n as int) && n <= input@.len(),
            Err(e) => r matches Err(x) && x == e,
        },
{
    let (mut rest, first) = match read_transform(input) {
        Ok(found) => found,
        Err(e) => { return Err(e); },
    };
    let ghost tail = rest@;
    let ghost head = (input@.len() - rest@.len()) as nat;
    let mut rules: Vec<((char, char), char)> = Vec::new();
    rules.push(first);
    let ghost mut used: nat = 0;
    loop
        invariant
            used <= tail.len(),
            rest@ == tail.skip(used as int),
            tail == input@.skip(head as int),
            head <= input@.len(),
            rules_of(input@) == Ok::<(Seq<((char, char), char)>, nat), ReadError>(
                (rules@ + more_rules(rest@).0, head + used + more_rules(rest@).1),
            ),
        decreases rest@.len(),
    {
        let line = match newline(rest) {
            Ok(line) => line,
            Err(_) => {
                assert(rules@ + Seq::<((char, char), char)>::empty() =~= rules@);
                assert(rest@ =~= input@.skip((head + used) as int));
                return Ok((rest, rules));
            },
        };
        match read_transform(line) {
            Ok((next, value)) => {
                proof {
                    let n = (line@.len() - next@.len()) as nat;
                    let more = more_rules(next@);
                    assert(next@ =~= rest@.skip(1 + n as int));
                    assert(rules@ + (seq![value] + more.0) =~= rules@.push(value) + more.0);
                    assert(next@ =~= tail.skip((used + 1 + n) as int));
                    used = used + 1 + n;
                }
                rules.push(value);
                rest = next;
            },
            Err(_) => {
                assert(rules@ + Seq::<((char, char), char)>::empty() =~= rules@);
                assert(rest@ =~= input@.skip((head + used) as int));
                return Ok((rest, rules));
            },
        }
    }
}

/// Reads the instructions: the polymer template and the rules, and returns
/// them with the text after them.
pub fn read(input: &[u8]) -> (r: Result<(&[u8], (&[u8], Vec<((char, char), char)>)), ReadError>)
    ensures
        match instructions(input@) {
            Ok(((poly, rules), n)) => r matches Ok((rest, found)) && found.0@ == poly
                && found.1@ == rules && rest@ == input@.skip(n as int),
            Err(e) => r matches Err(x) && x == e,
        },
{
    let (input1, poly) = match alpha1(input) {
        Ok(found) => found,
        Err(e) => { return Err(e); },
    };
    let input2 = match newline(input1) {
        Ok(rest) => rest,
        Err(e) => { return Err(e); },
    };
    let input3 = match newline(input2) {
        Ok(rest) => rest,
        Err(e) => { return Err(e); },
    };
    proof {
        lemma_run(input@, |c: u8| is_letter(c), 0);
        assert(input3@ =~= input1@.skip(2));
    }
    let (rest, transforms) = match read_rules(input3) {
        Ok(found) => found,
        Err(e) => { return Err(e); },
    };
    proof {
        let n = run(input@, |c: u8| is_letter(c), 0);
        let m = (input3@.len() - rest@.len()) as nat;
        assert(input1@.len() == input@.len() - n);
        assert(rest@ =~= input@.skip((n + 2 + m) as int));
    }
    Ok((rest, (poly, transforms)))
}

/// Whether `list` holds each entry of `counts` once.
pub open spec fn lists_counts(list: Seq<(u64, isize)>, counts: Map<u64, isize>) -> bool {
    &&& forall|i: int|
        0 <= i < list.len() ==> counts.contains_key(#[trigger] list[i].0) && counts[list[i].0]
            == list[i].1
    &&& forall|i: int, j: int| 0 <= i < j < list.len() ==> list[i].0 != list[j].0
    &&& forall|key: u64| #[trigger]
        counts.contains_key(key) ==> exists|i: int| 0 <= i < list.len() && list[i].0 == key
}

/// The entries of `counts` as a list, each once, in no particular order.
fn count_list(counts: &HashMap<u64, isize>) -> (list: Vec<(u64, isize)>)
    ensures
        lists_counts(list@, counts@),
{
    let mut list: Vec<(u64, isize)> = Vec::new();
    let ghost walked = counts.iter().remaining();
    for entry in it: counts.iter()
        invariant
            list@.len() == it.index(),
            it.seq() == walked,
            walked.no_duplicates(),
            forall|j: int|
                0 <= j < it.index() ==> #[trigger] list@[j] == (*walked[j].0, *walked[j].1),
    {
        let (key, count) = entry;
        list.push((*key, *count));
    }
    proof {
        assert(list@.len() == walked.len());
        assert forall|i: int, j: int| 0 <= i < j < list@.len() implies list@[i].0 != list@[j].0 by {
            if list@[i].0 == list@[j].0 {
                assert(counts@[*walked[i].0] == *walked[i].1);
                assert(counts@[*walked[j].0] == *walked[j].1);
                assert(walked[i] == walked[j]);
            }
        }
        assert forall|key: u64| #[trigger] counts@.contains_key(key) implies exists|i: int|
            0 <= i < list@.len() && list@[i].0 == key by {
            assert(walked.contains((&key, &counts@[key])));
            let i = choose|i: int| 0 <= i < walked.len() && walked[i] == (&key, &counts@[key]);
            assert(list@[i].0 == key);
        }
    }
    list
}

/// How many of the two elements of `pair` have the code point `element`.
pub open spec fn holds(pair: u64, element: u64) -> int {
    let first: int = if first_of(pair) == element {
        1
    } else {
        0
    };
    let second: int = if second_of(pair) == element {
        1
    } else {
        0
    };
    first + second
}

/// How often `element` stands in the pairs `pair` that `counts` counts:
/// once or twice for each, or never.
pub open spec fn share_of(counts: Map<u64, isize>, pair: u64, element: u64) -> int {
    if counts.contains_key(pair) {
        counts[pair] * holds(pair, element)
    } else {
        0
    }
}

/// How often `element` stands in the counted pairs below `bound`.
pub open spec fn share_below(counts: Map<u64, isize>, element: u64, bound: nat) -> int
    decreases bound,
{
    if bound == 0 {
        0
    } else {
        share_below(counts, element, (bound - 1) as nat) + share_of(
            counts,
            ((bound - 1) as nat) as u64,
            element,
        )
    }
}

/// Whether `element` stands in some counted pair.
pub open spec fn occurs(counts: Map<u64, isize>, element: u64) -> bool {
    exists|pair: u64| counts.contains_key(pair) && #[trigger] holds(pair, element) > 0
}

/// How often each element stands in the counted pairs: an element in the
/// middle of the polymer is counted in two pairs, one at an end in one.
/// Elements that stand in no pair are not listed.
pub open spec fn element_totals(counts: Map<u64, isize>) -> Map<u64, isize> {
    Map::new(
        |element: u64| occurs(counts, element),
        |element: u64| share_below(counts, element, pair_space()) as isize,
    )
}

/// Whether each total fits an `isize`.
pub open spec fn can_total(counts: Map<u64, isize>) -> bool {
    forall|element: u64| #[trigger] share_below(counts, element, pair_space()) <= isize::MAX
}

/// How often `element` stands in the pairs of the first `upto` entries of
/// `list`.
pub open spec fn share_upto(list: Seq<(u64, isize)>, element: u64, upto: int) -> int
    decreases upto,
{
    if upto <= 0 {
        0
    } else {
        share_upto(list, element, upto - 1) + list[upto - 1].1 * holds(list[upto - 1].0, element)
    }
}

/// Whether `element` stands in a pair of the first `upto` entries of `list`.
pub open spec fn seen(list: Seq<(u64, isize)>, element: u64, upto: int) -> bool {
    exists|j: int| 0 <= j < upto && #[trigger] holds(list[j].0, element) > 0
}

/// Counts that are not negative make shares that are not negative and grow
/// with the number of entries.
pub proof fn lemma_share_grows(list: Seq<(u64, isize)>, element: u64, from: int, upto: int)
    requires
        0 <= from <= upto <= list.len(),
        forall|i: int| 0 <= i < list.len() ==> (#[trigger] list[i]).1 >= 0,
    ensures
        0 <= share_upto(list, element, from) <= share_upto(list, element, upto),
    decreases upto,
{
    if upto > 0 {
        let n = list[upto - 1].1 as int;
        let h = holds(list[upto - 1].0, element);
        assert(0 <= n * h) by (nonlinear_arith)
            requires
                0 <= n,
                0 <= h,
        ;
        if from < upto {
            lemma_share_grows(list, element, from, upto - 1);
        } else {
            lemma_share_grows(list, element, from - 1, upto - 1);
        }
    }
}

/// Without the count of `gone`, the pairs below `bound` hold what they
/// did, less the share of `gone`, if it is among them.
pub proof fn lemma_share_without(counts: Map<u64, isize>, element: u64, gone: u64, bound: nat)
    requires
        bound <= pair_space(),
    ensures
        share_below(counts, element, bound) == share_below(counts.remove(gone), element, bound)
            + if gone < bound {
            share_of(counts, gone, element)
        } else {
            0
        },
    decreases bound,
{
    if bound > 0 {
        lemma_share_without(counts, element, gone, (bound - 1) as nat);
    }
}

/// Where no pair is counted, no element has a share.
pub proof fn lemma_no_counts_no_share(counts: Map<u64, isize>, element: u64, bound: nat)
    requires
        forall|pair: u64| !counts.contains_key(pair),
    ensures
        share_below(counts, element, bound) == 0,
    decreases bound,
{
    if bound > 0 {
        lemma_no_counts_no_share(counts, element, (bound - 1) as nat);
    }
}

/// Walking the counts in any order, each once, adds up to the share among
/// all pairs.
pub proof fn lemma_share_in_any_order(
    counts: Map<u64, isize>,
    element: u64,
    list: Seq<(u64, isize)>,
    upto: int,
)
    requires
        0 <= upto <= list.len(),
        forall|i: int|
            0 <= i < upto ==> counts.contains_key(#[trigger] list[i].0) && counts[list[i].0]
                == list[i].1,
        forall|i: int, j: int| 0 <= i < j < upto ==> list[i].0 != list[j].0,
        forall|key: u64| #[trigger]
            counts.contains_key(key) ==> exists|i: int| 0 <= i < upto && list[i].0 == key,
    ensures
        share_upto(list, element, upto) == share_below(counts, element, pair_space()),
    decreases upto,
{
    if upto == 0 {
        lemma_no_counts_no_share(counts, element, pair_space());
    } else {
        let gone = list[upto - 1].0;
        let fewer = counts.remove(gone);
        assert forall|key: u64| #[trigger] fewer.contains_key(key) implies exists|i: int|
            0 <= i < upto - 1 && list[i].0 == key by {
            assert(counts.contains_key(key));
            let i = choose|i: int| 0 <= i < upto && list[i].0 == key;
            assert(i != upto - 1);
        }
        assert forall|i: int| 0 <= i < upto - 1 implies fewer.contains_key(#[trigger] list[i].0)
            && fewer[list[i].0] == list[i].1 by {
            assert(list[i].0 != list[upto - 1].0);
        }
        lemma_share_in_any_order(fewer, element, list, upto - 1);
        lemma_share_without(counts, element, gone, pair_space());
    }
}

/// What an entry adds to the share of `element`: nothing, its count or
/// twice its count.
proof fn lemma_times_holds(count: int, pair: u64, element: u64)
    ensures
        holds(pair, element) == 0 ==> count * holds(pair, element) == 0,
        holds(pair, element) == 1 ==> count * holds(pair, element) == count,
        holds(pair, element) == 2 ==> count * holds(pair, element) == count + count,
        0 <= holds(pair, element) <= 2,
{
    let h = holds(pair, element);
    assert(h == 0 ==> count * h == 0) by (nonlinear_arith);
    assert(h == 1 ==> count * h == count) by (nonlinear_arith);
    assert(h == 2 ==> count * h == count + count) by (nonlinear_arith);
}

/// An element is seen by the first `upto + 1` entries where it is seen by
/// the first `upto`, or stands in the next pair.
proof fn lemma_seen_next(list: Seq<(u64, isize)>, element: u64, upto: int)
    requires
        0 <= upto < list.len(),
    ensures
        seen(list, element, upto + 1) <==> seen(list, element, upto) || holds(
            list[upto].0,
            element,
        ) > 0,
{
    if seen(list, element, upto + 1) {
        let j = choose|j: int| 0 <= j < upto + 1 && #[trigger] holds(list[j].0, element) > 0;
        if j < upto {
            assert(seen(list, element, upto));
        }
    }
    if seen(list, element, upto) {
        let j = choose|j: int| 0 <= j < upto && #[trigger] holds(list[j].0, element) > 0;
        assert(0 <= j < upto + 1);
    }
}

/// How often each element stands in the counted pairs; `None` where one
/// of these totals does not fit an `isize`.
pub fn element_counts(pair_counts: &HashMap<u64, isize>) -> (r: Option<HashMap<u64, isize>>)
    requires
        counted(pair_counts@),
    ensures
        match r {
            Some(counts) => counts@ == element_totals(pair_counts@) && counted(counts@)
                && can_total(pair_counts@),
            None => !can_total(pair_counts@),
        },
{
    let mut counts: HashMap<u64, isize> = HashMap::new();
    let list = count_list(pair_counts);
    let ghost pairs = pair_counts@;
    let mut i: usize = 0;
    while i < list.len()
        invariant
            i <= list@.len(),
            pairs == pair_counts@,
            counted(pairs),
            lists_counts(list@, pairs),
            forall|element: u64| counts@.contains_key(element) <==> seen(list@, element, i as int),
            forall|element: u64|
                count_at(counts@, element) == #[trigger] share_upto(list@, element, i as int),
        decreases list.len() - i,
    {
        let (pair, count) = list[i];
        let a: u64 = pair / 0x1_0000_0000;
        let b: u64 = pair % 0x1_0000_0000;
        let ghost old_counts = counts@;
        proof {
            assert(pairs.contains_key(list@[i as int].0));
            assert forall|k: int| 0 <= k < list@.len() implies (#[trigger] list@[k]).1 >= 0 by {
                assert(pairs.contains_key(list@[k].0));
            }
            lemma_share_grows(list@, a, i as int, i + 1);
            lemma_share_grows(list@, a, i + 1, list@.len() as int);
            lemma_share_in_any_order(pairs, a, list@, list@.len() as int);
            lemma_share_grows(list@, b, i as int, i + 1);
            lemma_share_grows(list@, b, i + 1, list@.len() as int);
            lemma_share_in_any_order(pairs, b, list@, list@.len() as int);
            assert(share_upto(list@, a, i + 1) == share_upto(list@, a, i as int) + count * holds(
                pair,
                a,
            ));
            assert(share_upto(list@, b, i + 1) == share_upto(list@, b, i as int) + count * holds(
                pair,
                b,
            ));
            lemma_times_holds(count as int, pair, a);
            lemma_times_holds(count as int, pair, b);
        }
        if !add_count(&mut counts, a, count) {
            return None;
        }
        if !add_count(&mut counts, b, count) {
            return None;
        }
        proof {
            assert forall|element: u64|
                count_at(counts@, element) == #[trigger] share_upto(list@, element, i + 1) by {
                assert(count_at(old_counts, element) == share_upto(list@, element, i as int));
                lemma_times_holds(count as int, pair, element);
            }
            assert forall|element: u64|
                counts@.contains_key(element) <==> seen(list@, element, i + 1) by {
                lemma_seen_next(list@, element, i as int);
            }
        }
        i = i + 1;
    }
    proof {
        assert forall|element: u64| counts@.contains_key(element) <==> occurs(pairs, element) by {
            if occurs(pairs, element) {
                let pair = choose|pair: u64|
                    pairs.contains_key(pair) && #[trigger] holds(pair, element) > 0;
                let j = choose|j: int| 0 <= j < list@.len() && list@[j].0 == pair;
                assert(holds(list@[j].0, element) > 0);
                assert(seen(list@, element, list@.len() as int));
            }
            if seen(list@, element, list@.len() as int) {
                let j = choose|j: int|
                    0 <= j < list@.len() && #[trigger] holds(list@[j].0, element) > 0;
                assert(pairs.contains_key(list@[j].0));
            }
        }
        assert forall|element: u64| #[trigger]
            counts@.contains_key(element) implies counts@[element] == share_below(
            pairs,
            element,
            pair_space(),
        ) && counts@[element] >= 0 by {
            assert forall|k: int| 0 <= k < list@.len() implies (#[trigger] list@[k]).1 >= 0 by {
                assert(pairs.contains_key(list@[k].0));
            }
            lemma_share_in_any_order(pairs, element, list@, list@.len() as int);
            lemma_share_grows(list@, element, 0, list@.len() as int);
            assert(count_at(counts@, element) == share_upto(
                list@,
                element,
                list@.len() as int,
            ));
        }
        assert(counts@ =~= element_totals(pairs));
        assert forall|element: u64| #[trigger]
            share_below(pairs, element, pair_space()) <= isize::MAX by {
            lemma_share_in_any_order(pairs, element, list@, list@.len() as int);
        }
    }
    Some(counts)
}

/// The greatest and the least of the counts, in this order, unless there
/// are none.
pub fn extremes(counts: &HashMap<u64, isize>) -> (r: Option<(isize, isize)>)
    ensures
        r is None <==> counts@.dom() =~= Set::<u64>::empty(),
        r matches Some((most, least)) ==> {
            &&& exists|key: u64| counts@.contains_key(key) && counts@[key] == most
            &&& exists|key: u64| counts@.contains_key(key) && counts@[key] == least
            &&& forall|key: u64| #[trigger]
                counts@.contains_key(key) ==> least <= counts@[key] <= most
        },
{
    let list = count_list(counts);
    if list.len() == 0 {
        assert(counts@.dom() =~= Set::<u64>::empty());
        return None;
    }
    let mut most = list[0].1;
    let mut least = list[0].1;
    let mut i: usize = 1;
    while i < list.len()
        invariant
            1 <= i <= list@.len(),
            lists_counts(list@, counts@),
            exists|j: int| 0 <= j < i && (#[trigger] list@[j]).1 == most,
            exists|j: int| 0 <= j < i && (#[trigger] list@[j]).1 == least,
            forall|j: int| 0 <= j < i ==> least <= (#[trigger] list@[j]).1 <= most,
        decreases list.len() - i,
    {
        let ghost at_most = choose|j: int| 0 <= j < i && (#[trigger] list@[j]).1 == most;
        let ghost at_least = choose|j: int| 0 <= j < i && (#[trigger] list@[j]).1 == least;
        if list[i].1 > most {
            most = list[i].1;
            assert(list@[i as int].1 == most);
        } else {
            assert(list@[at_most].1 == most);
        }
        if list[i].1 < least {
            least = list[i].1;
            assert(list@[i as int].1 == least);
        } else {
            assert(list@[at_least].1 == least);
        }
        i = i + 1;
    }
    proof {
        let at_most = choose|j: int| 0 <= j < list@.len() && (#[trigger] list@[j]).1 == most;
        let at_least = choose|j: int| 0 <= j < list@.len() && (#[trigger] list@[j]).1 == least;
        assert(counts@.contains_key(list@[at_most].0) && counts@[list@[at_most].0] == most);
        assert(counts@.contains_key(list@[at_least].0) && counts@[list@[at_least].0] == least);
        assert forall|key: u64| #[trigger] counts@.contains_key(key) implies least
            <= counts@[key] <= most by {
            let j = choose|j: int| 0 <= j < list@.len() && list@[j].0 == key;
            assert(least <= list@[j].1 <= most);
        }
        assert(counts@.dom().contains(list@[0].0));
    }
    Some((most, least))
}

} // verus!
