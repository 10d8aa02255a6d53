use aoc2021::polymer::{
    apply_n, element_counts, extremes, grow, pair_key, poly_to_counts, read, read_transform,
};
use aoc2021::text::ReadError;
use std::collections::HashMap;

#[test]
fn day14_test() {
    let content = "NNCB

CH -> B
HH -> N
CB -> H
NH -> C
HB -> C
HC -> B
HN -> C
NN -> C
BH -> H
NC -> B
NB -> B
BN -> B
BB -> N
BC -> B
CC -> N
CN -> C";

    let (_, (poly, trans)) = read(content.as_bytes()).expect("Failed to read instructions");
    let mut transforms = HashMap::new();
    for (left, right) in trans {
        transforms.insert(pair_key(left.0, left.1), right);
    }
    let mut pair_counts = poly_to_counts(std::str::from_utf8(poly).unwrap());

    assert!(apply_n(1, &mut pair_counts, &transforms));
    assert_eq!(pair_counts, poly_to_counts("NCNBCHB"));
    apply_n(1, &mut pair_counts, &transforms);
    assert_eq!(pair_counts, poly_to_counts("NBCCNBBBCBHCB"));
    apply_n(1, &mut pair_counts, &transforms);
    assert_eq!(pair_counts, poly_to_counts("NBBBCNCCNBBNBNBBCHBHHBCHB"));
    apply_n(1, &mut pair_counts, &transforms);
    assert_eq!(
        pair_counts,
        poly_to_counts("NBBNBNBBCCNBCNCCNBBNBBNBBBNBBNBBCBHCBHHNHCBBCBHCB")
    );
}

#[test]
fn pairs_are_counted_where_they_overlap() {
    let counts = poly_to_counts("NNNCB");
    assert_eq!(counts.len(), 3);
    assert_eq!(counts[&pair_key('N', 'N')], 2);
    assert_eq!(counts[&pair_key('N', 'C')], 1);
    assert_eq!(counts[&pair_key('C', 'B')], 1);
    assert!(poly_to_counts("").is_empty());
    assert!(poly_to_counts("N").is_empty());
}

#[test]
fn pair_key_keeps_both_elements() {
    assert_eq!(pair_key('A', 'B'), (65 << 32) | 66);
    assert_ne!(pair_key('A', 'B'), pair_key('B', 'A'));
    assert_eq!(pair_key('\0', '\0'), 0);
}

#[test]
fn a_step_splits_each_pair_with_a_rule() {
    let mut counts = HashMap::new();
    counts.insert(pair_key('A', 'B'), 3);
    counts.insert(pair_key('X', 'Y'), 5);
    let mut rules = HashMap::new();
    rules.insert(pair_key('A', 'B'), 'C');
    rules.insert(pair_key('Q', 'Q'), 'Z');
    let grown = grow(&counts, &rules).unwrap();
    // The pair without a rule vanishes; the rule without a pair adds nothing.
    assert_eq!(grown.len(), 2);
    assert_eq!(grown[&pair_key('A', 'C')], 3);
    assert_eq!(grown[&pair_key('C', 'B')], 3);
}

#[test]
fn a_step_adds_up_what_several_pairs_yield() {
    let mut counts = HashMap::new();
    counts.insert(pair_key('A', 'A'), 2);
    counts.insert(pair_key('A', 'B'), 7);
    counts.insert(pair_key('B', 'A'), 0);
    let mut rules = HashMap::new();
    rules.insert(pair_key('A', 'A'), 'A');
    rules.insert(pair_key('A', 'B'), 'A');
    rules.insert(pair_key('B', 'A'), 'B');
    let grown = grow(&counts, &rules).unwrap();
    // AA -> AA + AA, AB -> AA + AB, BA -> BB + BA (none of them).
    assert_eq!(grown.len(), 4);
    assert_eq!(grown[&pair_key('A', 'A')], 2 + 2 + 7);
    assert_eq!(grown[&pair_key('A', 'B')], 7);
    assert_eq!(grown[&pair_key('B', 'B')], 0);
    assert_eq!(grown[&pair_key('B', 'A')], 0);
}

#[test]
fn no_steps_change_nothing() {
    let mut counts = poly_to_counts("NNCB");
    let before = counts.clone();
    let mut rules = HashMap::new();
    rules.insert(pair_key('N', 'N'), 'C');
    assert!(apply_n(0, &mut counts, &rules));
    assert_eq!(counts, before);
    assert!(apply_n(-3, &mut counts, &rules));
    assert_eq!(counts, before);
}

#[test]
fn several_steps_at_once() {
    let mut rules = HashMap::new();
    rules.insert(pair_key('A', 'A'), 'A');
    let mut counts = poly_to_counts("AA");
    assert!(apply_n(10, &mut counts, &rules));
    assert_eq!(counts.len(), 1);
    assert_eq!(counts[&pair_key('A', 'A')], 1024);
}

#[test]
fn steps_stop_before_a_count_overflows() {
    let mut rules = HashMap::new();
    rules.insert(pair_key('A', 'A'), 'A');
    let mut counts = HashMap::new();
    counts.insert(pair_key('A', 'A'), isize::MAX / 4);
    // Each step doubles the count; the third would pass the greatest isize.
    assert!(!apply_n(3, &mut counts, &rules));
    assert_eq!(counts[&pair_key('A', 'A')], (isize::MAX / 4) * 4);
    assert!(grow(&counts, &rules).is_none());
    assert!(element_counts(&counts).is_none());
    counts.insert(pair_key('A', 'A'), isize::MAX / 2);
    assert_eq!(element_counts(&counts).unwrap()[&('A' as u64)], isize::MAX - 1);
}

#[test]
fn rules_are_read_with_their_arrow() {
    assert_eq!(read_transform(b"CH -> B\n"), Ok((&b"\n"[..], (('C', 'H'), 'B'))));
    assert_eq!(read_transform(b"CH->B"), Err(ReadError::Malformed));
    assert_eq!(read_transform(b"CH -> "), Err(ReadError::Malformed));
    assert_eq!(read_transform(b"C"), Err(ReadError::Malformed));
}

#[test]
fn instructions_need_template_and_rules() {
    assert_eq!(
        read(b"NNCB\n\nCH -> B\nHH -> N\n"),
        Ok((&b"\n"[..], (&b"NNCB"[..], vec![(('C', 'H'), 'B'), (('H', 'H'), 'N')])))
    );
    assert_eq!(read(b"NNCB\nCH -> B"), Err(ReadError::Malformed));
    assert_eq!(read(b"\n\nCH -> B"), Err(ReadError::Malformed));
    assert_eq!(read(b"NNCB\n\n"), Err(ReadError::Malformed));
}

#[test]
fn elements_are_counted_in_their_pairs() {
    let counts = element_counts(&poly_to_counts("NNCB")).unwrap();
    assert_eq!(counts.len(), 3);
    assert_eq!(counts[&('N' as u64)], 3);
    assert_eq!(counts[&('C' as u64)], 2);
    assert_eq!(counts[&('B' as u64)], 1);
    assert_eq!(extremes(&counts), Some((3, 1)));
    assert!(element_counts(&HashMap::new()).unwrap().is_empty());
    assert_eq!(extremes(&HashMap::new()), None);
    let mut single = HashMap::new();
    single.insert(7, -4);
    assert_eq!(extremes(&single), Some((-4, -4)));
}

#[test]
fn element_twice_in_a_pair_counts_twice() {
    let mut pairs = HashMap::new();
    pairs.insert(pair_key('A', 'A'), 5);
    pairs.insert(pair_key('A', 'B'), 1);
    let counts = element_counts(&pairs).unwrap();
    assert_eq!(counts[&('A' as u64)], 11);
    assert_eq!(counts[&('B' as u64)], 1);
}

#[test]
fn test_calc_diff() {
    let pair_counts = HashMap::from([(pair_key('A', 'B'), 1), (pair_key('B', 'B'), 1)]);
    let counts = element_counts(&pair_counts).unwrap();
    let (most, least) = extremes(&counts).unwrap();
    assert_eq!(
        (most as f64 / 2.0f64).ceil() - (least as f64 / 2.0f64).ceil(),
        1f64
    );
}
