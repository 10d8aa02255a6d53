use aoc2021::origami::{can_fold_map, fold_map, Fold};

#[test]
fn test_fold() {
    {
        let mut v = vec![(0, 0), (20, 10)];
        fold_map(&mut v, Fold::X(10));
        assert_eq!(v, vec![(0, 0), (0, 10)]);
    }
    {
        let mut v = vec![(0, 0), (5, 10)];
        fold_map(&mut v, Fold::X(10));
        assert_eq!(v, vec![(0, 0), (5, 10)]);
    }
    {
        let mut v = vec![(0, 0), (20, 0)];
        fold_map(&mut v, Fold::X(10));
        assert_eq!(v, vec![(0, 0)]);
    }
}

#[test]
fn fold_up_along_a_horizontal_line() {
    let mut v = vec![(6, 10), (0, 14), (9, 10), (0, 3), (10, 4), (4, 11), (6, 0), (6, 12),
        (4, 1), (0, 13), (10, 12), (3, 4), (3, 0), (8, 4), (1, 10), (2, 14), (8, 10), (9, 0)];
    fold_map(&mut v, Fold::Y(7));
    assert_eq!(v.len(), 17);
    assert_eq!(
        v,
        vec![(0, 0), (0, 1), (0, 3), (1, 4), (2, 0), (3, 0), (3, 4), (4, 1), (4, 3), (6, 0),
            (6, 2), (6, 4), (8, 4), (9, 0), (9, 4), (10, 2), (10, 4)]
    );
    fold_map(&mut v, Fold::X(5));
    assert_eq!(v.len(), 16);
}

#[test]
fn fold_orders_dots_and_keeps_one_of_each() {
    let mut v = vec![(3, 1), (1, 2), (3, 1), (1, 1), (1, 2)];
    fold_map(&mut v, Fold::X(100));
    assert_eq!(v, vec![(1, 1), (1, 2), (3, 1)]);
    let mut none: Vec<(i32, i32)> = vec![];
    fold_map(&mut none, Fold::Y(0));
    assert_eq!(none, vec![]);
}

#[test]
fn dots_on_the_line_stay() {
    let mut v = vec![(10, 3), (11, 3)];
    fold_map(&mut v, Fold::X(10));
    assert_eq!(v, vec![(9, 3), (10, 3)]);
}

use aoc2021::origami::{print_map, read, read_dot, read_fold};
use aoc2021::text::ReadError;

#[test]
fn dots_are_two_numbers_and_a_line_feed() {
    assert_eq!(read_dot(b"6,10\n0,14\n"), Ok((&b"0,14\n"[..], (6, 10))));
    assert_eq!(read_dot(b"-6,+10\n"), Ok((&b""[..], (-6, 10))));
    assert_eq!(read_dot(b"6,10"), Err(ReadError::Malformed));
    assert_eq!(read_dot(b"6;10\n"), Err(ReadError::Malformed));
    assert_eq!(read_dot(b"6,\n"), Err(ReadError::Malformed));
    assert_eq!(read_dot(b"6,99999999999\n"), Err(ReadError::OutOfRange));
}

#[test]
fn folds_name_their_axis() {
    assert_eq!(read_fold(b"fold along y=7\n"), Ok((&b"\n"[..], Fold::Y(7))));
    assert_eq!(read_fold(b"fold along x=5"), Ok((&b""[..], Fold::X(5))));
    assert_eq!(read_fold(b"fold along z=5"), Err(ReadError::Malformed));
    assert_eq!(read_fold(b"fold x=5"), Err(ReadError::Malformed));
    assert_eq!(read_fold(b"fold along x="), Err(ReadError::Malformed));
}

#[test]
fn sheet_is_dots_then_folds() {
    let text = b"6,10\n0,14\n9,10\n\nfold along y=7\nfold along x=5\n";
    assert_eq!(
        read(text),
        Ok((&b"\n"[..], (vec![(6, 10), (0, 14), (9, 10)], vec![Fold::Y(7), Fold::X(5)])))
    );
    assert_eq!(read(b"\nfold along x=1"), Ok((&b""[..], (vec![], vec![Fold::X(1)]))));
    assert_eq!(read(b"6,10\nfold along y=7"), Err(ReadError::Malformed));
    assert_eq!(read(b"6,10\n\n"), Err(ReadError::Malformed));
    assert_eq!(read(b""), Err(ReadError::Malformed));
}

#[test]
fn sheet_is_printed_with_its_dots() {
    let dots = [(0, 0), (2, 0), (1, 1), (5, 5)];
    assert_eq!(print_map(&dots, 3, 2), b"#.#\n.#.\n");
    assert_eq!(print_map(&dots, 0, 2), b"\n\n");
    assert_eq!(print_map(&dots, 3, 0), b"");
    assert_eq!(print_map(&dots, -1, 1), b"\n");
    assert_eq!(print_map(&[], 2, 1), b"..\n");
}

#[test]
fn folds_out_of_range_are_told_apart() {
    assert!(can_fold_map(&vec![(0, 0), (20, 10)], Fold::X(10)));
    assert!(can_fold_map(&vec![], Fold::Y(i32::MAX)));
    // Dots before the line are not mirrored, wherever the line lies.
    assert!(can_fold_map(&vec![(5, 0)], Fold::X(i32::MAX)));
    assert!(!can_fold_map(&vec![(i32::MAX, 0)], Fold::X(i32::MAX - 1)));
    assert!(!can_fold_map(&vec![(0, 5)], Fold::Y(i32::MIN)));
    assert!(!can_fold_map(&vec![(0, i32::MAX)], Fold::Y(-1)));
    assert!(can_fold_map(&vec![(-2, i32::MAX)], Fold::X(-1)));
}
