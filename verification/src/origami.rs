//! Folding a transparent sheet of dots along a vertical or horizontal line.

use vstd::prelude::*;
use vstd::string::StringSliceAdditionalSpecFns;
use crate::course::fits_i32;
use crate::text::{
    byte, integer, lemma_integer_within, lemma_prepend_twice, newline, prepend, read_i32,
    starts_with, tag, ReadError,
};

verus! {

/// A fold along the line `x = n` (to the left) or `y = n` (upwards).
#[derive(Debug, PartialEq, Clone, Copy)]
pub enum Fold {
    X(i32),
    Y(i32),
}

/// Where the coordinate `v` lies after a fold along `line`: coordinates
/// beyond the line are mirrored at it, the others stay.
pub open spec fn mirrored(v: i32, line: i32) -> int {
    if v > line {
        2 * line - v
    } else {
        v as int
    }
}

/// Whether mirroring `v` at `line` stays within `i32` at each step.
pub open spec fn can_mirror(v: i32, line: i32) -> bool {
    v > line ==> fits_i32(2 * line) && fits_i32(2 * line - v)
}

/// Whether `dot` can be folded within `i32`.
pub open spec fn can_fold(dot: (i32, i32), fold: Fold) -> bool {
    match fold {
        Fold::X(line) => can_mirror(dot.0, line),
        Fold::Y(line) => can_mirror(dot.1, line),
    }
}

/// Where `dot` lies after `fold`.
pub open spec fn folded(dot: (i32, i32), fold: Fold) -> (i32, i32) {
    match fold {
        Fold::X(line) => (mirrored(dot.0, line) as i32, dot.1),
        Fold::Y(line) => (dot.0, mirrored(dot.1, line) as i32),
    }
}

/// `a` comes before `b`, or is `b`: by the first coordinate, then the second.
pub open spec fn dot_le(a: (i32, i32), b: (i32, i32)) -> bool {
    a.0 < b.0 || (a.0 == b.0 && a.1 <= b.1)
}

/// No dot comes before one that stands earlier in `dots`.
pub open spec fn ascending(dots: Seq<(i32, i32)>) -> bool {
    forall|i: int, j: int|
        #![trigger dots[i], dots[j]]
        0 <= i <= j < dots.len() ==> dot_le(dots[i], dots[j])
}

/// Each dot comes after all that stand earlier in `dots`: they are in order
/// and none occurs twice.
pub open spec fn strictly_ascending(dots: Seq<(i32, i32)>) -> bool {
    forall|i: int, j: int|
        #![trigger dots[i], dots[j]]
        0 <= i < j < dots.len() ==> dot_le(dots[i], dots[j]) && dots[i] != dots[j]
}

/// `dots` without each dot that equals the one just before it.
pub open spec fn without_repeats(dots: Seq<(i32, i32)>) -> Seq<(i32, i32)>
    decreases dots.len(),
{
    if dots.len() <= 1 {
        dots
    } else if dots.last() == dots[dots.len() - 2] {
        without_repeats(dots.drop_last())
    } else {
        without_repeats(dots.drop_last()).push(dots.last())
    }
}

/// Calls `sort_unstable` of std on `dots`.
///
/// Believed of std: it reorders the elements, dropping and adding none, into
/// ascending order; pairs of integers are ordered by their first component,
/// then by their second.
#[verifier::external_body]
fn sort_dots(dots: &mut Vec<(i32, i32)>)
    ensures
        final(dots)@.to_multiset() == old(dots)@.to_multiset(),
        ascending(final(dots)@),
{
    dots.sort_unstable();
}

/// Calls `dedup` of std on `dots`.
///
/// Believed of std: it removes every element that equals the one before it
/// and keeps the others in order.
#[verifier::external_body]
fn dedup_dots(dots: &mut Vec<(i32, i32)>)
    ensures
        final(dots)@ == without_repeats(old(dots)@),
{
    dots.dedup();
}

/// In a sequence in ascending order, dropping repeats leaves the same dots,
/// each once, in order.
pub proof fn lemma_without_repeats(dots: Seq<(i32, i32)>)
    requires
        ascending(dots),
    ensures
        strictly_ascending(without_repeats(dots)),
        forall|p: (i32, i32)| without_repeats(dots).contains(p) <==> dots.contains(p),
        dots.len() > 0 ==> without_repeats(dots).len() > 0 && without_repeats(dots).last()
            == dots.last(),
    decreases dots.len(),
{
    let kept = without_repeats(dots);
    if dots.len() > 1 {
        let front = dots.drop_last();
        let last = dots.last();
        assert(ascending(front));
        lemma_without_repeats(front);
        let kept_front = without_repeats(front);
        assert(front.last() == dots[dots.len() - 2]);
        assert forall|p: (i32, i32)| kept.contains(p) <==> dots.contains(p) by {
            if dots.contains(p) {
                let i = choose|i: int| 0 <= i < dots.len() && dots[i] == p;
                if i < dots.len() - 1 {
                    assert(front[i] == p);
                    assert(front.contains(p));
                    assert(kept_front.contains(p));
                    let k = choose|k: int| 0 <= k < kept_front.len() && kept_front[k] == p;
                    assert(kept[k] == p);
                } else if last == front.last() {
                    assert(kept_front.last() == p);
                    assert(kept[kept.len() - 1] == p);
                } else {
                    assert(kept[kept.len() - 1] == p);
                }
            }
            if kept.contains(p) {
                let k = choose|k: int| 0 <= k < kept.len() && kept[k] == p;
                if k < kept_front.len() {
                    assert(kept_front[k] == p);
                    assert(kept_front.contains(p));
                    assert(front.contains(p));
                    let i = choose|i: int| 0 <= i < front.len() && front[i] == p;
                    assert(dots[i] == p);
                } else {
                    assert(dots[dots.len() - 1] == p);
                }
            }
        }
        if last != front.last() {
            assert forall|i: int, j: int| 0 <= i < j < kept.len() implies dot_le(
                kept[i],
                kept[j],
            ) && kept[i] != kept[j] by {
                if j == kept.len() - 1 {
                    assert(kept_front.contains(kept_front[i]));
                    assert(front.contains(kept[i]));
                    let m = choose|m: int| 0 <= m < front.len() && front[m] == kept[i];
                    let a = dots[m];
                    let b = dots[dots.len() - 2];
                    assert(dot_le(a, b));
                    assert(dot_le(b, last));
                    assert(kept[j] == last);
                    assert(kept[i] == a);
                    if a == last {
                        assert(b.0 == last.0 && b.1 == last.1);
                        assert(b == last);
                    }
                } else {
                    assert(kept[i] == kept_front[i] && kept[j] == kept_front[j]);
                    assert(dot_le(kept_front[i], kept_front[j]) && kept_front[i] != kept_front[j]);
                }
            }
        }
    }
}

/// Whether each of `dots` can be folded within `i32`.
pub open spec fn can_fold_all(dots: Seq<(i32, i32)>, fold: Fold) -> bool {
    forall|i: int| 0 <= i < dots.len() ==> can_fold(#[trigger] dots[i], fold)
}

/// Whether `fold_map` can fold the dots within `i32`.
pub fn can_fold_map(dots: &Vec<(i32, i32)>, fold: Fold) -> (ok: bool)
    ensures
        ok == can_fold_all(dots@, fold),
{
    let mut i: usize = 0;
    while i < dots.len()
        invariant
            i <= dots@.len(),
            forall|k: int| 0 <= k < i ==> can_fold(#[trigger] dots@[k], fold),
        decreases dots.len() - i,
    {
        let (x, y) = dots[i];
        let (v, line) = match fold {
            Fold::X(f) => (x, f),
            Fold::Y(f) => (y, f),
        };
        if v > line {
            let mirrored = match line.checked_mul(2) {
                Some(twice) => twice.checked_sub(v),
                None => None,
            };
            if mirrored.is_none() {
                assert(!can_fold(dots@[i as int], fold));
                return false;
            }
        }
        i = i + 1;
    }
    true
}

/// Folds the sheet: mirrors each dot beyond the fold line at it, then puts
/// the dots in order and keeps one of each.
pub fn fold_map(dots: &mut Vec<(i32, i32)>, fold: Fold)
    requires
        can_fold_all(old(dots)@, fold),
    ensures
        strictly_ascending(final(dots)@),
        forall|p: (i32, i32)|
            final(dots)@.contains(p) <==> exists|i: int|
                0 <= i < old(dots)@.len() && folded(#[trigger] old(dots)@[i], fold) == p,
{
    let ghost before = dots@;
    let mut i: usize = 0;
    while i < dots.len()
        invariant
            i <= dots@.len(),
            dots@.len() == before.len(),
            forall|j: int| 0 <= j < before.len() ==> can_fold(#[trigger] before[j], fold),
            forall|j: int| 0 <= j < i ==> #[trigger] dots@[j] == folded(before[j], fold),
            forall|j: int| i <= j < before.len() ==> #[trigger] dots@[j] == before[j],
        decreases dots.len() - i,
    {
        let (x, y) = dots[i];
        assert(can_fold(before[i as int], fold));
        match fold {
            Fold::X(f) => {
                if x > f {
                    dots.set(i, ((2 * f) - x, y));
                }
            },
            Fold::Y(f) => {
                if y > f {
                    dots.set(i, (x, (2 * f) - y));
                }
            },
        }
        i = i + 1;
    }
    let ghost moved = dots@;
    sort_dots(dots);
    let ghost sorted = dots@;
    dedup_dots(dots);
    proof {
        lemma_without_repeats(sorted);
        moved.to_multiset_ensures();
        sorted.to_multiset_ensures();
        assert forall|p: (i32, i32)| dots@.contains(p) <==> exists|i: int|
            0 <= i < before.len() && folded(#[trigger] before[i], fold) == p by {
            if dots@.contains(p) {
                assert(sorted.contains(p));
                assert(moved.to_multiset().count(p) > 0);
                assert(moved.contains(p));
                let k = choose|k: int| 0 <= k < moved.len() && moved[k] == p;
                assert(folded(before[k], fold) == p);
            }
            if exists|i: int| 0 <= i < before.len() && folded(#[trigger] before[i], fold) == p {
                let k = choose|k: int|
                    0 <= k < before.len() && folded(#[trigger] before[k], fold) == p;
                assert(moved[k] == p);
                assert(moved.contains(p));
                assert(sorted.to_multiset().count(p) > 0);
                assert(sorted.contains(p));
            }
        }
    }
}

/// The dot at the start of `text`, and the number of bytes it takes: two
/// signed numbers with a comma between them, and a line feed.
pub open spec fn dot(text: Seq<u8>) -> Result<((i32, i32), nat), ReadError> {
    match integer(text) {
        Err(e) => Err(e),
        Ok((x, n)) => {
            let comma = text.skip(n as int);
            if !(comma.len() > 0 && comma[0] == 44) {
                Err(ReadError::Malformed)
            } else {
                match integer(comma.skip(1)) {
                    Err(e) => Err(e),
                    Ok((y, m)) => {
                        let end = comma.skip(1).skip(m as int);
                        if end.len() > 0 && end[0] == 10 {
                            Ok(((x as i32, y as i32), n + 1 + m + 1))
                        } else {
                            Err(ReadError::Malformed)
                        }
                    },
                }
            }
        },
    }
}

/// A dot takes at least one byte, and only bytes that the text has.
pub proof fn lemma_dot_within(text: Seq<u8>)
    ensures
        dot(text) matches Ok((_, n)) ==> 0 < n <= text.len(),
{
    lemma_integer_within(text);
    if let Ok((_, n)) = integer(text) {
        lemma_integer_within(text.skip(n as int).skip(1));
    }
}

/// Reads the dot at the start of the input, with the line feed after it.
pub fn read_dot(input: &[u8]) -> (r: Result<(&[u8], (i32, i32)), ReadError>)
    ensures
        match dot(input@) {
            Ok((d, n)) => r matches Ok((rest, found)) && found == d && rest@ == input@.skip(
                n as int,
            ) && 0 < n <= input@.len(),
            Err(e) => r matches Err(x) && x == e,
        },
{
    proof {
        lemma_dot_within(input@);
    }
    let (input1, x) = match read_i32(input) {
        Ok(found) => found,
        Err(e) => { return Err(e); },
    };
    let input2 = match byte(input1, 44) {
        Ok(rest) => rest,
        Err(e) => { return Err(e); },
    };
    let (input3, y) = match read_i32(input2) {
        Ok(found) => found,
        Err(e) => { return Err(e); },
    };
    let rest = match newline(input3) {
        Ok(rest) => rest,
        Err(e) => { return Err(e); },
    };
    proof {
        let n = (input@.len() - input1@.len()) as nat;
        let m = (input2@.len() - input3@.len()) as nat;
        assert(rest@ =~= input@.skip((n + 1 + m + 1) as int));
    }
    Ok((rest, (x, y)))
}

/// The fold at the start of `text`, and the number of bytes it takes: the
/// words "fold along", the axis and a signed number.
pub open spec fn fold_line(text: Seq<u8>) -> Result<(Fold, nat), ReadError> {
    let words = "fold along ".spec_bytes();
    let along_x = "x=".spec_bytes();
    let along_y = "y=".spec_bytes();
    if !starts_with(text, words) {
        Err(ReadError::Malformed)
    } else {
        let axis = text.skip(words.len() as int);
        if starts_with(axis, along_x) {
            match integer(axis.skip(along_x.len() as int)) {
                Ok((line, n)) => Ok((Fold::X(line as i32), words.len() + along_x.len() + n)),
                Err(e) => Err(e),
            }
        } else if starts_with(axis, along_y) {
            match integer(axis.skip(along_y.len() as int)) {
                Ok((line, n)) => Ok((Fold::Y(line as i32), words.len() + along_y.len() + n)),
                Err(e) => Err(e),
            }
        } else {
            Err(ReadError::Malformed)
        }
    }
}

/// A fold takes at least one byte, and only bytes that the text has.
pub proof fn lemma_fold_within(text: Seq<u8>)
    ensures
        fold_line(text) matches Ok((_, n)) ==> 0 < n <= text.len(),
{
    let words = "fold along ".spec_bytes();
    if starts_with(text, words) {
        let axis = text.skip(words.len() as int);
        lemma_integer_within(axis.skip("x=".spec_bytes().len() as int));
        lemma_integer_within(axis.skip("y=".spec_bytes().len() as int));
    }
}

/// Reads the fold at the start of the input.
pub fn read_fold(input: &[u8]) -> (r: Result<(&[u8], Fold), ReadError>)
    ensures
        match fold_line(input@) {
            Ok((f, n)) => r matches Ok((rest, found)) && found == f && rest@ == input@.skip(
                n as int,
            ) && 0 < n <= input@.len(),
            Err(e) => r matches Err(x) && x == e,
        },
{
    proof {
        lemma_fold_within(input@);
    }
    let input1 = match tag(input, "fold along ".as_bytes()) {
        Ok(rest) => rest,
        Err(e) => { return Err(e); },
    };
    match tag(input1, "x=".as_bytes()) {
        Ok(input2) => match read_i32(input2) {
            Ok((rest, line)) => {
                assert(rest@ =~= input@.skip(
                    input@.len() - input1@.len() + (input1@.len() - input2@.len()) + (
                    input2@.len() - rest@.len()),
                ));
                Ok((rest, Fold::X(line)))
            },
            Err(e) => Err(e),
        },
        Err(_) => match tag(input1, "y=".as_bytes()) {
            Ok(input2) => match read_i32(input2) {
                Ok((rest, line)) => {
                    assert(rest@ =~= input@.skip(
                        input@.len() - input1@.len() + (input1@.len() - input2@.len()) + (
                        input2@.len() - rest@.len()),
                    ));
                    Ok((rest, Fold::Y(line)))
                },
                Err(e) => Err(e),
            },
            Err(e) => Err(e),
        },
    }
}

/// The dots at the start of `text`, up to the line feed that follows the
/// last of them, and the number of bytes they take with that line feed.
pub open spec fn dots_of(text: Seq<u8>) -> Result<(Seq<(i32, i32)>, nat), ReadError>
    decreases text.len(),
{
    if text.len() > 0 && text[0] == 10 {
        Ok((Seq::empty(), 1))
    } else {
        match dot(text) {
            Err(e) => Err(e),
            Ok((d, n)) => {
                proof {
                    lemma_dot_within(text);
                }
                prepend(seq![d], n, dots_of(text.skip(n as int)))
            },
        }
    }
}

/// The folds that follow in `text`, each after a line feed, and the number
/// of bytes they take with their line feeds. The list ends before the first
/// line feed that no fold follows.
pub open spec fn more_folds(text: Seq<u8>) -> (Seq<Fold>, nat)
    decreases text.len(),
{
    if text.len() > 0 && text[0] == 10 {
        match fold_line(text.skip(1)) {
            Ok((f, n)) => {
                proof {
                    lemma_fold_within(text.skip(1));
                }
                let (rest, m) = more_folds(text.skip(1 + n as int));
                (seq![f] + rest, 1 + n + m)
            },
            Err(_) => (Seq::empty(), 0),
        }
    } else {
        (Seq::empty(), 0)
    }
}

/// The folds at the start of `text`, one to a line, and the number of
/// bytes they take. There must be at least one.
pub open spec fn folds_of(text: Seq<u8>) -> Result<(Seq<Fold>, nat), ReadError> {
    match fold_line(text) {
        Err(e) => Err(e),
        Ok((f, n)) => {
            let (rest, m) = more_folds(text.skip(n as int));
            Ok((seq![f] + rest, n + m))
        },
    }
}

/// The sheet at the start of `text`, and the number of bytes it takes: the
/// dots, one to a line, an empty line, and the folds, one to a line.
pub open spec fn sheet(text: Seq<u8>) -> Result<((Seq<(i32, i32)>, Seq<Fold>), nat), ReadError> {
    match dots_of(text) {
        Err(e) => Err(e),
        Ok((dots, n)) => match folds_of(text.skip(n as int)) {
            Err(e) => Err(e),
            Ok((folds, m)) => Ok(((dots, folds), n + m)),
        },
    }
}

/// Reads the dots of a sheet, up to and with the empty line after them.
fn read_dots(input: &[u8]) -> (r: Result<(&[u8], Vec<(i32, i32)>), ReadError>)
    ensures
        match dots_of(input@) {
            Ok((dots, n)) => r matches Ok((rest, found)) && found@ == dots && rest@
                == input@.skip(n as int) && n <= input@.len(),
            Err(e) => r matches Err(x) && x == e,
        },
{
    let mut rest = input;
    let mut dots: Vec<(i32, i32)> = Vec::new();
    let ghost mut used: nat = 0;
    loop
        invariant
            used <= input@.len(),
            rest@ == input@.skip(used as int),
            dots_of(input@) == prepend(dots@, used, dots_of(rest@)),
        decreases rest@.len(),
    {
        match newline(rest) {
            Ok(next) => {
                assert(dots@ + Seq::<(i32, i32)>::empty() =~= dots@);
                assert(next@ =~= input@.skip((used + 1) as int));
                return Ok((next, dots));
            },
            Err(_) => {},
        }
        match read_dot(rest) {
            Ok((next, d)) => {
                proof {
                    let n = (rest@.len() - next@.len()) as nat;
                    lemma_prepend_twice(dots@, used, d, n, dots_of(next@));
                    assert(next@ =~= input@.skip((used + n) as int));
                    used = used + n;
                }
                dots.push(d);
                rest = next;
            },
            Err(e) => { return Err(e); },
        }
    }
}

/// Reads the folds of a sheet, one to a line.
fn read_folds(input: &[u8]) -> (r: Result<(&[u8], Vec<Fold>), ReadError>)
    ensures
        match folds_of(input@) {
            Ok((folds, n)) => r matches Ok((rest, found)) && found@ == folds && rest@
                == input@.skip(n as int) && n <= input@.len(),
            Err(e) => r matches Err(x) && x == e,
        },
{
    let (mut rest, first) = match read_fold(input) {
        Ok(found) => found,
        Err(e) => { return Err(e); },
    };
    let ghost tail = rest@;
    let ghost head = (input@.len() - rest@.len()) as nat;
    let mut folds: Vec<Fold> = Vec::new();
    folds.push(first);
    let ghost mut used: nat = 0;
    loop
        invariant
            used <= tail.len(),
            rest@ == tail.skip(used as int),
            tail == input@.skip(head as int),
            head <= input@.len(),
            folds_of(input@) == Ok::<(Seq<Fold>, nat), ReadError>(
                (folds@ + more_folds(rest@).0, head + used + more_folds(rest@).1),
            ),
        decreases rest@.len(),
    {
        let line = match newline(rest) {
            Ok(line) => line,
            Err(_) => {
                assert(folds@ + Seq::<Fold>::empty() =~= folds@);
                assert(rest@ =~= input@.skip((head + used) as int));
                return Ok((rest, folds));
            },
        };
        match read_fold(line) {
            Ok((next, value)) => {
                proof {
                    let n = (line@.len() - next@.len()) as nat;
                    let more = more_folds(next@);
                    assert(next@ =~= rest@.skip(1 + n as int));
                    assert(folds@ + (seq![value] + more.0) =~= folds@.push(value) + more.0);
                    assert(next@ =~= tail.skip((used + 1 + n) as int));
                    used = used + 1 + n;
                }
                folds.push(value);
                rest = next;
            },
            Err(_) => {
                assert(folds@ + Seq::<Fold>::empty() =~= folds@);
                assert(rest@ =~= input@.skip((head + used) as int));
                return Ok((rest, folds));
            },
        }
    }
}

/// Reads a sheet: its dots and the folds to make, and returns them with
/// the text after them.
pub fn read(input: &[u8]) -> (r: Result<(&[u8], (Vec<(i32, i32)>, Vec<Fold>)), ReadError>)
    ensures
        match sheet(input@) {
            Ok(((dots, folds), n)) => r matches Ok((rest, found)) && found.0@ == dots
                && found.1@ == folds && rest@ == input@.skip(n as int),
            Err(e) => r matches Err(x) && x == e,
        },
{
    let (after_dots, dots) = match read_dots(input) {
        Ok(found) => found,
        Err(e) => { return Err(e); },
    };
    let (rest, folds) = match read_folds(after_dots) {
        Ok(found) => found,
        Err(e) => { return Err(e); },
    };
    assert(rest@ =~= input@.skip(
        input@.len() - after_dots@.len() + (after_dots@.len() - rest@.len()),
    ));
    Ok((rest, (dots, folds)))
}

/// The sign at column `x` and row `y` of the sheet: `#` where a dot lies,
/// else `.`.
pub open spec fn mark(dots: Seq<(i32, i32)>, x: int, y: int) -> u8 {
    if exists|i: int| 0 <= i < dots.len() && dots[i].0 == x && dots[i].1 == y {
        35
    } else {
        46
    }
}

/// The first `n` signs of row `y` of the sheet.
pub open spec fn marks(dots: Seq<(i32, i32)>, y: int, n: int) -> Seq<u8> {
    Seq::new(n as nat, |x: int| mark(dots, x, y))
}

/// The first `n` rows of the sheet as text, each `x_size` signs wide, with
/// a line feed after each.
pub open spec fn sheet_text(dots: Seq<(i32, i32)>, x_size: int, n: int) -> Seq<u8>
    decreases n,
{
    if n <= 0 {
        Seq::empty()
    } else {
        sheet_text(dots, x_size, n - 1) + marks(dots, n - 1, x_size).push(10)
    }
}

/// Whether a dot lies at column `x` and row `y`.
fn has_dot(dots: &[(i32, i32)], x: i32, y: i32) -> (found: bool)
    ensures
        found == (mark(dots@, x as int, y as int) == 35),
{
    let mut i: usize = 0;
    while i < dots.len()
        invariant
            i <= dots@.len(),
            forall|k: int| 0 <= k < i ==> !(dots@[k].0 == x && dots@[k].1 == y),
        decreases dots.len() - i,
    {
        if dots[i].0 == x && dots[i].1 == y {
            return true;
        }
        i = i + 1;
    }
    false
}

/// The sheet as text: `y_size` lines of `x_size` signs each, `#` where a
/// dot lies and `.` elsewhere.
pub fn print_map(dots: &[(i32, i32)], x_size: i32, y_size: i32) -> (text: Vec<u8>)
    ensures
        text@ == sheet_text(
            dots@,
            if x_size > 0 {
                x_size as int
            } else {
                0
            },
            y_size as int,
        ),
{
    let ghost width: int = if x_size > 0 {
        x_size as int
    } else {
        0
    };
    let mut text: Vec<u8> = Vec::new();
    let mut y: i32 = 0;
    while y < y_size
        invariant
            0 <= y,
            y <= y_size || y == 0,
            width == if x_size > 0 {
                x_size as int
            } else {
                0
            },
            text@ == sheet_text(dots@, width, y as int),
        decreases y_size - y,
    {
        let mut x: i32 = 0;
        while x < x_size
            invariant
                0 <= x,
                x <= x_size || x == 0,
                0 <= y < y_size,
                x <= width,
                width == if x_size > 0 {
                    x_size as int
                } else {
                    0
                },
                text@ == sheet_text(dots@, width, y as int) + marks(dots@, y as int, x as int),
            decreases x_size - x,
        {
            let sign: u8 = if has_dot(dots, x, y) {
                35
            } else {
                46
            };
            assert(marks(dots@, y as int, x + 1) =~= marks(dots@, y as int, x as int).push(sign));
            assert(text@.push(sign) =~= sheet_text(dots@, width, y as int) + marks(
                dots@,
                y as int,
                x + 1,
            ));
            text.push(sign);
            x = x + 1;
        }
        assert(x == width);
        assert(text@.push(10) =~= sheet_text(dots@, width, y as int) + marks(
            dots@,
            y as int,
            width,
        ).push(10));
        text.push(10);
        y = y + 1;
    }
    assert(y_size <= 0 ==> sheet_text(dots@, width, y_size as int) == Seq::<u8>::empty());
    text
}

} // verus!
