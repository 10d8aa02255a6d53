//! Counting how often a series of depth readings rises.

use vstd::prelude::*;
use crate::text::{integer, lemma_integer_within, newline, read_i32, ReadError};

verus! {

/// The number of indices `i` with `gap <= i < upto` at which `depths[i]` is
/// greater than the reading `gap` places before it.
pub open spec fn rises(depths: Seq<i32>, gap: int, upto: int) -> nat
    decreases upto,
{
    if upto <= gap || upto <= 0 {
        0
    } else {
        rises(depths, gap, upto - 1) + if depths[upto - 1 - gap] < depths[upto - 1] {
            1nat
        } else {
            0nat
        }
    }
}

/// There are at most as many rises as there are places to look at.
pub proof fn lemma_rises_bound(depths: Seq<i32>, gap: int, upto: int)
    requires
        0 <= gap,
    ensures
        rises(depths, gap, upto) <= if upto > gap {
            upto - gap
        } else {
            0
        },
    decreases upto,
{
    if upto > gap && upto > 0 {
        lemma_rises_bound(depths, gap, upto - 1);
    }
}

/// The number of readings that are greater than the reading before them.
pub fn diff_depths(depths: &Vec<i32>) -> (n: isize)
    requires
        depths@.len() <= isize::MAX,
    ensures
        n == rises(depths@, 1, depths@.len() as int),
{
    let mut inc_depths: isize = 0;
    if depths.len() == 0 {
        return inc_depths;
    }
    let mut i: usize = 1;
    while i < depths.len()
        invariant
            1 <= i <= depths@.len() <= isize::MAX,
            inc_depths == rises(depths@, 1, i as int),
        decreases depths.len() - i,
    {
        proof {
            lemma_rises_bound(depths@, 1, i as int);
        }
        if depths[i - 1] < depths[i] {
            inc_depths = inc_depths + 1;
        }
        i = i + 1;
    }
    inc_depths
}

/// The number of readings that are greater than the reading three places
/// before them: the number of times the sum of three readings in a row
/// rises from one window to the next.
pub fn diff_windows(depths: &Vec<i32>) -> (n: isize)
    requires
        3 <= depths@.len() <= isize::MAX,
    ensures
        n == rises(depths@, 3, depths@.len() as int),
{
    let mut inc: isize = 0;
    let mut i: usize = 3;
    while i < depths.len()
        invariant
            3 <= i <= depths@.len() <= isize::MAX,
            inc == rises(depths@, 3, i as int),
        decreases depths.len() - i,
    {
        proof {
            lemma_rises_bound(depths@, 3, i as int);
        }
        if depths[i - 3] < depths[i] {
            inc = inc + 1;
        }
        i = i + 1;
    }
    inc
}

/// The readings that follow in `text`, each after a line feed, and the
/// number of bytes they take with their line feeds. The list ends before
/// the first line feed that no reading follows.
pub open spec fn more_readings(text: Seq<u8>) -> (Seq<i32>, nat)
    decreases text.len(),
{
    if text.len() > 0 && text[0] == 10 {
        match integer(text.skip(1)) {
            Ok((value, n)) => {
                proof {
                    lemma_integer_within(text.skip(1));
                }
                let (rest, m) = more_readings(text.skip(1 + n as int));
                (seq![value as i32] + rest, 1 + n + m)
            },
            Err(_) => (Seq::empty(), 0),
        }
    } else {
        (Seq::empty(), 0)
    }
}

/// The readings at the start of `text`, one to a line, and the number of
/// bytes they take. There must be at least one.
pub open spec fn readings(text: Seq<u8>) -> Result<(Seq<i32>, nat), ReadError> {
    match integer(text) {
        Ok((value, n)) => {
            let (rest, m) = more_readings(text.skip(n as int));
            Ok((seq![value as i32] + rest, n + m))
        },
        Err(e) => Err(e),
    }
}

/// Reads the depth readings at the start of the input, one to a line, and
/// returns them with the text after them.
pub fn read(input: &[u8]) -> (r: Result<(&[u8], Vec<i32>), ReadError>)
    ensures
        match readings(input@) {
            Ok((values, n)) => r matches Ok((rest, depths)) && depths@ == values && rest@
                == input@.skip(n as int),
            Err(e) => r matches Err(x) && x == e,
        },
{
    let (mut rest, first) = match read_i32(input) {
        Ok(found) => found,
        Err(e) => { return Err(e); },
    };
    let ghost tail = rest@;
    let ghost head = (input@.len() - rest@.len()) as nat;
    let mut depths: Vec<i32> = Vec::new();
    depths.push(first);
    let ghost mut used: nat = 0;
    loop
        invariant
            used <= tail.len(),
            rest@ == tail.skip(used as int),
            tail == input@.skip(head as int),
            head <= input@.len(),
            depths@.len() > 0,
            readings(input@) == Ok::<(Seq<i32>, nat), ReadError>(
                (
                    depths@ + more_readings(rest@).0,
                    head + used + more_readings(rest@).1,
                ),
            ),
        decreases rest@.len(),
    {
        let line = match newline(rest) {
            Ok(line) => line,
            Err(_) => {
                return Ok((rest, depths));
            },
        };
        match read_i32(line) {
            Ok((next, value)) => {
                proof {
                    let n = (line@.len() - next@.len()) as nat;
                    let more = more_readings(next@);
                    assert(next@ =~= rest@.skip(1 + n as int));
                    assert(depths@ + (seq![value] + more.0) =~= depths@.push(value) + more.0);
                    used = used + 1 + n;
                }
                depths.push(value);
                rest = next;
            },
            Err(_) => {
                return Ok((rest, depths));
            },
        }
    }
}

} // verus!
