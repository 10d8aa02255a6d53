//! Enhancing an image of lit and dark pixels that extends without end: the
//! pixels outside the stored rectangle all have one value, which is kept
//! beside the rectangle and changes with each enhancement.

use vstd::prelude::*;
use crate::text::{after, lemma_run, newline, run, ReadError};

verus! {

/// Whether `map` is a rectangle with at least one row: all rows are as long
/// as the first.
pub open spec fn rectangular(map: Seq<Vec<u8>>) -> bool {
    &&& map.len() > 0
    &&& forall|y: int| 0 <= y < map.len() ==> (#[trigger] map[y])@.len() == map[0]@.len()
}

/// Whether each pixel of `map` is 0 (dark) or 1 (lit).
pub open spec fn binary(map: Seq<Vec<u8>>) -> bool {
    forall|y: int, x: int|
        0 <= y < map.len() && 0 <= x < map[y]@.len() ==> (#[trigger] map[y]@[x]) <= 1
}

/// The pixel at column `x` and row `y`: the stored one inside the
/// rectangle, `infinite` outside.
pub open spec fn pixel(map: Seq<Vec<u8>>, x: int, y: int, infinite: u8) -> u8 {
    if 0 <= x < map[0]@.len() && 0 <= y < map.len() {
        map[y]@[x]
    } else {
        infinite
    }
}

/// The number that the first `n` pixels of the three by three window
/// around `(x, y)` spell, read row by row, each pixel a binary digit.
pub open spec fn window_value(map: Seq<Vec<u8>>, x: int, y: int, infinite: u8, n: int) -> int
    decreases n,
{
    if n <= 0 {
        0
    } else {
        2 * window_value(map, x, y, infinite, n - 1) + pixel(
            map,
            x - 1 + (n - 1) % 3,
            y - 1 + (n - 1) / 3,
            infinite,
        )
    }
}

/// The first `n` pixels of a window spell a number below `256 * 2^n`; of
/// binary pixels, a number below `2^n`.
pub proof fn lemma_window_bound(map: Seq<Vec<u8>>, x: int, y: int, infinite: u8, n: int)
    requires
        0 <= n <= 9,
    ensures
        0 <= window_value(map, x, y, infinite, n) <= 255 * (vstd::arithmetic::power2::pow2(
            n as nat,
        ) - 1),
        binary(map) && infinite <= 1 && rectangular(map) ==> window_value(
            map,
            x,
            y,
            infinite,
            n,
        ) < vstd::arithmetic::power2::pow2(n as nat),
    decreases n,
{
    vstd::arithmetic::power2::lemma2_to64();
    if n > 0 {
        lemma_window_bound(map, x, y, infinite, n - 1);
        vstd::arithmetic::power2::lemma_pow2_unfold(n as nat);
    }
}

/// The pixel at column `x` and row `y` of the image.
pub fn get_point(map: &[Vec<u8>], x: isize, y: isize, infinite: u8) -> (p: u8)
    requires
        rectangular(map@),
    ensures
        p == pixel(map@, x as int, y as int, infinite),
{
    if x >= 0 && y >= 0 && (x as usize) < map[0].len() && (y as usize) < map.len() {
        map[y as usize][x as usize]
    } else {
        infinite
    }
}

/// The number that the three by three window around `(x, y)` spells.
pub fn points_to_value(map: &[Vec<u8>], x: isize, y: isize, infinite: u8) -> (value: usize)
    requires
        rectangular(map@),
        isize::MIN < x < isize::MAX,
        isize::MIN < y < isize::MAX,
    ensures
        value == window_value(map@, x as int, y as int, infinite, 9),
        binary(map@) && infinite <= 1 ==> value < 512,
{
    let mut value: usize = 0;
    let mut n: usize = 0;
    while n < 9
        invariant
            n <= 9,
            rectangular(map@),
            isize::MIN < x < isize::MAX,
            isize::MIN < y < isize::MAX,
            value == window_value(map@, x as int, y as int, infinite, n as int),
        decreases 9 - n,
    {
        proof {
            lemma_window_bound(map@, x as int, y as int, infinite, n as int);
            vstd::arithmetic::power2::lemma2_to64();
        }
        let b = x - 1 + (n % 3) as isize;
        let a = y - 1 + (n / 3) as isize;
        value = value * 2;
        value = value + get_point(map, b, a, infinite) as usize;
        n = n + 1;
    }
    proof {
        lemma_window_bound(map@, x as int, y as int, infinite, 9);
        vstd::arithmetic::power2::lemma2_to64();
    }
    value
}

/// The sum of the first `n` pixels of `row`.
pub open spec fn row_sum(row: Seq<u8>, n: int) -> nat
    decreases n,
{
    if n <= 0 {
        0
    } else {
        row_sum(row, n - 1) + row[n - 1] as nat
    }
}

/// The sum of the first `width` pixels of each of the first `rows` rows of
/// `map`: the number of lit pixels among them, where pixels are 0 or 1.
pub open spec fn lit(map: Seq<Vec<u8>>, width: int, rows: int) -> nat
    decreases rows,
{
    if rows <= 0 {
        0
    } else {
        lit(map, width, rows - 1) + row_sum(map[rows - 1]@, width)
    }
}

/// Whether the pixels of `map` can be counted within `usize`: no row is
/// shorter than the first, and the sum of the pixels fits.
pub open spec fn countable(map: Seq<Vec<u8>>) -> bool {
    &&& forall|y: int| 0 <= y < map.len() ==> (#[trigger] map[y])@.len() >= map[0]@.len()
    &&& map.len() > 0 ==> lit(map, map[0]@.len() as int, map.len() as int) <= usize::MAX
}

/// The sums grow with the number of pixels and rows.
pub proof fn lemma_lit_grows(map: Seq<Vec<u8>>, width: int, rows: int, n: int)
    requires
        0 <= n <= width,
        0 <= rows,
    ensures
        lit(map, width, rows) + row_sum(map[rows]@, n) <= lit(map, width, rows + 1),
    decreases width - n,
{
    if n < width {
        lemma_lit_grows(map, width, rows, n + 1);
    }
}

/// The sums grow with the number of rows.
pub proof fn lemma_lit_rows(map: Seq<Vec<u8>>, width: int, rows: int, all: int)
    requires
        0 <= rows <= all,
    ensures
        lit(map, width, rows) <= lit(map, width, all),
    decreases all - rows,
{
    if rows < all {
        lemma_lit_rows(map, width, rows + 1, all);
    }
}

/// The number of lit pixels of the image: the sum of its pixels, over the
/// width of its first row.
pub fn count(map: &[Vec<u8>]) -> (n: usize)
    requires
        countable(map@),
    ensures
        map@.len() > 0 ==> n == lit(map@, map@[0]@.len() as int, map@.len() as int),
        map@.len() == 0 ==> n == 0,
{
    let mut n: usize = 0;
    let mut y: usize = 0;
    while y < map.len()
        invariant
            y <= map@.len(),
            forall|k: int| 0 <= k < map@.len() ==> (#[trigger] map@[k])@.len() >= map@[0]@.len(),
            map@.len() > 0 ==> lit(map@, map@[0]@.len() as int, map@.len() as int) <= usize::MAX,
            map@.len() > 0 ==> n == lit(map@, map@[0]@.len() as int, y as int),
            map@.len() == 0 ==> n == 0,
        decreases map.len() - y,
    {
        let width = map[0].len();
        let ghost before = n;
        let mut x: usize = 0;
        while x < width
            invariant
                y < map@.len(),
                x <= width,
                width == map@[0]@.len(),
                map@[y as int]@.len() >= width,
                lit(map@, width as int, map@.len() as int) <= usize::MAX,
                before == lit(map@, width as int, y as int),
                n == before + row_sum(map@[y as int]@, x as int),
            decreases width - x,
        {
            proof {
                lemma_lit_grows(map@, width as int, y as int, x + 1);
                lemma_lit_rows(map@, width as int, y + 1, map@.len() as int);
            }
            n = n + map[y][x] as usize;
            x = x + 1;
        }
        y = y + 1;
    }
    n
}

/// Whether each window whose centre lies on the rectangle, or next to it,
/// spells a number below `bound`.
pub open spec fn windows_within(map: Seq<Vec<u8>>, infinite: u8, bound: int) -> bool {
    forall|x: int, y: int|
        -1 <= x <= map[0]@.len() + 1 && -1 <= y <= map.len() + 1 ==> #[trigger] window_value(
            map,
            x,
            y,
            infinite,
            9,
        ) < bound
}

/// What lies outside the rectangle after an enhancement: a window of nine
/// dark pixels spells 0, one of nine lit pixels the last index of the
/// table.
pub open spec fn enhanced_infinite(ima: Seq<u8>, infinite: u8) -> u8 {
    if infinite == 1 {
        ima[ima.len() - 1]
    } else {
        ima[0]
    }
}

/// The enhanced image: each pixel becomes the entry of the table `ima` at
/// the number that the window around it spells. The rectangle grows by one
/// pixel to the left and at the top and by two to the right and at the
/// bottom. Returned with it is what now lies outside the rectangle.
pub fn enhance(ima: &[u8], map: &[Vec<u8>], infinite: u8) -> (r: (Vec<Vec<u8>>, u8))
    requires
        enhanceable(ima@, map@, infinite),
    ensures
        r.0@.len() == map@.len() + 3,
        forall|y: int| 0 <= y < r.0@.len() ==> (#[trigger] r.0@[y])@.len() == map@[0]@.len() + 3,
        forall|y: int, x: int|
            0 <= y < r.0@.len() && 0 <= x < map@[0]@.len() + 3 ==> (#[trigger] r.0@[y]@[x])
                == ima@[window_value(map@, x - 1, y - 1, infinite, 9)],
        r.1 == enhanced_infinite(ima@, infinite),
{
    let mut new_map: Vec<Vec<u8>> = Vec::new();
    let height: isize = (map.len() + 2) as isize;
    let width: isize = (map[0].len() + 2) as isize;
    let mut y: isize = -1;
    while y < height
        invariant
            rectangular(map@),
            windows_within(map@, infinite, ima@.len() as int),
            height == map@.len() + 2,
            width == map@[0]@.len() + 2,
            -1 <= y <= height,
            new_map@.len() == y + 1,
            forall|k: int| 0 <= k < new_map@.len() ==> (#[trigger] new_map@[k])@.len() == width + 1,
            forall|k: int, x: int|
                0 <= k < new_map@.len() && 0 <= x < width + 1 ==> (#[trigger] new_map@[k]@[x])
                    == ima@[window_value(map@, x - 1, k - 1, infinite, 9)],
        decreases height - y,
    {
        let mut row: Vec<u8> = Vec::new();
        let mut x: isize = -1;
        while x < width
            invariant
                rectangular(map@),
                windows_within(map@, infinite, ima@.len() as int),
                height == map@.len() + 2,
                width == map@[0]@.len() + 2,
                -1 <= y < height,
                -1 <= x <= width,
                row@.len() == x + 1,
                forall|k: int|
                    0 <= k < row@.len() ==> (#[trigger] row@[k]) == ima@[window_value(
                        map@,
                        k - 1,
                        y as int,
                        infinite,
                        9,
                    )],
            decreases width - x,
        {
            let value = points_to_value(map, x, y, infinite);
            assert(window_value(map@, x as int, y as int, infinite, 9) < ima@.len());
            row.push(ima[value]);
            x = x + 1;
        }
        new_map.push(row);
        y = y + 1;
    }
    let next = if infinite == 1 {
        ima[ima.len() - 1]
    } else {
        ima[0]
    };
    (new_map, next)
}

/// Windows of dark and lit pixels spell numbers below 512.
pub proof fn lemma_binary_windows(map: Seq<Vec<u8>>, infinite: u8)
    requires
        rectangular(map),
        binary(map),
        infinite <= 1,
    ensures
        windows_within(map, infinite, 512),
{
    assert forall|x: int, y: int| #[trigger] window_value(map, x, y, infinite, 9) < 512 by {
        lemma_window_bound(map, x, y, infinite, 9);
        vstd::arithmetic::power2::lemma2_to64();
    }
}

/// Whether `c` is the sign of a pixel: `#` for a lit one, `.` for a dark
/// one.
pub open spec fn is_pixel(c: u8) -> bool {
    c == 35 || c == 46
}

/// The pixel that the sign `c` stands for: 0 for `.`, else 1.
pub open spec fn pixel_of(c: u8) -> u8 {
    if c == 46 {
        0
    } else {
        1
    }
}

/// The pixels that the signs at the start of `text` stand for, up to the
/// first byte that is no such sign.
pub open spec fn pixels(text: Seq<u8>) -> Seq<u8> {
    Seq::new(run(text, |c: u8| is_pixel(c), 0), |i: int| pixel_of(text[i]))
}

/// Reads the pixel at the start of the input.
pub fn read_point(input: &[u8]) -> (r: Result<(&[u8], u8), ReadError>)
    ensures
        match r {
            Ok((rest, p)) => input@.len() > 0 && is_pixel(input@[0]) && p == pixel_of(input@[0])
                && rest@ == input@.skip(1),
            Err(e) => !(input@.len() > 0 && is_pixel(input@[0])) && e == ReadError::Malformed,
        },
{
    if input.len() > 0 && (input[0] == 35 || input[0] == 46) {
        let p: u8 = if input[0] == 46 {
            0
        } else {
            1
        };
        Ok((after(input, 1), p))
    } else {
        Err(ReadError::Malformed)
    }
}

/// Reads the pixels at the start of the input, of which there may be none.
pub fn read_line(input: &[u8]) -> (r: (&[u8], Vec<u8>))
    ensures
        r.1@ == pixels(input@),
        r.0@ == input@.skip(r.1@.len() as int),
        r.1@.len() <= input@.len(),
{
    let ghost wanted = |c: u8| is_pixel(c);
    let mut rest = input;
    let mut row: Vec<u8> = Vec::new();
    proof {
        lemma_run(input@, wanted, 0);
    }
    loop
        invariant
            wanted == (|c: u8| is_pixel(c)),
            row@.len() <= input@.len(),
            rest@ == input@.skip(row@.len() as int),
            run(input@, wanted, 0) == row@.len() + run(input@, wanted, row@.len() as int),
            run(input@, wanted, 0) <= input@.len(),
            forall|i: int| 0 <= i < row@.len() ==> row@[i] == pixel_of(#[trigger] input@[i]),
        decreases rest@.len(),
    {
        match read_point(rest) {
            Ok((next, p)) => {
                assert(wanted(input@[row@.len() as int]));
                assert(next@ =~= input@.skip(row@.len() as int + 1));
                row.push(p);
                rest = next;
            },
            Err(_) => {
                assert(row@.len() < input@.len() ==> !wanted(input@[row@.len() as int]));
                assert(row@ =~= pixels(input@));
                return (rest, row);
            },
        }
    }
}

/// The rows that follow in `text`, each after a line feed, and the number
/// of bytes they take with their line feeds. A row may be empty.
pub open spec fn more_rows(text: Seq<u8>) -> (Seq<Seq<u8>>, nat)
    decreases text.len(),
{
    if text.len() > 0 && text[0] == 10 {
        let row = pixels(text.skip(1));
        proof {
            lemma_run(text.skip(1), |c: u8| is_pixel(c), 0);
        }
        let (rest, m) = more_rows(text.skip(1 + row.len() as int));
        (seq![row] + rest, 1 + row.len() + m)
    } else {
        (Seq::empty(), 0)
    }
}

/// The rows of pixels at the start of `text`, one to a line, and the number
/// of bytes they take. There is always a first row, which may be empty.
pub open spec fn rows(text: Seq<u8>) -> (Seq<Seq<u8>>, nat) {
    let row = pixels(text);
    let (rest, m) = more_rows(text.skip(row.len() as int));
    (seq![row] + rest, row.len() + m)
}

/// The rows of `map`, each as a sequence.
pub open spec fn row_views(map: Seq<Vec<u8>>) -> Seq<Seq<u8>> {
    Seq::new(map.len(), |y: int| map[y]@)
}

/// Reads the rows of pixels at the start of the input, one to a line, and
/// returns them with the text after them.
pub fn read(input: &[u8]) -> (r: (&[u8], Vec<Vec<u8>>))
    ensures
        row_views(r.1@) == rows(input@).0,
        r.0@ == input@.skip(rows(input@).1 as int),
{
    let (mut rest, first) = read_line(input);
    let ghost tail = rest@;
    let ghost head = (input@.len() - rest@.len()) as nat;
    let mut map: Vec<Vec<u8>> = Vec::new();
    map.push(first);
    let ghost mut used: nat = 0;
    assert(row_views(map@) =~= seq![pixels(input@)]);
    loop
        invariant
            used <= tail.len(),
            rest@ == tail.skip(used as int),
            tail == input@.skip(head as int),
            head <= input@.len(),
            rows(input@) == (
                row_views(map@) + more_rows(rest@).0,
                head + used + more_rows(rest@).1,
            ),
        decreases rest@.len(),
    {
        let line = match newline(rest) {
            Ok(line) => line,
            Err(_) => {
                assert(row_views(map@) + Seq::<Seq<u8>>::empty() =~= row_views(map@));
                assert(rest@ =~= input@.skip((head + used) as int));
                return (rest, map);
            },
        };
        let (next, row) = read_line(line);
        proof {
            let n = row@.len();
            let more = more_rows(next@);
            assert(next@ =~= rest@.skip(1 + n as int));
            assert(row_views(map@.push(row)) =~= row_views(map@).push(row@));
            assert(row_views(map@) + (seq![row@] + more.0) =~= row_views(map@).push(row@)
                + more.0);
            assert(next@ =~= tail.skip((used + 1 + n) as int));
            used = used + 1 + n;
        }
        map.push(row);
        rest = next;
    }
}

/// Reads the enhancement table and the image: the table is the first row
/// of the input, the image the rows from the third on. The input must have
/// two rows at least.
pub fn read_map(input: &[u8]) -> (r: (Vec<u8>, Vec<Vec<u8>>))
    requires
        rows(input@).0.len() >= 2,
    ensures
        r.0@ == rows(input@).0[0],
        row_views(r.1@) == rows(input@).0.skip(2),
{
    let (_, mut map) = read(input);
    let ghost all = map@;
    let ima = map.remove(0);
    let _ = map.remove(0);
    assert(row_views(all)[0] == all[0]@);
    assert(row_views(map@) =~= row_views(all).skip(2));
    (ima, map)
}

/// The sign by which the pixel `p` is drawn: `.` where it is 0, else `#`.
pub open spec fn sign_of(p: u8) -> u8 {
    if p == 0 {
        46
    } else {
        35
    }
}

/// The signs of the first `n` pixels of `row`.
pub open spec fn signs(row: Seq<u8>, n: int) -> Seq<u8> {
    Seq::new(n as nat, |i: int| sign_of(row[i]))
}

/// The first `n` rows of `map` as text: the signs of each row, and a line
/// feed after each.
pub open spec fn picture(map: Seq<Vec<u8>>, n: int) -> Seq<u8>
    decreases n,
{
    if n <= 0 {
        Seq::empty()
    } else {
        picture(map, n - 1) + signs(map[n - 1]@, map[n - 1]@.len() as int).push(10)
    }
}

/// The image as text, one line for each row.
pub fn draw(map: &[Vec<u8>]) -> (text: Vec<u8>)
    ensures
        text@ == picture(map@, map@.len() as int),
{
    let mut text: Vec<u8> = Vec::new();
    let mut y: usize = 0;
    while y < map.len()
        invariant
            y <= map@.len(),
            text@ == picture(map@, y as int),
        decreases map.len() - y,
    {
        let row = &map[y];
        let mut x: usize = 0;
        while x < row.len()
            invariant
                y < map@.len(),
                *row == map@[y as int],
                x <= row@.len(),
                text@ == picture(map@, y as int) + signs(row@, x as int),
            decreases row.len() - x,
        {
            let sign: u8 = if row[x] == 0 {
                46
            } else {
                35
            };
            assert(signs(row@, x + 1) =~= signs(row@, x as int).push(sign));
            assert(text@.push(sign) =~= picture(map@, y as int) + signs(row@, x + 1));
            text.push(sign);
            x = x + 1;
        }
        assert(text@.push(10) =~= picture(map@, y as int) + signs(row@, x as int).push(10));
        text.push(10);
        y = y + 1;
    }
    text
}

/// The first `n` pixels of the window around `(x, y)` as text, row by
/// row, with a line feed after each row of three.
pub open spec fn window_picture(map: Seq<Vec<u8>>, x: int, y: int, infinite: u8, n: int) -> Seq<
    u8,
>
    decreases n,
{
    if n <= 0 {
        Seq::empty()
    } else {
        let before = window_picture(map, x, y, infinite, n - 1);
        let sign = sign_of(pixel(map, x - 1 + (n - 1) % 3, y - 1 + (n - 1) / 3, infinite));
        if n % 3 == 0 {
            before.push(sign).push(10)
        } else {
            before.push(sign)
        }
    }
}

/// The three by three window around `(x, y)` as text, one line for each
/// row.
pub fn draw_window(map: &[Vec<u8>], x: isize, y: isize, infinite: u8) -> (text: Vec<u8>)
    requires
        rectangular(map@),
        isize::MIN < x < isize::MAX,
        isize::MIN < y < isize::MAX,
    ensures
        text@ == window_picture(map@, x as int, y as int, infinite, 9),
{
    let mut text: Vec<u8> = Vec::new();
    let mut n: usize = 0;
    while n < 9
        invariant
            n <= 9,
            rectangular(map@),
            isize::MIN < x < isize::MAX,
            isize::MIN < y < isize::MAX,
            text@ == window_picture(map@, x as int, y as int, infinite, n as int),
        decreases 9 - n,
    {
        let b = x - 1 + (n % 3) as isize;
        let a = y - 1 + (n / 3) as isize;
        let sign: u8 = if get_point(map, b, a, infinite) == 0 {
            46
        } else {
            35
        };
        text.push(sign);
        if n % 3 == 2 {
            text.push(10);
        }
        n = n + 1;
    }
    text
}

/// Whether `count` can count the pixels of the image.
pub fn can_count(map: &[Vec<u8>]) -> (ok: bool)
    ensures
        ok == countable(map@),
{
    if map.len() == 0 {
        return true;
    }
    let width = map[0].len();
    let mut n: usize = 0;
    let mut y: usize = 0;
    while y < map.len()
        invariant
            y <= map@.len(),
            map@.len() > 0,
            width == map@[0]@.len(),
            forall|k: int| 0 <= k < y ==> (#[trigger] map@[k])@.len() >= width,
            n == lit(map@, width as int, y as int),
        decreases map.len() - y,
    {
        if map[y].len() < width {
            return false;
        }
        let ghost before = n;
        let mut x: usize = 0;
        while x < width
            invariant
                y < map@.len(),
                x <= width,
                width == map@[0]@.len(),
                map@[y as int]@.len() >= width,
                before == lit(map@, width as int, y as int),
                n == before + row_sum(map@[y as int]@, x as int),
            decreases width - x,
        {
            proof {
                lemma_lit_grows(map@, width as int, y as int, x + 1);
                lemma_lit_rows(map@, width as int, y + 1, map@.len() as int);
            }
            n = match n.checked_add(map[y][x] as usize) {
                Some(sum) => sum,
                None => { return false; },
            };
            x = x + 1;
        }
        y = y + 1;
    }
    true
}

/// Whether `map` is a rectangle with at least one row.
pub fn is_rectangular(map: &[Vec<u8>]) -> (ok: bool)
    ensures
        ok == rectangular(map@),
{
    if map.len() == 0 {
        return false;
    }
    let mut y: usize = 0;
    while y < map.len()
        invariant
            y <= map@.len(),
            map@.len() > 0,
            forall|k: int| 0 <= k < y ==> (#[trigger] map@[k])@.len() == map@[0]@.len(),
        decreases map.len() - y,
    {
        if map[y].len() != map[0].len() {
            return false;
        }
        y = y + 1;
    }
    true
}

/// Whether `enhance` can enhance the image with the table `ima`.
pub open spec fn enhanceable(ima: Seq<u8>, map: Seq<Vec<u8>>, infinite: u8) -> bool {
    &&& rectangular(map)
    &&& ima.len() > 0
    &&& windows_within(map, infinite, ima.len() as int)
    &&& map.len() + 2 <= isize::MAX
    &&& map[0]@.len() + 2 <= isize::MAX
}

/// Whether `enhance` can enhance the image with the table `ima`: the image
/// is a rectangle, and the table has an entry for each window.
pub fn can_enhance(ima: &[u8], map: &[Vec<u8>], infinite: u8) -> (ok: bool)
    ensures
        ok == enhanceable(ima@, map@, infinite),
{
    if !is_rectangular(map) || ima.len() == 0 {
        return false;
    }
    if map.len() > isize::MAX as usize - 2 || map[0].len() > isize::MAX as usize - 2 {
        return false;
    }
    let height: isize = (map.len() + 2) as isize;
    let width: isize = (map[0].len() + 2) as isize;
    let mut y: isize = -1;
    while y < height
        invariant
            rectangular(map@),
            height == map@.len() + 2,
            width == map@[0]@.len() + 2,
            -1 <= y <= height,
            forall|x: int, k: int|
                -1 <= x < width && -1 <= k < y ==> #[trigger] window_value(
                    map@,
                    x,
                    k,
                    infinite,
                    9,
                ) < ima@.len(),
        decreases height - y,
    {
        let mut x: isize = -1;
        while x < width
            invariant
                rectangular(map@),
                height == map@.len() + 2,
                width == map@[0]@.len() + 2,
                -1 <= y < height,
                -1 <= x <= width,
                forall|j: int, k: int|
                    -1 <= j < width && -1 <= k < y ==> #[trigger] window_value(
                        map@,
                        j,
                        k,
                        infinite,
                        9,
                    ) < ima@.len(),
                forall|j: int|
                    -1 <= j < x ==> #[trigger] window_value(map@, j, y as int, infinite, 9)
                        < ima@.len(),
            decreases width - x,
        {
            if points_to_value(map, x, y, infinite) >= ima.len() {
                return false;
            }
            x = x + 1;
        }
        y = y + 1;
    }
    true
}

} // verus!
