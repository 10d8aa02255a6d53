//! Following a planned course: where a list of steering commands leads.

use vstd::prelude::*;
use vstd::string::StringSliceAdditionalSpecFns;
use crate::text::{
    alpha1, integer, is_blank, is_letter, lemma_integer_within, lemma_run, newline, read_i32, run,
    same, space1, ReadError,
};

verus! {

/// A steering command's direction.
#[derive(Debug, Clone, Copy, PartialEq, Eq, Structural)]
pub enum Direction {
    Forward,
    Up,
    Down,
}

/// Whether `x` is a value of `i32`.
pub open spec fn fits_i32(x: int) -> bool {
    i32::MIN <= x <= i32::MAX
}

/// The change that one command makes to the depth, or to the aim: down
/// adds, up subtracts, forward leaves it.
pub open spec fn vertical(command: (Direction, i32)) -> int {
    match command.0 {
        Direction::Down => command.1 as int,
        Direction::Up => -(command.1 as int),
        Direction::Forward => 0,
    }
}

/// The distance that one command moves forward.
pub open spec fn horizontal(command: (Direction, i32)) -> int {
    match command.0 {
        Direction::Forward => command.1 as int,
        _ => 0,
    }
}

/// The sum of the vertical changes of the first `k` commands: the depth
/// after them where commands move directly, the aim where they steer.
pub open spec fn vertical_after(commands: Seq<(Direction, i32)>, k: int) -> int
    decreases k,
{
    if k <= 0 {
        0
    } else {
        vertical_after(commands, k - 1) + vertical(commands[k - 1])
    }
}

/// The distance moved forward by the first `k` commands.
pub open spec fn distance_after(commands: Seq<(Direction, i32)>, k: int) -> int
    decreases k,
{
    if k <= 0 {
        0
    } else {
        distance_after(commands, k - 1) + horizontal(commands[k - 1])
    }
}

/// The depth that command `k` adds where commands steer: moving forward by
/// `n` descends by `n` times the aim at that moment.
pub open spec fn descent(commands: Seq<(Direction, i32)>, k: int) -> int {
    horizontal(commands[k]) * vertical_after(commands, k)
}

/// The depth after the first `k` commands, where commands steer.
pub open spec fn aimed_depth_after(commands: Seq<(Direction, i32)>, k: int) -> int
    decreases k,
{
    if k <= 0 {
        0
    } else {
        aimed_depth_after(commands, k - 1) + descent(commands, k - 1)
    }
}

/// Whether the course can be followed within `i32`, where down and up
/// change the depth directly: the depth and the distance after each
/// command, and their product at the end.
pub open spec fn path_fits(commands: Seq<(Direction, i32)>) -> bool {
    &&& forall|k: int|
        0 <= k <= commands.len() ==> fits_i32(#[trigger] vertical_after(commands, k))
    &&& forall|k: int|
        0 <= k <= commands.len() ==> fits_i32(#[trigger] distance_after(commands, k))
    &&& fits_i32(
        vertical_after(commands, commands.len() as int) * distance_after(
            commands,
            commands.len() as int,
        ),
    )
}

/// Whether the course can be followed within `i32`, where down and up
/// change the aim: the aim, the depth and the distance after each command,
/// each descent, and the product of depth and distance at the end.
pub open spec fn aim_fits(commands: Seq<(Direction, i32)>) -> bool {
    &&& forall|k: int|
        0 <= k <= commands.len() ==> fits_i32(#[trigger] vertical_after(commands, k))
    &&& forall|k: int|
        0 <= k <= commands.len() ==> fits_i32(#[trigger] distance_after(commands, k))
    &&& forall|k: int|
        0 <= k <= commands.len() ==> fits_i32(#[trigger] aimed_depth_after(commands, k))
    &&& forall|k: int| 0 <= k < commands.len() ==> fits_i32(#[trigger] descent(commands, k))
    &&& fits_i32(
        aimed_depth_after(commands, commands.len() as int) * distance_after(
            commands,
            commands.len() as int,
        ),
    )
}

/// The product of final depth and distance, where down and up change the
/// depth directly.
pub fn follow_path(instructions: &[(Direction, i32)]) -> (r: i32)
    requires
        path_fits(instructions@),
    ensures
        r == vertical_after(instructions@, instructions@.len() as int) * distance_after(
            instructions@,
            instructions@.len() as int,
        ),
{
    let mut depth: i32 = 0;
    let mut dist: i32 = 0;
    let mut i: usize = 0;
    while i < instructions.len()
        invariant
            i <= instructions@.len(),
            depth == vertical_after(instructions@, i as int),
            dist == distance_after(instructions@, i as int),
            forall|k: int|
                0 <= k <= instructions@.len() ==> fits_i32(
                    #[trigger] vertical_after(instructions@, k),
                ),
            forall|k: int|
                0 <= k <= instructions@.len() ==> fits_i32(
                    #[trigger] distance_after(instructions@, k),
                ),
        decreases instructions.len() - i,
    {
        let (dir, length) = instructions[i];
        assert(fits_i32(vertical_after(instructions@, i + 1)));
        assert(fits_i32(distance_after(instructions@, i + 1)));
        match dir {
            Direction::Down => { depth = depth + length; },
            Direction::Up => { depth = depth - length; },
            Direction::Forward => { dist = dist + length; },
        }
        i = i + 1;
    }
    depth * dist
}

/// The product of final depth and distance, where down and up change the
/// aim, and moving forward descends by the aim times the distance moved.
pub fn follow_aim(instructions: &[(Direction, i32)]) -> (r: i32)
    requires
        aim_fits(instructions@),
    ensures
        r == aimed_depth_after(instructions@, instructions@.len() as int) * distance_after(
            instructions@,
            instructions@.len() as int,
        ),
{
    let mut aim: i32 = 0;
    let mut depth: i32 = 0;
    let mut dist: i32 = 0;
    let mut i: usize = 0;
    while i < instructions.len()
        invariant
            i <= instructions@.len(),
            aim == vertical_after(instructions@, i as int),
            depth == aimed_depth_after(instructions@, i as int),
            dist == distance_after(instructions@, i as int),
            forall|k: int|
                0 <= k <= instructions@.len() ==> fits_i32(
                    #[trigger] vertical_after(instructions@, k),
                ),
            forall|k: int|
                0 <= k <= instructions@.len() ==> fits_i32(
                    #[trigger] distance_after(instructions@, k),
                ),
            forall|k: int|
                0 <= k <= instructions@.len() ==> fits_i32(
                    #[trigger] aimed_depth_after(instructions@, k),
                ),
            forall|k: int|
                0 <= k < instructions@.len() ==> fits_i32(#[trigger] descent(instructions@, k)),
        decreases instructions.len() - i,
    {
        let (dir, length) = instructions[i];
        assert(fits_i32(vertical_after(instructions@, i + 1)));
        assert(fits_i32(distance_after(instructions@, i + 1)));
        assert(fits_i32(aimed_depth_after(instructions@, i + 1)));
        match dir {
            Direction::Down => { aim = aim + length; },
            Direction::Up => { aim = aim - length; },
            Direction::Forward => {
                dist = dist + length;
                depth = depth + length * aim;
            },
        }
        i = i + 1;
    }
    depth * dist
}

/// Whether `follow_path` can follow the course within `i32`.
pub fn can_follow_path(instructions: &[(Direction, i32)]) -> (ok: bool)
    ensures
        ok == path_fits(instructions@),
{
    let mut depth: i32 = 0;
    let mut dist: i32 = 0;
    let mut i: usize = 0;
    while i < instructions.len()
        invariant
            i <= instructions@.len(),
            depth == vertical_after(instructions@, i as int),
            dist == distance_after(instructions@, i as int),
            forall|k: int|
                0 <= k <= i ==> fits_i32(#[trigger] vertical_after(instructions@, k)),
            forall|k: int|
                0 <= k <= i ==> fits_i32(#[trigger] distance_after(instructions@, k)),
        decreases instructions.len() - i,
    {
        let (dir, length) = instructions[i];
        let moved = match dir {
            Direction::Down => (depth.checked_add(length), Some(dist)),
            Direction::Up => (depth.checked_sub(length), Some(dist)),
            Direction::Forward => (Some(depth), dist.checked_add(length)),
        };
        match moved {
            (Some(next_depth), Some(next_dist)) => {
                depth = next_depth;
                dist = next_dist;
            },
            _ => {
                assert(!fits_i32(vertical_after(instructions@, i + 1)) || !fits_i32(
                    distance_after(instructions@, i + 1),
                ));
                return false;
            },
        }
        i = i + 1;
    }
    depth.checked_mul(dist).is_some()
}

/// Whether `follow_aim` can follow the course within `i32`.
pub fn can_follow_aim(instructions: &[(Direction, i32)]) -> (ok: bool)
    ensures
        ok == aim_fits(instructions@),
{
    let mut aim: i32 = 0;
    let mut depth: i32 = 0;
    let mut dist: i32 = 0;
    let mut i: usize = 0;
    while i < instructions.len()
        invariant
            i <= instructions@.len(),
            aim == vertical_after(instructions@, i as int),
            depth == aimed_depth_after(instructions@, i as int),
            dist == distance_after(instructions@, i as int),
            forall|k: int|
                0 <= k <= i ==> fits_i32(#[trigger] vertical_after(instructions@, k)),
            forall|k: int|
                0 <= k <= i ==> fits_i32(#[trigger] distance_after(instructions@, k)),
            forall|k: int|
                0 <= k <= i ==> fits_i32(#[trigger] aimed_depth_after(instructions@, k)),
            forall|k: int| 0 <= k < i ==> fits_i32(#[trigger] descent(instructions@, k)),
        decreases instructions.len() - i,
    {
        let (dir, length) = instructions[i];
        let ghost down = descent(instructions@, i as int);
        let moved = match dir {
            Direction::Down => (aim.checked_add(length), Some(depth), Some(dist)),
            Direction::Up => (aim.checked_sub(length), Some(depth), Some(dist)),
            Direction::Forward => match length.checked_mul(aim) {
                Some(by) => (Some(aim), depth.checked_add(by), dist.checked_add(length)),
                None => (Some(aim), None, None),
            },
        };
        match moved {
            (Some(next_aim), Some(next_depth), Some(next_dist)) => {
                aim = next_aim;
                depth = next_depth;
                dist = next_dist;
            },
            _ => {
                assert(!fits_i32(vertical_after(instructions@, i + 1)) || !fits_i32(
                    distance_after(instructions@, i + 1),
                ) || !fits_i32(aimed_depth_after(instructions@, i + 1)) || !fits_i32(down));
                return false;
            },
        }
        i = i + 1;
    }
    depth.checked_mul(dist).is_some()
}

/// The direction that the word `word` names, if it names one.
pub open spec fn direction_of(word: Seq<u8>) -> Option<Direction> {
    if word == "forward".spec_bytes() {
        Some(Direction::Forward)
    } else if word == "down".spec_bytes() {
        Some(Direction::Down)
    } else if word == "up".spec_bytes() {
        Some(Direction::Up)
    } else {
        None
    }
}

impl Direction {
    /// The direction that the word `input` names.
    pub fn from_str(input: &[u8]) -> (r: Result<Direction, ()>)
        ensures
            match direction_of(input@) {
                Some(d) => r == Ok::<Direction, ()>(d),
                None => r is Err,
            },
    {
        if same(input, "forward".as_bytes()) {
            Ok(Direction::Forward)
        } else if same(input, "down".as_bytes()) {
            Ok(Direction::Down)
        } else if same(input, "up".as_bytes()) {
            Ok(Direction::Up)
        } else {
            Err(())
        }
    }
}

/// The direction at the start of `text`, and the number of bytes it takes:
/// the letters there must be the name of a direction.
pub open spec fn direction(text: Seq<u8>) -> Result<(Direction, nat), ReadError> {
    let n = run(text, |c: u8| is_letter(c), 0);
    match direction_of(text.take(n as int)) {
        Some(d) => if n > 0 {
            Ok((d, n))
        } else {
            Err(ReadError::Malformed)
        },
        None => Err(ReadError::Malformed),
    }
}

/// Reads the direction at the start of the input.
pub fn read_direction(input: &[u8]) -> (r: Result<(&[u8], Direction), ReadError>)
    ensures
        match direction(input@) {
            Ok((d, n)) => r matches Ok((rest, found)) && found == d && rest@ == input@.skip(
                n as int,
            ),
            Err(e) => r matches Err(x) && x == e,
        },
{
    let (rest, word) = match alpha1(input) {
        Ok(found) => found,
        Err(e) => { return Err(e); },
    };
    match Direction::from_str(word) {
        Ok(d) => Ok((rest, d)),
        Err(_) => Err(ReadError::Malformed),
    }
}

/// The command at the start of `text`, and the number of bytes it takes: a
/// direction, spaces or tabs, and a signed number.
pub open spec fn command(text: Seq<u8>) -> Result<((Direction, i32), nat), ReadError> {
    match direction(text) {
        Err(e) => Err(e),
        Ok((d, n)) => {
            let blanks = run(text.skip(n as int), |c: u8| is_blank(c), 0);
            if blanks == 0 {
                Err(ReadError::Malformed)
            } else {
                match integer(text.skip(n as int).skip(blanks as int)) {
                    Err(e) => Err(e),
                    Ok((length, m)) => Ok(((d, length as i32), n + blanks + m)),
                }
            }
        },
    }
}

/// A command takes at least one byte, and only bytes that the text has.
pub proof fn lemma_command_within(text: Seq<u8>)
    ensures
        command(text) matches Ok((_, n)) ==> 0 < n <= text.len(),
{
    lemma_run(text, |c: u8| is_letter(c), 0);
    if let Ok((_, n)) = direction(text) {
        lemma_run(text.skip(n as int), |c: u8| is_blank(c), 0);
        let blanks = run(text.skip(n as int), |c: u8| is_blank(c), 0);
        lemma_integer_within(text.skip(n as int).skip(blanks as int));
    }
}

/// Reads the command at the start of the input.
pub fn read_line(input: &[u8]) -> (r: Result<(&[u8], (Direction, i32)), ReadError>)
    ensures
        match command(input@) {
            Ok((c, n)) => r matches Ok((rest, found)) && found == c && rest@ == input@.skip(
                n as int,
            ) && 0 < n <= input@.len(),
            Err(e) => r matches Err(x) && x == e,
        },
{
    proof {
        lemma_command_within(input@);
    }
    let (input1, dir) = match read_direction(input) {
        Ok(found) => found,
        Err(e) => { return Err(e); },
    };
    let input2 = match space1(input1) {
        Ok(rest) => rest,
        Err(e) => { return Err(e); },
    };
    let (rest, digit) = match read_i32(input2) {
        Ok(found) => found,
        Err(e) => { return Err(e); },
    };
    Ok((rest, (dir, digit)))
}

/// The commands that follow in `text`, each after a line feed, and the
/// number of bytes they take with their line feeds. The list ends before
/// the first line feed that no command follows.
pub open spec fn more_commands(text: Seq<u8>) -> (Seq<(Direction, i32)>, nat)
    decreases text.len(),
{
    if text.len() > 0 && text[0] == 10 {
        match command(text.skip(1)) {
            Ok((c, n)) => {
                proof {
                    lemma_command_within(text.skip(1));
                }
                let (rest, m) = more_commands(text.skip(1 + n as int));
                (seq![c] + rest, 1 + n + m)
            },
            Err(_) => (Seq::empty(), 0),
        }
    } else {
        (Seq::empty(), 0)
    }
}

/// The commands at the start of `text`, one to a line, and the number of
/// bytes they take. There must be at least one.
pub open spec fn commands(text: Seq<u8>) -> Result<(Seq<(Direction, i32)>, nat), ReadError> {
    match command(text) {
        Ok((c, n)) => {
            let (rest, m) = more_commands(text.skip(n as int));
            Ok((seq![c] + rest, n + m))
        },
        Err(e) => Err(e),
    }
}

/// Reads the commands at the start of the input, one to a line, and
/// returns them with the text after them.
pub fn read(input: &[u8]) -> (r: Result<(&[u8], Vec<(Direction, i32)>), ReadError>)
    ensures
        match commands(input@) {
            Ok((cs, n)) => r matches Ok((rest, found)) && found@ == cs && rest@ == input@.skip(
                n as int,
            ),
            Err(e) => r matches Err(x) && x == e,
        },
{
    let (mut rest, first) = match read_line(input) {
        Ok(found) => found,
        Err(e) => { return Err(e); },
    };
    let ghost tail = rest@;
    let ghost head = (input@.len() - rest@.len()) as nat;
    let mut list: Vec<(Direction, i32)> = Vec::new();
    list.push(first);
    let ghost mut used: nat = 0;
    loop
        invariant
            used <= tail.len(),
            rest@ == tail.skip(used as int),
            tail == input@.skip(head as int),
            head <= input@.len(),
            commands(input@) == Ok::<(Seq<(Direction, i32)>, nat), ReadError>(
                (list@ + more_commands(rest@).0, head + used + more_commands(rest@).1),
            ),
        decreases rest@.len(),
    {
        let line = match newline(rest) {
            Ok(line) => line,
            Err(_) => {
                return Ok((rest, list));
            },
        };
        match read_line(line) {
            Ok((next, value)) => {
                proof {
                    let n = (line@.len() - next@.len()) as nat;
                    let more = more_commands(next@);
                    assert(next@ =~= rest@.skip(1 + n as int));
                    assert(list@ + (seq![value] + more.0) =~= list@.push(value) + more.0);
                    used = used + 1 + n;
                }
                list.push(value);
                rest = next;
            },
            Err(_) => {
                return Ok((rest, list));
            },
        }
    }
}

} // verus!
