//! A dice game on a circular track of ten spaces.

use vstd::prelude::*;
use std::collections::HashMap;
use vstd::string::StringSliceAdditionalSpecFns;
use crate::text::{
    digits_of, newline, number, read_u32, starts_with, tag, write_number, write_word, ReadError,
};

verus! {

/// A player of the game: the space they stand on, their score and their
/// number.
#[derive(Debug, Clone, Copy, PartialEq, Eq, Hash, Structural)]
pub struct Player {
    pub pos: u32,
    pub score: u32,
    pub num: u32,
}

/// The space reached from `pos` by moving `roll` spaces: the sum where it
/// is at most 10, else its last digit.
pub open spec fn landing(pos: u32, roll: u32) -> int {
    if pos + roll > 10 {
        (pos + roll) % 10
    } else {
        pos + roll
    }
}

impl Player {
    /// The player after moving `roll` spaces and scoring the space reached.
    pub open spec fn advanced(self, roll: u32) -> Player {
        Player {
            pos: landing(self.pos, roll) as u32,
            score: (self.score + landing(self.pos, roll)) as u32,
            num: self.num,
        }
    }

    /// Player number `num` on space `pos` with `score` points.
    pub fn new(pos: u32, score: u32, num: u32) -> (p: Self)
        ensures
            p == (Player { pos, score, num }),
    {
        Self { pos, score, num }
    }

    /// Moves `roll` spaces around the track and adds the space reached to
    /// the score.
    pub fn advance(&mut self, roll: u32)
        requires
            old(self).pos + roll <= u32::MAX,
            old(self).score + landing(old(self).pos, roll) <= u32::MAX,
        ensures
            *final(self) == old(self).advanced(roll),
    {
        self.pos = self.pos + roll;
        if self.pos > 10 {
            self.pos = self.pos % 10;
        }
        self.score = self.score + self.pos;
    }

    /// Whether the score has reached `goal`.
    pub fn won(&self, goal: u32) -> (b: bool)
        ensures
            b == (self.score >= goal),
    {
        self.score >= goal
    }

    /// The player in words: number, space and score.
    pub open spec fn described(self) -> Seq<u8> {
        "Player".spec_bytes() + digits_of(self.num as nat) + ": Pos: ".spec_bytes() + digits_of(
            self.pos as nat,
        ) + " Score: ".spec_bytes() + digits_of(self.score as nat)
    }

    /// The player in words, as text.
    pub fn describe(&self) -> (text: Vec<u8>)
        ensures
            text@ == self.described(),
    {
        let mut text: Vec<u8> = Vec::new();
        write_word(&mut text, "Player".as_bytes());
        write_number(&mut text, self.num);
        write_word(&mut text, ": Pos: ".as_bytes());
        write_number(&mut text, self.pos);
        write_word(&mut text, " Score: ".as_bytes());
        write_number(&mut text, self.score);
        assert(text@ =~= self.described());
        text
    }
}

/// The score that wins the game played with the three-sided die.
pub const GOAL: u32 = 21;

/// The number of different sums that three rolls of a three-sided die make.
pub const SUMS: usize = 7;

/// The `i`-th sum of three rolls of a three-sided die, from 3 to 9.
pub open spec fn roll_sum(i: int) -> u32 {
    (i + 3) as u32
}

/// The number of ways in which three rolls of a three-sided die make the
/// `i`-th sum: 1, 3, 6, 7, 6, 3 and 1 of the 27.
pub open spec fn roll_ways(i: int) -> nat {
    if i == 0 || i == 6 {
        1
    } else if i == 1 || i == 5 {
        3
    } else if i == 2 || i == 4 {
        6
    } else {
        7
    }
}

/// The points that `p` lacks to win.
pub open spec fn lack(p: Player) -> nat {
    if p.score < GOAL {
        (GOAL - p.score) as nat
    } else {
        0
    }
}

/// How far a game is from its end at most: the points that both players
/// lack, counted twice, and one for each player who stands off the track.
pub open spec fn distance(mover: Player, waiter: Player) -> nat {
    2 * (lack(mover) + lack(waiter)) + if mover.pos > 10 {
        1nat
    } else {
        0nat
    } + if waiter.pos > 10 {
        1nat
    } else {
        0nat
    }
}

/// The number of universes in which the player to move wins, and the number
/// in which the other one does, where every turn splits the universe into
/// 27, one for each outcome of three rolls of a three-sided die.
///
/// A player who has 21 points has won, the one to move first. Otherwise
/// the player to move takes each of the seven sums in as many universes as
/// there are ways to roll it, and the game goes on with the roles swapped.
pub open spec fn universes(mover: Player, waiter: Player) -> (nat, nat)
    decreases distance(mover, waiter), SUMS + 1,
{
    if mover.score >= GOAL {
        (1, 0)
    } else if waiter.score >= GOAL {
        (0, 1)
    } else {
        turns(mover, waiter, SUMS as nat)
    }
}

/// The share of the first `n` sums in `universes(mover, waiter)`, for two
/// players who have not won.
pub open spec fn turns(mover: Player, waiter: Player, n: nat) -> (nat, nat)
    decreases distance(mover, waiter), n,
    when mover.score < GOAL && n <= SUMS
{
    if n == 0 {
        (0, 0)
    } else {
        let before = turns(mover, waiter, (n - 1) as nat);
        let after = universes(waiter, mover.advanced(roll_sum(n - 1)));
        (before.0 + roll_ways(n - 1) * after.1, before.1 + roll_ways(n - 1) * after.0)
    }
}

/// The shares of the sums grow with their number.
pub proof fn lemma_turns_grow(mover: Player, waiter: Player, n: nat, m: nat)
    requires
        mover.score < GOAL,
        n <= m <= SUMS,
    ensures
        turns(mover, waiter, n).0 <= turns(mover, waiter, m).0,
        turns(mover, waiter, n).1 <= turns(mover, waiter, m).1,
    decreases m,
{
    if n < m {
        lemma_turns_grow(mover, waiter, n, (m - 1) as nat);
    }
}

/// A player as one number: space, score and number side by side.
pub open spec fn pack(p: Player) -> nat {
    ((p.pos * 64 + p.score) * 0x1_0000_0000 + p.num) as nat
}

/// The player whom `packed` stands for.
pub open spec fn unpack(packed: nat) -> Player {
    Player {
        pos: (packed / 0x40_0000_0000) as u32,
        score: (packed / 0x1_0000_0000 % 64) as u32,
        num: (packed % 0x1_0000_0000) as u32,
    }
}

/// The key under which the game of `mover` and `waiter` is remembered.
pub open spec fn key_of(mover: Player, waiter: Player) -> nat {
    pack(mover) * 0x400_0000_0000 + pack(waiter)
}

/// The player to move in the game remembered under `key`.
pub open spec fn mover_of(key: u128) -> Player {
    unpack((key / 0x400_0000_0000) as nat)
}

/// The other player in the game remembered under `key`.
pub open spec fn waiter_of(key: u128) -> Player {
    unpack((key % 0x400_0000_0000) as nat)
}

/// Whether each game in `games` is remembered with its numbers of universes.
pub open spec fn remembered(games: Map<u128, (usize, usize)>) -> bool {
    forall|key: u128| #[trigger]
        games.contains_key(key) ==> {
            &&& games[key].0 == universes(mover_of(key), waiter_of(key)).0
            &&& games[key].1 == universes(mover_of(key), waiter_of(key)).1
        }
}

/// The key of a game between two players on the track with scores below 64.
fn game_key(mover: Player, waiter: Player) -> (key: u128)
    requires
        mover.pos <= 10,
        mover.score < 64,
        waiter.pos <= 10,
        waiter.score < 64,
    ensures
        key == key_of(mover, waiter),
        mover_of(key) == mover,
        waiter_of(key) == waiter,
{
    let first: u128 = (mover.pos as u128 * 64 + mover.score as u128) * 0x1_0000_0000
        + mover.num as u128;
    let second: u128 = (waiter.pos as u128 * 64 + waiter.score as u128) * 0x1_0000_0000
        + waiter.num as u128;
    assert(unpack(first as nat) == mover);
    assert(unpack(second as nat) == waiter);
    first * 0x400_0000_0000 + second
}

/// The `i`-th sum of three rolls, after the number of ways to roll it.
fn roll(i: usize) -> (r: (usize, u32))
    requires
        i < SUMS,
    ensures
        r.0 == roll_ways(i as int),
        r.1 == roll_sum(i as int),
{
    if i == 0 {
        (1, 3)
    } else if i == 1 {
        (3, 4)
    } else if i == 2 {
        (6, 5)
    } else if i == 3 {
        (7, 6)
    } else if i == 4 {
        (6, 7)
    } else if i == 5 {
        (3, 8)
    } else {
        (1, 9)
    }
}

/// Counting a part in `ways` ways makes it no smaller, and keeps it within
/// the whole counted as often.
proof fn lemma_share(ways: nat, part: nat, whole: nat)
    requires
        ways >= 1,
        part <= whole,
    ensures
        ways * part <= ways * whole,
        part <= ways * part,
{
    assert(ways * part <= ways * whole) by (nonlinear_arith)
        requires
            part <= whole,
    ;
    assert(part <= ways * part) by (nonlinear_arith)
        requires
            ways >= 1,
    ;
}

/// Whether both numbers of universes fit a `usize`.
pub open spec fn countable(mover: Player, waiter: Player) -> bool {
    universes(mover, waiter).0 <= usize::MAX && universes(mover, waiter).1 <= usize::MAX
}

/// The number of universes in which `player1`, who moves first, wins, and
/// the number in which `player2` does; `None` where one of the two does not
/// fit a `usize`. Games met on the way are looked up in `games` and
/// remembered there; none is forgotten.
pub fn play_multiverse(
    games: &mut HashMap<u128, (usize, usize)>,
    player1: Player,
    player2: Player,
) -> (r: Option<(usize, usize)>)
    requires
        remembered(old(games)@),
        player1.pos + 9 <= u32::MAX,
        player2.pos + 9 <= u32::MAX,
    ensures
        remembered(final(games)@),
        old(games)@.dom().subset_of(final(games)@.dom()),
        match r {
            Some(wins) => wins.0 == universes(player1, player2).0 && wins.1 == universes(
                player1,
                player2,
            ).1,
            None => !countable(player1, player2),
        },
    decreases distance(player1, player2),
{
    if player1.won(GOAL) {
        Some((1, 0))
    } else if player2.won(GOAL) {
        Some((0, 1))
    } else {
        let mut wins: (usize, usize) = (0, 0);
        let ghost total = universes(player1, player2);
        let mut i: usize = 0;
        while i < SUMS
            invariant
                i <= SUMS,
                player1.score < GOAL,
                player2.score < GOAL,
                player1.pos + 9 <= u32::MAX,
                player2.pos + 9 <= u32::MAX,
                remembered(games@),
                old(games)@.dom().subset_of(games@.dom()),
                total == universes(player1, player2),
                total == turns(player1, player2, SUMS as nat),
                wins.0 == turns(player1, player2, i as nat).0,
                wins.1 == turns(player1, player2, i as nat).1,
            decreases SUMS - i,
        {
            let (c1, roll1) = roll(i);
            let mut new_player1 = player1;
            new_player1.advance(roll1);
            let ghost next = turns(player1, player2, (i + 1) as nat);
            let ghost reply = universes(player2, new_player1);
            proof {
                lemma_turns_grow(player1, player2, (i + 1) as nat, SUMS as nat);
                assert(next.0 == wins.0 + c1 * reply.1);
                assert(next.1 == wins.1 + c1 * reply.0);
            }
            if new_player1.won(GOAL) {
                assert(reply.1 == 1 && reply.0 == 0);
                assert(c1 * reply.1 == c1 && c1 * reply.0 == 0) by (nonlinear_arith)
                    requires
                        reply.1 == 1 && reply.0 == 0,
                ;
                wins.0 = match wins.0.checked_add(c1) {
                    Some(sum) => sum,
                    None => { return None; },
                };
            } else {
                let ghost base = wins;
                let mut j: usize = 0;
                proof {
                    let none = turns(player2, new_player1, 0);
                    assert(c1 * none.0 == 0 && c1 * none.1 == 0) by (nonlinear_arith)
                        requires
                            none.0 == 0 && none.1 == 0,
                    ;
                }
                while j < SUMS
                    invariant
                        j <= SUMS,
                        i < SUMS,
                        c1 == roll_ways(i as int),
                        player1.score < GOAL,
                        player2.score < GOAL,
                        new_player1.score < GOAL,
                        new_player1 == player1.advanced(roll_sum(i as int)),
                        new_player1.pos <= 10,
                        player2.pos + 9 <= u32::MAX,
                        remembered(games@),
                        old(games)@.dom().subset_of(games@.dom()),
                        total == universes(player1, player2),
                        reply == turns(player2, new_player1, SUMS as nat),
                        next.0 == base.0 + c1 * reply.1,
                        next.1 == base.1 + c1 * reply.0,
                        next.0 <= total.0,
                        next.1 <= total.1,
                        wins.0 == base.0 + c1 * turns(player2, new_player1, j as nat).1,
                        wins.1 == base.1 + c1 * turns(player2, new_player1, j as nat).0,
                        distance(player2, new_player1) < distance(player1, player2),
                    decreases SUMS - j,
                {
                    let (c2, roll2) = roll(j);
                    let worlds = c1 * c2;
                    let mut new_player2 = player2;
                    new_player2.advance(roll2);
                    let ghost sub = universes(new_player1, new_player2);
                    let ghost so_far = turns(player2, new_player1, j as nat);
                    let ghost then = turns(player2, new_player1, (j + 1) as nat);
                    proof {
                        lemma_turns_grow(player2, new_player1, (j + 1) as nat, SUMS as nat);
                        assert(then.0 == so_far.0 + c2 * sub.1);
                        assert(then.1 == so_far.1 + c2 * sub.0);
                        lemma_share(c1 as nat, then.0, reply.0);
                        lemma_share(c1 as nat, then.1, reply.1);
                        lemma_share(c2 as nat, sub.0, sub.0);
                        lemma_share(c2 as nat, sub.1, sub.1);
                        lemma_share(c1 as nat, (c2 * sub.0) as nat, (c2 * sub.0) as nat);
                        lemma_share(c1 as nat, (c2 * sub.1) as nat, (c2 * sub.1) as nat);
                        assert(c1 * then.1 == c1 * so_far.1 + c1 * (c2 * sub.0))
                            by (nonlinear_arith)
                            requires
                                then.1 == so_far.1 + c2 * sub.0,
                        ;
                        assert(c1 * then.0 == c1 * so_far.0 + c1 * (c2 * sub.1))
                            by (nonlinear_arith)
                            requires
                                then.0 == so_far.0 + c2 * sub.1,
                        ;
                        assert(worlds * sub.0 == c1 * (c2 * sub.0)) by (nonlinear_arith)
                            requires
                                worlds == c1 * c2,
                        ;
                        assert(worlds * sub.1 == c1 * (c2 * sub.1)) by (nonlinear_arith)
                            requires
                                worlds == c1 * c2,
                        ;
                        // Each number of the game that follows is part of the
                        // same number of this game.
                        assert(sub.0 <= worlds * sub.0 <= total.0);
                        assert(sub.1 <= worlds * sub.1 <= total.1);
                    }
                    let key = game_key(new_player1, new_player2);
                    let found = match games.get(&key) {
                        Some(known) => Some(*known),
                        None => None,
                    };
                    let (w1, w2) = match found {
                        Some(known) => known,
                        None => {
                            let fresh = match play_multiverse(games, new_player1, new_player2) {
                                Some(fresh) => fresh,
                                None => { return None; },
                            };
                            games.insert(key, fresh);
                            fresh
                        },
                    };
                    let first = match worlds.checked_mul(w1) {
                        Some(product) => product,
                        None => { return None; },
                    };
                    let second = match worlds.checked_mul(w2) {
                        Some(product) => product,
                        None => { return None; },
                    };
                    wins.0 = match wins.0.checked_add(first) {
                        Some(sum) => sum,
                        None => { return None; },
                    };
                    wins.1 = match wins.1.checked_add(second) {
                        Some(sum) => sum,
                        None => { return None; },
                    };
                    j = j + 1;
                }
            }
            i = i + 1;
        }
        Some(wins)
    }
}

/// The score that wins the game played with the deterministic die.
pub const PRACTICE_GOAL: u32 = 1000;

/// A die that shows 1, 2 and so on up to 10, then 1 again, and counts how
/// often it was rolled.
#[derive(Debug, Clone, Copy, PartialEq, Eq, Structural)]
pub struct Die {
    pub rolls: u32,
    pub next: u32,
}

impl Die {
    /// The die after one roll, which shows `self.next`.
    pub open spec fn rolled(self) -> Die {
        Die {
            rolls: (self.rolls + 1) as u32,
            next: if self.next + 1 > 10 {
                ((self.next + 1) % 10) as u32
            } else {
                (self.next + 1) as u32
            },
        }
    }

    /// The sum of the next three rolls.
    pub open spec fn three(self) -> int {
        self.next + self.rolled().next + self.rolled().rolled().next
    }

    /// A die that was never rolled and shows 1 first.
    pub fn new() -> (die: Self)
        ensures
            die == (Die { rolls: 0, next: 1 }),
    {
        Die { rolls: 0, next: 1 }
    }

    /// Rolls the die: returns what it shows and counts the roll.
    pub fn next_roll(&mut self) -> (shown: u32)
        requires
            old(self).rolls < u32::MAX,
            old(self).next < u32::MAX,
        ensures
            shown == old(self).next,
            *final(self) == old(self).rolled(),
    {
        self.rolls = self.rolls + 1;
        let ret = self.next;
        self.next = self.next + 1;
        if self.next > 10 {
            self.next = self.next % 10;
        }
        ret
    }
}

/// The points that `p` lacks to win the practice game.
pub open spec fn practice_lack(p: Player) -> nat {
    if p.score < PRACTICE_GOAL {
        (PRACTICE_GOAL - p.score) as nat
    } else {
        0
    }
}

/// How far a practice game is from its end at most, at the start of a
/// round: the points that both players lack, counted twice, and one unless
/// the second player stands on space 0.
pub open spec fn practice_distance(first: Player, second: Player) -> nat {
    2 * (practice_lack(first) + practice_lack(second)) + if second.pos == 0 {
        0nat
    } else {
        1nat
    }
}

/// Whether a round of the practice game can start in this state: the die
/// shows an odd number next, as it does whenever the first player is to
/// move, and no count is near the end of its range.
pub open spec fn round_ready(first: Player, second: Player, die: Die) -> bool {
    &&& die.next == 1 || die.next == 3 || die.next == 5 || die.next == 7 || die.next == 9
    &&& first.pos <= u32::MAX - 30
    &&& second.pos <= u32::MAX - 30
    &&& die.rolls + 6 * practice_distance(first, second) <= 30000
}

/// The loser's score times the number of rolls, when the practice game
/// that stands at `first`, `second` and `die` is over. The players move in
/// turn by the sum of three rolls; the game ends as soon as one of them has
/// 1000 points.
pub open spec fn practice(first: Player, second: Player, die: Die) -> nat
    decreases practice_distance(first, second),
    when round_ready(first, second, die)
{
    if first.score >= PRACTICE_GOAL {
        second.score as nat * die.rolls as nat
    } else if second.score >= PRACTICE_GOAL {
        first.score as nat * die.rolls as nat
    } else {
        let moved = first.advanced(die.three() as u32);
        let after = die.rolled().rolled().rolled();
        if moved.score >= PRACTICE_GOAL {
            second.score as nat * after.rolls as nat
        } else {
            practice(
                moved,
                second.advanced(after.three() as u32),
                after.rolled().rolled().rolled(),
            )
        }
    }
}

/// Plays the practice game from the starting spaces `one_pos` and
/// `two_pos` with a fresh die, and returns the loser's score times the
/// number of rolls.
pub fn play(one_pos: u32, two_pos: u32) -> (r: usize)
    requires
        one_pos <= u32::MAX - 30,
        two_pos <= u32::MAX - 30,
    ensures
        r == practice(
            Player { pos: one_pos, score: 0, num: 1 },
            Player { pos: two_pos, score: 0, num: 2 },
            Die { rolls: 0, next: 1 },
        ),
{
    let mut die = Die::new();
    let mut player_one = Player::new(one_pos, 0, 1);
    let mut player_two = Player::new(two_pos, 0, 2);
    let ghost answer = practice(player_one, player_two, die);
    while !player_one.won(PRACTICE_GOAL) && !player_two.won(PRACTICE_GOAL)
        invariant_except_break
            player_one.score < PRACTICE_GOAL,
            round_ready(player_one, player_two, die),
            practice(player_one, player_two, die) == answer,
        ensures
            die.rolls <= 30000,
            player_one.score >= PRACTICE_GOAL || player_two.score >= PRACTICE_GOAL,
            player_one.score >= PRACTICE_GOAL ==> player_two.score < PRACTICE_GOAL
                && answer == player_two.score as nat * die.rolls as nat,
            player_one.score < PRACTICE_GOAL ==> answer == player_one.score as nat
                * die.rolls as nat,
        decreases practice_distance(player_one, player_two),
    {
        let a = die.next_roll();
        let b = die.next_roll();
        let c = die.next_roll();
        player_one.advance(a + b + c);
        if player_one.won(PRACTICE_GOAL) {
            break;
        }
        let a = die.next_roll();
        let b = die.next_roll();
        let c = die.next_roll();
        player_two.advance(a + b + c);
    }
    let loser = if player_one.won(PRACTICE_GOAL) {
        player_two.score
    } else {
        player_one.score
    };
    assert(loser as nat * die.rolls as nat <= 1000 * 30000) by (nonlinear_arith)
        requires
            loser < 1000,
            die.rolls <= 30000,
    ;
    (loser as usize) * (die.rolls as usize)
}

/// The words before the starting space of the first player.
pub open spec fn first_words() -> Seq<u8> {
    "Player 1 starting position: ".spec_bytes()
}

/// The words before the starting space of the second player.
pub open spec fn second_words() -> Seq<u8> {
    "Player 2 starting position: ".spec_bytes()
}

/// The starting spaces of the two players at the start of `text`, and the
/// number of bytes that they take: two lines, each with the words for its
/// player and a number.
pub open spec fn starting_spaces(text: Seq<u8>) -> Result<((u32, u32), nat), ReadError> {
    if !starts_with(text, first_words()) {
        Err(ReadError::Malformed)
    } else {
        let after_words = text.skip(first_words().len() as int);
        match number(after_words, u32::MAX as nat) {
            Err(e) => Err(e),
            Ok((one, n)) => {
                let line = after_words.skip(n as int);
                if !(line.len() > 0 && line[0] == 10) {
                    Err(ReadError::Malformed)
                } else if !starts_with(line.skip(1), second_words()) {
                    Err(ReadError::Malformed)
                } else {
                    let last = line.skip(1).skip(second_words().len() as int);
                    match number(last, u32::MAX as nat) {
                        Err(e) => Err(e),
                        Ok((two, m)) => Ok(
                            (
                                (one as u32, two as u32),
                                first_words().len() + n + 1 + second_words().len() + m,
                            ),
                        ),
                    }
                }
            },
        }
    }
}

/// Reads the starting spaces of the two players and returns them with the
/// text after them.
pub fn read(input: &[u8]) -> (r: Result<(&[u8], (u32, u32)), ReadError>)
    ensures
        match starting_spaces(input@) {
            Ok((spaces, n)) => r matches Ok((rest, found)) && found == spaces && rest@
                == input@.skip(n as int),
            Err(e) => r matches Err(x) && x == e,
        },
{
    let input1 = match tag(input, "Player 1 starting position: ".as_bytes()) {
        Ok(rest) => rest,
        Err(e) => { return Err(e); },
    };
    let (input2, one) = match read_u32(input1) {
        Ok(found) => found,
        Err(e) => { return Err(e); },
    };
    let input3 = match newline(input2) {
        Ok(rest) => rest,
        Err(e) => { return Err(e); },
    };
    let input4 = match tag(input3, "Player 2 starting position: ".as_bytes()) {
        Ok(rest) => rest,
        Err(e) => { return Err(e); },
    };
    let (rest, two) = match read_u32(input4) {
        Ok(found) => found,
        Err(e) => { return Err(e); },
    };
    proof {
        let n = (input1@.len() - input2@.len()) as nat;
        let m = (input4@.len() - rest@.len()) as nat;
        assert(rest@ =~= input@.skip(
            (first_words().len() + n + 1 + second_words().len() + m) as int,
        ));
    }
    Ok((rest, (one, two)))
}

} // verus!
