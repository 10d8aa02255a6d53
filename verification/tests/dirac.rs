use aoc2021::dirac::{play, play_multiverse, Die, Player};
use std::collections::HashMap;

#[test]
fn day21_test() {
    assert_eq!(play(4, 8), 739785);

    assert_eq!(play(7, 9), 679329);
}

#[test]
fn player_moves_around_the_track() {
    let mut player = Player::new(7, 0, 1);
    assert_eq!(player, Player { pos: 7, score: 0, num: 1 });
    player.advance(3);
    assert_eq!(player, Player { pos: 10, score: 10, num: 1 });
    player.advance(5);
    assert_eq!(player, Player { pos: 5, score: 15, num: 1 });
    player.advance(15);
    assert_eq!(player, Player { pos: 0, score: 15, num: 1 });
    player.advance(9);
    assert_eq!(player, Player { pos: 9, score: 24, num: 1 });
}

#[test]
fn player_wins_at_the_goal() {
    let player = Player::new(3, 21, 2);
    assert!(player.won(21));
    assert!(player.won(20));
    assert!(!player.won(22));
    assert!(Player::new(1, 0, 1).won(0));
}

#[test]
fn die_counts_to_ten_and_starts_again() {
    let mut die = Die::new();
    let mut shown = Vec::new();
    for _ in 0..12 {
        shown.push(die.next_roll());
    }
    assert_eq!(shown, vec![1, 2, 3, 4, 5, 6, 7, 8, 9, 10, 1, 2]);
    assert_eq!(die, Die { rolls: 12, next: 3 });
}

#[test]
fn multiverse_counts_the_wins_of_both() {
    let mut games = HashMap::new();
    let wins = play_multiverse(&mut games, Player::new(4, 0, 1), Player::new(8, 0, 2));
    assert_eq!(wins, Some((444356092776315, 341960390180808)));
    assert!(!games.is_empty());
    // The games remembered give the same answer again.
    let again = play_multiverse(&mut games, Player::new(4, 0, 1), Player::new(8, 0, 2));
    assert_eq!(again, wins);
}

#[test]
fn multiverse_is_over_when_a_player_has_won() {
    let mut games = HashMap::new();
    assert_eq!(
        play_multiverse(&mut games, Player::new(1, 21, 1), Player::new(1, 0, 2)),
        Some((1, 0))
    );
    assert_eq!(
        play_multiverse(&mut games, Player::new(1, 0, 1), Player::new(1, 25, 2)),
        Some((0, 1))
    );
    assert_eq!(
        play_multiverse(&mut games, Player::new(1, 21, 1), Player::new(1, 21, 2)),
        Some((1, 0))
    );
    assert!(games.is_empty());
}

#[test]
fn multiverse_one_move_from_the_goal() {
    // From space 4 with 20 points every roll wins: 27 universes.
    let mut games = HashMap::new();
    assert_eq!(
        play_multiverse(&mut games, Player::new(4, 20, 1), Player::new(1, 0, 2)),
        Some((27, 0))
    );
}

#[test]
fn starting_spaces_are_read_from_two_lines() {
    let text = b"Player 1 starting position: 4\nPlayer 2 starting position: 8\n";
    assert_eq!(aoc2021::dirac::read(text), Ok((&b"\n"[..], (4, 8))));
    assert_eq!(
        aoc2021::dirac::read(b"Player 1 starting position: 4\n"),
        Err(aoc2021::text::ReadError::Malformed)
    );
    assert_eq!(
        aoc2021::dirac::read(b"Player 2 starting position: 4\nPlayer 1 starting position: 8"),
        Err(aoc2021::text::ReadError::Malformed)
    );
    assert_eq!(
        aoc2021::dirac::read(b"Player 1 starting position: 4294967296\n"),
        Err(aoc2021::text::ReadError::OutOfRange)
    );
}

#[test]
fn player_is_described_in_words() {
    assert_eq!(Player::new(4, 0, 1).describe(), b"Player1: Pos: 4 Score: 0");
    assert_eq!(Player::new(10, 995, 2).describe(), b"Player2: Pos: 10 Score: 995");
}
