use aoc2021::course::{can_follow_aim, can_follow_path, follow_aim, follow_path, Direction};

fn planned() -> Vec<(Direction, i32)> {
    vec![
        (Direction::Forward, 5),
        (Direction::Down, 5),
        (Direction::Forward, 8),
        (Direction::Up, 3),
        (Direction::Down, 8),
        (Direction::Forward, 2),
    ]
}

#[test]
fn path_multiplies_depth_and_distance() {
    assert_eq!(follow_path(&planned()), 150);
}

#[test]
fn aim_steers_the_descent() {
    assert_eq!(follow_aim(&planned()), 900);
}

#[test]
fn no_commands_lead_nowhere() {
    assert_eq!(follow_path(&[]), 0);
    assert_eq!(follow_aim(&[]), 0);
}

#[test]
fn up_may_rise_above_the_surface() {
    let commands = [(Direction::Up, 4), (Direction::Forward, 3)];
    assert_eq!(follow_path(&commands), -12);
    assert_eq!(follow_aim(&commands), -36);
}

#[test]
fn aim_without_forward_stays_at_the_surface() {
    let commands = [(Direction::Down, 4), (Direction::Up, 1)];
    assert_eq!(follow_path(&commands), 0);
    assert_eq!(follow_aim(&commands), 0);
}

use aoc2021::course::{read, read_direction, read_line};
use aoc2021::text::ReadError;

#[test]
fn test_read_direction() {
    assert_eq!(read_direction(b"up"), Ok((&b""[..], Direction::Up)));
    assert_eq!(read_direction(b"down 42"), Ok((&b" 42"[..], Direction::Down)));
    assert_eq!(read_direction(b"forward"), Ok((&b""[..], Direction::Forward)));
}

#[test]
fn test_read_line() {
    assert_eq!(read_line(b"down 42"), Ok((&b""[..], (Direction::Down, 42))));
    assert_eq!(
        read_line(b"forward 1241"),
        Ok((&b""[..], (Direction::Forward, 1241)))
    );
    assert_eq!(read_line(b"up 1\n"), Ok((&b"\n"[..], (Direction::Up, 1))));
}

#[test]
fn direction_names_are_exact() {
    assert_eq!(Direction::from_str(b"forward"), Ok(Direction::Forward));
    assert_eq!(Direction::from_str(b"down"), Ok(Direction::Down));
    assert_eq!(Direction::from_str(b"up"), Ok(Direction::Up));
    assert_eq!(Direction::from_str(b"Up"), Err(()));
    assert_eq!(Direction::from_str(b"upward"), Err(()));
    assert_eq!(Direction::from_str(b""), Err(()));
    assert_eq!(read_direction(b"back 3"), Err(ReadError::Malformed));
    assert_eq!(read_direction(b"3"), Err(ReadError::Malformed));
}

#[test]
fn commands_need_a_blank_and_a_number() {
    assert_eq!(read_line(b"down42"), Err(ReadError::Malformed));
    assert_eq!(read_line(b"down \t-3 x"), Ok((&b" x"[..], (Direction::Down, -3))));
    assert_eq!(read_line(b"down x"), Err(ReadError::Malformed));
    assert_eq!(read_line(b"down 99999999999"), Err(ReadError::OutOfRange));
}

#[test]
fn commands_are_read_line_by_line() {
    let text = b"forward 5\ndown 5\nforward 8\nup 3\ndown 8\nforward 2\n";
    let (rest, commands) = read(text).unwrap();
    assert_eq!(rest, b"\n");
    assert_eq!(commands, planned());
    assert_eq!(read(b"up 1\nsideways 2"), Ok((&b"\nsideways 2"[..], vec![(Direction::Up, 1)])));
    assert_eq!(read(b"sideways 2"), Err(ReadError::Malformed));
}

#[test]
fn courses_within_range_can_be_followed() {
    assert!(can_follow_path(&planned()));
    assert!(can_follow_aim(&planned()));
    assert!(can_follow_path(&[]));
    assert!(can_follow_aim(&[]));
    let edge = [(Direction::Down, i32::MAX), (Direction::Forward, 1)];
    assert!(can_follow_path(&edge));
    assert_eq!(follow_path(&edge), i32::MAX);
    assert!(can_follow_aim(&edge));
    assert_eq!(follow_aim(&edge), i32::MAX);
}

#[test]
fn courses_out_of_range_cannot_be_followed() {
    let deep = [(Direction::Down, i32::MAX), (Direction::Down, 1)];
    assert!(!can_follow_path(&deep));
    assert!(!can_follow_aim(&deep));
    let far = [(Direction::Forward, i32::MAX), (Direction::Forward, 1)];
    assert!(!can_follow_path(&far));
    assert!(!can_follow_aim(&far));
    let high = [(Direction::Up, i32::MAX), (Direction::Up, 2)];
    assert!(!can_follow_path(&high));
    let product = [(Direction::Down, 1 << 16), (Direction::Forward, 1 << 15)];
    assert!(!can_follow_path(&product));
    assert!(!can_follow_aim(&product));
    let descent = [(Direction::Down, 1 << 20), (Direction::Forward, 1 << 20)];
    assert!(!can_follow_aim(&descent));
    // Back in range at the end, but out of it on the way.
    let detour = [(Direction::Down, i32::MAX), (Direction::Down, 1), (Direction::Up, 5)];
    assert!(!can_follow_path(&detour));
}
