use aoc2021::sonar::{diff_depths, diff_windows};

#[test]
fn depths_rise_seven_times() {
    let depths = vec![199, 200, 208, 210, 200, 207, 240, 269, 260, 263];
    assert_eq!(diff_depths(&depths), 7);
}

#[test]
fn windows_rise_five_times() {
    let depths = vec![199, 200, 208, 210, 200, 207, 240, 269, 260, 263];
    assert_eq!(diff_windows(&depths), 5);
}

#[test]
fn few_readings_never_rise() {
    assert_eq!(diff_depths(&vec![]), 0);
    assert_eq!(diff_depths(&vec![5]), 0);
    assert_eq!(diff_windows(&vec![1, 2, 3]), 0);
}

#[test]
fn equal_and_falling_readings_do_not_count() {
    assert_eq!(diff_depths(&vec![3, 3, 2, 2, 1]), 0);
    assert_eq!(diff_depths(&vec![-5, -4, -4, -3]), 2);
    assert_eq!(diff_windows(&vec![1, 9, 9, 1, 9, 10]), 1);
    assert_eq!(diff_windows(&vec![1, 2, 3, 2]), 1);
}

#[test]
fn readings_are_read_line_by_line() {
    assert_eq!(
        aoc2021::sonar::read(b"199\n200\n208\n"),
        Ok((&b"\n"[..], vec![199, 200, 208]))
    );
    assert_eq!(aoc2021::sonar::read(b"-5"), Ok((&b""[..], vec![-5])));
    assert_eq!(aoc2021::sonar::read(b"1\n\n2"), Ok((&b"\n\n2"[..], vec![1])));
    assert_eq!(aoc2021::sonar::read(b"1\n99999999999\n3"), Ok((&b"\n99999999999\n3"[..], vec![1])));
}

#[test]
fn readings_need_a_first_number() {
    assert_eq!(aoc2021::sonar::read(b""), Err(aoc2021::text::ReadError::Malformed));
    assert_eq!(aoc2021::sonar::read(b"\n1"), Err(aoc2021::text::ReadError::Malformed));
    assert_eq!(aoc2021::sonar::read(b"99999999999"), Err(aoc2021::text::ReadError::OutOfRange));
}
