use aoc2021::text::{
    alpha1, byte, newline, read_i32, read_number, read_u32, same, space1, tag, write_number,
    write_word, ReadError,
};

#[test]
fn numbers_are_runs_of_digits() {
    assert_eq!(read_u32(b"42"), Ok((&b""[..], 42)));
    assert_eq!(read_u32(b"007 rest"), Ok((&b" rest"[..], 7)));
    assert_eq!(read_u32(b"4294967295\n"), Ok((&b"\n"[..], u32::MAX)));
    assert_eq!(read_u32(b"4294967296"), Err(ReadError::OutOfRange));
    assert_eq!(read_u32(b"99999999999999999999"), Err(ReadError::OutOfRange));
    assert_eq!(read_u32(b""), Err(ReadError::Malformed));
    assert_eq!(read_u32(b"-1"), Err(ReadError::Malformed));
    assert_eq!(read_u32(b"x1"), Err(ReadError::Malformed));
}

#[test]
fn numbers_respect_their_limit() {
    assert_eq!(read_number(b"10", 10), Ok((&b""[..], 10)));
    assert_eq!(read_number(b"11", 10), Err(ReadError::OutOfRange));
    assert_eq!(read_number(b"0", 0), Ok((&b""[..], 0)));
    assert_eq!(read_number(b"1", 0), Err(ReadError::OutOfRange));
    assert_eq!(read_number(b"000", 0), Ok((&b""[..], 0)));
}

#[test]
fn signed_numbers_take_a_sign() {
    assert_eq!(read_i32(b"42"), Ok((&b""[..], 42)));
    assert_eq!(read_i32(b"+42,"), Ok((&b","[..], 42)));
    assert_eq!(read_i32(b"-42 "), Ok((&b" "[..], -42)));
    assert_eq!(read_i32(b"2147483647"), Ok((&b""[..], i32::MAX)));
    assert_eq!(read_i32(b"-2147483648"), Ok((&b""[..], i32::MIN)));
    assert_eq!(read_i32(b"2147483648"), Err(ReadError::OutOfRange));
    assert_eq!(read_i32(b"-2147483649"), Err(ReadError::OutOfRange));
    assert_eq!(read_i32(b"-"), Err(ReadError::Malformed));
    assert_eq!(read_i32(b"+-1"), Err(ReadError::Malformed));
    assert_eq!(read_i32(b""), Err(ReadError::Malformed));
}

#[test]
fn words_must_stand_at_the_start() {
    assert_eq!(tag(b"fold along x=5", b"fold along "), Ok(&b"x=5"[..]));
    assert_eq!(tag(b"fold", b"fold along "), Err(ReadError::Malformed));
    assert_eq!(tag(b" fold", b"fold"), Err(ReadError::Malformed));
    assert_eq!(tag(b"abc", b""), Ok(&b"abc"[..]));
    assert_eq!(byte(b",5", 44), Ok(&b"5"[..]));
    assert_eq!(byte(b"5", 44), Err(ReadError::Malformed));
    assert_eq!(newline(b"\nx"), Ok(&b"x"[..]));
    assert_eq!(newline(b"x\n"), Err(ReadError::Malformed));
    assert_eq!(newline(b""), Err(ReadError::Malformed));
}

#[test]
fn letters_and_blanks_come_in_runs() {
    assert_eq!(alpha1(b"down 42"), Ok((&b" 42"[..], &b"down"[..])));
    assert_eq!(alpha1(b"Up"), Ok((&b""[..], &b"Up"[..])));
    assert_eq!(alpha1(b"4up"), Err(ReadError::Malformed));
    assert_eq!(space1(b" \t 7"), Ok(&b"7"[..]));
    assert_eq!(space1(b"7"), Err(ReadError::Malformed));
    assert_eq!(space1(b"\n"), Err(ReadError::Malformed));
}

#[test]
fn same_compares_texts() {
    assert!(same(b"up", b"up"));
    assert!(!same(b"up", b"uq"));
    assert!(!same(b"up", b"upp"));
    assert!(same(b"", b""));
}

#[test]
fn numbers_are_written_in_decimal() {
    let mut text = Vec::new();
    write_number(&mut text, 0);
    write_word(&mut text, b", ");
    write_number(&mut text, 7);
    write_word(&mut text, b", ");
    write_number(&mut text, 1230);
    write_word(&mut text, b", ");
    write_number(&mut text, u32::MAX);
    write_word(&mut text, b"");
    assert_eq!(text, b"0, 7, 1230, 4294967295");
}
