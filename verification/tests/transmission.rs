use aoc2021::bits::BitCursor;
use aoc2021::decoder::{
    calc_length, decode_packet, read_length_mode, read_literal, read_subpackets, read_type,
    read_version,
};
use aoc2021::packet::LengthMode;
use aoc2021::error::DecodeError;
use aoc2021::eval::{evaluate, sum_versions};
use aoc2021::loader::load;
use aoc2021::packet::Packet;
use aoc2021::transmission::{read, run};

#[test]
fn day16_test() {
    let bytes = hex::decode("D2FE28").unwrap();
    let value = read(&mut BitCursor::new(&bytes)).unwrap();
    assert_eq!(value.0, 2021);
    assert_eq!(value.1, 6);

    let bytes = hex::decode("38006F45291200").unwrap();
    let value = read(&mut BitCursor::new(&bytes)).unwrap();
    assert_eq!(value.1, 9);

    let bytes = hex::decode("EE00D40C823060").unwrap();
    let value = read(&mut BitCursor::new(&bytes)).unwrap();
    assert_eq!(value.1, 14);

    let bytes = hex::decode("C200B40A82").unwrap();
    let value = read(&mut BitCursor::new(&bytes)).unwrap();
    assert_eq!(value.0, 3);

    let bytes = hex::decode("04005AC33890").unwrap();
    let value = read(&mut BitCursor::new(&bytes)).unwrap();
    assert_eq!(value.0, 54);

    let bytes = hex::decode("9C005AC2F8F0").unwrap();
    let value = read(&mut BitCursor::new(&bytes)).unwrap();
    assert_eq!(value.0, 0);

    let bytes = hex::decode("9C0141080250320F1802104A08").unwrap();
    let value = read(&mut BitCursor::new(&bytes)).unwrap();
    assert_eq!(value.0, 1);
}

fn decode(text: &str) -> Result<Packet, DecodeError> {
    let bytes = load(text).unwrap();
    decode_packet(&mut BitCursor::new(&bytes))
}

#[test]
fn cursor_takes_bits_most_significant_first() {
    let bytes = [0b1101_0010u8, 0b1111_1110, 0b0010_1000];
    let mut cursor = BitCursor::new(&bytes);
    assert_eq!(cursor.remaining_bits(), 24);
    assert_eq!(cursor.take(3), Ok(6));
    assert_eq!(cursor.take(3), Ok(4));
    assert_eq!(cursor.remaining_bits(), 18);
    assert_eq!(cursor.take(5), Ok(0b10111));
    assert_eq!(cursor.take(0), Ok(0));
    assert_eq!(cursor.take(13), Ok(0b1_1110_0010_1000));
    assert_eq!(cursor.remaining_bits(), 0);
    assert_eq!(cursor.take(0), Ok(0));
}

#[test]
fn cursor_reads_across_many_bytes() {
    let bytes = [0xFFu8; 9];
    let mut cursor = BitCursor::new(&bytes);
    assert_eq!(cursor.take(4), Ok(15));
    assert_eq!(cursor.take(64), Ok(u64::MAX));
    assert_eq!(cursor.remaining_bits(), 4);
}

#[test]
fn cursor_stays_when_exhausted() {
    let bytes = [0xABu8];
    let mut cursor = BitCursor::new(&bytes);
    assert_eq!(cursor.take(4), Ok(0xA));
    assert_eq!(cursor.take(5), Err(DecodeError::ExhaustedInput));
    assert_eq!(cursor.remaining_bits(), 4);
    assert_eq!(cursor.take(4), Ok(0xB));
    assert_eq!(cursor.take(1), Err(DecodeError::ExhaustedInput));
    let mut empty = BitCursor::new(&[]);
    assert_eq!(empty.take(1), Err(DecodeError::ExhaustedInput));
    assert_eq!(empty.remaining_bits(), 0);
}

#[test]
fn calc_length_counts_bits_from_offset() {
    let bytes = [1u8, 2, 3];
    assert_eq!(calc_length((&bytes, 0)), 24);
    assert_eq!(calc_length((&bytes, 7)), 17);
    assert_eq!(calc_length((&bytes, 24)), 0);
    assert_eq!(calc_length((&[], 0)), 0);
}

#[test]
fn header_fields_are_three_bits_each() {
    let bytes = hex::decode("D2FE28").unwrap();
    let mut cursor = BitCursor::new(&bytes);
    assert_eq!(read_version(&mut cursor), Ok(6));
    assert_eq!(read_type(&mut cursor), Ok(4));
    assert_eq!(read_literal(&mut cursor), Ok(2021));
    assert_eq!(cursor.remaining_bits(), 3);
    assert_eq!(read_type(&mut cursor), Ok(0));
    assert_eq!(read_version(&mut cursor), Err(DecodeError::ExhaustedInput));
}

#[test]
fn literal_of_three_groups() {
    assert_eq!(decode("D2FE28"), Ok(Packet::Literal { version: 6, value: 2021 }));
    assert_eq!(run("D2FE28"), Ok((6, 2021)));
}

#[test]
fn literal_of_one_group_is_its_nibble() {
    assert_eq!(decode("B0E0"), Ok(Packet::Literal { version: 5, value: 7 }));
    assert_eq!(run("B0E0"), Ok((5, 7)));
}

#[test]
fn literal_with_leading_zero_groups() {
    assert_eq!(decode("521048"), Ok(Packet::Literal { version: 2, value: 9 }));
}

#[test]
fn literal_of_sixty_four_bits_fits() {
    assert_eq!(
        decode("53FFFFFFFFFFFFFFFFFFBC"),
        Ok(Packet::Literal { version: 2, value: u64::MAX })
    );
}

#[test]
fn literal_beyond_sixty_four_bits_overflows() {
    assert_eq!(decode("53FFFFFFFFFFFFFFFFFFFDE0"), Err(DecodeError::Overflow));
}

#[test]
fn literal_cut_short_exhausts_input() {
    assert_eq!(decode("D2FE"), Err(DecodeError::ExhaustedInput));
    assert_eq!(decode("D2"), Err(DecodeError::ExhaustedInput));
    assert_eq!(decode(""), Err(DecodeError::ExhaustedInput));
}

#[test]
fn failed_decode_leaves_cursor_in_place() {
    let bytes = hex::decode("D2FE").unwrap();
    let mut cursor = BitCursor::new(&bytes);
    assert_eq!(cursor.take(0), Ok(0));
    assert_eq!(decode_packet(&mut cursor), Err(DecodeError::ExhaustedInput));
    assert_eq!(cursor.remaining_bits(), 16);
    assert_eq!(read(&mut cursor), Err(DecodeError::ExhaustedInput));
    assert_eq!(cursor.remaining_bits(), 16);
}

#[test]
fn group_delimited_by_bit_length() {
    let bytes = hex::decode("38006F45291200").unwrap();
    let mut cursor = BitCursor::new(&bytes);
    let packet = decode_packet(&mut cursor).unwrap();
    assert_eq!(
        packet,
        Packet::Operator {
            version: 1,
            type_id: 6,
            children: vec![
                Packet::Literal { version: 6, value: 10 },
                Packet::Literal { version: 2, value: 20 },
            ],
        }
    );
    // 22 bits of header and length, and exactly the 27 bits of the group.
    assert_eq!(cursor.remaining_bits(), 56 - 22 - 27);
    assert_eq!(evaluate(&packet), Ok((9, 1)));
}

#[test]
fn group_delimited_by_count() {
    let bytes = hex::decode("EE00D40C823060").unwrap();
    let mut cursor = BitCursor::new(&bytes);
    let packet = decode_packet(&mut cursor).unwrap();
    assert_eq!(
        packet,
        Packet::Operator {
            version: 7,
            type_id: 3,
            children: vec![
                Packet::Literal { version: 2, value: 1 },
                Packet::Literal { version: 4, value: 2 },
                Packet::Literal { version: 1, value: 3 },
            ],
        }
    );
    assert_eq!(cursor.remaining_bits(), 56 - 18 - 33);
    assert_eq!(evaluate(&packet), Ok((14, 3)));
}

#[test]
fn subpackets_are_read_after_the_header() {
    let bytes = hex::decode("38006F45291200").unwrap();
    let mut cursor = BitCursor::new(&bytes);
    assert_eq!(cursor.take(6), Ok(0b001_110));
    let children = read_subpackets(&mut cursor).unwrap();
    assert_eq!(children.len(), 2);
    assert_eq!(cursor.remaining_bits(), 7);
}

#[test]
fn length_mode_follows_the_length_type_bit() {
    let bytes = hex::decode("38006F45291200").unwrap();
    let mut cursor = BitCursor::new(&bytes);
    assert_eq!(cursor.take(6), Ok(0b001_110));
    assert_eq!(read_length_mode(&mut cursor), Ok(LengthMode::TotalBits(27)));
    assert_eq!(cursor.remaining_bits(), 56 - 22);

    let bytes = hex::decode("EE00D40C823060").unwrap();
    let mut cursor = BitCursor::new(&bytes);
    assert_eq!(cursor.take(6), Ok(0b111_011));
    assert_eq!(read_length_mode(&mut cursor), Ok(LengthMode::Count(3)));
    assert_eq!(cursor.remaining_bits(), 56 - 18);

    // The length type bit alone, or a length cut short, is not enough.
    let mut short = BitCursor::new(&[0b0000_0000, 0b0000_0000]);
    assert_eq!(short.take(1), Ok(0));
    assert_eq!(read_length_mode(&mut short), Err(DecodeError::ExhaustedInput));
    assert_eq!(short.remaining_bits(), 15);
    let mut short = BitCursor::new(&[0b1000_0000]);
    assert_eq!(read_length_mode(&mut short), Err(DecodeError::ExhaustedInput));
    assert_eq!(short.remaining_bits(), 8);
    let mut none = BitCursor::new(&[]);
    assert_eq!(read_length_mode(&mut none), Err(DecodeError::ExhaustedInput));
}

#[test]
fn group_overrun_is_malformed() {
    // A group of 10 bits whose only packet, a literal, takes 11.
    assert_eq!(decode("20002B4500"), Err(DecodeError::MalformedGroup));
    assert_eq!(run("20002B4500"), Err(DecodeError::MalformedGroup));
}

#[test]
fn group_longer_than_input_exhausts_it() {
    assert_eq!(decode("2001934500"), Err(DecodeError::ExhaustedInput));
}

#[test]
fn nested_version_sums() {
    assert_eq!(run("8A004A801A8002F478").map(|r| r.0), Ok(16));
    assert_eq!(run("620080001611562C8802118E34").map(|r| r.0), Ok(12));
    assert_eq!(run("C0015000016115A2E0802F182340").map(|r| r.0), Ok(23));
    assert_eq!(run("A0016C880162017C3686B18A3D4780").map(|r| r.0), Ok(31));
}

#[test]
fn value_by_operator_type() {
    assert_eq!(run("C200B40A82").map(|r| r.1), Ok(3));
    assert_eq!(run("04005AC33890").map(|r| r.1), Ok(54));
    assert_eq!(run("880086C3E88112").map(|r| r.1), Ok(7));
    assert_eq!(run("CE00C43D881120").map(|r| r.1), Ok(9));
    assert_eq!(run("D8005AC2A8F0").map(|r| r.1), Ok(1));
    assert_eq!(run("F600BC2D8F").map(|r| r.1), Ok(0));
    assert_eq!(run("9C005AC2F8F0").map(|r| r.1), Ok(0));
    assert_eq!(run("9C0141080250320F1802104A08").map(|r| r.1), Ok(1));
}

#[test]
fn version_sum_ignores_the_operator() {
    // The same tree as a sum and as a product.
    assert_eq!(run("C200B40A82"), Ok((14, 3)));
    assert_eq!(run("C600B40A82"), Ok((14, 2)));
}

fn literal(value: u64) -> Packet {
    Packet::Literal { version: 1, value }
}

fn operator(type_id: u8, children: Vec<Packet>) -> Packet {
    Packet::Operator { version: 2, type_id, children }
}

#[test]
fn empty_sum_and_product() {
    assert_eq!(run("620000"), Ok((3, 0)));
    assert_eq!(evaluate(&operator(0, vec![])), Ok((2, 0)));
    assert_eq!(evaluate(&operator(1, vec![])), Ok((2, 1)));
}

#[test]
fn minimum_and_maximum_need_an_operand() {
    assert_eq!(run("680000"), Err(DecodeError::InvalidChildCount));
    assert_eq!(evaluate(&operator(3, vec![])), Err(DecodeError::InvalidChildCount));
    assert_eq!(evaluate(&operator(2, vec![literal(5)])), Ok((3, 5)));
    assert_eq!(evaluate(&operator(3, vec![literal(5), literal(9), literal(7)])), Ok((5, 9)));
    assert_eq!(evaluate(&operator(2, vec![literal(5), literal(9), literal(3)])), Ok((5, 3)));
}

#[test]
fn comparisons_need_two_operands() {
    assert_eq!(run("16004408"), Err(DecodeError::InvalidChildCount));
    for type_id in [5u8, 6, 7] {
        assert_eq!(evaluate(&operator(type_id, vec![])), Err(DecodeError::InvalidChildCount));
        assert_eq!(
            evaluate(&operator(type_id, vec![literal(1), literal(2), literal(3)])),
            Err(DecodeError::InvalidChildCount)
        );
    }
    assert_eq!(evaluate(&operator(5, vec![literal(2), literal(1)])), Ok((4, 1)));
    assert_eq!(evaluate(&operator(5, vec![literal(1), literal(2)])), Ok((4, 0)));
    assert_eq!(evaluate(&operator(6, vec![literal(1), literal(2)])), Ok((4, 1)));
    assert_eq!(evaluate(&operator(6, vec![literal(2), literal(2)])), Ok((4, 0)));
    assert_eq!(evaluate(&operator(7, vec![literal(2), literal(2)])), Ok((4, 1)));
    assert_eq!(evaluate(&operator(7, vec![literal(2), literal(3)])), Ok((4, 0)));
}

#[test]
fn undefined_operator_types_are_unknown() {
    assert_eq!(evaluate(&operator(8, vec![literal(1)])), Err(DecodeError::UnknownPacketType));
    assert_eq!(evaluate(&operator(255, vec![])), Err(DecodeError::UnknownPacketType));
    assert_eq!(evaluate(&operator(4, vec![literal(1)])), Err(DecodeError::UnknownPacketType));
}

#[test]
fn sum_and_product_overflow_are_reported() {
    assert_eq!(
        evaluate(&operator(0, vec![literal(u64::MAX), literal(1)])),
        Err(DecodeError::Overflow)
    );
    assert_eq!(evaluate(&operator(0, vec![literal(u64::MAX), literal(0)])), Ok((4, u64::MAX)));
    assert_eq!(
        evaluate(&operator(1, vec![literal(1 << 32), literal(1 << 32)])),
        Err(DecodeError::Overflow)
    );
    assert_eq!(
        evaluate(&operator(1, vec![literal(1 << 32), literal((1 << 32) - 1)])),
        Ok((4, ((1u64 << 32) - 1) << 32))
    );
    // A factor 0 makes the product 0, however large the others are.
    assert_eq!(
        evaluate(&operator(1, vec![literal(u64::MAX), literal(u64::MAX), literal(0)])),
        Ok((5, 0))
    );
}

#[test]
fn versions_add_up_where_no_value_is_defined() {
    let tree = operator(9, vec![operator(5, vec![literal(1)]), literal(2)]);
    assert_eq!(evaluate(&tree), Err(DecodeError::InvalidChildCount));
    assert_eq!(sum_versions(&tree), Ok(2 + 2 + 1 + 1));
    assert_eq!(sum_versions(&literal(7)), Ok(1));
    assert_eq!(sum_versions(&operator(0, vec![])), Ok(2));
    assert_eq!(
        sum_versions(&operator(0, vec![literal(1)])),
        sum_versions(&operator(1, vec![literal(9)]))
    );
}

#[test]
fn first_failing_child_decides_the_error() {
    let tree = operator(0, vec![operator(9, vec![]), operator(5, vec![])]);
    assert_eq!(evaluate(&tree), Err(DecodeError::UnknownPacketType));
    let tree = operator(0, vec![operator(5, vec![]), operator(9, vec![])]);
    assert_eq!(evaluate(&tree), Err(DecodeError::InvalidChildCount));
    let tree = operator(9, vec![operator(5, vec![])]);
    assert_eq!(evaluate(&tree), Err(DecodeError::InvalidChildCount));
}

#[test]
fn load_pairs_digits_into_bytes() {
    assert_eq!(load("D2FE28"), Ok(vec![0xD2, 0xFE, 0x28]));
    assert_eq!(load("d2fe28"), Ok(vec![0xD2, 0xFE, 0x28]));
    assert_eq!(load("0aF9"), Ok(vec![0x0A, 0xF9]));
    assert_eq!(load(""), Ok(vec![]));
}

#[test]
fn load_drops_one_trailing_line_feed() {
    assert_eq!(load("D2FE28\n"), Ok(vec![0xD2, 0xFE, 0x28]));
    assert_eq!(load("\n"), Ok(vec![]));
    assert_eq!(load("D2FE28\n\n"), Err(DecodeError::InvalidHexDigit));
    assert_eq!(load("D2\nFE"), Err(DecodeError::InvalidHexDigit));
}

#[test]
fn load_pads_an_odd_number_of_digits() {
    assert_eq!(load("ABC"), Ok(vec![0xAB, 0xC0]));
    assert_eq!(load("ABC\n"), Ok(vec![0xAB, 0xC0]));
    assert_eq!(load("7"), Ok(vec![0x70]));
}

#[test]
fn load_rejects_other_characters() {
    assert_eq!(load("D2FG28"), Err(DecodeError::InvalidHexDigit));
    assert_eq!(load("D2 E28"), Err(DecodeError::InvalidHexDigit));
    assert_eq!(load("xyz"), Err(DecodeError::InvalidHexDigit));
    assert_eq!(load("D2F\u{e9}"), Err(DecodeError::InvalidHexDigit));
    assert_eq!(run("D2FG28"), Err(DecodeError::InvalidHexDigit));
}

#[test]
fn run_ignores_padding_after_the_packet() {
    assert_eq!(run("D2FE28\n"), Ok((6, 2021)));
    assert_eq!(run("D2FE280000"), Ok((6, 2021)));
    assert_eq!(run("B0E"), Ok((5, 7)));
}
