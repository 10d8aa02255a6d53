use aoc2021::image::{
    can_count, can_enhance, count, draw, draw_window, enhance, get_point, is_rectangular,
    points_to_value, read, read_line, read_map, read_point,
};
use aoc2021::text::ReadError;

#[test]
fn day20_test() {
    let input = "..#.#..#####.#.#.#.###.##.....###.##.#..###.####..#####..#....#..#..##..###..######.###...####..#..#####..##..#.#####...##.#.#..#.##..#.#......#.###.######.###.####...#.##.##..#..#..#####.....#.#....###..#.##......#.....#..#..#..##..#...##.######.####.####.#.#...#.......#..#.#.#...####.##.#......#..#...##.#.##..#...##.#.##..###.#......#.#.......#.#.#.####.###.##...#.....####.#..#..#.##.#....##..#.####....##...##..#...#......#.#.......#.......##..####..#...#.#.#...##..#.#..###..#####........#..####......#..#

#..#.
#....
##..#
..#..
..###";

    let (ima, mut map) = read_map(input.as_bytes());
    let mut infinite = 0;
    assert_eq!(ima.len(), 512);
    assert_eq!(map.len(), 5);
    assert_eq!(map[0].len(), 5);
    assert_eq!(count(&map), 10);

    let value = points_to_value(&map, 2, 2, infinite);
    assert_eq!(value, 34);
    assert_eq!(ima[value], 1);

    let value = points_to_value(&map, 4, 1, infinite);
    assert_eq!(value, 258);

    for _ in 0..2 {
        let (next, outside) = enhance(&ima, &map, infinite);
        map = next;
        infinite = outside;
    }
    assert_eq!(count(&map), 35);
}

#[test]
fn pixels_outside_have_the_infinite_value() {
    let map = vec![vec![1, 0], vec![0, 1]];
    assert_eq!(get_point(&map, 0, 0, 7), 1);
    assert_eq!(get_point(&map, 1, 0, 7), 0);
    assert_eq!(get_point(&map, 1, 1, 7), 1);
    assert_eq!(get_point(&map, 2, 0, 7), 7);
    assert_eq!(get_point(&map, 0, 2, 7), 7);
    assert_eq!(get_point(&map, -1, 0, 7), 7);
    assert_eq!(get_point(&map, 0, -1, 7), 7);
}

#[test]
fn window_reads_rows_from_the_top() {
    let map = vec![vec![1, 0, 0], vec![0, 0, 0], vec![0, 0, 1]];
    assert_eq!(points_to_value(&map, 1, 1, 0), 0b100_000_001);
    assert_eq!(points_to_value(&map, 0, 0, 0), 0b000_010_000);
    assert_eq!(points_to_value(&map, 0, 0, 1), 0b111_110_100);
    assert_eq!(points_to_value(&map, -5, -5, 1), 511);
    assert_eq!(points_to_value(&map, -5, -5, 0), 0);
}

#[test]
fn enhancement_grows_the_rectangle_and_flips_the_outside() {
    let mut ima = vec![0u8; 512];
    ima[0] = 1;
    ima[16] = 1;
    let map = vec![vec![1]];
    let (next, outside) = enhance(&ima, &map, 0);
    assert_eq!(outside, 1);
    assert_eq!(next.len(), 4);
    assert!(next.iter().all(|row| row.len() == 4));
    // The centre keeps its light; the far corners saw dark pixels only.
    assert_eq!(next[1][1], 1);
    assert_eq!(next[3][3], 1);
    assert_eq!(next[0][0], 0);
    let (_, outside) = enhance(&ima, &next, 1);
    assert_eq!(outside, 0);
}

#[test]
fn count_adds_up_the_pixels() {
    assert_eq!(count(&[]), 0);
    assert_eq!(count(&[vec![]]), 0);
    assert_eq!(count(&[vec![1, 1, 0], vec![0, 1, 0]]), 3);
}

#[test]
fn pixels_are_read_from_their_signs() {
    assert_eq!(read_point(b"#."), Ok((&b"."[..], 1)));
    assert_eq!(read_point(b".#"), Ok((&b"#"[..], 0)));
    assert_eq!(read_point(b"x"), Err(ReadError::Malformed));
    assert_eq!(read_point(b""), Err(ReadError::Malformed));
    assert_eq!(read_line(b"#..#\n."), (&b"\n."[..], vec![1, 0, 0, 1]));
    assert_eq!(read_line(b"\n"), (&b"\n"[..], vec![]));
}

#[test]
fn rows_are_split_at_line_feeds() {
    assert_eq!(
        read(b"#.\n\n.#\n##x"),
        (&b"x"[..], vec![vec![1, 0], vec![], vec![0, 1], vec![1, 1]])
    );
    assert_eq!(read(b""), (&b""[..], vec![vec![]]));
    assert_eq!(read(b"\n"), (&b""[..], vec![vec![], vec![]]));
    let (ima, map) = read_map(b"#.#\n\n..\n##");
    assert_eq!(ima, vec![1, 0, 1]);
    assert_eq!(map, vec![vec![0, 0], vec![1, 1]]);
}

#[test]
fn image_is_drawn_line_by_line() {
    let map = vec![vec![1, 0, 0], vec![0, 0, 0], vec![0, 0, 1]];
    assert_eq!(draw(&map), b"#..\n...\n..#\n");
    assert_eq!(draw(&[]), b"");
    assert_eq!(draw(&[vec![]]), b"\n");
    assert_eq!(draw_window(&map, 1, 1, 0), b"#..\n...\n..#\n");
    assert_eq!(draw_window(&map, 0, 0, 1), b"###\n##.\n#..\n");
    assert_eq!(draw_window(&map, 2, 2, 0), b"...\n.#.\n...\n");
}

#[test]
fn images_are_checked_before_use() {
    let map = vec![vec![1, 0], vec![0, 1]];
    assert!(is_rectangular(&map));
    assert!(!is_rectangular(&[]));
    assert!(!is_rectangular(&[vec![1], vec![1, 0]]));
    assert!(is_rectangular(&[vec![], vec![]]));
    assert!(can_count(&map));
    assert!(can_count(&[]));
    assert!(can_count(&[vec![1], vec![1, 0]]));
    assert!(!can_count(&[vec![1, 0], vec![1]]));
    let ima = vec![0u8; 512];
    assert!(can_enhance(&ima, &map, 0));
    assert!(can_enhance(&ima, &map, 1));
    assert!(!can_enhance(&ima, &[], 0));
    assert!(!can_enhance(&[], &map, 0));
    assert!(!can_enhance(&ima[..511], &map, 1));
    assert!(can_enhance(&ima[..400], &map, 0));
    assert!(!can_enhance(&ima, &[vec![2]], 0));
    assert!(!can_enhance(&ima, &map, 2));
}
