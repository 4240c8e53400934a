use advent2023::schematic::{
    gear_ratio_at, is_part_number, numbers_in_line, parse_map, sum_of_gear_ratios,
    sum_of_part_numbers, Number,
};

const ENGINE: &str = "467..114..\n...*......\n..35..633.\n......#...\n617*......\n.....+.58.\n..592.....\n......755.\n...$.*....\n.664.598..";

fn grid() -> Vec<Vec<u8>> {
    ENGINE.lines().map(|l| l.as_bytes().to_vec()).collect()
}

#[test]
fn part_numbers_add_up_to_4361() {
    let g = grid();
    let numbers = parse_map(&g).unwrap();
    assert_eq!(numbers.len(), 10);
    assert_eq!(sum_of_part_numbers(&g, &numbers), 4361);
}

#[test]
fn gear_ratios_add_up_to_467835() {
    let g = grid();
    let numbers = parse_map(&g).unwrap();
    assert_eq!(sum_of_gear_ratios(&g, &numbers), Some(467835));
    assert_eq!(gear_ratio_at(&g, &numbers, 3, 1), 467 * 35);
    assert_eq!(gear_ratio_at(&g, &numbers, 3, 4), 0);
    assert_eq!(gear_ratio_at(&g, &numbers, 5, 8), 755 * 598);
    assert_eq!(gear_ratio_at(&g, &numbers, 0, 0), 0);
}

#[test]
fn numbers_are_whole_runs_of_digits() {
    assert_eq!(
        numbers_in_line(b"467..114..", 3),
        Some(vec![
            Number { num: 467, x: 0, y: 3, len: 3 },
            Number { num: 114, x: 5, y: 3, len: 3 }
        ])
    );
    assert_eq!(numbers_in_line(b"..7", 0), Some(vec![Number { num: 7, x: 2, y: 0, len: 1 }]));
    assert_eq!(numbers_in_line(b"*+.", 0), Some(vec![]));
    assert_eq!(numbers_in_line(b"", 0), Some(vec![]));
    assert_eq!(numbers_in_line(b"4294967295", 0).unwrap()[0].num, u32::MAX);
    assert_eq!(numbers_in_line(b".4294967296.", 0), None);
}

#[test]
fn a_symbol_must_touch_the_number() {
    let g = grid();
    assert!(is_part_number(&g, &Number { num: 467, x: 0, y: 0, len: 3 }));
    assert!(!is_part_number(&g, &Number { num: 114, x: 5, y: 0, len: 3 }));
    assert!(!is_part_number(&g, &Number { num: 58, x: 7, y: 5, len: 2 }));
    assert!(is_part_number(&g, &Number { num: 592, x: 2, y: 6, len: 3 }));
}

#[test]
fn three_numbers_around_an_asterisk_make_no_gear() {
    let g: Vec<Vec<u8>> = ["1.2", ".*.", "3.."].iter().map(|l| l.as_bytes().to_vec()).collect();
    let numbers = parse_map(&g).unwrap();
    assert_eq!(gear_ratio_at(&g, &numbers, 1, 1), 0);
    let two: Vec<Vec<u8>> = ["1.2", ".*.", "..."].iter().map(|l| l.as_bytes().to_vec()).collect();
    let numbers = parse_map(&two).unwrap();
    assert_eq!(gear_ratio_at(&two, &numbers, 1, 1), 2);
}
