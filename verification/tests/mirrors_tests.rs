use advent2023::mirrors::{line_value, Pattern, Reflection, Tile};

fn pattern(text: &str) -> Pattern {
    let tiles: Vec<Vec<Tile>> =
        text.lines().map(|l| l.chars().map(|c| Tile::parse(c).unwrap()).collect()).collect();
    Pattern { width: tiles[0].len(), height: tiles.len(), tiles }
}

const FIRST: &str = "#.##..##.\n..#.##.#.\n##......#\n##......#\n..#.##.#.\n..##..##.\n#.#.##.#.";
const SECOND: &str = "#...##..#\n#....#..#\n..##..###\n#####.##.\n#####.##.\n..##..###\n#....#..#";

#[test]
fn reflection_lines_add_up_to_405() {
    let a = pattern(FIRST).get_reflection_line().unwrap();
    let b = pattern(SECOND).get_reflection_line().unwrap();
    assert_eq!(a, Reflection::OnXAxis(5, 4));
    assert_eq!(b, Reflection::OnYAxis(4, 3));
    assert_eq!(line_value(a).unwrap() + line_value(b).unwrap(), 405);
}

#[test]
fn smudged_lines_add_up_to_400() {
    let a = pattern(FIRST).get_corrected_reflection_line().unwrap();
    let b = pattern(SECOND).get_corrected_reflection_line().unwrap();
    assert_eq!(a, Reflection::OnYAxis(3, 3));
    assert_eq!(b, Reflection::OnYAxis(1, 1));
    assert_eq!(line_value(a).unwrap() + line_value(b).unwrap(), 400);
}

#[test]
fn single_lines_and_flaws() {
    let p = pattern(FIRST);
    assert!(p.is_mirrored_at_x(5));
    assert!(!p.is_mirrored_at_x(4));
    assert!(!p.is_mirrored_at_y(3));
    assert_eq!(p.count_flaws_at_x(5), 0);
    assert_eq!(p.count_flaws_at_x(1), 2);
    assert_eq!(p.count_flawed_columns_at_y(3), 1);
    assert_eq!(p.count_flawed_columns_at_y(1), 2);
    let q = pattern(SECOND);
    assert!(q.is_mirrored_at_y(4));
    assert_eq!(q.count_flawed_columns_at_y(4), 0);
    assert_eq!(q.count_flawed_columns_at_y(1), 1);
}

#[test]
fn patterns_without_a_mirror() {
    let p = pattern("#.\n.#");
    assert_eq!(p.get_reflection_line(), None);
    let one = pattern("#");
    assert_eq!(one.get_reflection_line(), None);
    assert_eq!(one.get_corrected_reflection_line(), None);
    let pair = pattern("##");
    assert_eq!(pair.get_reflection_line(), Some(Reflection::OnXAxis(1, 1)));
    assert_eq!(pair.get_corrected_reflection_line(), None);
    let smudged = pattern("#.");
    assert_eq!(smudged.get_corrected_reflection_line(), Some(Reflection::OnXAxis(1, 1)));
}

#[test]
fn a_column_with_two_flaws_counts_once() {
    let p = pattern("#.\n..\n..\n.#\n##\n##");
    assert_eq!(p.count_flawed_columns_at_y(2), 2);
    let q = pattern("#.\n#.\n..\n..");
    assert_eq!(q.count_flawed_columns_at_y(2), 1);
    assert_eq!(q.get_corrected_reflection_line(), Some(Reflection::OnYAxis(2, 2)));
}

#[test]
fn line_values() {
    assert_eq!(line_value(Reflection::OnXAxis(5, 4)), Some(5));
    assert_eq!(line_value(Reflection::OnYAxis(4, 3)), Some(400));
    assert_eq!(line_value(Reflection::OnYAxis(usize::MAX, 1)), None);
    assert_eq!(Tile::parse('?'), None);
}
