use advent2023::almanac::{parse_almanac, sort_ranges, Range};
use advent2023::beams::Mirror;
use advent2023::galaxies::Sky;
use advent2023::glyphs::parse_grid;
use advent2023::lens_hash::{apply_step, empty_boxes, find_lens, focusing_power, Lens};
use advent2023::platform::{Platform, Tile};
use advent2023::text::{split_fields, trim_end};

const ALMANAC: &str = "seeds: 79 14 55 13\n\nseed-to-soil map:\n50 98 2\n52 50 48\n\nsoil-to-fertilizer map:\n0 15 37\n37 52 2\n39 0 15\n\nfertilizer-to-water map:\n49 53 8\n0 11 42\n42 0 7\n57 7 4\n\nwater-to-light map:\n88 18 7\n18 25 70\n\nlight-to-temperature map:\n45 77 23\n81 45 19\n68 64 13\n\ntemperature-to-humidity map:\n0 69 1\n1 0 69\n\nhumidity-to-location map:\n60 56 37\n56 93 4\n";

#[test]
fn the_almanac_is_read_and_gives_35_and_46() {
    let a = parse_almanac(ALMANAC.as_bytes()).unwrap();
    assert_eq!(a.seeds, vec![79, 14, 55, 13]);
    assert_eq!(
        a.seed_to_soil.0,
        vec![
            Range { source_start: 50, destination_start: 52, length: 48 },
            Range { source_start: 98, destination_start: 50, length: 2 }
        ]
    );
    assert_eq!(a.fertilizer_to_water.0.len(), 4);
    assert!(a.is_wf());
    assert_eq!(a.lowest_location(), 35);
    let low = a.lowest_in_range(79, 14).min(a.lowest_in_range(55, 13));
    assert_eq!(low, 46);
}

#[test]
fn an_almanac_needs_all_its_maps() {
    assert!(parse_almanac(b"").is_none());
    assert!(parse_almanac(b"seeds: 1 2").is_none());
    let cut = ALMANAC.replace("water-to-light map:", "water-to-fire map:");
    assert!(parse_almanac(cut.as_bytes()).is_none());
    let bad = ALMANAC.replace("88 18 7", "88 18");
    assert!(parse_almanac(bad.as_bytes()).is_none());
    let big = ALMANAC.replace("88 18 7", "88 18 4294967296");
    assert!(parse_almanac(big.as_bytes()).is_none());
    let twice = format!("{}\nseed-to-soil map:\n1 2 3\n", ALMANAC);
    let a = parse_almanac(twice.as_bytes()).unwrap();
    assert_eq!(a.seed_to_soil.0, vec![Range { source_start: 2, destination_start: 1, length: 3 }]);
    let over = ALMANAC.replace("50 98 2", "4294967295 98 2");
    assert!(!parse_almanac(over.as_bytes()).unwrap().is_wf());
}

#[test]
fn ranges_are_sorted_by_source_then_destination_then_length() {
    let r = |s: u32, d: u32, l: u32| Range { source_start: s, destination_start: d, length: l };
    let mut v = vec![r(5, 1, 1), r(3, 9, 9), r(5, 0, 7), r(5, 0, 2), r(0, 0, 0), r(3, 9, 8)];
    sort_ranges(&mut v);
    assert_eq!(v, vec![r(0, 0, 0), r(3, 9, 8), r(3, 9, 9), r(5, 0, 2), r(5, 0, 7), r(5, 1, 1)]);
    let mut empty: Vec<Range> = Vec::new();
    sort_ranges(&mut empty);
    assert!(empty.is_empty());
    let mut one = vec![r(1, 2, 3)];
    sort_ranges(&mut one);
    assert_eq!(one, vec![r(1, 2, 3)]);
}

const DISH: &str = "O....#....\nO.OO#....#\n.....##...\nOO.#O....O\n.O.....O#.\nO.#..O.#.#\n..O..#O..O\n.......O..\n#....###..\n#OO..#....";

#[test]
fn load_after_a_billion_cycles_is_64() {
    let mut p: Platform = parse_grid::<Tile>(DISH.as_bytes()).unwrap();
    assert_eq!(p.load_after_cycles(1_000_000_000), Some(64));
}

#[test]
fn loads_after_few_cycles() {
    let loads: Vec<usize> = (0..20u64)
        .map(|n| {
            let mut p: Platform = parse_grid::<Tile>(DISH.as_bytes()).unwrap();
            p.load_after_cycles(n).unwrap()
        })
        .collect();
    let mut q: Platform = parse_grid::<Tile>(DISH.as_bytes()).unwrap();
    let mut want = vec![q.get_load().unwrap()];
    for _ in 1..20 {
        q.spin();
        want.push(q.get_load().unwrap());
    }
    assert_eq!(loads, want);
    assert_eq!(loads[0], 104);
    assert_eq!(loads[1], 87);
    assert_eq!(loads[2], 69);
    assert_eq!(loads[3], 69);
}

#[test]
fn snapshots_match_until_the_platform_changes() {
    let mut p: Platform = parse_grid::<Tile>(DISH.as_bytes()).unwrap();
    let copy = p.snapshot();
    assert!(p.matches(&copy));
    p.spin();
    assert!(!p.matches(&copy));
    assert!(!p.matches(&Vec::new()));
}

#[test]
fn focusing_power_is_145() {
    let text = "rn=1,cm-,qp=3,cm=2,qp-,pc=4,ot=9,ab=5,pc-,pc=6,ot=7\n";
    let steps = split_fields(trim_end(text.as_bytes()), b',');
    assert_eq!(steps.len(), 11);
    let mut boxes = empty_boxes();
    for step in &steps {
        assert!(apply_step(&mut boxes, step));
    }
    assert_eq!(
        boxes[0],
        vec![Lens { label: b"rn".to_vec(), focal: 1 }, Lens { label: b"cm".to_vec(), focal: 2 }]
    );
    assert_eq!(
        boxes[3],
        vec![
            Lens { label: b"ot".to_vec(), focal: 7 },
            Lens { label: b"ab".to_vec(), focal: 5 },
            Lens { label: b"pc".to_vec(), focal: 6 }
        ]
    );
    assert_eq!(focusing_power(&boxes), Some(145));
    assert_eq!(find_lens(&boxes[3], b"ab"), Some(1));
    assert_eq!(find_lens(&boxes[3], b"zz"), None);
}

#[test]
fn steps_that_cannot_be_read_change_nothing() {
    let mut boxes = empty_boxes();
    assert!(apply_step(&mut boxes, b"rn=1"));
    let before = boxes.clone();
    assert!(!apply_step(&mut boxes, b"rn"));
    assert!(!apply_step(&mut boxes, b"rn=x"));
    assert!(!apply_step(&mut boxes, b"rn="));
    assert!(!apply_step(&mut boxes, b""));
    assert!(!apply_step(&mut boxes, b"rn=99999999999999999999999"));
    assert_eq!(boxes, before);
    assert!(apply_step(&mut boxes, b"xx-"));
    assert_eq!(boxes, before);
    assert!(apply_step(&mut boxes, b"rn-"));
    assert_eq!(boxes, empty_boxes());
    assert!(apply_step(&mut boxes, b"a=1-"));
    assert!(apply_step(&mut boxes, b"-"));
    assert_eq!(focusing_power(&empty_boxes()), Some(0));
}

#[test]
fn trimming_cuts_white_space_at_the_end_only() {
    assert_eq!(trim_end(b"  ab \t\r\n"), b"  ab");
    assert_eq!(trim_end(b"ab"), b"ab");
    assert_eq!(trim_end(b" \n "), b"");
    assert_eq!(trim_end(b""), b"");
}

#[test]
fn skies_are_read_from_images() {
    let sky = Sky::parse(b"...#......\n.......#..\n#.........\n");
    assert_eq!(sky.stars, vec![(3, 0), (7, 1), (0, 2)]);
    assert_eq!((sky.width, sky.height), (10, 3));
    let ragged = Sky::parse(b"#\n..#\n");
    assert_eq!(ragged.stars, vec![(0, 0), (2, 1)]);
    assert_eq!((ragged.width, ragged.height), (3, 2));
    let empty = Sky::parse(b"");
    assert_eq!((empty.width, empty.height, empty.stars.len()), (0, 0, 0));
}

#[test]
fn the_best_entry_lights_51_tiles() {
    let layout = ".|...\\....\n|.-.\\.....\n.....|-...\n........|.\n..........\n.........\\\n..../.\\\\..\n.-.-/..|..\n.|....-|.\\\n..//.|....";
    let c = parse_grid::<Mirror>(layout.as_bytes()).unwrap();
    assert_eq!(c.most_energized(), Some(51));
    let one = parse_grid::<Mirror>(b".").unwrap();
    assert_eq!(one.most_energized(), Some(1));
    let row = parse_grid::<Mirror>(b"...").unwrap();
    assert_eq!(row.most_energized(), Some(1));
    let column = parse_grid::<Mirror>(b".\n.\n.").unwrap();
    assert_eq!(column.most_energized(), Some(3));
}
