use advent2023::springs::{Record, SpringState};
use std::collections::HashMap;

fn record(line: &str) -> Record {
    let (springs, groups) = line.split_once(' ').unwrap();
    Record {
        springs: springs.chars().map(|c| SpringState::parse(c).unwrap()).collect(),
        groups: groups.split(',').map(|g| g.parse().unwrap()).collect(),
    }
}

const LINES: [&str; 6] = [
    "???.### 1,1,3",
    ".??..??...?##. 1,1,3",
    "?#?#?#?#?#?#?#? 1,3,1,6",
    "????.#...#... 4,1,1",
    "????.######..#####. 1,6,5",
    "?###???????? 3,2,1",
];

#[test]
fn arrangements_add_up_to_21() {
    let counts: Vec<u64> =
        LINES.iter().map(|l| record(l).find_possible_solutions(0, 0, 0, &mut None)).collect();
    assert_eq!(counts, vec![1, 4, 1, 1, 4, 10]);
}

#[test]
fn unfolded_arrangements_add_up_to_525152() {
    let mut total = 0;
    let mut counts = Vec::new();
    for l in LINES {
        let mut r = record(l);
        r.unfold();
        let n = r.find_possible_solutions(0, 0, 0, &mut Some(HashMap::new()));
        counts.push(n);
        total += n;
    }
    assert_eq!(counts, vec![1, 16384, 1, 16, 2500, 506250]);
    assert_eq!(total, 525152);
}

#[test]
fn the_cache_does_not_change_the_count() {
    for l in LINES {
        let r = record(l);
        let plain = r.find_possible_solutions(0, 0, 0, &mut None);
        let mut cache = Some(HashMap::new());
        let cached = r.find_possible_solutions(0, 0, 0, &mut cache);
        assert_eq!(plain, cached);
        assert_eq!(r.find_possible_solutions(0, 0, 0, &mut cache), plain);
        assert!(!cache.unwrap().is_empty());
    }
}

#[test]
fn unfolding_makes_five_copies() {
    let mut r = record(".# 1");
    r.unfold();
    let want = record(".#?.#?.#?.#?.# 1,1,1,1,1");
    assert_eq!(r.springs, want.springs);
    assert_eq!(r.groups, want.groups);
    let mut empty = Record { springs: vec![], groups: vec![] };
    empty.unfold();
    assert_eq!(empty.springs, vec![SpringState::Unknown; 4]);
    assert_eq!(empty.groups, Vec::<u8>::new());
}

#[test]
fn edge_cases() {
    assert_eq!(record("### 3").find_possible_solutions(0, 0, 0, &mut None), 1);
    assert_eq!(record("### 2").find_possible_solutions(0, 0, 0, &mut None), 0);
    assert_eq!(record("??? 1").find_possible_solutions(0, 0, 0, &mut None), 3);
    let none = Record { springs: vec![SpringState::Unknown; 3], groups: vec![] };
    assert_eq!(none.find_possible_solutions(0, 0, 0, &mut None), 1);
    let nothing = Record { springs: vec![], groups: vec![] };
    assert_eq!(nothing.find_possible_solutions(0, 0, 0, &mut None), 1);
    assert_eq!(SpringState::parse('x'), None);
}

#[test]
fn unfolding_hands_the_record_back() {
    let mut r = record("???.### 1,1,3");
    let n = r.unfold().find_possible_solutions(0, 0, 0, &mut Some(HashMap::new()));
    assert_eq!(n, 1);
    assert_eq!(r.groups.len(), 15);
}
