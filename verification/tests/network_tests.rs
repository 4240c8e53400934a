use advent2023::network::{gcd, lcm, Direction, Network, Node};

fn name(s: &str) -> [char; 3] {
    let c: Vec<char> = s.chars().collect();
    [c[0], c[1], c[2]]
}

fn net(turns: &str, nodes: &[(&str, &str, &str)]) -> Network {
    Network {
        directions: turns
            .chars()
            .map(|c| if c == 'L' { Direction::Left } else { Direction::Right })
            .collect(),
        nodes: nodes
            .iter()
            .map(|(n, l, r)| Node { name: name(n), left: name(l), right: name(r) })
            .collect(),
    }
}

fn whole(s: &str) -> [Option<char>; 3] {
    let n = name(s);
    [Some(n[0]), Some(n[1]), Some(n[2])]
}

#[test]
fn two_steps_reach_zzz() {
    let n = net(
        "RL",
        &[
            ("AAA", "BBB", "CCC"),
            ("BBB", "DDD", "EEE"),
            ("CCC", "ZZZ", "GGG"),
            ("DDD", "DDD", "DDD"),
            ("EEE", "EEE", "EEE"),
            ("GGG", "GGG", "GGG"),
            ("ZZZ", "ZZZ", "ZZZ"),
        ],
    );
    assert_eq!(n.follow_path_to_goal(name("AAA"), whole("ZZZ"), 1000), Some(2));
}

#[test]
fn six_steps_reach_zzz_when_the_turns_repeat() {
    let n = net("LLR", &[("AAA", "BBB", "BBB"), ("BBB", "AAA", "ZZZ"), ("ZZZ", "ZZZ", "ZZZ")]);
    assert_eq!(n.follow_path_to_goal(name("AAA"), whole("ZZZ"), 1000), Some(6));
    assert_eq!(n.follow_path_to_goal(name("AAA"), whole("ZZZ"), 6), Some(6));
    assert_eq!(n.follow_path_to_goal(name("AAA"), whole("ZZZ"), 5), None);
}

#[test]
fn ghosts_meet_after_six_steps() {
    let n = net(
        "LR",
        &[
            ("11A", "11B", "XXX"),
            ("11B", "XXX", "11Z"),
            ("11Z", "11B", "XXX"),
            ("22A", "22B", "XXX"),
            ("22B", "22C", "22C"),
            ("22C", "22Z", "22Z"),
            ("22Z", "22B", "22B"),
            ("XXX", "XXX", "XXX"),
        ],
    );
    let goal = [None, None, Some('Z')];
    let a = n.follow_path_to_goal(name("11A"), goal, 100).unwrap();
    let b = n.follow_path_to_goal(name("22A"), goal, 100).unwrap();
    assert_eq!((a, b), (2, 3));
    assert_eq!(lcm(a, b), Some(6));
}

#[test]
fn walks_that_lead_nowhere_end() {
    let n = net("L", &[("AAA", "BBB", "BBB")]);
    assert_eq!(n.follow_path_to_goal(name("AAA"), whole("ZZZ"), 10), None);
    assert_eq!(n.find(&name("AAA")), Some(0));
    assert_eq!(n.find(&name("BBB")), None);
    let idle = net("", &[("AAA", "ZZZ", "ZZZ")]);
    assert_eq!(idle.follow_path_to_goal(name("AAA"), whole("ZZZ"), 10), None);
    let twice = net("L", &[("AAA", "AAA", "AAA"), ("AAA", "ZZZ", "ZZZ")]);
    assert_eq!(twice.find(&name("AAA")), Some(0));
    assert_eq!(twice.follow_path_to_goal(name("AAA"), whole("ZZZ"), 10), None);
}

#[test]
fn gcd_and_lcm() {
    assert_eq!(gcd(12, 18), 6);
    assert_eq!(gcd(18, 12), 6);
    assert_eq!(gcd(7, 0), 7);
    assert_eq!(gcd(0, 7), 7);
    assert_eq!(gcd(0, 0), 0);
    assert_eq!(gcd(17, 5), 1);
    assert_eq!(lcm(4, 6), Some(12));
    assert_eq!(lcm(0, 5), Some(0));
    assert_eq!(lcm(0, 0), None);
    assert_eq!(lcm(u64::MAX, 2), None);
    assert_eq!(lcm(14631604759649, 1), Some(14631604759649));
}
