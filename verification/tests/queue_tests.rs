use advent2023::crucible::{APos, Policy};
use advent2023::grid::{Direction, Grid};
use advent2023::min_queue::MinQueue;
use advent2023::state_space::Layout;

#[test]
fn queue_hands_out_in_ascending_order() {
    let mut q: MinQueue<u32> = MinQueue::new();
    for (i, p) in [5u64, 3, 9, 1, 7, 3, 8, 2, 6, 4, 0].iter().enumerate() {
        q.push(*p, i as u32);
    }
    assert_eq!(q.len(), 11);
    let mut out = Vec::new();
    while let Some((p, _)) = q.pop_min() {
        out.push(p);
    }
    assert_eq!(out, vec![0, 1, 2, 3, 3, 4, 5, 6, 7, 8, 9]);
    assert_eq!(q.len(), 0);
    assert_eq!(q.pop_min(), None);
}

#[test]
fn queue_keeps_items_with_their_priorities() {
    let mut q: MinQueue<char> = MinQueue::new();
    q.push(2, 'b');
    q.push(1, 'a');
    q.push(3, 'c');
    assert_eq!(q.pop_min(), Some((1, 'a')));
    q.push(0, 'z');
    assert_eq!(q.pop_min(), Some((0, 'z')));
    assert_eq!(q.pop_min(), Some((2, 'b')));
    assert_eq!(q.pop_min(), Some((3, 'c')));
    assert_eq!(q.pop_min(), None);
}

#[test]
fn queue_sorts_a_long_run() {
    let mut q: MinQueue<u8> = MinQueue::new();
    let mut x: u64 = 12345;
    let mut want = Vec::new();
    for _ in 0..500 {
        x = x.wrapping_mul(6364136223846793005).wrapping_add(1442695040888963407);
        let p = x >> 40;
        want.push(p);
        q.push(p, 0);
    }
    want.sort();
    let mut got = Vec::new();
    while let Some((p, _)) = q.pop_min() {
        got.push(p);
    }
    assert_eq!(got, want);
}

#[test]
fn layout_numbers_every_state_once() {
    let g = Grid::from(vec![vec![advent2023::crucible::Block { heat_loss: 1 }; 3]; 2]);
    let policy = Policy::policy_a();
    let layout = Layout::new(&g, &policy).unwrap();
    assert_eq!(layout.count, 3 * 2 * 4 * 4);
    let mut seen = vec![false; layout.count];
    for y in 0..2 {
        for x in 0..3 {
            for d in [Direction::North, Direction::East, Direction::South, Direction::West] {
                for run in 0..4u8 {
                    let i = layout.index(&APos(x, y, d, run, 0));
                    assert!(i < layout.count);
                    assert!(!seen[i]);
                    seen[i] = true;
                }
            }
        }
    }
    assert!(seen.iter().all(|s| *s));
}
