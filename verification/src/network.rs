//! A network of named nodes that is walked by a repeating list of left and
//! right turns.

use vstd::prelude::*;
use crate::glyphs::{all_known, parse_tiles, tiles_of, unreadable, FromByte, FromLine};
use crate::grid::tile_rows;
use crate::text::{spec_lines, split_lines};

verus! {

#[derive(Debug, Clone, Copy, PartialEq, Eq, Structural)]
pub enum Direction {
    Left,
    Right,
}

/// A node: its name and the names of the nodes to its left and right.
#[derive(Debug, Clone, Copy)]
pub struct Node {
    pub name: [char; 3],
    pub left: [char; 3],
    pub right: [char; 3],
}

/// The turns to take, over and over, and the nodes.
#[derive(Debug, Clone)]
pub struct Network {
    pub directions: Vec<Direction>,
    pub nodes: Vec<Node>,
}

pub open spec fn same_name(a: [char; 3], b: [char; 3]) -> bool {
    a@[0] == b@[0] && a@[1] == b@[1] && a@[2] == b@[2]
}

/// The index of the first of the first `n` nodes with the given name.
pub open spec fn spec_find(nodes: Seq<Node>, name: [char; 3], n: int) -> Option<int>
    decreases n,
{
    if n <= 0 {
        None
    } else {
        match spec_find(nodes, name, n - 1) {
            Some(i) => Some(i),
            None => if same_name(nodes[n - 1].name, name) {
                Some(n - 1)
            } else {
                None
            },
        }
    }
}

/// A goal is either a whole name or the last letter of a name.
pub open spec fn goal_ok(goal: [Option<char>; 3]) -> bool {
    goal@[2] is Some && (goal@[0] is Some <==> goal@[1] is Some)
}

/// Whether the name meets the goal.
pub open spec fn meets(name: [char; 3], goal: [Option<char>; 3]) -> bool {
    &&& goal@[2] == Some(name@[2])
    &&& goal@[0] matches Some(a) ==> a == name@[0]
    &&& goal@[1] matches Some(b) ==> b == name@[1]
}

impl Network {
    /// The name of the node that `k` steps lead to from the node `from`, or
    /// `None` if the walk comes to a name that no node has.
    pub open spec fn walk(&self, from: [char; 3], k: nat) -> Option<[char; 3]>
        decreases k,
    {
        if k == 0 {
            Some(from)
        } else {
            match self.walk(from, (k - 1) as nat) {
                None => None,
                Some(at) => match spec_find(self.nodes@, at, self.nodes@.len() as int) {
                    None => None,
                    Some(i) => Some(
                        match self.directions@[(k - 1) % (self.directions@.len() as int)] {
                            Direction::Left => self.nodes@[i].left,
                            Direction::Right => self.nodes@[i].right,
                        },
                    ),
                },
            }
        }
    }

    /// The index of the first node with the given name.
    pub fn find(&self, name: &[char; 3]) -> (r: Option<usize>)
        ensures
            match r {
                Some(i) => spec_find(self.nodes@, *name, self.nodes@.len() as int) == Some(i as int)
                    && i < self.nodes@.len(),
                None => spec_find(self.nodes@, *name, self.nodes@.len() as int) is None,
            },
    {
        let mut i: usize = 0;
        while i < self.nodes.len()
            invariant
                i <= self.nodes@.len(),
                spec_find(self.nodes@, *name, i as int) is None,
            decreases self.nodes@.len() - i,
        {
            let node = &self.nodes[i];
            if node.name[0] == name[0] && node.name[1] == name[1] && node.name[2] == name[2] {
                proof {
                    lemma_find_stays(self.nodes@, *name, i + 1, self.nodes@.len() as int);
                }
                return Some(i);
            }
            i += 1;
        }
        None
    }

    /// Follows the turns from `node` until a node meets the goal, and returns
    /// the number of steps taken: the least number of steps, one or more,
    /// that leads to such a node. Returns `None` if the walk comes to a name
    /// that no node has, if there are no turns, or if the goal is not met
    /// within `limit` steps.
    pub fn follow_path_to_goal(&self, node: [char; 3], goal: [Option<char>; 3], limit: u64) -> (r:
        Option<u64>)
        requires
            goal_ok(goal),
        ensures
            r matches Some(steps) ==> steps <= limit && first_meeting(
                *self,
                node,
                goal,
                steps as nat,
            ),
            r is None && self.directions@.len() > 0 ==> forall|k: nat|
                1 <= k <= limit ==> (#[trigger] self.walk(node, k) matches Some(at) ==> !meets(
                    at,
                    goal,
                )),
            self.directions@.len() == 0 ==> r is None,
    {
        let turns = self.directions.len();
        if turns == 0 {
            return None;
        }
        let mut at = node;
        let mut steps: u64 = 0;
        let mut turn: usize = 0;
        while steps < limit
            invariant
                goal_ok(goal),
                turns == self.directions@.len(),
                turns > 0,
                steps <= limit,
                turn < turns,
                turn == steps % (turns as u64),
                self.walk(node, steps as nat) == Some(at),
                forall|k: nat|
                    1 <= k <= steps ==> (#[trigger] self.walk(node, k) matches Some(x) && !meets(
                        x,
                        goal,
                    )),
            decreases limit - steps,
        {
            let i = match self.find(&at) {
                None => {
                    proof {
                        assert(self.walk(node, (steps + 1) as nat) is None);
                        assert forall|k: nat| steps < k <= limit implies #[trigger] self.walk(node, k)
                            is None by {
                            lemma_walk_ends(*self, node, (steps + 1) as nat, k);
                        }
                    }
                    return None;
                },
                Some(i) => i,
            };
            at = match self.directions[turn] {
                Direction::Left => self.nodes[i].left,
                Direction::Right => self.nodes[i].right,
            };
            assert((steps as int) % (turns as int) == turn);
            steps = steps + 1;
            turn = if turn + 1 == turns {
                0
            } else {
                turn + 1
            };
            proof {
                lemma_next_turn((steps - 1) as int, turns as int);
            }
            assert(self.walk(node, steps as nat) == Some(at));
            let met = match goal[2] {
                Some(c) => at[2] == c,
                None => false,
            } && match goal[0] {
                Some(a) => at[0] == a,
                None => true,
            } && match goal[1] {
                Some(b) => at[1] == b,
                None => true,
            };
            if met {
                return Some(steps);
            }
        }
        None
    }
}

proof fn lemma_next_turn(k: int, m: int)
    by (nonlinear_arith)
    requires
        0 <= k,
        0 < m,
    ensures
        (k + 1) % m == if k % m + 1 == m {
            0
        } else {
            k % m + 1
        },
{
}

/// A first node with the name stays the first as more nodes are looked at.
pub proof fn lemma_find_stays(nodes: Seq<Node>, name: [char; 3], n: int, m: int)
    requires
        0 <= n <= m,
        spec_find(nodes, name, n) is Some,
    ensures
        spec_find(nodes, name, m) == spec_find(nodes, name, n),
    decreases m - n,
{
    if n < m {
        lemma_find_stays(nodes, name, n, m - 1);
    }
}

/// A walk that has come to a name that no node has goes nowhere.
pub proof fn lemma_walk_ends(net: Network, from: [char; 3], k: nat, m: nat)
    requires
        k <= m,
        net.walk(from, k) is None,
    ensures
        net.walk(from, m) is None,
    decreases m - k,
{
    if k < m {
        lemma_walk_ends(net, from, k, (m - 1) as nat);
    }
}

/// The greatest common divisor, by repeated remainders.
pub open spec fn spec_gcd(a: nat, b: nat) -> nat
    decreases b,
{
    if b == 0 {
        a
    } else {
        spec_gcd(b, a % b)
    }
}

/// The greatest common divisor divides both numbers.
pub proof fn lemma_gcd_divides(a: nat, b: nat)
    ensures
        spec_gcd(a, b) > 0 ==> a % spec_gcd(a, b) == 0 && b % spec_gcd(a, b) == 0,
        spec_gcd(a, b) == 0 <==> a == 0 && b == 0,
    decreases b,
{
    if b != 0 {
        let g = spec_gcd(a, b);
        lemma_gcd_divides(b, a % b);
        if g > 0 {
            vstd::arithmetic::div_mod::lemma_fundamental_div_mod(a as int, b as int);
            lemma_divides_sum(g as int, b as int, a as int / b as int, (a % b) as int);
        }
    } else {
        if a > 0 {
            vstd::arithmetic::div_mod::lemma_mod_self_0(a as int);
        }
    }
}

/// What divides `b` and `r` divides `b * q + r`.
proof fn lemma_divides_sum(g: int, b: int, q: int, r: int)
    requires
        g > 0,
        b % g == 0,
        r % g == 0,
    ensures
        (b * q + r) % g == 0,
{
    vstd::arithmetic::div_mod::lemma_fundamental_div_mod(b, g);
    vstd::arithmetic::div_mod::lemma_fundamental_div_mod(r, g);
    let total = b * q + r;
    assert(total == g * ((b / g) * q + r / g)) by (nonlinear_arith)
        requires
            total == b * q + r,
            b == g * (b / g) + b % g,
            r == g * (r / g) + r % g,
            b % g == 0,
            r % g == 0,
    ;
    vstd::arithmetic::div_mod::lemma_mod_multiples_basic((b / g) * q + r / g, g);
    assert(((b / g) * q + r / g) * g == total) by (nonlinear_arith)
        requires
            total == g * ((b / g) * q + r / g),
    ;
}

/// The greatest common divisor of two numbers.
pub fn gcd(a: u64, b: u64) -> (g: u64)
    ensures
        g == spec_gcd(a as nat, b as nat),
    decreases b,
{
    if b == 0 {
        return a;
    }
    gcd(b, a % b)
}

/// The least common multiple of two numbers, or `None` if both are zero or
/// the multiple cannot be held in a `u64`.
pub fn lcm(a: u64, b: u64) -> (r: Option<u64>)
    ensures
        r matches Some(m) ==> spec_gcd(a as nat, b as nat) > 0 && m == (a as nat / spec_gcd(
            a as nat,
            b as nat,
        )) * b,
        r is None ==> (a == 0 && b == 0) || (a as nat / spec_gcd(a as nat, b as nat)) * b > u64::MAX,
{
    let g = gcd(a, b);
    proof {
        lemma_gcd_divides(a as nat, b as nat);
    }
    if g == 0 {
        return None;
    }
    (a / g).checked_mul(b)
}

/// `steps` is the least number of steps, one or more, after which a walk
/// from `from` is on a node that meets the goal.
pub open spec fn first_meeting(net: Network, from: [char; 3], goal: [Option<char>; 3], steps: nat) -> bool {
    &&& 1 <= steps
    &&& net.walk(from, steps) matches Some(end) && meets(end, goal)
    &&& forall|k: nat|
        1 <= k < steps ==> (#[trigger] net.walk(from, k) matches Some(at) && !meets(at, goal))
}

/// The number of steps after which a walk from `from` first meets the goal.
pub open spec fn steps_of(net: Network, from: [char; 3], goal: [Option<char>; 3]) -> nat {
    choose|steps: nat| first_meeting(net, from, goal, steps)
}

/// There is only one first meeting.
pub proof fn lemma_first_meeting_unique(
    net: Network,
    from: [char; 3],
    goal: [Option<char>; 3],
    steps: nat,
)
    requires
        first_meeting(net, from, goal, steps),
    ensures
        steps_of(net, from, goal) == steps,
{
    let other = steps_of(net, from, goal);
    assert(first_meeting(net, from, goal, other));
    if other < steps {
        assert(net.walk(from, other) matches Some(at) && !meets(at, goal));
    } else if steps < other {
        assert(net.walk(from, steps) matches Some(at) && !meets(at, goal));
    }
}

/// The least common multiple of two numbers that are not both zero.
pub open spec fn spec_lcm(a: nat, b: nat) -> nat {
    (a / spec_gcd(a, b)) * b
}

/// The goal of a ghost: any name that ends in `Z`.
pub open spec fn ghost_goal() -> [Option<char>; 3] {
    [None, None, Some('Z')]
}

/// A walk from `from` meets the goal within `limit` steps.
pub open spec fn meets_within(net: Network, from: [char; 3], goal: [Option<char>; 3], limit: u64) -> bool {
    exists|steps: nat| 1 <= steps <= limit && #[trigger] first_meeting(net, from, goal, steps)
}

/// The least common multiple of the numbers of steps that the ghosts among
/// the first `n` nodes need: a ghost starts on every node whose name ends in
/// `A` and walks until it is on a node whose name ends in `Z`. There is no
/// such number if a ghost does not get there within `limit` steps.
pub open spec fn spec_ghost_steps(net: Network, n: int, limit: u64) -> Option<nat>
    decreases n,
{
    if n <= 0 {
        Some(1)
    } else {
        match spec_ghost_steps(net, n - 1, limit) {
            None => None,
            Some(before) => if net.nodes@[n - 1].name@[2] == 'A' {
                if meets_within(net, net.nodes@[n - 1].name, ghost_goal(), limit) {
                    Some(spec_lcm(before, steps_of(net, net.nodes@[n - 1].name, ghost_goal())))
                } else {
                    None
                }
            } else {
                Some(before)
            },
        }
    }
}

/// The least common multiple of two numbers that are not zero is no less
/// than the first.
pub proof fn lemma_lcm_grows(a: nat, b: nat)
    requires
        a >= 1,
        b >= 1,
    ensures
        spec_lcm(a, b) >= a,
{
    lemma_gcd_divides(a, b);
    let g = spec_gcd(a, b);
    vstd::arithmetic::div_mod::lemma_fundamental_div_mod(a as int, g as int);
    vstd::arithmetic::div_mod::lemma_fundamental_div_mod(b as int, g as int);
    let q = a as int / g as int;
    assert(q * b >= a) by (nonlinear_arith)
        requires
            a == g * q,
            b == g * (b as int / g as int),
            b >= 1,
            g >= 1,
            q >= 0,
            b as int / g as int >= 0,
    ;
}

/// A fold of least common multiples that has failed stays failed, and one
/// that has not is at least one and does not shrink.
pub proof fn lemma_ghost_steps_grow(net: Network, k: int, n: int, limit: u64)
    requires
        0 <= k <= n,
    ensures
        spec_ghost_steps(net, k, limit) is None ==> spec_ghost_steps(net, n, limit) is None,
        spec_ghost_steps(net, n, limit) matches Some(all) ==> spec_ghost_steps(net, k, limit)
            matches Some(part) && 1 <= part <= all,
    decreases n,
{
    if n > 0 {
        if k < n {
            lemma_ghost_steps_grow(net, k, n - 1, limit);
        } else {
            lemma_ghost_steps_grow(net, k - 1, n - 1, limit);
        }
        lemma_ghost_steps_grow(net, 0, n - 1, limit);
        if spec_ghost_steps(net, n, limit) is Some && net.nodes@[n - 1].name@[2] == 'A' {
            let from = net.nodes@[n - 1].name;
            let witness = choose|steps: nat|
                1 <= steps <= limit && #[trigger] first_meeting(net, from, ghost_goal(), steps);
            lemma_first_meeting_unique(net, from, ghost_goal(), witness);
            lemma_lcm_grows(spec_ghost_steps(net, n - 1, limit).unwrap(), witness);
        }
    }
}

impl Network {
    /// The number of steps after which all ghosts are on their goals at the
    /// same time, if each ghost comes back to its goal in a cycle as long as
    /// its first walk there: the least common multiple of the ghosts' numbers
    /// of steps. Returns `None` if a ghost does not meet its goal within
    /// `limit` steps or the multiple cannot be held in a `u64`.
    pub fn ghost_steps(&self, limit: u64) -> (r: Option<u64>)
        requires
            self.directions@.len() > 0,
        ensures
            r == match spec_ghost_steps(*self, self.nodes@.len() as int, limit) {
                Some(steps) => if steps <= u64::MAX {
                    Some(steps as u64)
                } else {
                    None
                },
                None => None,
            },
    {
        let goal: [Option<char>; 3] = [None, None, Some('Z')];
        assert(goal == ghost_goal());
        let mut all: u64 = 1;
        let mut i: usize = 0;
        while i < self.nodes.len()
            invariant
                i <= self.nodes@.len(),
                self.directions@.len() > 0,
                goal == ghost_goal(),
                goal_ok(goal),
                spec_ghost_steps(*self, i as int, limit) == Some(all as nat),
            decreases self.nodes@.len() - i,
        {
            let name = self.nodes[i].name;
            proof {
                lemma_ghost_steps_grow(*self, i + 1, self.nodes@.len() as int, limit);
            }
            if name[2] == 'A' {
                let steps = match self.follow_path_to_goal(name, goal, limit) {
                    None => {
                        proof {
                            if meets_within(*self, name, goal, limit) {
                                let witness = choose|steps: nat|
                                    1 <= steps <= limit && #[trigger] first_meeting(
                                        *self,
                                        name,
                                        goal,
                                        steps,
                                    );
                                assert(self.walk(name, witness) matches Some(at) && meets(at, goal));
                            }
                        }
                        return None;
                    },
                    Some(steps) => steps,
                };
                proof {
                    lemma_first_meeting_unique(*self, name, goal, steps as nat);
                    assert(meets_within(*self, name, goal, limit));
                    lemma_gcd_divides(all as nat, steps as nat);
                }
                all = match lcm(all, steps) {
                    None => {
                        return None;
                    },
                    Some(all) => all,
                };
            }
            i += 1;
        }
        Some(all)
    }
}

impl FromByte for Direction {
    /// `L` stands for left, `R` for right.
    open spec fn of_byte(b: u8) -> Option<Direction> {
        if b == 76 {
            Some(Direction::Left)
        } else if b == 82 {
            Some(Direction::Right)
        } else {
            None
        }
    }

    fn from_byte(b: u8) -> (r: Option<Direction>) {
        if b == 76 {
            Some(Direction::Left)
        } else if b == 82 {
            Some(Direction::Right)
        } else {
            None
        }
    }
}

/// The three bytes from `at` on, as a name.
pub open spec fn name_at(line: Seq<u8>, at: int, name: [char; 3]) -> bool {
    name@[0] == line[at] as char && name@[1] == line[at + 1] as char && name@[2] == line[at + 2] as char
}

/// The line has the shape `AAA = (BBB, CCC)`.
pub open spec fn node_shape(line: Seq<u8>) -> bool {
    &&& line.len() == 16
    &&& line[3] == 32 && line[4] == 61 && line[5] == 32 && line[6] == 40
    &&& line[10] == 44 && line[11] == 32
    &&& line[15] == 41
}

impl FromLine for Node {
    /// A node is written as its name, an equals sign, and in brackets the
    /// names of its left and right neighbours with a comma between them.
    open spec fn written_as(line: Seq<u8>, value: Node) -> bool {
        &&& node_shape(line)
        &&& name_at(line, 0, value.name)
        &&& name_at(line, 7, value.left)
        &&& name_at(line, 12, value.right)
    }

    fn from_line(line: &[u8]) -> (r: Option<Node>) {
        if line.len() != 16 {
            return None;
        }
        if !(line[3] == 32 && line[4] == 61 && line[5] == 32 && line[6] == 40 && line[10] == 44
            && line[11] == 32 && line[15] == 41) {
            return None;
        }
        Some(
            Node {
                name: [line[0] as char, line[1] as char, line[2] as char],
                left: [line[7] as char, line[8] as char, line[9] as char],
                right: [line[12] as char, line[13] as char, line[14] as char],
            },
        )
    }
}

/// Reads a network: a line of turns, a line that is passed over, and one
/// line for each node.
pub fn parse_network(text: &[u8]) -> (r: Option<Network>)
    ensures
        r matches Some(net) ==> {
            let lines = spec_lines(text@);
            &&& lines.len() >= 1
            &&& all_known::<Direction>(lines[0])
            &&& net.directions@ == tiles_of::<Direction>(lines[0])
            &&& net.nodes@.len() == if lines.len() >= 2 {
                lines.len() - 2
            } else {
                0
            }
            &&& forall|i: int|
                0 <= i < net.nodes@.len() ==> Node::written_as(lines[i + 2], #[trigger] net.nodes@[i])
        },
        r is None ==> {
            let lines = spec_lines(text@);
            ||| lines.len() == 0
            ||| !all_known::<Direction>(lines[0])
            ||| exists|i: int| 2 <= i < lines.len() && unreadable::<Node>(#[trigger] lines[i])
        },
{
    let lines = split_lines(text);
    if lines.len() == 0 {
        return None;
    }
    assert(spec_lines(text@)[0] == lines@[0]@);
    let directions = match parse_tiles::<Direction>(lines[0].as_slice()) {
        None => {
            return None;
        },
        Some(directions) => directions,
    };
    let mut nodes: Vec<Node> = Vec::new();
    let mut i: usize = 2;
    while i < lines.len()
        invariant
            2 <= i,
            tile_rows(lines@) == spec_lines(text@),
            i <= lines@.len() || lines@.len() < 2,
            lines@.len() >= 2 ==> nodes@.len() == i - 2,
            lines@.len() < 2 ==> nodes@.len() == 0,
            forall|k: int|
                0 <= k < nodes@.len() ==> Node::written_as(
                    spec_lines(text@)[k + 2],
                    #[trigger] nodes@[k],
                ),
        decreases lines@.len() - i,
    {
        assert(spec_lines(text@)[i as int] == lines@[i as int]@);
        match Node::from_line(lines[i].as_slice()) {
            None => {
                assert(unreadable::<Node>(spec_lines(text@)[i as int]));
                return None;
            },
            Some(node) => {
                nodes.push(node);
            },
        }
        i += 1;
    }
    Some(Network { directions, nodes })
}

} // verus!
