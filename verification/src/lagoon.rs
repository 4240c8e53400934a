//! A dig plan for a lagoon: a trench that is dug step by step across a plain
//! without bounds.

use vstd::prelude::*;
use std::collections::HashMap;
use crate::glyphs::FromLine;
use crate::counting::{lemma_digit_bound, lemma_digit_unique, opt_seq};
use crate::grid::Direction;
use crate::reach::{reachable, reaches, Graph};
use crate::text::{parse_decimal, spec_decimal, spec_words, split_words};

verus! {

broadcast use vstd::std_specs::hash::group_hash_axioms;

/// One instruction of a dig plan: a direction and a number of steps, and the
/// same again as they are hidden in the colour that follows.
#[derive(Debug, Clone, Copy, PartialEq, Eq)]
pub struct Instruction {
    pub direction: Direction,
    pub count: usize,
    pub colour_encoded: Option<(usize, Direction)>,
}

/// The direction that a letter of a dig plan stands for: up, right, down or
/// left.
pub open spec fn letter_direction(b: u8) -> Option<Direction> {
    if b == 85 {
        Some(Direction::North)
    } else if b == 82 {
        Some(Direction::East)
    } else if b == 68 {
        Some(Direction::South)
    } else if b == 76 {
        Some(Direction::West)
    } else {
        None
    }
}

/// The direction that the last digit of a colour stands for.
pub open spec fn digit_direction(b: u8) -> Option<Direction> {
    if b == 48 {
        Some(Direction::East)
    } else if b == 49 {
        Some(Direction::South)
    } else if b == 50 {
        Some(Direction::West)
    } else if b == 51 {
        Some(Direction::North)
    } else {
        None
    }
}

/// The value of a hexadecimal digit, small or capital.
pub open spec fn hex_digit(b: u8) -> Option<int> {
    if 48 <= b <= 57 {
        Some(b - 48)
    } else if 97 <= b <= 102 {
        Some(b - 87)
    } else if 65 <= b <= 70 {
        Some(b - 55)
    } else {
        None
    }
}

/// The number that the first `n` bytes write in hexadecimal digits.
pub open spec fn hex_value(s: Seq<u8>, n: int) -> Option<int>
    decreases n,
{
    if n <= 0 {
        Some(0)
    } else {
        match (hex_value(s, n - 1), hex_digit(s[n - 1])) {
            (Some(before), Some(d)) => Some(before * 16 + d),
            _ => None,
        }
    }
}

/// The word has the shape of a colour: `(#`, six bytes, `)`.
pub open spec fn colour_shape(word: Seq<u8>) -> bool {
    word.len() == 9 && word[0] == 40 && word[1] == 35 && word[8] == 41
}

/// Reads a letter of a dig plan.
pub fn direction_of_letter(b: u8) -> (r: Option<Direction>)
    ensures
        r == letter_direction(b),
{
    if b == 85 {
        Some(Direction::North)
    } else if b == 82 {
        Some(Direction::East)
    } else if b == 68 {
        Some(Direction::South)
    } else if b == 76 {
        Some(Direction::West)
    } else {
        None
    }
}

/// Reads the last digit of a colour.
pub fn direction_of_digit(b: u8) -> (r: Option<Direction>)
    ensures
        r == digit_direction(b),
{
    if b == 48 {
        Some(Direction::East)
    } else if b == 49 {
        Some(Direction::South)
    } else if b == 50 {
        Some(Direction::West)
    } else if b == 51 {
        Some(Direction::North)
    } else {
        None
    }
}

/// Reads the five hexadecimal digits that stand at the places 2 to 6 of a
/// colour.
pub fn parse_hex5(word: &[u8]) -> (r: Option<usize>)
    requires
        word@.len() >= 7,
    ensures
        r matches Some(v) ==> hex_value(word@.subrange(2, 7), 5) == Some(v as int),
        r is None ==> hex_value(word@.subrange(2, 7), 5) is None,
{
    let ghost digits = word@.subrange(2, 7);
    let mut value: usize = 0;
    let mut i: usize = 0;
    while i < 5
        invariant
            i <= 5,
            word@.len() >= 7,
            digits == word@.subrange(2, 7),
            hex_value(digits, i as int) == Some(value as int),
            value < 0x10_0000,
            i == 0 ==> value == 0,
            i == 1 ==> value < 0x10,
            i == 2 ==> value < 0x100,
            i == 3 ==> value < 0x1000,
            i == 4 ==> value < 0x1_0000,
        decreases 5 - i,
    {
        let b = word[i + 2];
        assert(digits[i as int] == b);
        let d: usize = if b >= 48 && b <= 57 {
            (b - 48) as usize
        } else if b >= 97 && b <= 102 {
            (b - 87) as usize
        } else if b >= 65 && b <= 70 {
            (b - 55) as usize
        } else {
            proof {
                assert(hex_value(digits, i + 1) is None);
                lemma_hex_fails(digits, i + 1, 5);
            }
            return None;
        };
        value = value * 16 + d;
        i += 1;
    }
    Some(value)
}

/// Once a byte fails to be a hexadecimal digit, no longer run of bytes is a
/// number.
pub proof fn lemma_hex_fails(s: Seq<u8>, k: int, n: int)
    requires
        0 <= k <= n,
        hex_value(s, k) is None,
    ensures
        hex_value(s, n) is None,
    decreases n - k,
{
    if k < n {
        lemma_hex_fails(s, k, n - 1);
    }
}

impl FromLine for Instruction {
    /// An instruction is written as a letter for its direction, its number of
    /// steps, and a colour: five hexadecimal digits for a number of steps and
    /// one digit for a direction.
    open spec fn written_as(line: Seq<u8>, value: Instruction) -> bool {
        let words = spec_words(line);
        &&& words.len() == 3
        &&& words[0].len() == 1
        &&& letter_direction(words[0][0]) == Some(value.direction)
        &&& spec_decimal(words[1]) == Some(value.count as nat)
        &&& colour_shape(words[2])
        &&& value.colour_encoded matches Some(hidden) && hex_value(words[2].subrange(2, 7), 5)
            == Some(hidden.0 as int) && digit_direction(words[2][7]) == Some(hidden.1)
    }

    fn from_line(line: &[u8]) -> (r: Option<Instruction>) {
        let words = split_words(line);
        if words.len() != 3 {
            return None;
        }
        assert(spec_words(line@)[0] == words@[0]@);
        assert(spec_words(line@)[1] == words@[1]@);
        assert(spec_words(line@)[2] == words@[2]@);
        if words[0].len() != 1 {
            return None;
        }
        let direction = match direction_of_letter(words[0][0]) {
            None => {
                return None;
            },
            Some(direction) => direction,
        };
        let count = match parse_decimal(words[1].as_slice()) {
            None => {
                return None;
            },
            Some(count) => count,
        };
        if count > usize::MAX as u64 {
            return None;
        }
        let colour = &words[2];
        if !(colour.len() == 9 && colour[0] == 40 && colour[1] == 35 && colour[8] == 41) {
            return None;
        }
        let steps = match parse_hex5(colour.as_slice()) {
            None => {
                return None;
            },
            Some(steps) => steps,
        };
        let turn = match direction_of_digit(colour[7]) {
            None => {
                return None;
            },
            Some(turn) => turn,
        };
        Some(Instruction { direction, count: count as usize, colour_encoded: Some((steps, turn)) })
    }
}

/// The instruction that is hidden in the colour of an instruction, if there
/// is one.
pub fn decode(instruction: &Instruction) -> (r: Option<Instruction>)
    ensures
        r == match instruction.colour_encoded {
            Some(hidden) => Some(
                Instruction { direction: hidden.1, count: hidden.0, colour_encoded: None },
            ),
            None => None,
        },
{
    match instruction.colour_encoded {
        Some(hidden) => Some(
            Instruction { direction: hidden.1, count: hidden.0, colour_encoded: None },
        ),
        None => None,
    }
}

/// The number under which a cell of the plain is kept: its row times two to
/// the power of 64, plus its column counted from the least column there is.
pub open spec fn cell_key(pos: (isize, isize)) -> int {
    pos.1 * 0x1_0000_0000_0000_0000 + (pos.0 + 0x8000_0000_0000_0000)
}

/// Every cell has a key of its own, and an `i128` can hold it.
pub proof fn lemma_cell_key(a: (isize, isize), b: (isize, isize))
    ensures
        i128::MIN <= cell_key(a) <= i128::MAX,
        cell_key(a) == cell_key(b) ==> a == b,
{
    assert(isize::MIN >= -0x8000_0000_0000_0000 && isize::MAX <= 0x7FFF_FFFF_FFFF_FFFF);
    if cell_key(a) == cell_key(b) {
        crate::counting::lemma_digit_unique(
            0x1_0000_0000_0000_0000,
            a.1 + 0x8000_0000_0000_0000,
            a.0 + 0x8000_0000_0000_0000,
            b.1 + 0x8000_0000_0000_0000,
            b.0 + 0x8000_0000_0000_0000,
        );
    }
}

/// The key of a cell.
pub fn key_of(pos: (isize, isize)) -> (k: i128)
    ensures
        k == cell_key(pos),
{
    proof {
        lemma_cell_key(pos, pos);
    }
    (pos.1 as i128) * 0x1_0000_0000_0000_0000 + (pos.0 as i128 + 0x8000_0000_0000_0000)
}

pub open spec fn min_isize(a: isize, b: isize) -> isize {
    if a <= b {
        a
    } else {
        b
    }
}

pub open spec fn max_isize(a: isize, b: isize) -> isize {
    if a >= b {
        a
    } else {
        b
    }
}

/// The state of a dig: how deep each cell has been dug, the corners of the
/// box around all cells dug so far and the origin, and where the digger
/// stands.
pub struct Digging {
    pub points: Map<i128, u8>,
    pub min_pos: (isize, isize),
    pub max_pos: (isize, isize),
    pub pos: (isize, isize),
}

/// How deep the cell has been dug; zero for a cell that has not.
pub open spec fn depth_at(points: Map<i128, u8>, pos: (isize, isize)) -> u8 {
    if points.contains_key(cell_key(pos) as i128) {
        points[cell_key(pos) as i128]
    } else {
        0
    }
}

/// The state after one step in the direction: the digger moves and digs the
/// cell that it comes to one unit deeper. There is no such state if the step
/// leads off the plain or the cell is 255 units deep already.
pub open spec fn dig_step(s: Digging, d: Direction) -> Option<Digging> {
    match d.spec_walk_pos_signed(s.pos, (isize::MIN, isize::MIN), (isize::MAX, isize::MAX)) {
        None => None,
        Some(pos) => if depth_at(s.points, pos) == 255 {
            None
        } else {
            Some(
                Digging {
                    points: s.points.insert(
                        cell_key(pos) as i128,
                        (depth_at(s.points, pos) + 1) as u8,
                    ),
                    min_pos: (min_isize(s.min_pos.0, pos.0), min_isize(s.min_pos.1, pos.1)),
                    max_pos: (max_isize(s.max_pos.0, pos.0), max_isize(s.max_pos.1, pos.1)),
                    pos,
                },
            )
        },
    }
}

/// The state after `count` steps in the direction.
pub open spec fn dig_run(s: Digging, d: Direction, count: nat) -> Option<Digging>
    decreases count,
{
    if count == 0 {
        Some(s)
    } else {
        match dig_run(s, d, (count - 1) as nat) {
            None => None,
            Some(before) => dig_step(before, d),
        }
    }
}

/// The state after the first `n` instructions.
pub open spec fn dig_all(s: Digging, instructions: Seq<Instruction>, n: int) -> Option<Digging>
    decreases n,
{
    if n <= 0 {
        Some(s)
    } else {
        match dig_all(s, instructions, n - 1) {
            None => None,
            Some(before) => dig_run(
                before,
                instructions[n - 1].direction,
                instructions[n - 1].count as nat,
            ),
        }
    }
}

/// A run that has failed stays failed however long it is.
pub proof fn lemma_run_fails(s: Digging, d: Direction, k: nat, n: nat)
    requires
        k <= n,
        dig_run(s, d, k) is None,
    ensures
        dig_run(s, d, n) is None,
    decreases n - k,
{
    if k < n {
        lemma_run_fails(s, d, k, (n - 1) as nat);
    }
}

/// A plan that has failed stays failed however long it is.
pub proof fn lemma_plan_fails(s: Digging, instructions: Seq<Instruction>, k: int, n: int)
    requires
        0 <= k <= n,
        dig_all(s, instructions, k) is None,
    ensures
        dig_all(s, instructions, n) is None,
    decreases n - k,
{
    if k < n {
        lemma_plan_fails(s, instructions, k, n - 1);
    }
}

/// The lagoon: the depth of every cell that has been dug, and the corners of
/// the box around them and the origin.
pub struct Lagoon {
    pub points: HashMap<i128, u8>,
    pub min_pos: (isize, isize),
    pub max_pos: (isize, isize),
}

impl Lagoon {
    /// The lagoon as the state of a dig whose digger stands on `pos`.
    pub open spec fn digging(&self, pos: (isize, isize)) -> Digging {
        Digging { points: self.points@, min_pos: self.min_pos, max_pos: self.max_pos, pos }
    }

    /// A plain on which nothing has been dug.
    pub fn new() -> (l: Lagoon)
        ensures
            l.points@ == Map::<i128, u8>::empty(),
            l.min_pos == (0isize, 0isize),
            l.max_pos == (0isize, 0isize),
    {
        Lagoon { points: HashMap::new(), min_pos: (0, 0), max_pos: (0, 0) }
    }

    /// Whether the cell has been dug.
    pub fn is_dug(&self, pos: (isize, isize)) -> (r: bool)
        ensures
            r == self.points@.contains_key(cell_key(pos) as i128),
    {
        let key = key_of(pos);
        self.points.get(&key).is_some()
    }

    /// Follows a dig plan from the cell `pos`: for each instruction the
    /// digger takes as many steps as it says in its direction and digs every
    /// cell that it comes to one unit deeper. Returns where the digger ends
    /// up, or `None`, with the lagoon in some state, if the plan leads off
    /// the plain or digs a cell deeper than 255 units.
    pub fn execute_instructions(&mut self, instructions: &[Instruction], pos: (isize, isize)) -> (r:
        Option<(isize, isize)>)
        ensures
            match dig_all(old(self).digging(pos), instructions@, instructions@.len() as int) {
                Some(end) => r == Some(end.pos) && final(self).digging(end.pos) == end,
                None => r is None,
            },
    {
        let ghost start = self.digging(pos);
        let mut at = pos;
        let mut i: usize = 0;
        while i < instructions.len()
            invariant
                i <= instructions@.len(),
                start == old(self).digging(pos),
                dig_all(start, instructions@, i as int) == Some(self.digging(at)),
            decreases instructions@.len() - i,
        {
            let instruction = &instructions[i];
            let ghost before = self.digging(at);
            let mut k: usize = 0;
            while k < instruction.count
                invariant
                    k <= instruction.count,
                    i < instructions@.len(),
                    start == old(self).digging(pos),
                    *instruction == instructions@[i as int],
                    dig_all(start, instructions@, i as int) == Some(before),
                    dig_run(before, instruction.direction, k as nat) == Some(self.digging(at)),
                decreases instruction.count - k,
            {
                let ghost here = self.digging(at);
                let next = match instruction.direction.walk_pos_signed(
                    at,
                    (isize::MIN, isize::MIN),
                    (isize::MAX, isize::MAX),
                ) {
                    None => {
                        proof {
                            assert(dig_step(here, instruction.direction) is None);
                            lemma_run_fails(
                                before,
                                instruction.direction,
                                (k + 1) as nat,
                                instruction.count as nat,
                            );
                            lemma_plan_fails(
                                start,
                                instructions@,
                                i + 1,
                                instructions@.len() as int,
                            );
                        }
                        return None;
                    },
                    Some(next) => next,
                };
                let key = key_of(next);
                let depth: u8 = match self.points.get(&key) {
                    Some(depth) => *depth,
                    None => 0,
                };
                if depth == 255 {
                    proof {
                        assert(dig_step(here, instruction.direction) is None);
                        lemma_run_fails(
                            before,
                            instruction.direction,
                            (k + 1) as nat,
                            instruction.count as nat,
                        );
                        lemma_plan_fails(start, instructions@, i + 1, instructions@.len() as int);
                    }
                    return None;
                }
                self.points.insert(key, depth + 1);
                self.max_pos = (
                    if self.max_pos.0 >= next.0 {
                        self.max_pos.0
                    } else {
                        next.0
                    },
                    if self.max_pos.1 >= next.1 {
                        self.max_pos.1
                    } else {
                        next.1
                    },
                );
                self.min_pos = (
                    if self.min_pos.0 <= next.0 {
                        self.min_pos.0
                    } else {
                        next.0
                    },
                    if self.min_pos.1 <= next.1 {
                        self.min_pos.1
                    } else {
                        next.1
                    },
                );
                at = next;
                assert(dig_step(here, instruction.direction) == Some(self.digging(at)));
                k += 1;
            }
            i += 1;
        }
        Some(at)
    }

    /// The number of cells that have been dug.
    pub fn count_points(&self) -> (n: usize)
        ensures
            n == self.points@.len(),
    {
        self.points.len()
    }
}

/// A cell of the plain.
#[derive(Debug, Clone, Copy, PartialEq, Eq, Structural)]
pub struct Cell {
    pub x: isize,
    pub y: isize,
}

/// The cells of the box around a lagoon as a graph: an edge leads from a
/// cell to each of its four neighbours in the box that has not been dug.
pub struct Basin<'a> {
    pub lagoon: &'a Lagoon,
    pub width: usize,
    pub height: usize,
    pub count: usize,
}

/// The neighbour of `n` in the direction, as a sequence of at most one cell:
/// it counts if it lies in the box and has not been dug.
pub open spec fn open_neighbour(l: Lagoon, n: Cell, d: Direction) -> Seq<Cell> {
    match d.spec_walk_pos_signed((n.x, n.y), l.min_pos, l.max_pos) {
        Some(p) => if l.points@.contains_key(cell_key(p) as i128) {
            Seq::empty()
        } else {
            seq![Cell { x: p.0, y: p.1 }]
        },
        None => Seq::empty(),
    }
}

impl<'a> Basin<'a> {
    pub open spec fn wf(&self) -> bool {
        &&& self.lagoon.min_pos.0 <= self.lagoon.max_pos.0
        &&& self.lagoon.min_pos.1 <= self.lagoon.max_pos.1
        &&& self.width == self.lagoon.max_pos.0 - self.lagoon.min_pos.0 + 1
        &&& self.height == self.lagoon.max_pos.1 - self.lagoon.min_pos.1 + 1
        &&& self.count == self.width * self.height
    }

    /// The neighbour of `n` in the direction, if it lies in the box and has
    /// not been dug.
    fn open_step(&self, n: &Cell, d: Direction) -> (r: Option<Cell>)
        ensures
            opt_seq(r) == open_neighbour(*self.lagoon, *n, d),
    {
        match d.walk_pos_signed((n.x, n.y), self.lagoon.min_pos, self.lagoon.max_pos) {
            None => None,
            Some(p) => {
                if self.lagoon.is_dug(p) {
                    None
                } else {
                    Some(Cell { x: p.0, y: p.1 })
                }
            },
        }
    }
}

impl<'a> Graph for Basin<'a> {
    type Node = Cell;

    open spec fn size(&self) -> nat {
        self.count as nat
    }

    open spec fn valid(&self, n: Cell) -> bool {
        &&& self.wf()
        &&& self.lagoon.min_pos.0 <= n.x <= self.lagoon.max_pos.0
        &&& self.lagoon.min_pos.1 <= n.y <= self.lagoon.max_pos.1
    }

    open spec fn slot(&self, n: Cell) -> int {
        (n.y - self.lagoon.min_pos.1) * self.width + (n.x - self.lagoon.min_pos.0)
    }

    open spec fn edges(&self, n: Cell) -> Seq<Cell> {
        open_neighbour(*self.lagoon, n, Direction::North) + open_neighbour(
            *self.lagoon,
            n,
            Direction::East,
        ) + open_neighbour(*self.lagoon, n, Direction::South) + open_neighbour(
            *self.lagoon,
            n,
            Direction::West,
        )
    }

    proof fn lemma_slots(&self, a: Cell, b: Cell) {
        let w = self.width as int;
        let h = self.height as int;
        let min = self.lagoon.min_pos;
        lemma_digit_bound(w, a.y - min.1, h, a.x - min.0);
        lemma_digit_bound(w, b.y - min.1, h, b.x - min.0);
        assert(h * w == w * h) by (nonlinear_arith);
        if self.slot(a) == self.slot(b) {
            lemma_digit_unique(w, a.y - min.1, a.x - min.0, b.y - min.1, b.x - min.0);
        }
    }

    proof fn lemma_edges_valid(&self, n: Cell, k: int) {
        let l = *self.lagoon;
        let north = open_neighbour(l, n, Direction::North);
        let east = open_neighbour(l, n, Direction::East);
        let south = open_neighbour(l, n, Direction::South);
        let west = open_neighbour(l, n, Direction::West);
        let e = self.edges(n)[k];
        assert(north.contains(e) || east.contains(e) || south.contains(e) || west.contains(e)) by {
            if k < north.len() {
                assert(north[k] == e);
            } else if k < north.len() + east.len() {
                assert(east[k - north.len()] == e);
            } else if k < north.len() + east.len() + south.len() {
                assert(south[k - north.len() - east.len()] == e);
            } else {
                assert(west[k - north.len() - east.len() - south.len()] == e);
            }
        }
    }

    fn node_count(&self) -> (r: usize) {
        self.count
    }

    fn slot_of(&self, n: &Cell) -> (r: usize) {
        proof {
            self.lemma_slots(*n, *n);
            lemma_digit_bound(
                self.width as int,
                n.y - self.lagoon.min_pos.1,
                self.height as int,
                n.x - self.lagoon.min_pos.0,
            );
            assert(self.height * self.width == self.width * self.height) by (nonlinear_arith);
        }
        let row: usize = (n.y as i128 - self.lagoon.min_pos.1 as i128) as usize;
        let column: usize = (n.x as i128 - self.lagoon.min_pos.0 as i128) as usize;
        row * self.width + column
    }

    fn neighbours(&self, n: &Cell) -> (r: Vec<Cell>) {
        let mut r: Vec<Cell> = Vec::with_capacity(4);
        if let Some(p) = self.open_step(n, Direction::North) {
            r.push(p);
        }
        if let Some(p) = self.open_step(n, Direction::East) {
            r.push(p);
        }
        if let Some(p) = self.open_step(n, Direction::South) {
            r.push(p);
        }
        if let Some(p) = self.open_step(n, Direction::West) {
            r.push(p);
        }
        assert(r@ =~= self.edges(*n));
        r
    }
}

/// The graph of the cells of the box around a lagoon.
pub open spec fn basin_of(l: &Lagoon) -> Basin<'_> {
    Basin {
        lagoon: l,
        width: (l.max_pos.0 - l.min_pos.0 + 1) as usize,
        height: (l.max_pos.1 - l.min_pos.1 + 1) as usize,
        count: ((l.max_pos.0 - l.min_pos.0 + 1) * (l.max_pos.1 - l.min_pos.1 + 1)) as usize,
    }
}

/// The cell lies in the box around the lagoon.
pub open spec fn in_box(l: Lagoon, pos: (isize, isize)) -> bool {
    l.min_pos.0 <= pos.0 <= l.max_pos.0 && l.min_pos.1 <= pos.1 <= l.max_pos.1
}

/// The cell has not been dug, but a cell to its west and a cell to its east
/// in its row of the box have.
pub open spec fn enclosed(l: Lagoon, pos: (isize, isize)) -> bool {
    &&& in_box(l, pos)
    &&& !l.points@.contains_key(cell_key(pos) as i128)
    &&& exists|x: isize|
        l.min_pos.0 <= x < pos.0 && l.points@.contains_key(#[trigger] cell_key((x, pos.1)) as i128)
    &&& exists|x: isize|
        pos.0 < x <= l.max_pos.0 && l.points@.contains_key(#[trigger] cell_key((x, pos.1)) as i128)
}

/// The cell comes before the other in the order of reading.
pub open spec fn reads_before(a: (isize, isize), b: (isize, isize)) -> bool {
    a.1 < b.1 || (a.1 == b.1 && a.0 < b.0)
}

/// The cell from which the lagoon is filled: the first enclosed cell in the
/// order of reading, or the origin if there is none.
pub open spec fn is_start(l: Lagoon, start: (isize, isize)) -> bool {
    ||| enclosed(l, start) && forall|p: (isize, isize)|
        reads_before(p, start) ==> !#[trigger] enclosed(l, p)
    ||| start == (0isize, 0isize) && forall|p: (isize, isize)| !#[trigger] enclosed(l, p)
}

/// The cell is filled when the lagoon is filled from `start`: it lies in the
/// box and can be reached from `start` over cells that have not been dug.
pub open spec fn filled(l: Lagoon, start: (isize, isize), pos: (isize, isize)) -> bool {
    in_box(l, pos) && reaches(
        &basin_of(&l),
        seq![Cell { x: start.0, y: start.1 }],
        Cell { x: pos.0, y: pos.1 },
    )
}

/// The lagoon can be filled: its start cell lies in the box around it, and
/// the box is no wider and no higher than a `u32` can say and has no more
/// cells than a `usize` can number.
pub open spec fn fillable(l: Lagoon) -> bool {
    &&& exists|start: (isize, isize)| #[trigger] is_start(l, start) && in_box(l, start)
    &&& l.max_pos.0 - l.min_pos.0 + 1 <= 0xFFFF_FFFF
    &&& l.max_pos.1 - l.min_pos.1 + 1 <= 0xFFFF_FFFF
    &&& (l.max_pos.0 - l.min_pos.0 + 1) * (l.max_pos.1 - l.min_pos.1 + 1) <= usize::MAX
}

/// A lagoon has one start cell only.
pub proof fn lemma_start_unique(l: Lagoon, a: (isize, isize), b: (isize, isize))
    requires
        is_start(l, a),
        is_start(l, b),
    ensures
        a == b,
{
    if enclosed(l, a) && enclosed(l, b) {
        if reads_before(a, b) {
            assert(!enclosed(l, a));
        }
        if reads_before(b, a) {
            assert(!enclosed(l, b));
        }
    }
}

impl Lagoon {
    /// Whether a cell of row `y` between the columns `from` and `to`, both
    /// included, has been dug.
    fn any_dug(&self, y: isize, from: isize, to: isize) -> (r: bool)
        ensures
            r == exists|x: isize|
                from <= x <= to && self.points@.contains_key(#[trigger] cell_key((x, y)) as i128),
    {
        if from > to {
            return false;
        }
        let mut x: isize = from;
        loop
            invariant
                from <= x <= to,
                forall|k: isize|
                    from <= k < x ==> !self.points@.contains_key(
                        #[trigger] cell_key((k, y)) as i128,
                    ),
            ensures
                forall|k: isize|
                    from <= k <= to ==> !self.points@.contains_key(
                        #[trigger] cell_key((k, y)) as i128,
                    ),
            decreases to - x,
        {
            if self.is_dug((x, y)) {
                return true;
            }
            if x == to {
                break ;
            }
            x += 1;
        }
        false
    }

    /// Whether the cell is enclosed in its row.
    fn is_enclosed(&self, pos: (isize, isize)) -> (r: bool)
        requires
            in_box(*self, pos),
        ensures
            r == enclosed(*self, pos),
    {
        if self.is_dug(pos) {
            return false;
        }
        let west = pos.0 > self.min_pos.0 && self.any_dug(pos.1, self.min_pos.0, pos.0 - 1);
        if !west {
            return false;
        }
        pos.0 < self.max_pos.0 && self.any_dug(pos.1, pos.0 + 1, self.max_pos.0)
    }

    /// Finds the cell from which the lagoon is filled.
    pub fn find_start(&self) -> (start: (isize, isize))
        ensures
            is_start(*self, start),
    {
        if self.min_pos.0 > self.max_pos.0 || self.min_pos.1 > self.max_pos.1 {
            return (0, 0);
        }
        let mut y: isize = self.min_pos.1;
        loop
            invariant
                self.min_pos.0 <= self.max_pos.0,
                self.min_pos.1 <= y <= self.max_pos.1,
                forall|p: (isize, isize)| p.1 < y ==> !#[trigger] enclosed(*self, p),
            ensures
                forall|p: (isize, isize)| !#[trigger] enclosed(*self, p),
            decreases self.max_pos.1 - y,
        {
            let mut x: isize = self.min_pos.0;
            loop
                invariant
                    self.min_pos.0 <= x <= self.max_pos.0,
                    self.min_pos.1 <= y <= self.max_pos.1,
                    forall|p: (isize, isize)| reads_before(p, (x, y)) ==> !#[trigger] enclosed(*self, p),
                ensures
                    forall|p: (isize, isize)| p.1 <= y ==> !#[trigger] enclosed(*self, p),
                decreases self.max_pos.0 - x,
            {
                if self.is_enclosed((x, y)) {
                    return (x, y);
                }
                if x == self.max_pos.0 {
                    break ;
                }
                x += 1;
            }
            if y == self.max_pos.1 {
                break ;
            }
            y += 1;
        }
        (0, 0)
    }

    /// Fills the lagoon: every cell that can be reached from the start cell
    /// over cells that have not been dug becomes a cell of the lagoon that is
    /// dug zero units deep. Returns `false`, and leaves the lagoon as it is,
    /// if the start cell is not in the box around the lagoon or the box has
    /// too many cells to number them.
    pub fn fill_surrounded(&mut self) -> (done: bool)
        ensures
            final(self).min_pos == old(self).min_pos,
            final(self).max_pos == old(self).max_pos,
            !done ==> final(self).points@ == old(self).points@,
            done <==> fillable(*old(self)),
            done ==> exists|start: (isize, isize)|
                {
                    &&& #[trigger] is_start(*old(self), start)
                    &&& fills(*old(self), start, final(self).points@)
                },
    {
        let start = self.find_start();
        proof {
            assert forall|other: (isize, isize)| #[trigger]
                is_start(*self, other) implies other == start by {
                lemma_start_unique(*self, start, other);
            }
        }
        if !(self.min_pos.0 <= start.0 && start.0 <= self.max_pos.0 && self.min_pos.1 <= start.1
            && start.1 <= self.max_pos.1) {
            return false;
        }
        let wide: i128 = self.max_pos.0 as i128 - self.min_pos.0 as i128 + 1;
        let high: i128 = self.max_pos.1 as i128 - self.min_pos.1 as i128 + 1;
        if wide > 0xFFFF_FFFF || high > 0xFFFF_FFFF {
            return false;
        }
        assert(wide * high <= 0xFFFF_FFFF * 0xFFFF_FFFF) by (nonlinear_arith)
            requires
                0 < wide <= 0xFFFF_FFFF,
                0 < high <= 0xFFFF_FFFF,
        ;
        let cells: i128 = wide * high;
        if cells > usize::MAX as i128 {
            return false;
        }
        let marks = {
            let basin = Basin {
                lagoon: &*self,
                width: wide as usize,
                height: high as usize,
                count: cells as usize,
            };
            assert(basin == basin_of(&*self));
            let mut starts: Vec<Cell> = Vec::new();
            starts.push(Cell { x: start.0, y: start.1 });
            assert(starts@ =~= seq![Cell { x: start.0, y: start.1 }]);
            reachable(&basin, &starts)
        };
        let ghost before = *self;
        let ghost basin = basin_of(&before);
        let width: usize = wide as usize;
        let min = self.min_pos;
        let max = self.max_pos;
        let mut y: isize = min.1;
        loop
            invariant_except_break
                fills_up_to(before, start, self.points@, (min.0, y)),
            invariant
                self.min_pos == before.min_pos,
                self.max_pos == before.max_pos,
                min == before.min_pos,
                max == before.max_pos,
                before == *old(self),
                basin == basin_of(&before),
                basin.wf(),
                width == basin.width,
                in_box(before, start),
                marks@.len() == basin.size(),
                forall|n: Cell|
                    basin.valid(n) ==> (#[trigger] marks@[basin.slot(n)] <==> reaches(
                        &basin,
                        seq![Cell { x: start.0, y: start.1 }],
                        n,
                    )),
                min.1 <= y <= max.1,
            ensures
                fills(before, start, self.points@),
            decreases max.1 - y,
        {
            let mut x: isize = min.0;
            loop
                invariant_except_break
                    fills_up_to(before, start, self.points@, (x, y)),
                invariant
                    self.min_pos == before.min_pos,
                    self.max_pos == before.max_pos,
                    min == before.min_pos,
                    max == before.max_pos,
                    basin == basin_of(&before),
                    basin.wf(),
                    width == basin.width,
                    in_box(before, start),
                    marks@.len() == basin.size(),
                    forall|n: Cell|
                        basin.valid(n) ==> (#[trigger] marks@[basin.slot(n)] <==> reaches(
                            &basin,
                            seq![Cell { x: start.0, y: start.1 }],
                            n,
                        )),
                    min.1 <= y <= max.1,
                    min.0 <= x <= max.0,
                ensures
                    y < max.1 ==> fills_up_to(before, start, self.points@, (min.0, (y + 1) as isize)),
                    y == max.1 ==> fills(before, start, self.points@),
                decreases max.0 - x,
            {
                let cell = Cell { x, y };
                proof {
                    basin.lemma_slots(cell, cell);
                    lemma_digit_bound(
                        basin.width as int,
                        y - min.1,
                        basin.height as int,
                        x - min.0,
                    );
                    assert(basin.height * basin.width == basin.width * basin.height)
                        by (nonlinear_arith);
                }
                let row: usize = (y as i128 - min.1 as i128) as usize;
                let column: usize = (x as i128 - min.0 as i128) as usize;
                let ghost points = self.points@;
                if marks[row * width + column] {
                    let key = key_of((x, y));
                    self.points.insert(key, 0);
                }
                proof {
                    assert(marks@[basin.slot(cell)] == filled(before, start, (x, y)));
                    assert(self.points@ == after_turn(before, start, points, (x, y)));
                    if x == max.0 && y == max.1 {
                        lemma_fill_last(before, start, points, (x, y));
                    } else {
                        lemma_fill_step(before, start, points, (x, y));
                    }
                }
                if x == max.0 {
                    break ;
                }
                x += 1;
            }
            if y == max.1 {
                break ;
            }
            y += 1;
        }
        true
    }
}

/// The number is the key of a cell that is filled when the lagoon is filled
/// from `start`, and that comes before `next` in the order of reading.
pub open spec fn key_filled_before(
    l: Lagoon,
    start: (isize, isize),
    next: (isize, isize),
    k: i128,
) -> bool {
    exists|p: (isize, isize)|
        #[trigger] filled(l, start, p) && reads_before(p, next) && cell_key(p) == k
}

/// The number is the key of a cell that is filled when the lagoon is filled
/// from `start`.
pub open spec fn key_filled(l: Lagoon, start: (isize, isize), k: i128) -> bool {
    exists|p: (isize, isize)| #[trigger] filled(l, start, p) && cell_key(p) == k
}

/// At the key `k` the depths are as deep as the lagoon was, or zero units
/// deep where `zero` holds.
pub open spec fn depth_ok(l: Lagoon, points: Map<i128, u8>, k: i128, zero: bool) -> bool {
    if zero {
        points.contains_key(k) && points[k] == 0
    } else {
        points.contains_key(k) == l.points@.contains_key(k) && (points.contains_key(k) ==> points[k]
            == l.points@[k])
    }
}

/// The depths are those of the lagoon when it is filled from `start` as far
/// as the cells before `next` in the order of reading go: a cell before
/// `next` that is filled is dug zero units deep, and nothing else has
/// changed.
pub open spec fn fills_up_to(
    l: Lagoon,
    start: (isize, isize),
    points: Map<i128, u8>,
    next: (isize, isize),
) -> bool {
    forall|k: i128| #[trigger] depth_ok(l, points, k, key_filled_before(l, start, next, k))
}

/// The depths are those of the lagoon when it is filled from `start`: a cell
/// that is filled is dug zero units deep, and nothing else has changed.
pub open spec fn fills(l: Lagoon, start: (isize, isize), points: Map<i128, u8>) -> bool {
    forall|k: i128| #[trigger] depth_ok(l, points, k, key_filled(l, start, k))
}

/// The cell that comes after `at` in the order of reading the box.
pub open spec fn next_in_box(l: Lagoon, at: (isize, isize)) -> (isize, isize) {
    if at.0 < l.max_pos.0 {
        ((at.0 + 1) as isize, at.1)
    } else {
        (l.min_pos.0, (at.1 + 1) as isize)
    }
}

/// The depths once the cell `at` has had its turn.
pub open spec fn after_turn(
    l: Lagoon,
    start: (isize, isize),
    before: Map<i128, u8>,
    at: (isize, isize),
) -> Map<i128, u8> {
    if filled(l, start, at) {
        before.insert(cell_key(at) as i128, 0)
    } else {
        before
    }
}

/// One cell of the fill: a lagoon that is filled as far as the cells before
/// `at` go is, once `at` has had its turn, filled as far as the cells before
/// the next cell go.
pub proof fn lemma_fill_step(
    l: Lagoon,
    start: (isize, isize),
    before: Map<i128, u8>,
    at: (isize, isize),
)
    requires
        in_box(l, at),
        at.0 < l.max_pos.0 || at.1 < l.max_pos.1,
        fills_up_to(l, start, before, at),
    ensures
        fills_up_to(l, start, after_turn(l, start, before, at), next_in_box(l, at)),
{
    lemma_cell_key(at, at);
    let next = next_in_box(l, at);
    let after = after_turn(l, start, before, at);
    assert forall|k: i128| #[trigger]
        depth_ok(l, after, k, key_filled_before(l, start, next, k)) by {
        assert(depth_ok(l, before, k, key_filled_before(l, start, at, k)));
        if key_filled_before(l, start, at, k) {
            let p = choose|p: (isize, isize)|
                #[trigger] filled(l, start, p) && reads_before(p, at) && cell_key(p) == k;
            assert(filled(l, start, p) && reads_before(p, next) && cell_key(p) == k);
        } else if filled(l, start, at) && cell_key(at) == k {
            assert(filled(l, start, at) && reads_before(at, next) && cell_key(at) == k);
        } else if key_filled_before(l, start, next, k) {
            let p = choose|p: (isize, isize)|
                #[trigger] filled(l, start, p) && reads_before(p, next) && cell_key(p) == k;
            assert(p != at);
            assert(filled(l, start, p) && reads_before(p, at) && cell_key(p) == k);
        }
    }
}

/// The last cell of the fill: a lagoon that is filled as far as the cells
/// before the last cell of the box go is, once that cell has had its turn,
/// filled.
pub proof fn lemma_fill_last(
    l: Lagoon,
    start: (isize, isize),
    before: Map<i128, u8>,
    at: (isize, isize),
)
    requires
        in_box(l, at),
        at == l.max_pos,
        fills_up_to(l, start, before, at),
    ensures
        fills(l, start, after_turn(l, start, before, at)),
{
    lemma_cell_key(at, at);
    let after = after_turn(l, start, before, at);
    assert forall|k: i128| #[trigger] depth_ok(l, after, k, key_filled(l, start, k)) by {
        assert(depth_ok(l, before, k, key_filled_before(l, start, at, k)));
        if key_filled_before(l, start, at, k) {
            let p = choose|p: (isize, isize)|
                #[trigger] filled(l, start, p) && reads_before(p, at) && cell_key(p) == k;
            assert(filled(l, start, p) && cell_key(p) == k);
        } else if filled(l, start, at) && cell_key(at) == k {
        } else if key_filled(l, start, k) {
            let p = choose|p: (isize, isize)| #[trigger] filled(l, start, p) && cell_key(p) == k;
            assert(p != at);
            assert(filled(l, start, p) && reads_before(p, at) && cell_key(p) == k);
        }
    }
}

} // verus!
