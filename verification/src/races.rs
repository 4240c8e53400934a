//! Boat races: hold the button for a while, then travel at the speed gained
//! for the rest of the time.

use vstd::prelude::*;
use crate::grid::tile_rows;
use crate::text::{
    has_no_number, numbers_up_to, spec_lines, spec_words, split_lines, split_words, write_numbers,
};

verus! {

/// A race that lasts `time` and whose record distance is `record`.
#[derive(Debug, Clone, Copy, PartialEq, Eq, Structural)]
pub struct Race {
    pub time: u64,
    pub record: u64,
}

impl Race {
    /// Holding the button for `button_press_time` beats the record.
    pub open spec fn spec_check_race(self, button_press_time: int) -> bool {
        (self.time - button_press_time) * button_press_time > self.record
    }

    /// How many of the press times from `from` up to but not including `to`
    /// beat the record.
    pub open spec fn spec_count_wins(self, from: int, to: int) -> int
        decreases to - from,
    {
        if to <= from {
            0
        } else {
            self.spec_count_wins(from, to - 1) + if self.spec_check_race(to - 1) {
                1int
            } else {
                0int
            }
        }
    }

    /// Whether holding the button for `button_press_time` beats the record.
    pub fn check_race(&self, button_press_time: u64) -> (r: bool)
        requires
            button_press_time <= self.time,
        ensures
            r == self.spec_check_race(button_press_time as int),
    {
        let rest: u64 = self.time - button_press_time;
        assert(rest * button_press_time <= u64::MAX * u64::MAX) by (nonlinear_arith)
            requires
                0 <= rest <= u64::MAX,
                0 <= button_press_time <= u64::MAX,
        ;
        (rest as u128) * (button_press_time as u128) > self.record as u128
    }

    /// Counts the press times from `from` up to but not including `to` that
    /// beat the record.
    pub fn count_wins(&self, from: u64, to: u64) -> (wins: u64)
        requires
            to <= self.time + 1,
        ensures
            wins == self.spec_count_wins(from as int, to as int),
    {
        let mut wins: u64 = 0;
        let mut t: u64 = from;
        while t < to
            invariant
                to <= self.time + 1,
                from <= t || to <= from,
                t <= to || to <= from,
                wins == self.spec_count_wins(from as int, t as int),
                from <= t ==> wins <= t - from,
                to <= from ==> t == from,
            decreases to - t,
        {
            if self.check_race(t) {
                wins = wins + 1;
            }
            t = t + 1;
        }
        assert(to <= from ==> self.spec_count_wins(from as int, to as int) == 0);
        wins
    }
}

/// The product of the win counts of the first `n` races, each counted over
/// the press times below the race's time.
pub open spec fn spec_win_product(races: Seq<Race>, n: int) -> int
    decreases n,
{
    if n <= 0 {
        1
    } else {
        spec_win_product(races, n - 1) * races[n - 1].spec_count_wins(0, races[n - 1].time as int)
    }
}

/// The product of the numbers of ways to win each race, or `None` if it
/// cannot be held in a `u64`.
pub fn win_product(races: &Vec<Race>) -> (r: Option<u64>)
    ensures
        r matches Some(p) ==> p == spec_win_product(races@, races@.len() as int),
        r is None ==> exists|n: int|
            0 <= n <= races@.len() && spec_win_product(races@, n) > u64::MAX,
{
    let mut product: u64 = 1;
    let mut i: usize = 0;
    while i < races.len()
        invariant
            i <= races@.len(),
            product == spec_win_product(races@, i as int),
        decreases races@.len() - i,
    {
        let wins = races[i].count_wins(0, races[i].time);
        match product.checked_mul(wins) {
            Some(p) => {
                product = p;
            },
            None => {
                assert(spec_win_product(races@, i + 1) > u64::MAX);
                return None;
            },
        }
        i += 1;
    }
    Some(product)
}

/// The words of a line but the first: the numbers that follow a title.
pub open spec fn after_title(line: Seq<u8>) -> Seq<Seq<u8>> {
    if spec_words(line).len() == 0 {
        Seq::empty()
    } else {
        spec_words(line).subrange(1, spec_words(line).len() as int)
    }
}

/// Reads the numbers that follow the title of a line.
pub fn numbers_after_title(line: &[u8]) -> (r: Option<Vec<u64>>)
    ensures
        r matches Some(numbers) ==> write_numbers(
            after_title(line@),
            numbers@.map_values(|v: u64| v as int),
            u64::MAX as int,
        ),
        r is None ==> has_no_number(after_title(line@), u64::MAX as int),
{
    let words = split_words(line);
    let mut rest: Vec<Vec<u8>> = Vec::new();
    let mut i: usize = 1;
    while i < words.len()
        invariant
            1 <= i,
            tile_rows(words@) == spec_words(line@),
            i <= words@.len() || words@.len() == 0,
            words@.len() > 0 ==> tile_rows(rest@) == spec_words(line@).subrange(1, i as int),
            words@.len() == 0 ==> rest@.len() == 0,
        decreases words@.len() - i,
    {
        let ghost before = tile_rows(rest@);
        let word = crate::text::to_vec(words[i].as_slice());
        assert(spec_words(line@)[i as int] == words@[i as int]@);
        rest.push(word);
        assert(tile_rows(rest@) =~= before.push(words@[i as int]@));
        assert(tile_rows(rest@) =~= spec_words(line@).subrange(1, i + 1));
        i += 1;
    }
    assert(tile_rows(rest@) =~= after_title(line@));
    numbers_up_to(&rest, u64::MAX)
}

impl Race {
    /// Reads a list of races from two lines: a title and the times, then a
    /// title and the records. The first time goes with the first record, and
    /// so on; times or records that have no partner are dropped.
    pub fn parse_race_list(input: &[u8]) -> (r: Option<Vec<Self>>)
        ensures
            r matches Some(races) ==> {
                let lines = spec_lines(input@);
                &&& lines.len() >= 2
                &&& exists|times: Seq<int>, records: Seq<int>|
                    {
                        &&& #[trigger] write_numbers(after_title(lines[0]), times, u64::MAX as int)
                        &&& #[trigger] write_numbers(
                            after_title(lines[1]),
                            records,
                            u64::MAX as int,
                        )
                        &&& races@.len() == if times.len() <= records.len() {
                            times.len()
                        } else {
                            records.len()
                        }
                        &&& forall|i: int|
                            0 <= i < races@.len() ==> (#[trigger] races@[i]).time == times[i]
                                && races@[i].record == records[i]
                    }
            },
            r is None ==> spec_lines(input@).len() < 2 || has_no_number(
                after_title(spec_lines(input@)[0]),
                u64::MAX as int,
            ) || has_no_number(after_title(spec_lines(input@)[1]), u64::MAX as int),
    {
        let lines = split_lines(input);
        if lines.len() < 2 {
            return None;
        }
        assert(spec_lines(input@)[0] == lines@[0]@);
        assert(spec_lines(input@)[1] == lines@[1]@);
        let times = match numbers_after_title(lines[0].as_slice()) {
            None => {
                return None;
            },
            Some(times) => times,
        };
        let records = match numbers_after_title(lines[1].as_slice()) {
            None => {
                return None;
            },
            Some(records) => records,
        };
        let count = if times.len() <= records.len() {
            times.len()
        } else {
            records.len()
        };
        let mut races: Vec<Race> = Vec::with_capacity(count);
        let mut i: usize = 0;
        while i < count
            invariant
                i <= count,
                count <= times@.len(),
                count <= records@.len(),
                races@.len() == i,
                forall|k: int|
                    0 <= k < i ==> (#[trigger] races@[k]).time == times@[k] && races@[k].record
                        == records@[k],
            decreases count - i,
        {
            races.push(Race { time: times[i], record: records[i] });
            i += 1;
        }
        proof {
            let t = times@.map_values(|v: u64| v as int);
            let d = records@.map_values(|v: u64| v as int);
            assert forall|k: int| 0 <= k < races@.len() implies (#[trigger] races@[k]).time == t[k]
                && races@[k].record == d[k] by {}
        }
        Some(races)
    }
}

} // verus!
