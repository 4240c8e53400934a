//! Counting the ways a damaged record of springs can be completed.
//!
//! A record lists the state of each spring, some of them unknown, and the
//! sizes of the runs of damaged springs in order. The count is taken by a
//! scan from left to right that remembers how many groups are finished and
//! how long the current run of damaged springs is.

use vstd::prelude::*;
use crate::glyphs::{all_known, parse_tiles, tiles_of, FromByte, FromLine};
use crate::text::{small_numbers, spec_fields, spec_words, split_fields, split_words, write_numbers};
use std::collections::HashMap;

verus! {

broadcast use vstd::std_specs::hash::group_hash_axioms;

#[derive(Debug, Clone, Copy, PartialEq, Eq, Structural)]
pub enum SpringState {
    Operational,
    Damaged,
    Unknown,
}

/// The character a spring state is read from, if it is one of the three known
/// ones.
pub open spec fn spec_spring_of(c: char) -> Option<SpringState> {
    if c == '.' {
        Some(SpringState::Operational)
    } else if c == '#' {
        Some(SpringState::Damaged)
    } else if c == '?' {
        Some(SpringState::Unknown)
    } else {
        None
    }
}

impl SpringState {
    /// Reads a spring state from its character.
    pub fn parse(c: char) -> (r: Option<SpringState>)
        ensures
            r == spec_spring_of(c),
    {
        if c == '.' {
            Some(SpringState::Operational)
        } else if c == '#' {
            Some(SpringState::Damaged)
        } else if c == '?' {
            Some(SpringState::Unknown)
        } else {
            None
        }
    }
}

/// The number of ways to complete the springs from `pos` on, when
/// `group_id` groups are finished before `pos` and the `run` springs just
/// before `pos` are damaged and belong to the group `group_id`.
///
/// At the end of the record the scan succeeds if all groups are finished and
/// no run is open, or if the open run completes the last group. A spring that
/// may be operational closes an open run, which must then have the size of
/// its group. A spring that may be damaged extends the run, which must stay
/// within the size of its group.
pub open spec fn arrangements(
    springs: Seq<SpringState>,
    groups: Seq<u8>,
    pos: int,
    group_id: int,
    run: int,
) -> nat
    decreases springs.len() - pos,
{
    if pos < 0 {
        0
    } else if pos >= springs.len() {
        if (group_id == groups.len() && run == 0) || (group_id == groups.len() - 1 && run
            == groups[group_id]) {
            1
        } else {
            0
        }
    } else {
        let as_operational: nat = if springs[pos] != SpringState::Damaged {
            if run == 0 {
                arrangements(springs, groups, pos + 1, group_id, 0)
            } else if groups[group_id] == run {
                arrangements(springs, groups, pos + 1, group_id + 1, 0)
            } else {
                0
            }
        } else {
            0
        };
        let as_damaged: nat = if springs[pos] != SpringState::Operational {
            if group_id < groups.len() && run < groups[group_id] {
                arrangements(springs, groups, pos + 1, group_id, run + 1)
            } else {
                0
            }
        } else {
            0
        };
        as_operational + as_damaged
    }
}

/// Five copies of `s` with `sep` between them.
pub open spec fn five_joined<A>(s: Seq<A>, sep: Seq<A>) -> Seq<A> {
    s + sep + s + sep + s + sep + s + sep + s
}

/// The number under which the scan state `(pos, group_id, run)` is cached.
pub open spec fn cache_key(groups: int, pos: int, group_id: int, run: int) -> int {
    (pos * (groups + 1) + group_id) * 256 + run
}

proof fn lemma_key_bound(len: int, groups: int, pos: int, group_id: int, run: int)
    by (nonlinear_arith)
    requires
        0 <= pos <= len,
        0 <= group_id <= groups,
        0 <= run < 256,
    ensures
        0 <= pos * (groups + 1) <= pos * (groups + 1) + group_id < (len + 1) * (groups + 1),
        0 <= (pos * (groups + 1) + group_id) * 256 <= cache_key(groups, pos, group_id, run),
        cache_key(groups, pos, group_id, run) < (len + 1) * (groups + 1) * 256,
        groups + 1 <= (len + 1) * (groups + 1) <= (len + 1) * (groups + 1) * 256,
{
}

proof fn lemma_key_unique(m: int, a1: int, b1: int, a2: int, b2: int)
    by (nonlinear_arith)
    requires
        0 <= b1 < m,
        0 <= b2 < m,
        0 <= a1,
        0 <= a2,
        a1 * m + b1 == a2 * m + b2,
    ensures
        a1 == a2,
        b1 == b2,
{
}

/// A damaged record: the springs as far as they are known, and the sizes of
/// the groups of damaged springs.
#[derive(Debug, Clone)]
pub struct Record {
    pub springs: Vec<SpringState>,
    pub groups: Vec<u8>,
}

impl Record {
    /// Every scan state of the record has a cache key within `u64`.
    pub open spec fn cacheable(&self) -> bool {
        (self.springs@.len() + 1) * (self.groups@.len() + 1) * 256 <= u64::MAX
    }

    /// Every cached number is the count of the scan state it is cached
    /// under.
    pub open spec fn cache_ok(&self, cache: Map<u64, u64>) -> bool {
        forall|pos: int, group_id: int, run: int|
            0 <= pos <= self.springs@.len() && 0 <= group_id <= self.groups@.len() && 0 <= run < 256
                && cache.contains_key(
                #[trigger] cache_key(self.groups@.len() as int, pos, group_id, run) as u64,
            ) ==> cache[cache_key(self.groups@.len() as int, pos, group_id, run) as u64]
                == arrangements(self.springs@, self.groups@, pos, group_id, run)
    }

    /// Replaces the record by five copies of itself: the springs joined by an
    /// unknown spring, the groups one after the other.
    pub fn unfold(&mut self) -> (r: &mut Self)
        requires
            old(self).springs@.len() * 5 + 4 <= usize::MAX,
            old(self).groups@.len() * 5 <= usize::MAX,
        ensures
            r.springs@ == five_joined(old(self).springs@, seq![SpringState::Unknown]),
            r.groups@ == five_joined(old(self).groups@, Seq::<u8>::empty()),
            *final(self) == *final(r),
    {
        let ghost s0 = self.springs@;
        let ghost g0 = self.groups@;
        let n = self.springs.len();
        let m = self.groups.len();
        let mut springs: Vec<SpringState> = Vec::new();
        let mut groups: Vec<u8> = Vec::new();
        let ghost sep = seq![SpringState::Unknown];
        let mut copy: usize = 0;
        while copy < 5
            invariant
                copy <= 5,
                n == s0.len(),
                m == g0.len(),
                self.springs@ == s0,
                self.groups@ == g0,
                sep == seq![SpringState::Unknown],
                copy == 0 ==> springs@ == Seq::<SpringState>::empty() && groups@ == Seq::<
                    u8,
                >::empty(),
                copy == 1 ==> springs@ == s0 && groups@ == g0,
                copy == 2 ==> springs@ == s0 + sep + s0 && groups@ == g0 + g0,
                copy == 3 ==> springs@ == s0 + sep + s0 + sep + s0 && groups@ == g0 + g0 + g0,
                copy == 4 ==> springs@ == s0 + sep + s0 + sep + s0 + sep + s0 && groups@ == g0 + g0
                    + g0 + g0,
                copy == 5 ==> springs@ == five_joined(s0, sep) && groups@ == g0 + g0 + g0 + g0 + g0,
            decreases 5 - copy,
        {
            let ghost sb = springs@;
            let ghost gb = groups@;
            if copy > 0 {
                springs.push(SpringState::Unknown);
            }
            let ghost sm = springs@;
            assert(copy > 0 ==> sm =~= sb + sep);
            let mut i: usize = 0;
            while i < n
                invariant
                    i <= n,
                    n == s0.len(),
                    self.springs@ == s0,
                    springs@ == sm + s0.subrange(0, i as int),
                decreases n - i,
            {
                springs.push(self.springs[i]);
                assert(springs@ =~= sm + s0.subrange(0, i + 1));
                i += 1;
            }
            assert(s0.subrange(0, n as int) =~= s0);
            let mut j: usize = 0;
            while j < m
                invariant
                    j <= m,
                    m == g0.len(),
                    self.groups@ == g0,
                    groups@ == gb + g0.subrange(0, j as int),
                decreases m - j,
            {
                groups.push(self.groups[j]);
                assert(groups@ =~= gb + g0.subrange(0, j + 1));
                j += 1;
            }
            assert(g0.subrange(0, m as int) =~= g0);
            assert(copy == 0 ==> springs@ =~= s0 && groups@ =~= g0);
            copy += 1;
        }
        assert(groups@ =~= five_joined(g0, Seq::<u8>::empty()));
        self.springs = springs;
        self.groups = groups;
        self
    }

    /// Counts the ways to complete the springs from `pos` on, when
    /// `group_id` groups are finished and the current run of damaged springs
    /// is `continuous_damaged` long. Counts that were taken before are looked
    /// up in the cache, if there is one, and new ones are added to it.
    pub fn find_possible_solutions(
        &self,
        pos: usize,
        group_id: usize,
        continuous_damaged: u8,
        cache: &mut Option<HashMap<u64, u64>>,
    ) -> (count: u64)
        requires
            pos <= self.springs@.len(),
            group_id <= self.groups@.len(),
            continuous_damaged > 0 ==> group_id < self.groups@.len(),
            arrangements(
                self.springs@,
                self.groups@,
                pos as int,
                group_id as int,
                continuous_damaged as int,
            ) <= u64::MAX,
            *old(cache) matches Some(known) ==> self.cacheable() && self.cache_ok(known@),
        ensures
            count == arrangements(
                self.springs@,
                self.groups@,
                pos as int,
                group_id as int,
                continuous_damaged as int,
            ),
            *old(cache) is Some <==> *final(cache) is Some,
            *final(cache) matches Some(known) ==> self.cache_ok(known@),
    {
        match self.try_find_possible_solutions(pos, group_id, continuous_damaged, cache) {
            Some(count) => count,
            None => 0,
        }
    }

    /// Counts the ways to complete the springs as `find_possible_solutions`
    /// does, but returns `None` if the count cannot be held in a `u64`.
    pub fn try_find_possible_solutions(
        &self,
        pos: usize,
        group_id: usize,
        continuous_damaged: u8,
        cache: &mut Option<HashMap<u64, u64>>,
    ) -> (count: Option<u64>)
        requires
            pos <= self.springs@.len(),
            group_id <= self.groups@.len(),
            continuous_damaged > 0 ==> group_id < self.groups@.len(),
            *old(cache) matches Some(known) ==> self.cacheable() && self.cache_ok(known@),
        ensures
            count == if arrangements(
                self.springs@,
                self.groups@,
                pos as int,
                group_id as int,
                continuous_damaged as int,
            ) <= u64::MAX {
                Some(
                    arrangements(
                        self.springs@,
                        self.groups@,
                        pos as int,
                        group_id as int,
                        continuous_damaged as int,
                    ) as u64,
                )
            } else {
                None
            },
            *old(cache) is Some <==> *final(cache) is Some,
            *final(cache) matches Some(known) ==> self.cache_ok(known@),
        decreases self.springs@.len() - pos,
    {
        let ghost len = self.springs@.len() as int;
        let ghost total = self.groups@.len() as int;
        let group_count = self.groups.len();
        let mut key: u64 = 0;
        if let Some(known) = cache {
            proof {
                lemma_key_bound(len, total, pos as int, group_id as int, continuous_damaged as int);
            }
            key = (pos as u64 * (group_count as u64 + 1) + group_id as u64) * 256
                + continuous_damaged as u64;
            if let Some(cached) = known.get(&key) {
                return Some(*cached);
            }
        }
        if pos >= self.springs.len() {
            return if group_id == group_count && continuous_damaged == 0 || group_id + 1
                == group_count && continuous_damaged == self.groups[group_id] {
                Some(1)
            } else {
                Some(0)
            };
        }
        let spring = self.springs[pos];
        let as_operational: u64 = if spring != SpringState::Damaged {
            if continuous_damaged == 0 {
                match self.try_find_possible_solutions(pos + 1, group_id, 0, cache) {
                    None => {
                        return None;
                    },
                    Some(n) => n,
                }
            } else if self.groups[group_id] == continuous_damaged {
                match self.try_find_possible_solutions(pos + 1, group_id + 1, 0, cache) {
                    None => {
                        return None;
                    },
                    Some(n) => n,
                }
            } else {
                0
            }
        } else {
            0
        };
        let as_damaged: u64 = if spring != SpringState::Operational {
            if group_id < group_count && continuous_damaged < self.groups[group_id] {
                match self.try_find_possible_solutions(
                    pos + 1,
                    group_id,
                    continuous_damaged + 1,
                    cache,
                ) {
                    None => {
                        return None;
                    },
                    Some(n) => n,
                }
            } else {
                0
            }
        } else {
            0
        };
        let res = match as_operational.checked_add(as_damaged) {
            None => {
                return None;
            },
            Some(res) => res,
        };
        if let Some(known) = cache {
            let ghost before = known@;
            known.insert(key, res);
            proof {
                let after = known@;
                assert forall|p: int, g: int, r: int|
                    0 <= p <= len && 0 <= g <= total && 0 <= r < 256 && after.contains_key(
                        #[trigger] cache_key(total, p, g, r) as u64,
                    ) implies after[cache_key(total, p, g, r) as u64] == arrangements(
                    self.springs@,
                    self.groups@,
                    p,
                    g,
                    r,
                ) by {
                    lemma_key_bound(len, total, p, g, r);
                    lemma_key_bound(
                        len,
                        total,
                        pos as int,
                        group_id as int,
                        continuous_damaged as int,
                    );
                    if cache_key(total, p, g, r) == key {
                        lemma_key_unique(
                            256,
                            p * (total + 1) + g,
                            r,
                            pos * (total + 1) + group_id,
                            continuous_damaged as int,
                        );
                        lemma_key_unique(total + 1, p, g, pos as int, group_id as int);
                    } else {
                        assert(before.contains_key(cache_key(total, p, g, r) as u64));
                    }
                }
            }
        }
        Some(res)
    }

    /// The number of ways to complete the whole record, or `None` if it
    /// cannot be held in a `u64` or the record is too long for the cache.
    pub fn count_arrangements(&self) -> (r: Option<u64>)
        ensures
            r matches Some(n) ==> n == arrangements(self.springs@, self.groups@, 0, 0, 0),
            r is None <==> self.springs@.len() >= 0xFFFF_FFFF || self.groups@.len() >= 0xFF_FFFF
                || arrangements(self.springs@, self.groups@, 0, 0, 0) > u64::MAX,
    {
        let positions = self.springs.len();
        let groups = self.groups.len();
        if positions >= 0xFFFF_FFFF || groups >= 0xFF_FFFF {
            return None;
        }
        assert((positions + 1) * (groups + 1) * 256 <= u64::MAX) by (nonlinear_arith)
            requires
                positions < 0xFFFF_FFFF,
                groups < 0xFF_FFFF,
        ;
        let mut cache: Option<HashMap<u64, u64>> = Some(HashMap::new());
        self.try_find_possible_solutions(0, 0, 0, &mut cache)
    }
}

impl FromByte for SpringState {
    open spec fn of_byte(b: u8) -> Option<SpringState> {
        spec_spring_of(b as char)
    }

    fn from_byte(b: u8) -> (r: Option<SpringState>) {
        SpringState::parse(b as char)
    }
}

impl FromLine for Record {
    /// A record is written as its springs, one character each, and the sizes
    /// of its groups with commas between them.
    open spec fn written_as(line: Seq<u8>, value: Record) -> bool {
        let words = spec_words(line);
        &&& words.len() == 2
        &&& all_known::<SpringState>(words[0])
        &&& value.springs@ == tiles_of::<SpringState>(words[0])
        &&& write_numbers(
            spec_fields(words[1], 44),
            value.groups@.map_values(|v: u8| v as int),
            255,
        )
    }

    fn from_line(line: &[u8]) -> (r: Option<Record>) {
        let words = split_words(line);
        if words.len() != 2 {
            return None;
        }
        assert(spec_words(line@)[0] == words@[0]@);
        assert(spec_words(line@)[1] == words@[1]@);
        let springs = match parse_tiles::<SpringState>(words[0].as_slice()) {
            None => {
                return None;
            },
            Some(springs) => springs,
        };
        let fields = split_fields(words[1].as_slice(), 44);
        let groups = match small_numbers(&fields) {
            None => {
                return None;
            },
            Some(groups) => groups,
        };
        Some(Record { springs, groups })
    }
}

} // verus!
