//! Translating seed numbers through a chain of range maps.

use vstd::prelude::*;
use crate::glyphs::{unreadable, FromLine};
use crate::grid::tile_rows;
use crate::text::{
    block_rows, has_no_number, medium_numbers, same_text, spec_blocks, spec_lines, spec_words,
    split_blocks, split_words, write_numbers,
};

verus! {

/// A run of `length` source numbers starting at `source_start`, mapped in
/// order onto the numbers starting at `destination_start`.
#[derive(Debug, Clone, Copy, PartialEq, Eq, Structural)]
pub struct Range {
    pub source_start: u32,
    pub destination_start: u32,
    pub length: u32,
}

impl Range {
    pub open spec fn spec_contains_source(self, value: u32) -> bool {
        self.source_start <= value < self.source_start + self.length
    }

    pub open spec fn spec_translate(self, value: u32) -> int {
        value - self.source_start + self.destination_start
    }

    /// The last number the range maps to can be held in a `u32`.
    pub open spec fn wf(self) -> bool {
        self.length > 0 ==> self.destination_start + self.length - 1 <= u32::MAX
    }

    /// Whether `value` is one of the source numbers of the range.
    pub fn contains_source(&self, value: u32) -> (r: bool)
        ensures
            r == self.spec_contains_source(value),
    {
        value >= self.source_start && value - self.source_start < self.length
    }

    /// The number that a source number of the range is mapped to.
    pub fn translate(&self, value: u32) -> (r: u32)
        requires
            self.wf(),
            self.spec_contains_source(value),
        ensures
            r == self.spec_translate(value),
    {
        value - self.source_start + self.destination_start
    }
}

/// What a list of ranges maps `value` to: the translation by the first range
/// that contains it, or `value` itself if none does.
pub open spec fn spec_translate_value(ranges: Seq<Range>, value: u32) -> int
    decreases ranges.len(),
{
    if ranges.len() == 0 {
        value as int
    } else if ranges[0].spec_contains_source(value) {
        ranges[0].spec_translate(value)
    } else {
        spec_translate_value(ranges.drop_first(), value)
    }
}

/// One map of the almanac: a list of ranges, tried in order.
#[derive(Debug, Clone)]
pub struct RangeMap(pub Vec<Range>);

impl RangeMap {
    pub open spec fn wf(&self) -> bool {
        forall|i: int| 0 <= i < self.0@.len() ==> (#[trigger] self.0@[i]).wf()
    }

    /// Maps a number through the first range that contains it; a number that
    /// no range contains is mapped to itself.
    pub fn translate_value(&self, value: u32) -> (r: u32)
        requires
            self.wf(),
        ensures
            r == spec_translate_value(self.0@, value),
    {
        let mut i: usize = 0;
        assert(self.0@.subrange(0, self.0@.len() as int) =~= self.0@);
        while i < self.0.len()
            invariant
                i <= self.0@.len(),
                self.wf(),
                spec_translate_value(self.0@, value) == spec_translate_value(
                    self.0@.subrange(i as int, self.0@.len() as int),
                    value,
                ),
            decreases self.0@.len() - i,
        {
            let ghost rest = self.0@.subrange(i as int, self.0@.len() as int);
            assert(rest[0] == self.0@[i as int]);
            assert(rest.drop_first() =~= self.0@.subrange(i + 1, self.0@.len() as int));
            if self.0[i].contains_source(value) {
                return self.0[i].translate(value);
            }
            i += 1;
        }
        value
    }
}

/// The seeds to plant and the seven maps that lead from a seed to its
/// location.
#[derive(Debug, Clone)]
pub struct Almanac {
    pub seeds: Vec<u32>,
    pub seed_to_soil: RangeMap,
    pub soil_to_fertilizer: RangeMap,
    pub fertilizer_to_water: RangeMap,
    pub water_to_light: RangeMap,
    pub light_to_temperature: RangeMap,
    pub temperature_to_humidity: RangeMap,
    pub humidity_to_location: RangeMap,
}

/// The smallest location of the numbers `start`, `start + 1`, ... below
/// `start + count`, or `u32::MAX` if `count` is zero.
pub open spec fn spec_lowest_from(a: Almanac, start: int, count: int) -> int
    decreases count,
{
    if count <= 0 {
        u32::MAX as int
    } else {
        let rest = spec_lowest_from(a, start, count - 1);
        let here = a.spec_seed_to_destination((start + count - 1) as u32);
        if here < rest {
            here
        } else {
            rest
        }
    }
}

/// The smallest location of the first `n` seeds, or `u32::MAX` if `n` is
/// zero.
pub open spec fn spec_lowest_of(a: Almanac, n: int) -> int
    decreases n,
{
    if n <= 0 {
        u32::MAX as int
    } else {
        let rest = spec_lowest_of(a, n - 1);
        let here = a.spec_seed_to_destination(a.seeds@[n - 1]);
        if here < rest {
            here
        } else {
            rest
        }
    }
}

impl Almanac {
    pub open spec fn wf(&self) -> bool {
        &&& self.seed_to_soil.wf()
        &&& self.soil_to_fertilizer.wf()
        &&& self.fertilizer_to_water.wf()
        &&& self.water_to_light.wf()
        &&& self.light_to_temperature.wf()
        &&& self.temperature_to_humidity.wf()
        &&& self.humidity_to_location.wf()
    }

    /// The location of a seed: the seed mapped through all seven maps in
    /// turn.
    pub open spec fn spec_seed_to_destination(&self, seed: u32) -> int {
        let soil = spec_translate_value(self.seed_to_soil.0@, seed);
        let fertilizer = spec_translate_value(self.soil_to_fertilizer.0@, soil as u32);
        let water = spec_translate_value(self.fertilizer_to_water.0@, fertilizer as u32);
        let light = spec_translate_value(self.water_to_light.0@, water as u32);
        let temperature = spec_translate_value(self.light_to_temperature.0@, light as u32);
        let humidity = spec_translate_value(self.temperature_to_humidity.0@, temperature as u32);
        spec_translate_value(self.humidity_to_location.0@, humidity as u32)
    }

    /// The location of a seed.
    pub fn seed_to_destination(&self, seed: u32) -> (r: u32)
        requires
            self.wf(),
        ensures
            r == self.spec_seed_to_destination(seed),
    {
        self.humidity_to_location.translate_value(
            self.temperature_to_humidity.translate_value(
                self.light_to_temperature.translate_value(
                    self.water_to_light.translate_value(
                        self.fertilizer_to_water.translate_value(
                            self.soil_to_fertilizer.translate_value(
                                self.seed_to_soil.translate_value(seed),
                            ),
                        ),
                    ),
                ),
            ),
        )
    }

    /// The smallest location of any of the seeds.
    pub fn lowest_location(&self) -> (r: u32)
        requires
            self.wf(),
        ensures
            r == spec_lowest_of(*self, self.seeds@.len() as int),
    {
        let mut lowest: u32 = u32::MAX;
        let mut i: usize = 0;
        while i < self.seeds.len()
            invariant
                i <= self.seeds@.len(),
                self.wf(),
                lowest == spec_lowest_of(*self, i as int),
            decreases self.seeds@.len() - i,
        {
            let here = self.seed_to_destination(self.seeds[i]);
            if here < lowest {
                lowest = here;
            }
            i += 1;
        }
        lowest
    }

    /// The smallest location of the `count` seeds that start at `start`.
    pub fn lowest_in_range(&self, start: u32, count: u32) -> (r: u32)
        requires
            self.wf(),
            start + count <= u32::MAX + 1,
        ensures
            r == spec_lowest_from(*self, start as int, count as int),
    {
        let mut lowest: u32 = u32::MAX;
        let mut k: u32 = 0;
        while k < count
            invariant
                k <= count,
                self.wf(),
                start + count <= u32::MAX + 1,
                lowest == spec_lowest_from(*self, start as int, k as int),
            decreases count - k,
        {
            let here = self.seed_to_destination(start + k);
            if here < lowest {
                lowest = here;
            }
            k += 1;
        }
        lowest
    }
}

impl FromLine for Range {
    /// A range is written as three numbers: where its destinations start,
    /// where its sources start, and its length.
    open spec fn written_as(line: Seq<u8>, value: Range) -> bool {
        write_numbers(
            spec_words(line),
            seq![
                value.destination_start as int,
                value.source_start as int,
                value.length as int,
            ],
            0xFFFF_FFFF,
        )
    }

    fn from_line(line: &[u8]) -> (r: Option<Range>) {
        let words = split_words(line);
        let numbers = match medium_numbers(&words) {
            None => {
                assert forall|value: Range| !Self::written_as(line@, value) by {
                    let j = choose|j: int|
                        0 <= j < spec_words(line@).len() && match crate::text::spec_decimal(
                            #[trigger] spec_words(line@)[j],
                        ) {
                            Some(v) => v > 0xFFFF_FFFF,
                            None => true,
                        };
                }
                return None;
            },
            Some(numbers) => numbers,
        };
        if numbers.len() != 3 {
            return None;
        }
        let r = Range {
            destination_start: numbers[0],
            source_start: numbers[1],
            length: numbers[2],
        };
        proof {
            let mapped = numbers@.map_values(|v: u32| v as int);
            assert(mapped =~= seq![
                r.destination_start as int,
                r.source_start as int,
                r.length as int,
            ]);
        }
        Some(r)
    }
}

/// The range `a` does not come after the range `b`: ranges are in order of
/// their source starts, then their destination starts, then their lengths.
pub open spec fn in_order(a: Range, b: Range) -> bool {
    a.source_start < b.source_start || (a.source_start == b.source_start && (a.destination_start
        < b.destination_start || (a.destination_start == b.destination_start && a.length
        <= b.length)))
}

/// Every range comes no later than the ranges behind it.
pub open spec fn sorted(ranges: Seq<Range>) -> bool {
    forall|i: int, j: int| 0 <= i < j < ranges.len() ==> in_order(ranges[i], ranges[j])
}

/// Whether the range `a` does not come after the range `b`.
pub fn comes_first(a: &Range, b: &Range) -> (r: bool)
    ensures
        r == in_order(*a, *b),
{
    a.source_start < b.source_start || (a.source_start == b.source_start && (a.destination_start
        < b.destination_start || (a.destination_start == b.destination_start && a.length
        <= b.length)))
}

/// Puts the ranges in order.
pub fn sort_ranges(ranges: &mut Vec<Range>)
    ensures
        sorted(final(ranges)@),
        final(ranges)@.to_multiset() == old(ranges)@.to_multiset(),
{
    let n = ranges.len();
    let mut i: usize = 1;
    while i < n
        invariant
            1 <= i,
            n == ranges@.len(),
            i <= n || n == 0,
            ranges@.to_multiset() == old(ranges)@.to_multiset(),
            forall|a: int, b: int| 0 <= a < b < i && b < n ==> in_order(ranges@[a], ranges@[b]),
        decreases n - i,
    {
        let mut k: usize = i;
        while k > 0 && !comes_first(&ranges[k - 1], &ranges[k])
            invariant
                k <= i < n,
                n == ranges@.len(),
                ranges@.to_multiset() == old(ranges)@.to_multiset(),
                forall|a: int, b: int|
                    0 <= a < b <= i && a != k && b != k ==> in_order(ranges@[a], ranges@[b]),
                forall|b: int| k < b <= i ==> in_order(ranges@[k as int], ranges@[b]),
            decreases k,
        {
            let ghost before = ranges@;
            let low = ranges[k];
            let high = ranges[k - 1];
            ranges[k - 1] = low;
            ranges[k] = high;
            proof {
                lemma_swap_ranges(before, k - 1, k as int);
                assert(ranges@ =~= before.update(k - 1, before[k as int]).update(
                    k as int,
                    before[k - 1],
                ));
            }
            k -= 1;
        }
        assert forall|a: int, b: int| 0 <= a < b < i + 1 && b < n implies in_order(
            ranges@[a],
            ranges@[b],
        ) by {
            if b == k && a < k - 1 {
                assert(in_order(ranges@[a], ranges@[k - 1]));
                assert(in_order(ranges@[k - 1], ranges@[k as int]));
            }
        }
        i += 1;
    }
}

/// Exchanging two ranges keeps the multiset.
pub proof fn lemma_swap_ranges(s: Seq<Range>, i: int, j: int)
    requires
        0 <= i < s.len(),
        0 <= j < s.len(),
        i != j,
    ensures
        s.update(i, s[j]).update(j, s[i]).to_multiset() == s.to_multiset(),
{
    broadcast use vstd::seq_lib::group_to_multiset_ensures;

    let s1 = s.update(i, s[j]);
    let s2 = s1.update(j, s[i]);
    assert(s1.remove(i) =~= s.remove(i));
    assert(s2.remove(j) =~= s1.remove(j));
    assert(s.contains(s[i])) by {
        assert(s[i] == s[i]);
    }
    assert(s.contains(s[j])) by {
        assert(s[j] == s[j]);
    }
    assert(s1.contains(s[j])) by {
        assert(s1[i] == s[j]);
    }
    assert(s2.contains(s[i])) by {
        assert(s2[j] == s[i]);
    }
    assert(s1.to_multiset() =~= s.to_multiset().remove(s[i]).insert(s[j]));
    assert(s2.to_multiset() =~= s1.to_multiset().remove(s[j]).insert(s[i]));
    assert(s2.to_multiset() =~= s.to_multiset());
}

/// The ranges are, put in order, those that the lines of the block after its
/// first write.
pub open spec fn map_written_as(block: Seq<Seq<u8>>, ranges: Seq<Range>) -> bool {
    &&& sorted(ranges)
    &&& exists|written: Seq<Range>|
        #![trigger written.to_multiset()]
        {
            &&& written.len() == block.len() - 1
            &&& forall|j: int|
                0 <= j < written.len() ==> Range::written_as(block[j + 1], #[trigger] written[j])
            &&& written.to_multiset() == ranges.to_multiset()
        }
}

/// Some line of the block after the first writes no range.
pub open spec fn has_bad_range(block: Seq<Seq<u8>>) -> bool {
    exists|j: int| 1 <= j < block.len() && unreadable::<Range>(#[trigger] block[j])
}

/// Reads the ranges of a block: one from each line after the first, put in
/// order.
pub fn parse_range_map(block: &Vec<Vec<u8>>) -> (r: Option<RangeMap>)
    ensures
        r matches Some(map) ==> map_written_as(tile_rows(block@), map.0@),
        r is None <==> block@.len() == 0 || has_bad_range(tile_rows(block@)),
{
    let mut ranges: Vec<Range> = Vec::new();
    let mut j: usize = 1;
    while j < block.len()
        invariant
            1 <= j,
            j <= block@.len() || block@.len() == 0,
            block@.len() > 0 ==> ranges@.len() == j - 1,
            block@.len() == 0 ==> ranges@.len() == 0,
            forall|k: int|
                0 <= k < ranges@.len() ==> Range::written_as(
                    tile_rows(block@)[k + 1],
                    #[trigger] ranges@[k],
                ),
        decreases block@.len() - j,
    {
        assert(tile_rows(block@)[j as int] == block@[j as int]@);
        match Range::from_line(block[j].as_slice()) {
            None => {
                assert(unreadable::<Range>(tile_rows(block@)[j as int]));
                return None;
            },
            Some(range) => {
                ranges.push(range);
            },
        }
        j += 1;
    }
    if block.len() == 0 {
        return None;
    }
    let ghost written = ranges@;
    proof {
        if has_bad_range(tile_rows(block@)) {
            let j = choose|j: int|
                1 <= j < tile_rows(block@).len() && unreadable::<Range>(
                    #[trigger] tile_rows(block@)[j],
                );
            assert(Range::written_as(tile_rows(block@)[j], written[j - 1]));
        }
    }
    sort_ranges(&mut ranges);
    assert(written.to_multiset() == ranges@.to_multiset());
    Some(RangeMap(ranges))
}

/// The titles of the seven maps, in the order in which a seed passes through
/// them.
pub open spec fn map_title(k: int) -> Seq<u8> {
    if k == 0 {
        seq![115u8, 101u8, 101u8, 100u8, 45u8, 116u8, 111u8, 45u8, 115u8, 111u8, 105u8, 108u8, 32u8, 109u8, 97u8, 112u8, 58u8]
    } else if k == 1 {
        seq![115u8, 111u8, 105u8, 108u8, 45u8, 116u8, 111u8, 45u8, 102u8, 101u8, 114u8, 116u8, 105u8, 108u8, 105u8, 122u8, 101u8, 114u8, 32u8, 109u8, 97u8, 112u8, 58u8]
    } else if k == 2 {
        seq![102u8, 101u8, 114u8, 116u8, 105u8, 108u8, 105u8, 122u8, 101u8, 114u8, 45u8, 116u8, 111u8, 45u8, 119u8, 97u8, 116u8, 101u8, 114u8, 32u8, 109u8, 97u8, 112u8, 58u8]
    } else if k == 3 {
        seq![119u8, 97u8, 116u8, 101u8, 114u8, 45u8, 116u8, 111u8, 45u8, 108u8, 105u8, 103u8, 104u8, 116u8, 32u8, 109u8, 97u8, 112u8, 58u8]
    } else if k == 4 {
        seq![108u8, 105u8, 103u8, 104u8, 116u8, 45u8, 116u8, 111u8, 45u8, 116u8, 101u8, 109u8, 112u8, 101u8, 114u8, 97u8, 116u8, 117u8, 114u8, 101u8, 32u8, 109u8, 97u8, 112u8, 58u8]
    } else if k == 5 {
        seq![116u8, 101u8, 109u8, 112u8, 101u8, 114u8, 97u8, 116u8, 117u8, 114u8, 101u8, 45u8, 116u8, 111u8, 45u8, 104u8, 117u8, 109u8, 105u8, 100u8, 105u8, 116u8, 121u8, 32u8, 109u8, 97u8, 112u8, 58u8]
    } else {
        seq![104u8, 117u8, 109u8, 105u8, 100u8, 105u8, 116u8, 121u8, 45u8, 116u8, 111u8, 45u8, 108u8, 111u8, 99u8, 97u8, 116u8, 105u8, 111u8, 110u8, 32u8, 109u8, 97u8, 112u8, 58u8]
    }
}

/// Whether the line is the title of map number `k`.
pub fn has_title(line: &[u8], k: usize) -> (r: bool)
    requires
        k < 7,
    ensures
        r == (line@ == map_title(k as int)),
{
    if k == 0 {
        let t: [u8; 17] = [115, 101, 101, 100, 45, 116, 111, 45, 115, 111, 105, 108, 32, 109, 97, 112, 58];
        assert(t@ =~= map_title(0));
        same_text(line, t.as_slice())
    } else if k == 1 {
        let t: [u8; 23] = [115, 111, 105, 108, 45, 116, 111, 45, 102, 101, 114, 116, 105, 108, 105, 122, 101, 114, 32, 109, 97, 112, 58];
        assert(t@ =~= map_title(1));
        same_text(line, t.as_slice())
    } else if k == 2 {
        let t: [u8; 24] = [102, 101, 114, 116, 105, 108, 105, 122, 101, 114, 45, 116, 111, 45, 119, 97, 116, 101, 114, 32, 109, 97, 112, 58];
        assert(t@ =~= map_title(2));
        same_text(line, t.as_slice())
    } else if k == 3 {
        let t: [u8; 19] = [119, 97, 116, 101, 114, 45, 116, 111, 45, 108, 105, 103, 104, 116, 32, 109, 97, 112, 58];
        assert(t@ =~= map_title(3));
        same_text(line, t.as_slice())
    } else if k == 4 {
        let t: [u8; 25] = [108, 105, 103, 104, 116, 45, 116, 111, 45, 116, 101, 109, 112, 101, 114, 97, 116, 117, 114, 101, 32, 109, 97, 112, 58];
        assert(t@ =~= map_title(4));
        same_text(line, t.as_slice())
    } else if k == 5 {
        let t: [u8; 28] = [116, 101, 109, 112, 101, 114, 97, 116, 117, 114, 101, 45, 116, 111, 45, 104, 117, 109, 105, 100, 105, 116, 121, 32, 109, 97, 112, 58];
        assert(t@ =~= map_title(5));
        same_text(line, t.as_slice())
    } else {
        let t: [u8; 25] = [104, 117, 109, 105, 100, 105, 116, 121, 45, 116, 111, 45, 108, 111, 99, 97, 116, 105, 111, 110, 32, 109, 97, 112, 58];
        assert(t@ =~= map_title(6));
        same_text(line, t.as_slice())
    }
}

/// The last block whose first line is the title, if there is one.
pub open spec fn titled_block(blocks: Seq<Seq<Seq<u8>>>, title: Seq<u8>, n: int) -> Option<int>
    decreases n,
{
    if n <= 0 {
        None
    } else if blocks[n - 1].len() > 0 && blocks[n - 1][0] == title {
        Some(n - 1)
    } else {
        titled_block(blocks, title, n - 1)
    }
}

/// Finds the last block whose first line is the title.
pub fn find_block(blocks: &Vec<Vec<Vec<u8>>>, k: usize) -> (r: Option<usize>)
    requires
        k < 7,
    ensures
        match r {
            Some(b) => titled_block(
                block_rows(blocks@),
                map_title(k as int),
                blocks@.len() as int,
            ) == Some(b as int) && b < blocks@.len() && blocks@[b as int]@.len() > 0,
            None => titled_block(block_rows(blocks@), map_title(k as int), blocks@.len() as int)
                is None,
        },
{
    let mut found: Option<usize> = None;
    let mut b: usize = 0;
    while b < blocks.len()
        invariant
            b <= blocks@.len(),
            k < 7,
            match found {
                Some(f) => titled_block(block_rows(blocks@), map_title(k as int), b as int)
                    == Some(f as int) && f < b && blocks@[f as int]@.len() > 0,
                None => titled_block(block_rows(blocks@), map_title(k as int), b as int) is None,
            },
        decreases blocks@.len() - b,
    {
        assert(block_rows(blocks@)[b as int] == tile_rows(blocks@[b as int]@));
        if blocks[b].len() > 0 {
            assert(tile_rows(blocks@[b as int]@)[0] == blocks@[b as int]@[0]@);
            if has_title(blocks[b][0].as_slice(), k) {
                found = Some(b);
            }
        }
        b += 1;
    }
    found
}

/// The almanac is what the blocks of a text write: the seeds after the title
/// of the first line, and each map the ranges of the last block that bears
/// its title.
pub open spec fn almanac_written_as(blocks: Seq<Seq<Seq<u8>>>, a: Almanac) -> bool {
    &&& blocks.len() > 0
    &&& blocks[0].len() > 0
    &&& write_numbers(
        crate::races::after_title(blocks[0][0]),
        a.seeds@.map_values(|v: u32| v as int),
        0xFFFF_FFFF,
    )
    &&& map_in(blocks, 0, a.seed_to_soil)
    &&& map_in(blocks, 1, a.soil_to_fertilizer)
    &&& map_in(blocks, 2, a.fertilizer_to_water)
    &&& map_in(blocks, 3, a.water_to_light)
    &&& map_in(blocks, 4, a.light_to_temperature)
    &&& map_in(blocks, 5, a.temperature_to_humidity)
    &&& map_in(blocks, 6, a.humidity_to_location)
}

/// The map is what the last block with title number `k` writes.
pub open spec fn map_in(blocks: Seq<Seq<Seq<u8>>>, k: int, map: RangeMap) -> bool {
    titled_block(blocks, map_title(k), blocks.len() as int) matches Some(b) && map_written_as(
        blocks[b],
        map.0@,
    )
}

/// No block bears the title number `k`, or the last that does has a line
/// that writes no range.
pub open spec fn map_missing(blocks: Seq<Seq<Seq<u8>>>, k: int) -> bool {
    match titled_block(blocks, map_title(k), blocks.len() as int) {
        None => true,
        Some(b) => has_bad_range(blocks[b]),
    }
}

/// Reads the map with title number `k` from the blocks of a text.
pub fn parse_titled_map(blocks: &Vec<Vec<Vec<u8>>>, k: usize) -> (r: Option<RangeMap>)
    requires
        k < 7,
    ensures
        r matches Some(map) ==> map_in(block_rows(blocks@), k as int, map),
        r is None <==> map_missing(block_rows(blocks@), k as int),
{
    let b = match find_block(blocks, k) {
        None => {
            return None;
        },
        Some(b) => b,
    };
    assert(block_rows(blocks@)[b as int] == tile_rows(blocks@[b as int]@));
    parse_range_map(&blocks[b])
}

/// The blocks write no almanac: there is no first line, a seed is no number
/// that a `u32` can hold, or one of the seven maps is missing.
pub open spec fn no_almanac(blocks: Seq<Seq<Seq<u8>>>) -> bool {
    ||| blocks.len() == 0
    ||| blocks[0].len() == 0
    ||| has_no_number(crate::races::after_title(blocks[0][0]), 0xFFFF_FFFF)
    ||| exists|k: int| 0 <= k < 7 && #[trigger] map_missing(blocks, k)
}

/// Reads an almanac.
pub fn parse_almanac(text: &[u8]) -> (r: Option<Almanac>)
    ensures
        r matches Some(a) ==> almanac_written_as(spec_blocks(spec_lines(text@)), a),
        r is None <==> no_almanac(spec_blocks(spec_lines(text@))),
{
    let blocks = split_blocks(text);
    if blocks.len() == 0 || blocks[0].len() == 0 {
        return None;
    }
    assert(block_rows(blocks@)[0] == tile_rows(blocks@[0]@));
    assert(tile_rows(blocks@[0]@)[0] == blocks@[0]@[0]@);
    let ghost all = spec_blocks(spec_lines(text@));
    let ghost seeds_text = crate::races::after_title(all[0][0]);
    let wide = match crate::races::numbers_after_title(blocks[0][0].as_slice()) {
        None => {
            proof {
                let j = choose|j: int|
                    0 <= j < seeds_text.len() && match crate::text::spec_decimal(
                        #[trigger] seeds_text[j],
                    ) {
                        Some(v) => v > u64::MAX as int,
                        None => true,
                    };
                assert(has_no_number(seeds_text, 0xFFFF_FFFF));
            }
            return None;
        },
        Some(wide) => wide,
    };
    let mut seeds: Vec<u32> = Vec::with_capacity(wide.len());
    let mut i: usize = 0;
    while i < wide.len()
        invariant
            i <= wide@.len(),
            seeds@.len() == i,
            all == spec_blocks(spec_lines(text@)),
            seeds_text == crate::races::after_title(all[0][0]),
            write_numbers(seeds_text, wide@.map_values(|v: u64| v as int), u64::MAX as int),
            forall|k: int| 0 <= k < i ==> seeds@[k] == wide@[k],
        decreases wide@.len() - i,
    {
        if wide[i] > 0xFFFF_FFFF {
            proof {
                let b = wide@.map_values(|v: u64| v as int);
                assert(crate::text::spec_decimal(seeds_text[i as int]) == Some(b[i as int] as nat));
                assert(has_no_number(seeds_text, 0xFFFF_FFFF));
            }
            return None;
        }
        seeds.push(wide[i] as u32);
        i += 1;
    }
    proof {
        let a = seeds@.map_values(|v: u32| v as int);
        let b = wide@.map_values(|v: u64| v as int);
        assert(a =~= b);
        assert(!has_no_number(seeds_text, 0xFFFF_FFFF)) by {
            assert forall|j: int| 0 <= j < seeds_text.len() implies crate::text::spec_decimal(
                #[trigger] seeds_text[j],
            ) == Some(a[j] as nat) && a[j] <= 0xFFFF_FFFF by {}
        }
    }
    let seed_to_soil = match parse_titled_map(&blocks, 0) {
        None => {
            assert(map_missing(all, 0));
            return None;
        },
        Some(m) => m,
    };
    let soil_to_fertilizer = match parse_titled_map(&blocks, 1) {
        None => {
            assert(map_missing(all, 1));
            return None;
        },
        Some(m) => m,
    };
    let fertilizer_to_water = match parse_titled_map(&blocks, 2) {
        None => {
            assert(map_missing(all, 2));
            return None;
        },
        Some(m) => m,
    };
    let water_to_light = match parse_titled_map(&blocks, 3) {
        None => {
            assert(map_missing(all, 3));
            return None;
        },
        Some(m) => m,
    };
    let light_to_temperature = match parse_titled_map(&blocks, 4) {
        None => {
            assert(map_missing(all, 4));
            return None;
        },
        Some(m) => m,
    };
    let temperature_to_humidity = match parse_titled_map(&blocks, 5) {
        None => {
            assert(map_missing(all, 5));
            return None;
        },
        Some(m) => m,
    };
    let humidity_to_location = match parse_titled_map(&blocks, 6) {
        None => {
            assert(map_missing(all, 6));
            return None;
        },
        Some(m) => m,
    };
    proof {
        assert(!no_almanac(all)) by {
            assert forall|k: int| 0 <= k < 7 implies !#[trigger] map_missing(all, k) by {
                assert(k == 0 || k == 1 || k == 2 || k == 3 || k == 4 || k == 5 || k == 6);
            }
        }
    }
    Some(
        Almanac {
            seeds,
            seed_to_soil,
            soil_to_fertilizer,
            fertilizer_to_water,
            water_to_light,
            light_to_temperature,
            temperature_to_humidity,
            humidity_to_location,
        },
    )
}

impl RangeMap {
    /// Whether the last number that each range maps to can be held in a
    /// `u32`.
    pub fn is_wf(&self) -> (r: bool)
        ensures
            r == self.wf(),
    {
        let mut i: usize = 0;
        while i < self.0.len()
            invariant
                i <= self.0@.len(),
                forall|k: int| 0 <= k < i ==> (#[trigger] self.0@[k]).wf(),
            decreases self.0@.len() - i,
        {
            let r = &self.0[i];
            if r.length > 0 && r.destination_start as u64 + r.length as u64 - 1 > 0xFFFF_FFFF {
                return false;
            }
            i += 1;
        }
        true
    }
}

impl Almanac {
    /// Whether the last number that each range of each map maps to can be
    /// held in a `u32`.
    pub fn is_wf(&self) -> (r: bool)
        ensures
            r == self.wf(),
    {
        self.seed_to_soil.is_wf() && self.soil_to_fertilizer.is_wf()
            && self.fertilizer_to_water.is_wf() && self.water_to_light.is_wf()
            && self.light_to_temperature.is_wf() && self.temperature_to_humidity.is_wf()
            && self.humidity_to_location.is_wf()
    }
}

} // verus!
