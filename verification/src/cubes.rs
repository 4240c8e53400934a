//! Games of coloured cubes drawn from a bag by the handful.

use vstd::prelude::*;
use crate::glyphs::FromLine;
use crate::grid::tile_rows;
use crate::scratchcards::lemma_first_is_unique;
use crate::text::{
    find, first_occurrence, parse_decimal, same_text, spec_decimal, spec_fields, spec_words,
    split_fields, split_words,
};

verus! {

/// The cubes shown in one draw.
#[derive(Debug, Clone, Copy, PartialEq, Eq, Structural)]
pub struct Handful {
    pub red: u8,
    pub green: u8,
    pub blue: u8,
}

impl Handful {
    /// The draw could come from a bag of 12 red, 13 green and 14 blue cubes.
    pub open spec fn spec_possible(self) -> bool {
        self.red <= 12 && self.green <= 13 && self.blue <= 14
    }

    pub fn is_possible(&self) -> (r: bool)
        ensures
            r == self.spec_possible(),
    {
        self.red <= 12 && self.green <= 13 && self.blue <= 14
    }
}

/// Every draw of the game is possible.
pub open spec fn game_possible(game: Seq<Handful>) -> bool {
    forall|i: int| 0 <= i < game.len() ==> (#[trigger] game[i]).spec_possible()
}

/// The sum of the numbers of the possible games among the first `n`; games
/// are numbered from one.
pub open spec fn spec_possible_sum(games: Seq<Vec<Handful>>, n: int) -> int
    decreases n,
{
    if n <= 0 {
        0
    } else {
        spec_possible_sum(games, n - 1) + if game_possible(games[n - 1]@) {
            n
        } else {
            0
        }
    }
}

pub open spec fn max_u8(a: u8, b: u8) -> u8 {
    if a >= b {
        a
    } else {
        b
    }
}

/// The fewest cubes of each colour that make the first `n` draws possible.
pub open spec fn spec_fewest(game: Seq<Handful>, n: int) -> Handful
    decreases n,
{
    if n <= 0 {
        Handful { red: 0, green: 0, blue: 0 }
    } else {
        let rest = spec_fewest(game, n - 1);
        Handful {
            red: max_u8(rest.red, game[n - 1].red),
            green: max_u8(rest.green, game[n - 1].green),
            blue: max_u8(rest.blue, game[n - 1].blue),
        }
    }
}

/// The product of the three counts.
pub open spec fn spec_power(h: Handful) -> int {
    h.red * h.green * h.blue
}

/// The sum of the powers of the fewest cubes of the first `n` games.
pub open spec fn spec_power_sum(games: Seq<Vec<Handful>>, n: int) -> int
    decreases n,
{
    if n <= 0 {
        0
    } else {
        spec_power_sum(games, n - 1) + spec_power(spec_fewest(games[n - 1]@, games[n - 1]@.len() as int))
    }
}

/// Whether every draw of a game is possible.
pub fn is_game_possible(game: &Vec<Handful>) -> (r: bool)
    ensures
        r == game_possible(game@),
{
    let mut i: usize = 0;
    while i < game.len()
        invariant
            i <= game@.len(),
            forall|k: int| 0 <= k < i ==> (#[trigger] game@[k]).spec_possible(),
        decreases game@.len() - i,
    {
        if !game[i].is_possible() {
            return false;
        }
        i += 1;
    }
    true
}

/// The sum of the numbers of the games that are possible.
pub fn sum_of_possible_games(games: &Vec<Vec<Handful>>) -> (sum: u64)
    requires
        games@.len() <= 0xFFFF_FFFF,
    ensures
        sum == spec_possible_sum(games@, games@.len() as int),
{
    let mut sum: u64 = 0;
    let mut i: usize = 0;
    while i < games.len()
        invariant
            i <= games@.len(),
            games@.len() <= 0xFFFF_FFFF,
            sum == spec_possible_sum(games@, i as int),
            sum <= i * 0xFFFF_FFFF,
        decreases games@.len() - i,
    {
        if is_game_possible(&games[i]) {
            sum = sum + (i as u64 + 1);
        }
        i += 1;
    }
    sum
}

/// The fewest cubes of each colour that make every draw of a game possible.
pub fn fewest_cubes(game: &Vec<Handful>) -> (r: Handful)
    ensures
        r == spec_fewest(game@, game@.len() as int),
{
    let mut most = Handful { red: 0, green: 0, blue: 0 };
    let mut i: usize = 0;
    while i < game.len()
        invariant
            i <= game@.len(),
            most == spec_fewest(game@, i as int),
        decreases game@.len() - i,
    {
        let hand = game[i];
        if hand.red > most.red {
            most.red = hand.red;
        }
        if hand.green > most.green {
            most.green = hand.green;
        }
        if hand.blue > most.blue {
            most.blue = hand.blue;
        }
        i += 1;
    }
    most
}

/// The sum over all games of the power of the game's fewest cubes.
pub fn sum_of_powers(games: &Vec<Vec<Handful>>) -> (sum: u64)
    requires
        games@.len() <= 0xFFFF_FFFF,
    ensures
        sum == spec_power_sum(games@, games@.len() as int),
{
    let mut sum: u64 = 0;
    let mut i: usize = 0;
    while i < games.len()
        invariant
            i <= games@.len(),
            games@.len() <= 0xFFFF_FFFF,
            sum == spec_power_sum(games@, i as int),
            sum <= i * 16581375,
        decreases games@.len() - i,
    {
        let most = fewest_cubes(&games[i]);
        assert(most.red * most.green <= 255 * 255) by (nonlinear_arith)
            requires
                most.red <= 255,
                most.green <= 255,
        ;
        let rg: u64 = most.red as u64 * most.green as u64;
        assert(rg * most.blue <= 16581375) by (nonlinear_arith)
            requires
                rg <= 255 * 255,
                most.blue <= 255,
        ;
        assert(rg * most.blue == spec_power(most)) by (nonlinear_arith)
            requires
                rg == most.red * most.green,
                spec_power(most) == most.red * most.green * most.blue,
        ;
        sum = sum + rg * most.blue as u64;
        i += 1;
    }
    sum
}

/// The letters of the three colours.
pub open spec fn colour_name(colour: int) -> Seq<u8> {
    if colour == 0 {
        seq![114u8, 101u8, 100u8]
    } else if colour == 1 {
        seq![103u8, 114u8, 101u8, 101u8, 110u8]
    } else {
        seq![98u8, 108u8, 117u8, 101u8]
    }
}

/// The draw with the count of one colour replaced.
pub open spec fn with_colour(h: Handful, colour: int, count: u8) -> Handful {
    if colour == 0 {
        Handful { red: count, green: h.green, blue: h.blue }
    } else if colour == 1 {
        Handful { red: h.red, green: count, blue: h.blue }
    } else {
        Handful { red: h.red, green: h.green, blue: count }
    }
}

/// The draw that the first `n` items of a list write, if every item is a
/// count of up to 255 followed by the name of a colour. A colour that is
/// named twice has its later count.
pub open spec fn spec_handful(items: Seq<Seq<u8>>, n: int) -> Option<Handful>
    decreases n,
{
    if n <= 0 {
        Some(Handful { red: 0, green: 0, blue: 0 })
    } else {
        let words = spec_words(items[n - 1]);
        match (spec_handful(items, n - 1), spec_decimal(words[0])) {
            (Some(before), Some(count)) => if words.len() == 2 && count <= 255 {
                if words[1] == colour_name(0) {
                    Some(with_colour(before, 0, count as u8))
                } else if words[1] == colour_name(1) {
                    Some(with_colour(before, 1, count as u8))
                } else if words[1] == colour_name(2) {
                    Some(with_colour(before, 2, count as u8))
                } else {
                    None
                }
            } else {
                None
            },
            _ => None,
        }
    }
}

/// Once an item fails to be read, no longer list of items is read.
pub proof fn lemma_handful_fails(items: Seq<Seq<u8>>, k: int, n: int)
    requires
        0 <= k <= n,
        spec_handful(items, k) is None,
    ensures
        spec_handful(items, n) is None,
    decreases n - k,
{
    if k < n {
        lemma_handful_fails(items, k, n - 1);
    }
}

/// Reads one draw: counts and colours with commas between them.
pub fn parse_handful(text: &[u8]) -> (r: Option<Handful>)
    ensures
        r == spec_handful(spec_fields(text@, 44), spec_fields(text@, 44).len() as int),
{
    let items = split_fields(text, 44);
    let red: [u8; 3] = [114, 101, 100];
    let green: [u8; 5] = [103, 114, 101, 101, 110];
    let blue: [u8; 4] = [98, 108, 117, 101];
    assert(red@ =~= colour_name(0));
    assert(green@ =~= colour_name(1));
    assert(blue@ =~= colour_name(2));
    let mut out = Handful { red: 0, green: 0, blue: 0 };
    let mut i: usize = 0;
    while i < items.len()
        invariant
            i <= items@.len(),
            tile_rows(items@) == spec_fields(text@, 44),
            red@ == colour_name(0),
            green@ == colour_name(1),
            blue@ == colour_name(2),
            spec_handful(spec_fields(text@, 44), i as int) == Some(out),
        decreases items@.len() - i,
    {
        assert(spec_fields(text@, 44)[i as int] == items@[i as int]@);
        let words = split_words(items[i].as_slice());
        let ghost all = spec_fields(text@, 44);
        if words.len() != 2 {
            proof {
                lemma_handful_fails(all, i + 1, items@.len() as int);
            }
            return None;
        }
        assert(spec_words(all[i as int])[0] == words@[0]@);
        assert(spec_words(all[i as int])[1] == words@[1]@);
        let count = match parse_decimal(words[0].as_slice()) {
            None => {
                proof {
                    lemma_handful_fails(all, i + 1, items@.len() as int);
                }
                return None;
            },
            Some(count) => count,
        };
        if count > 255 {
            proof {
                lemma_handful_fails(all, i + 1, items@.len() as int);
            }
            return None;
        }
        if same_text(words[1].as_slice(), red.as_slice()) {
            out.red = count as u8;
        } else if same_text(words[1].as_slice(), green.as_slice()) {
            out.green = count as u8;
        } else if same_text(words[1].as_slice(), blue.as_slice()) {
            out.blue = count as u8;
        } else {
            proof {
                lemma_handful_fails(all, i + 1, items@.len() as int);
            }
            return None;
        }
        i += 1;
    }
    Some(out)
}

impl FromLine for Vec<Handful> {
    /// A game is written as a title, a colon, and its draws with semicolons
    /// between them.
    open spec fn written_as(line: Seq<u8>, value: Vec<Handful>) -> bool {
        exists|colon: int|
            {
                let draws = spec_fields(line.subrange(colon + 1, line.len() as int), 59);
                &&& 0 <= colon < line.len()
                &&& #[trigger] first_occurrence(line, seq![58u8], Some(colon as usize))
                &&& value@.len() == draws.len()
                &&& forall|i: int|
                    0 <= i < draws.len() ==> spec_handful(
                        spec_fields(#[trigger] draws[i], 44),
                        spec_fields(draws[i], 44).len() as int,
                    ) == Some(value@[i])
            }
    }

    fn from_line(line: &[u8]) -> (r: Option<Vec<Handful>>) {
        let n = line.len();
        let colon_mark: [u8; 1] = [58];
        assert(colon_mark@ =~= seq![58u8]);
        let colon = match find(line, colon_mark.as_slice()) {
            None => {
                return None;
            },
            Some(colon) => colon,
        };
        proof {
            assert forall|c: int|
                0 <= c < line@.len() && #[trigger] first_occurrence(
                    line@,
                    seq![58u8],
                    Some(c as usize),
                ) implies c == colon by {
                lemma_first_is_unique(line@, seq![58u8], colon as int, c);
            }
        }
        let draws = split_fields(&line[colon + 1..n], 59);
        let ghost want = spec_fields(line@.subrange(colon + 1, n as int), 59);
        let mut game: Vec<Handful> = Vec::with_capacity(draws.len());
        let mut i: usize = 0;
        while i < draws.len()
            invariant
                i <= draws@.len(),
                0 <= colon < line@.len(),
                n == line@.len(),
                first_occurrence(line@, seq![58u8], Some(colon)),
                forall|c: int|
                    0 <= c < line@.len() && #[trigger] first_occurrence(
                        line@,
                        seq![58u8],
                        Some(c as usize),
                    ) ==> c == colon,
                want == spec_fields(line@.subrange(colon + 1, n as int), 59),
                tile_rows(draws@) == want,
                game@.len() == i,
                forall|k: int|
                    0 <= k < i ==> spec_handful(
                        spec_fields(#[trigger] want[k], 44),
                        spec_fields(want[k], 44).len() as int,
                    ) == Some(game@[k]),
            decreases draws@.len() - i,
        {
            assert(want[i as int] == draws@[i as int]@);
            match parse_handful(draws[i].as_slice()) {
                None => {
                    return None;
                },
                Some(h) => {
                    game.push(h);
                },
            }
            i += 1;
        }
        Some(game)
    }
}

} // verus!
