//! Calibration values hidden in lines of text: digits, written as a digit or
//! spelled out.

use vstd::prelude::*;
use crate::grid::tile_rows;
use crate::text::{is_digit, spec_lines, split_lines};

verus! {

/// A digit found in a line, and how it was written.
#[derive(Debug, Copy, Clone, PartialEq, Eq, Structural)]
pub enum NumberType {
    Digit(u8),
    Spelled(u8),
}

/// The letters that spell the digit `n`, for the digits one to nine.
pub open spec fn spelling(n: u8) -> Seq<u8> {
    if n == 1 {
        seq![111u8, 110u8, 101u8]
    } else if n == 2 {
        seq![116u8, 119u8, 111u8]
    } else if n == 3 {
        seq![116u8, 104u8, 114u8, 101u8, 101u8]
    } else if n == 4 {
        seq![102u8, 111u8, 117u8, 114u8]
    } else if n == 5 {
        seq![102u8, 105u8, 118u8, 101u8]
    } else if n == 6 {
        seq![115u8, 105u8, 120u8]
    } else if n == 7 {
        seq![115u8, 101u8, 118u8, 101u8, 110u8]
    } else if n == 8 {
        seq![101u8, 105u8, 103u8, 104u8, 116u8]
    } else if n == 9 {
        seq![110u8, 105u8, 110u8, 101u8]
    } else {
        Seq::empty()
    }
}

/// The text begins with the word.
pub open spec fn starts_with(text: Seq<u8>, word: Seq<u8>) -> bool {
    word.len() <= text.len() && text.subrange(0, word.len() as int) == word
}

/// The digit that the text begins with, if it begins with one. A written
/// digit takes precedence; no two spellings begin alike.
pub open spec fn spec_parse_next(text: Seq<u8>) -> Option<NumberType> {
    if text.len() > 0 && is_digit(text[0]) {
        Some(NumberType::Digit((text[0] - 48) as u8))
    } else if starts_with(text, spelling(1)) {
        Some(NumberType::Spelled(1))
    } else if starts_with(text, spelling(2)) {
        Some(NumberType::Spelled(2))
    } else if starts_with(text, spelling(3)) {
        Some(NumberType::Spelled(3))
    } else if starts_with(text, spelling(4)) {
        Some(NumberType::Spelled(4))
    } else if starts_with(text, spelling(5)) {
        Some(NumberType::Spelled(5))
    } else if starts_with(text, spelling(6)) {
        Some(NumberType::Spelled(6))
    } else if starts_with(text, spelling(7)) {
        Some(NumberType::Spelled(7))
    } else if starts_with(text, spelling(8)) {
        Some(NumberType::Spelled(8))
    } else if starts_with(text, spelling(9)) {
        Some(NumberType::Spelled(9))
    } else {
        None
    }
}

/// The digits that begin at the first `n` positions of the line, in order.
/// Spellings may overlap: each position is looked at on its own.
pub open spec fn spec_parse_line(line: Seq<u8>, n: int) -> Seq<NumberType>
    decreases n,
{
    if n <= 0 {
        Seq::empty()
    } else {
        let before = spec_parse_line(line, n - 1);
        match spec_parse_next(line.subrange(n - 1, line.len() as int)) {
            Some(found) => before.push(found),
            None => before,
        }
    }
}

pub open spec fn spec_value(n: NumberType) -> u8 {
    match n {
        NumberType::Digit(v) => v,
        NumberType::Spelled(v) => v,
    }
}

/// The written digits among the first `n` numbers.
pub open spec fn written_only(numbers: Seq<NumberType>, n: int) -> Seq<u8>
    decreases n,
{
    if n <= 0 {
        Seq::empty()
    } else {
        match numbers[n - 1] {
            NumberType::Digit(v) => written_only(numbers, n - 1).push(v),
            NumberType::Spelled(_) => written_only(numbers, n - 1),
        }
    }
}

/// The two-digit number made of the first and the last digit; a missing
/// digit counts as zero.
pub open spec fn two_digit(digits: Seq<u8>) -> int {
    if digits.len() == 0 {
        0
    } else {
        digits.first() * 10 + digits.last()
    }
}

/// The sum, over the first `n` lines, of the number made of the line's first
/// and last written digit.
pub open spec fn spec_sum_written(lines: Seq<Vec<NumberType>>, n: int) -> int
    decreases n,
{
    if n <= 0 {
        0
    } else {
        spec_sum_written(lines, n - 1) + two_digit(
            written_only(lines[n - 1]@, lines[n - 1]@.len() as int),
        )
    }
}

/// The sum, over the first `n` lines, of the number made of the line's first
/// and last digit, however written.
pub open spec fn spec_sum_all(lines: Seq<Vec<NumberType>>, n: int) -> int
    decreases n,
{
    if n <= 0 {
        0
    } else {
        spec_sum_all(lines, n - 1) + spec_value(lines[n - 1]@.first()) * 10 + spec_value(
            lines[n - 1]@.last(),
        )
    }
}

/// Whether the text begins with the word.
pub fn begins_with(text: &[u8], word: &[u8]) -> (r: bool)
    ensures
        r == starts_with(text@, word@),
{
    if word.len() > text.len() {
        return false;
    }
    let mut i: usize = 0;
    while i < word.len()
        invariant
            i <= word@.len() <= text@.len(),
            forall|k: int| 0 <= k < i ==> text@[k] == word@[k],
        decreases word@.len() - i,
    {
        if text[i] != word[i] {
            assert(text@.subrange(0, word@.len() as int)[i as int] != word@[i as int]);
            return false;
        }
        i += 1;
    }
    assert(text@.subrange(0, word@.len() as int) =~= word@);
    true
}

/// The letters that spell a digit; nothing for zero and for numbers above
/// nine.
pub fn spelled(n: u8) -> (word: Vec<u8>)
    ensures
        word@ == spelling(n),
{
    let mut word: Vec<u8> = Vec::new();
    if n == 1 {
        word.push(111);
        word.push(110);
        word.push(101);
    } else if n == 2 {
        word.push(116);
        word.push(119);
        word.push(111);
    } else if n == 3 {
        word.push(116);
        word.push(104);
        word.push(114);
        word.push(101);
        word.push(101);
    } else if n == 4 {
        word.push(102);
        word.push(111);
        word.push(117);
        word.push(114);
    } else if n == 5 {
        word.push(102);
        word.push(105);
        word.push(118);
        word.push(101);
    } else if n == 6 {
        word.push(115);
        word.push(105);
        word.push(120);
    } else if n == 7 {
        word.push(115);
        word.push(101);
        word.push(118);
        word.push(101);
        word.push(110);
    } else if n == 8 {
        word.push(101);
        word.push(105);
        word.push(103);
        word.push(104);
        word.push(116);
    } else if n == 9 {
        word.push(110);
        word.push(105);
        word.push(110);
        word.push(101);
    }
    assert(word@ =~= spelling(n));
    word
}

impl NumberType {
    /// The digit, however it was written.
    pub fn get_value(&self) -> (v: u8)
        ensures
            v == spec_value(*self),
    {
        match self {
            NumberType::Digit(v) => *v,
            NumberType::Spelled(v) => *v,
        }
    }

    /// Looks for a digit at the start of the text and returns it together
    /// with the text after its first byte.
    pub fn parse_next(text: &[u8]) -> (r: (Option<Self>, &[u8]))
        requires
            text@.len() > 0,
        ensures
            r.0 == spec_parse_next(text@),
            r.1@ == text@.subrange(1, text@.len() as int),
    {
        let rest = &text[1..text.len()];
        let first = text[0];
        if first >= 48 && first <= 57 {
            return (Some(NumberType::Digit(first - 48)), rest);
        }
        let mut n: u8 = 1;
        while n <= 9
            invariant
                1 <= n <= 10,
                text@.len() > 0,
                !is_digit(text@[0]),
                rest@ == text@.subrange(1, text@.len() as int),
                forall|k: u8| 1 <= k < n ==> !starts_with(text@, #[trigger] spelling(k)),
            decreases 10 - n,
        {
            let word = spelled(n);
            if begins_with(text, word.as_slice()) {
                assert(forall|k: u8| 1 <= k < n ==> !starts_with(text@, #[trigger] spelling(k)));
                assert(starts_with(text@, spelling(n)));
                assert(spec_parse_next(text@) == Some(NumberType::Spelled(n))) by {
                    assert(!starts_with(text@, spelling(1)) || n == 1);
                    assert(!starts_with(text@, spelling(2)) || n <= 2);
                    assert(!starts_with(text@, spelling(3)) || n <= 3);
                    assert(!starts_with(text@, spelling(4)) || n <= 4);
                    assert(!starts_with(text@, spelling(5)) || n <= 5);
                    assert(!starts_with(text@, spelling(6)) || n <= 6);
                    assert(!starts_with(text@, spelling(7)) || n <= 7);
                    assert(!starts_with(text@, spelling(8)) || n <= 8);
                }
                return (Some(NumberType::Spelled(n)), rest);
            }
            n += 1;
        }
        assert(spec_parse_next(text@) is None) by {
            assert(!starts_with(text@, spelling(1)));
            assert(!starts_with(text@, spelling(2)));
            assert(!starts_with(text@, spelling(3)));
            assert(!starts_with(text@, spelling(4)));
            assert(!starts_with(text@, spelling(5)));
            assert(!starts_with(text@, spelling(6)));
            assert(!starts_with(text@, spelling(7)));
            assert(!starts_with(text@, spelling(8)));
            assert(!starts_with(text@, spelling(9)));
        }
        (None, rest)
    }

    /// All digits of a line, in the order in which they begin.
    pub fn parse_line(line: &[u8]) -> (parsed: Vec<Self>)
        ensures
            parsed@ == spec_parse_line(line@, line@.len() as int),
    {
        let mut parsed: Vec<Self> = Vec::new();
        let mut rest: &[u8] = line;
        let mut i: usize = 0;
        while i < line.len()
            invariant
                i <= line@.len(),
                rest@ == line@.subrange(i as int, line@.len() as int),
                parsed@ == spec_parse_line(line@, i as int),
            decreases line@.len() - i,
        {
            let (found, after) = Self::parse_next(rest);
            assert(after@ =~= line@.subrange(i + 1, line@.len() as int));
            if let Some(number) = found {
                parsed.push(number);
            }
            rest = after;
            i += 1;
        }
        parsed
    }
}

/// The sum over all lines of the number made of the first and last written
/// digit of the line.
pub fn sum_of_written_digits(lines: &Vec<Vec<NumberType>>) -> (sum: u64)
    requires
        lines@.len() <= 0xFFFF_FFFF,
        forall|i: int, k: int|
            0 <= i < lines@.len() && 0 <= k < lines@[i]@.len() ==> spec_value(
                #[trigger] lines@[i]@[k],
            ) <= 9,
    ensures
        sum == spec_sum_written(lines@, lines@.len() as int),
{
    let mut sum: u64 = 0;
    let mut i: usize = 0;
    while i < lines.len()
        invariant
            i <= lines@.len(),
            lines@.len() <= 0xFFFF_FFFF,
            forall|a: int, k: int|
                0 <= a < lines@.len() && 0 <= k < lines@[a]@.len() ==> spec_value(
                    #[trigger] lines@[a]@[k],
                ) <= 9,
            sum == spec_sum_written(lines@, i as int),
            sum <= 99 * i,
        decreases lines@.len() - i,
    {
        let line = &lines[i];
        let mut first: u8 = 0;
        let mut last: u8 = 0;
        let mut seen = false;
        let mut k: usize = 0;
        while k < line.len()
            invariant
                k <= line@.len(),
                forall|j: int| 0 <= j < line@.len() ==> spec_value(#[trigger] line@[j]) <= 9,
                seen == (written_only(line@, k as int).len() > 0),
                seen ==> first == written_only(line@, k as int).first() && last == written_only(
                    line@,
                    k as int,
                ).last(),
                !seen ==> first == 0 && last == 0,
                first <= 9,
                last <= 9,
            decreases line@.len() - k,
        {
            assert(spec_value(line@[k as int]) <= 9);
            if let NumberType::Digit(v) = line[k] {
                if !seen {
                    first = v;
                    seen = true;
                }
                last = v;
            }
            k += 1;
        }
        sum = sum + (first as u64 * 10 + last as u64);
        i += 1;
    }
    sum
}

/// The sum over all lines of the number made of the first and last digit of
/// the line, however written.
pub fn sum_of_all_digits(lines: &Vec<Vec<NumberType>>) -> (sum: u64)
    requires
        lines@.len() <= 0xFFFF_FFFF,
        forall|i: int| 0 <= i < lines@.len() ==> (#[trigger] lines@[i])@.len() > 0,
    ensures
        sum == spec_sum_all(lines@, lines@.len() as int),
{
    let mut sum: u64 = 0;
    let mut i: usize = 0;
    while i < lines.len()
        invariant
            i <= lines@.len(),
            lines@.len() <= 0xFFFF_FFFF,
            forall|a: int| 0 <= a < lines@.len() ==> (#[trigger] lines@[a])@.len() > 0,
            sum == spec_sum_all(lines@, i as int),
            sum <= 2805 * i,
        decreases lines@.len() - i,
    {
        let line = &lines[i];
        assert(lines@[i as int]@.len() > 0);
        let first = line[0].get_value();
        let last = line[line.len() - 1].get_value();
        sum = sum + (first as u64 * 10 + last as u64);
        i += 1;
    }
    sum
}

/// Reads the digits of every line of a document.
pub fn parse_document(text: &[u8]) -> (r: Vec<Vec<NumberType>>)
    ensures
        r@.len() == spec_lines(text@).len(),
        forall|i: int|
            0 <= i < r@.len() ==> (#[trigger] r@[i])@ == spec_parse_line(
                spec_lines(text@)[i],
                spec_lines(text@)[i].len() as int,
            ),
{
    let lines = split_lines(text);
    let mut r: Vec<Vec<NumberType>> = Vec::with_capacity(lines.len());
    let mut i: usize = 0;
    while i < lines.len()
        invariant
            i <= lines@.len(),
            tile_rows(lines@) == spec_lines(text@),
            r@.len() == i,
            forall|k: int|
                0 <= k < i ==> (#[trigger] r@[k])@ == spec_parse_line(
                    spec_lines(text@)[k],
                    spec_lines(text@)[k].len() as int,
                ),
        decreases lines@.len() - i,
    {
        assert(spec_lines(text@)[i as int] == lines@[i as int]@);
        r.push(NumberType::parse_line(lines[i].as_slice()));
        i += 1;
    }
    r
}

/// Every digit that is found in a text is at most nine.
pub proof fn lemma_parsed_digits_small(line: Seq<u8>, n: int, k: int)
    requires
        0 <= k < spec_parse_line(line, n).len(),
    ensures
        spec_value(spec_parse_line(line, n)[k]) <= 9,
    decreases n,
{
    if n > 0 {
        let before = spec_parse_line(line, n - 1);
        if k < before.len() {
            lemma_parsed_digits_small(line, n - 1, k);
        }
    }
}

} // verus!
