//! Reading puzzle input: lines, fields and decimal numbers, all on bytes.

use vstd::prelude::*;
use crate::grid::tile_rows;

verus! {

pub const NEWLINE: u8 = 10;

pub const CARRIAGE_RETURN: u8 = 13;

/// The line without the carriage return that ends it, if one does.
pub open spec fn strip_cr(line: Seq<u8>) -> Seq<u8> {
    if line.len() > 0 && line.last() == CARRIAGE_RETURN {
        line.drop_last()
    } else {
        line
    }
}

/// The state of a scan for lines after the first `n` bytes: the lines that a
/// newline has ended, and the bytes of the line that is still open.
pub open spec fn scan_lines(s: Seq<u8>, n: int) -> (Seq<Seq<u8>>, Seq<u8>)
    decreases n,
{
    if n <= 0 {
        (Seq::empty(), Seq::empty())
    } else {
        let (done, open) = scan_lines(s, n - 1);
        if s[n - 1] == NEWLINE {
            (done.push(strip_cr(open)), Seq::empty())
        } else {
            (done, open.push(s[n - 1]))
        }
    }
}

/// The lines of a text. A line ends at a newline; a carriage return just
/// before that newline is not part of the line. Text after the last newline
/// is a line too, unless it is empty.
pub open spec fn spec_lines(s: Seq<u8>) -> Seq<Seq<u8>> {
    let (done, open) = scan_lines(s, s.len() as int);
    if open.len() > 0 {
        done.push(open)
    } else {
        done
    }
}

/// The state of a scan for fields after the first `n` bytes: the fields that
/// a separator has ended, and the bytes of the field that is still open.
pub open spec fn scan_fields(s: Seq<u8>, sep: u8, n: int) -> (Seq<Seq<u8>>, Seq<u8>)
    decreases n,
{
    if n <= 0 {
        (Seq::empty(), Seq::empty())
    } else {
        let (done, open) = scan_fields(s, sep, n - 1);
        if s[n - 1] == sep {
            (done.push(open), Seq::empty())
        } else {
            (done, open.push(s[n - 1]))
        }
    }
}

/// The fields of a text that are separated by the byte `sep`. There is always
/// one field more than there are separators; fields may be empty.
pub open spec fn spec_fields(s: Seq<u8>, sep: u8) -> Seq<Seq<u8>> {
    let (done, open) = scan_fields(s, sep, s.len() as int);
    done.push(open)
}

/// The state of a scan for blocks after the first `n` lines: the blocks that
/// an empty line has ended, and the lines of the block that is still open.
pub open spec fn scan_blocks(lines: Seq<Seq<u8>>, n: int) -> (Seq<Seq<Seq<u8>>>, Seq<Seq<u8>>)
    decreases n,
{
    if n <= 0 {
        (Seq::empty(), Seq::empty())
    } else {
        let (done, open) = scan_blocks(lines, n - 1);
        if lines[n - 1].len() == 0 {
            (done.push(open), Seq::empty())
        } else {
            (done, open.push(lines[n - 1]))
        }
    }
}

/// The blocks of lines that empty lines separate. There is always one block
/// more than there are empty lines; blocks may be empty.
pub open spec fn spec_blocks(lines: Seq<Seq<u8>>) -> Seq<Seq<Seq<u8>>> {
    let (done, open) = scan_blocks(lines, lines.len() as int);
    done.push(open)
}

/// The lines of every block, as sequences.
pub open spec fn block_rows(blocks: Seq<Vec<Vec<u8>>>) -> Seq<Seq<Seq<u8>>> {
    Seq::new(blocks.len(), |i: int| tile_rows(blocks[i]@))
}

/// Splits the lines of a text into the blocks that empty lines separate.
pub fn split_blocks(text: &[u8]) -> (blocks: Vec<Vec<Vec<u8>>>)
    ensures
        block_rows(blocks@) == spec_blocks(spec_lines(text@)),
{
    let lines = split_lines(text);
    let ghost all = spec_lines(text@);
    let mut done: Vec<Vec<Vec<u8>>> = Vec::new();
    let mut open: Vec<Vec<u8>> = Vec::new();
    let mut i: usize = 0;
    assert(block_rows(done@) =~= Seq::<Seq<Seq<u8>>>::empty());
    assert(tile_rows(open@) =~= Seq::<Seq<u8>>::empty());
    while i < lines.len()
        invariant
            i <= lines@.len(),
            tile_rows(lines@) == all,
            (block_rows(done@), tile_rows(open@)) == scan_blocks(all, i as int),
        decreases lines@.len() - i,
    {
        let ghost before = block_rows(done@);
        let ghost lines_before = tile_rows(open@);
        assert(all[i as int] == lines@[i as int]@);
        if lines[i].len() == 0 {
            done.push(open);
            open = Vec::new();
            assert(block_rows(done@) =~= before.push(lines_before));
            assert(tile_rows(open@) =~= Seq::<Seq<u8>>::empty());
        } else {
            open.push(to_vec(lines[i].as_slice()));
            assert(tile_rows(open@) =~= lines_before.push(all[i as int]));
        }
        i += 1;
    }
    let ghost before = block_rows(done@);
    let ghost lines_before = tile_rows(open@);
    done.push(open);
    assert(block_rows(done@) =~= before.push(lines_before));
    done
}

/// A space, a tab, a newline or a carriage return.
pub open spec fn is_space(b: u8) -> bool {
    b == 32 || b == 9 || b == NEWLINE || b == CARRIAGE_RETURN
}

/// The state of a scan for words after the first `n` bytes: the words that
/// white space has ended, and the bytes of the word that is still open.
pub open spec fn scan_words(s: Seq<u8>, n: int) -> (Seq<Seq<u8>>, Seq<u8>)
    decreases n,
{
    if n <= 0 {
        (Seq::empty(), Seq::empty())
    } else {
        let (done, open) = scan_words(s, n - 1);
        if is_space(s[n - 1]) {
            if open.len() > 0 {
                (done.push(open), Seq::empty())
            } else {
                (done, open)
            }
        } else {
            (done, open.push(s[n - 1]))
        }
    }
}

/// The words of a text: the longest runs of bytes that are not white space.
pub open spec fn spec_words(s: Seq<u8>) -> Seq<Seq<u8>> {
    let (done, open) = scan_words(s, s.len() as int);
    if open.len() > 0 {
        done.push(open)
    } else {
        done
    }
}

pub open spec fn is_digit(b: u8) -> bool {
    48 <= b <= 57
}

/// The number that a sequence of decimal digits writes; zero for none.
pub open spec fn digits_value(s: Seq<u8>) -> nat
    decreases s.len(),
{
    if s.len() == 0 {
        0
    } else {
        digits_value(s.drop_last()) * 10 + (s.last() - 48) as nat
    }
}

pub open spec fn all_digits(s: Seq<u8>) -> bool {
    forall|i: int| 0 <= i < s.len() ==> is_digit(#[trigger] s[i])
}

/// The number that the text writes in decimal digits, if it is one or more
/// digits and nothing else.
pub open spec fn spec_decimal(s: Seq<u8>) -> Option<nat> {
    if s.len() > 0 && all_digits(s) {
        Some(digits_value(s))
    } else {
        None
    }
}

/// The value of a digit, if the byte is one.
pub fn digit_value(b: u8) -> (r: Option<u8>)
    ensures
        r == if is_digit(b) {
            Some((b - 48) as u8)
        } else {
            None
        },
{
    if b >= 48 && b <= 57 {
        Some(b - 48)
    } else {
        None
    }
}

/// Copies a slice of bytes into a vector.
pub fn to_vec(bytes: &[u8]) -> (v: Vec<u8>)
    ensures
        v@ == bytes@,
{
    let mut v: Vec<u8> = Vec::with_capacity(bytes.len());
    let mut i: usize = 0;
    while i < bytes.len()
        invariant
            i <= bytes@.len(),
            v@ == bytes@.subrange(0, i as int),
        decreases bytes@.len() - i,
    {
        v.push(bytes[i]);
        assert(v@ =~= bytes@.subrange(0, i + 1));
        i += 1;
    }
    assert(bytes@.subrange(0, i as int) =~= bytes@);
    v
}

/// Splits a text into its lines.
pub fn split_lines(bytes: &[u8]) -> (lines: Vec<Vec<u8>>)
    ensures
        tile_rows(lines@) == spec_lines(bytes@),
{
    let mut done: Vec<Vec<u8>> = Vec::new();
    let mut open: Vec<u8> = Vec::new();
    let mut i: usize = 0;
    assert(tile_rows(done@) =~= Seq::<Seq<u8>>::empty());
    while i < bytes.len()
        invariant
            i <= bytes@.len(),
            (tile_rows(done@), open@) == scan_lines(bytes@, i as int),
        decreases bytes@.len() - i,
    {
        let ghost before = tile_rows(done@);
        if bytes[i] == NEWLINE {
            let n = open.len();
            if n > 0 && open[n - 1] == CARRIAGE_RETURN {
                open.pop();
            }
            assert(open@ == strip_cr(scan_lines(bytes@, i as int).1));
            let ghost line = open@;
            done.push(open);
            open = Vec::new();
            assert(tile_rows(done@) =~= before.push(line));
        } else {
            open.push(bytes[i]);
        }
        i += 1;
    }
    if open.len() > 0 {
        let ghost before = tile_rows(done@);
        let ghost line = open@;
        done.push(open);
        assert(tile_rows(done@) =~= before.push(line));
    }
    done
}

/// Splits a text at every byte `sep`.
pub fn split_fields(bytes: &[u8], sep: u8) -> (fields: Vec<Vec<u8>>)
    ensures
        tile_rows(fields@) == spec_fields(bytes@, sep),
{
    let mut done: Vec<Vec<u8>> = Vec::new();
    let mut open: Vec<u8> = Vec::new();
    let mut i: usize = 0;
    assert(tile_rows(done@) =~= Seq::<Seq<u8>>::empty());
    while i < bytes.len()
        invariant
            i <= bytes@.len(),
            (tile_rows(done@), open@) == scan_fields(bytes@, sep, i as int),
        decreases bytes@.len() - i,
    {
        let ghost before = tile_rows(done@);
        if bytes[i] == sep {
            let ghost field = open@;
            done.push(open);
            open = Vec::new();
            assert(tile_rows(done@) =~= before.push(field));
        } else {
            open.push(bytes[i]);
        }
        i += 1;
    }
    let ghost before = tile_rows(done@);
    let ghost field = open@;
    done.push(open);
    assert(tile_rows(done@) =~= before.push(field));
    done
}

/// Splits a text into its words.
pub fn split_words(bytes: &[u8]) -> (words: Vec<Vec<u8>>)
    ensures
        tile_rows(words@) == spec_words(bytes@),
{
    let mut done: Vec<Vec<u8>> = Vec::new();
    let mut open: Vec<u8> = Vec::new();
    let mut i: usize = 0;
    assert(tile_rows(done@) =~= Seq::<Seq<u8>>::empty());
    while i < bytes.len()
        invariant
            i <= bytes@.len(),
            (tile_rows(done@), open@) == scan_words(bytes@, i as int),
        decreases bytes@.len() - i,
    {
        let ghost before = tile_rows(done@);
        let b = bytes[i];
        if b == 32 || b == 9 || b == NEWLINE || b == CARRIAGE_RETURN {
            if open.len() > 0 {
                let ghost word = open@;
                done.push(open);
                open = Vec::new();
                assert(tile_rows(done@) =~= before.push(word));
            }
        } else {
            open.push(b);
        }
        i += 1;
    }
    if open.len() > 0 {
        let ghost before = tile_rows(done@);
        let ghost word = open@;
        done.push(open);
        assert(tile_rows(done@) =~= before.push(word));
    }
    done
}

/// Reads a number written in decimal digits. Returns `None` if the text is
/// empty, holds anything but digits, or writes a number above `u64::MAX`.
pub fn parse_decimal(bytes: &[u8]) -> (r: Option<u64>)
    ensures
        r == match spec_decimal(bytes@) {
            Some(v) => if v <= u64::MAX {
                Some(v as u64)
            } else {
                None
            },
            None => None,
        },
{
    if bytes.len() == 0 {
        return None;
    }
    let mut value: u64 = 0;
    let mut i: usize = 0;
    while i < bytes.len()
        invariant
            i <= bytes@.len(),
            all_digits(bytes@.subrange(0, i as int)),
            value == digits_value(bytes@.subrange(0, i as int)),
        decreases bytes@.len() - i,
    {
        let ghost head = bytes@.subrange(0, i as int);
        let ghost next = bytes@.subrange(0, i + 1);
        assert(next.drop_last() =~= head);
        let digit = match digit_value(bytes[i]) {
            None => {
                assert(!is_digit(bytes@[i as int]));
                return None;
            },
            Some(d) => d,
        };
        let widened = match value.checked_mul(10) {
            None => {
                proof {
                    if all_digits(bytes@) {
                        lemma_digits_grow(bytes@, i + 1);
                    }
                }
                return None;
            },
            Some(w) => w,
        };
        value = match widened.checked_add(digit as u64) {
            None => {
                proof {
                    if all_digits(bytes@) {
                        lemma_digits_grow(bytes@, i + 1);
                    }
                }
                return None;
            },
            Some(v) => v,
        };
        assert(all_digits(next));
        i += 1;
    }
    assert(bytes@.subrange(0, i as int) =~= bytes@);
    Some(value)
}

/// A number does not get smaller when more digits follow.
pub proof fn lemma_digits_grow(s: Seq<u8>, n: int)
    requires
        0 <= n <= s.len(),
        all_digits(s),
    ensures
        digits_value(s.subrange(0, n)) <= digits_value(s),
    decreases s.len() - n,
{
    if n < s.len() {
        let longer = s.subrange(0, n + 1);
        assert(longer.drop_last() =~= s.subrange(0, n));
        assert(is_digit(s[n]));
        lemma_digits_grow(s, n + 1);
    } else {
        assert(s.subrange(0, n) =~= s);
    }
}

/// Whether two texts are the same.
pub fn same_text(a: &[u8], b: &[u8]) -> (r: bool)
    ensures
        r == (a@ == b@),
{
    if a.len() != b.len() {
        return false;
    }
    let mut i: usize = 0;
    while i < a.len()
        invariant
            i <= a@.len(),
            a@.len() == b@.len(),
            forall|k: int| 0 <= k < i ==> a@[k] == b@[k],
        decreases a@.len() - i,
    {
        if a[i] != b[i] {
            return false;
        }
        i += 1;
    }
    assert(a@ =~= b@);
    true
}

/// The text without the white space at its end.
pub open spec fn spec_trim_end(s: Seq<u8>) -> Seq<u8>
    decreases s.len(),
{
    if s.len() > 0 && is_space(s.last()) {
        spec_trim_end(s.drop_last())
    } else {
        s
    }
}

/// Cuts the white space off the end of a text.
pub fn trim_end(bytes: &[u8]) -> (r: &[u8])
    ensures
        r@ == spec_trim_end(bytes@),
{
    let mut n: usize = bytes.len();
    assert(bytes@.subrange(0, n as int) =~= bytes@);
    while n > 0 && (bytes[n - 1] == 32 || bytes[n - 1] == 9 || bytes[n - 1] == NEWLINE || bytes[n
        - 1] == CARRIAGE_RETURN)
        invariant
            n <= bytes@.len(),
            spec_trim_end(bytes@) == spec_trim_end(bytes@.subrange(0, n as int)),
        decreases n,
    {
        assert(bytes@.subrange(0, n as int).drop_last() =~= bytes@.subrange(0, n - 1));
        n -= 1;
    }
    &bytes[0..n]
}

/// The pattern stands in the text at position `i`.
pub open spec fn occurs_at(text: Seq<u8>, pattern: Seq<u8>, i: int) -> bool {
    0 <= i && i + pattern.len() <= text.len() && text.subrange(i, i + pattern.len()) == pattern
}

/// Where the pattern first stands in the text, if it does.
pub open spec fn first_occurrence(text: Seq<u8>, pattern: Seq<u8>, r: Option<usize>) -> bool {
    match r {
        Some(i) => occurs_at(text, pattern, i as int) && forall|k: int|
            0 <= k < i ==> !occurs_at(text, pattern, k),
        None => forall|k: int| !occurs_at(text, pattern, k),
    }
}

/// Whether the pattern stands in the text at position `i`.
pub fn matches_at(text: &[u8], pattern: &[u8], i: usize) -> (r: bool)
    ensures
        r == occurs_at(text@, pattern@, i as int),
{
    if i > text.len() || pattern.len() > text.len() - i {
        return false;
    }
    let n = text.len();
    let mut k: usize = 0;
    while k < pattern.len()
        invariant
            k <= pattern@.len(),
            n == text@.len(),
            i + pattern@.len() <= text@.len(),
            forall|j: int| 0 <= j < k ==> text@[i + j] == pattern@[j],
        decreases pattern@.len() - k,
    {
        if text[i + k] != pattern[k] {
            assert(text@.subrange(i as int, i + pattern@.len())[k as int] != pattern@[k as int]);
            return false;
        }
        k += 1;
    }
    assert(text@.subrange(i as int, i + pattern@.len()) =~= pattern@);
    true
}

/// Finds the first place at which the pattern stands in the text.
pub fn find(text: &[u8], pattern: &[u8]) -> (r: Option<usize>)
    ensures
        first_occurrence(text@, pattern@, r),
{
    let mut i: usize = 0;
    while i < text.len()
        invariant
            i <= text@.len(),
            forall|k: int| 0 <= k < i ==> !occurs_at(text@, pattern@, k),
        decreases text@.len() - i,
    {
        if matches_at(text, pattern, i) {
            return Some(i);
        }
        i += 1;
    }
    if matches_at(text, pattern, i) {
        return Some(i);
    }
    None
}

/// The number that the text writes: decimal digits with an optional minus
/// sign before them.
pub open spec fn spec_signed(s: Seq<u8>) -> Option<int> {
    if s.len() > 0 && s[0] == 45 {
        match spec_decimal(s.subrange(1, s.len() as int)) {
            Some(v) => Some(-(v as int)),
            None => None,
        }
    } else {
        match spec_decimal(s) {
            Some(v) => Some(v as int),
            None => None,
        }
    }
}

/// Reads a number written in decimal digits with an optional minus sign.
/// Returns `None` if the text is anything else or the number cannot be held
/// in an `i64`.
pub fn parse_signed(bytes: &[u8]) -> (r: Option<i64>)
    ensures
        r == match spec_signed(bytes@) {
            Some(v) => if i64::MIN <= v <= i64::MAX {
                Some(v as i64)
            } else {
                None
            },
            None => None,
        },
{
    if bytes.len() > 0 && bytes[0] == 45 {
        let digits = &bytes[1..bytes.len()];
        match parse_decimal(digits) {
            None => None,
            Some(v) => {
                if v <= 0x7FFF_FFFF_FFFF_FFFF {
                    Some(-(v as i64))
                } else if v == 0x8000_0000_0000_0000 {
                    Some(i64::MIN)
                } else {
                    None
                }
            },
        }
    } else {
        match parse_decimal(bytes) {
            None => None,
            Some(v) => {
                if v <= 0x7FFF_FFFF_FFFF_FFFF {
                    Some(v as i64)
                } else {
                    None
                }
            },
        }
    }
}

/// The numbers that the first `n` words write, if each of them writes a
/// number that a `u64` can hold.
pub open spec fn spec_numbers(words: Seq<Seq<u8>>, n: int) -> Option<Seq<u64>>
    decreases n,
{
    if n <= 0 {
        Some(Seq::empty())
    } else {
        match (spec_numbers(words, n - 1), spec_decimal(words[n - 1])) {
            (Some(before), Some(v)) => if v <= u64::MAX {
                Some(before.push(v as u64))
            } else {
                None
            },
            _ => None,
        }
    }
}

/// Reads every word of a line as a number. Returns `None` if a word is not a
/// number that a `u64` can hold.
pub fn parse_numbers(line: &[u8]) -> (r: Option<Vec<u64>>)
    ensures
        match r {
            Some(numbers) => spec_numbers(spec_words(line@), spec_words(line@).len() as int)
                == Some(numbers@),
            None => spec_numbers(spec_words(line@), spec_words(line@).len() as int) is None,
        },
{
    let words = split_words(line);
    let mut numbers: Vec<u64> = Vec::with_capacity(words.len());
    let mut i: usize = 0;
    while i < words.len()
        invariant
            i <= words@.len(),
            tile_rows(words@) == spec_words(line@),
            spec_numbers(spec_words(line@), i as int) == Some(numbers@),
        decreases words@.len() - i,
    {
        assert(spec_words(line@)[i as int] == words@[i as int]@);
        match parse_decimal(words[i].as_slice()) {
            None => {
                proof {
                    lemma_numbers_fail(spec_words(line@), i + 1, words@.len() as int);
                }
                return None;
            },
            Some(v) => {
                numbers.push(v);
            },
        }
        i += 1;
    }
    Some(numbers)
}

/// Every one of the texts writes the number at its place in the list, and no
/// number is above `max`.
pub open spec fn write_numbers(texts: Seq<Seq<u8>>, numbers: Seq<int>, max: int) -> bool {
    &&& numbers.len() == texts.len()
    &&& forall|j: int|
        0 <= j < texts.len() ==> spec_decimal(#[trigger] texts[j]) == Some(numbers[j] as nat) && 0
            <= numbers[j] <= max
}

/// One of the texts does not write a number up to `max`.
pub open spec fn has_no_number(texts: Seq<Seq<u8>>, max: int) -> bool {
    exists|j: int|
        0 <= j < texts.len() && match spec_decimal(#[trigger] texts[j]) {
            Some(v) => v > max,
            None => true,
        }
}

/// Reads every text of a list as a number up to `max`.
pub fn numbers_up_to(texts: &Vec<Vec<u8>>, max: u64) -> (r: Option<Vec<u64>>)
    ensures
        r matches Some(numbers) ==> write_numbers(
            tile_rows(texts@),
            numbers@.map_values(|v: u64| v as int),
            max as int,
        ),
        r is None ==> has_no_number(tile_rows(texts@), max as int),
{
    let mut numbers: Vec<u64> = Vec::with_capacity(texts.len());
    let mut j: usize = 0;
    while j < texts.len()
        invariant
            j <= texts@.len(),
            numbers@.len() == j,
            forall|k: int|
                0 <= k < j ==> spec_decimal(#[trigger] tile_rows(texts@)[k]) == Some(
                    numbers@[k] as nat,
                ) && numbers@[k] <= max,
        decreases texts@.len() - j,
    {
        assert(tile_rows(texts@)[j as int] == texts@[j as int]@);
        match parse_decimal(texts[j].as_slice()) {
            None => {
                return None;
            },
            Some(v) => {
                if v > max {
                    return None;
                }
                numbers.push(v);
            },
        }
        j += 1;
    }
    Some(numbers)
}

/// Reads every text of a list as a number that a `u8` can hold.
pub fn small_numbers(texts: &Vec<Vec<u8>>) -> (r: Option<Vec<u8>>)
    ensures
        r matches Some(numbers) ==> write_numbers(
            tile_rows(texts@),
            numbers@.map_values(|v: u8| v as int),
            255,
        ),
        r is None ==> has_no_number(tile_rows(texts@), 255),
{
    let wide = match numbers_up_to(texts, 255) {
        None => {
            return None;
        },
        Some(wide) => wide,
    };
    let mut numbers: Vec<u8> = Vec::with_capacity(wide.len());
    proof {
        let b = wide@.map_values(|v: u64| v as int);
        assert forall|k: int| 0 <= k < wide@.len() implies #[trigger] wide@[k] <= 255 by {
            assert(spec_decimal(tile_rows(texts@)[k]) == Some(b[k] as nat));
            assert(b[k] == wide@[k]);
        }
    }
    let mut j: usize = 0;
    while j < wide.len()
        invariant
            j <= wide@.len(),
            numbers@.len() == j,
            forall|k: int| 0 <= k < wide@.len() ==> #[trigger] wide@[k] <= 255,
            forall|k: int| 0 <= k < j ==> numbers@[k] == wide@[k],
        decreases wide@.len() - j,
    {
        numbers.push(wide[j] as u8);
        j += 1;
    }
    proof {
        let a = numbers@.map_values(|v: u8| v as int);
        let b = wide@.map_values(|v: u64| v as int);
        assert(a =~= b);
    }
    Some(numbers)
}

/// Reads every text of a list as a number that a `u32` can hold.
pub fn medium_numbers(texts: &Vec<Vec<u8>>) -> (r: Option<Vec<u32>>)
    ensures
        r matches Some(numbers) ==> write_numbers(
            tile_rows(texts@),
            numbers@.map_values(|v: u32| v as int),
            0xFFFF_FFFF,
        ),
        r is None ==> has_no_number(tile_rows(texts@), 0xFFFF_FFFF),
{
    let wide = match numbers_up_to(texts, 0xFFFF_FFFF) {
        None => {
            return None;
        },
        Some(wide) => wide,
    };
    let mut numbers: Vec<u32> = Vec::with_capacity(wide.len());
    proof {
        let b = wide@.map_values(|v: u64| v as int);
        assert forall|k: int| 0 <= k < wide@.len() implies #[trigger] wide@[k] <= 0xFFFF_FFFF by {
            assert(spec_decimal(tile_rows(texts@)[k]) == Some(b[k] as nat));
            assert(b[k] == wide@[k]);
        }
    }
    let mut j: usize = 0;
    while j < wide.len()
        invariant
            j <= wide@.len(),
            numbers@.len() == j,
            forall|k: int| 0 <= k < wide@.len() ==> #[trigger] wide@[k] <= 0xFFFF_FFFF,
            forall|k: int| 0 <= k < j ==> numbers@[k] == wide@[k],
        decreases wide@.len() - j,
    {
        numbers.push(wide[j] as u32);
        j += 1;
    }
    proof {
        let a = numbers@.map_values(|v: u32| v as int);
        let b = wide@.map_values(|v: u64| v as int);
        assert(a =~= b);
    }
    Some(numbers)
}

/// Once a word fails to be a number, no longer list of words succeeds.
pub proof fn lemma_numbers_fail(words: Seq<Seq<u8>>, k: int, n: int)
    requires
        0 <= k <= n,
        spec_numbers(words, k) is None,
    ensures
        spec_numbers(words, n) is None,
    decreases n - k,
{
    if k < n {
        lemma_numbers_fail(words, k, n - 1);
    }
}

} // verus!
