//! An engine schematic: numbers written in a grid of characters, and the
//! symbols that stand next to them.

use vstd::prelude::*;
use crate::text::{digits_value, is_digit};

verus! {

/// A number of the schematic: its value, the column and row of its first
/// digit, and how many digits it has.
#[derive(Debug, Clone, Copy, PartialEq, Eq, Structural)]
pub struct Number {
    pub num: u32,
    pub x: usize,
    pub y: usize,
    pub len: usize,
}

/// The bytes from `x` on, `len` of them, are a whole number of the line: all
/// digits, with no digit right before or after.
pub open spec fn is_run(line: Seq<u8>, x: int, len: int) -> bool {
    &&& 0 <= x
    &&& 1 <= len
    &&& x + len <= line.len()
    &&& forall|k: int| x <= k < x + len ==> is_digit(#[trigger] line[k])
    &&& (x == 0 || !is_digit(line[x - 1]))
    &&& (x + len == line.len() || !is_digit(line[x + len]))
}

/// The entries are the numbers of row `y` of which the first `closed` bytes
/// hold the whole run and the byte after it: each entry is a run with its
/// value, and each such run has an entry.
pub open spec fn numbers_up_to(line: Seq<u8>, y: usize, closed: int, numbers: Seq<Number>) -> bool {
    &&& forall|k: int|
        0 <= k < numbers.len() ==> {
            let n = #[trigger] numbers[k];
            &&& n.y == y
            &&& is_run(line, n.x as int, n.len as int)
            &&& n.x + n.len < closed
            &&& n.num == digits_value(line.subrange(n.x as int, n.x + n.len))
        }
    &&& forall|x: int, len: int|
        is_run(line, x, len) && x + len < closed ==> exists|k: int|
            0 <= k < numbers.len() && (#[trigger] numbers[k]).x == x && numbers[k].len == len
}

/// The entries are exactly the numbers of row `y`.
pub open spec fn numbers_of(line: Seq<u8>, y: usize, numbers: Seq<Number>) -> bool {
    numbers_up_to(line, y, line.len() as int + 1, numbers)
}

/// A symbol: anything but a digit and a full stop.
pub open spec fn is_symbol(b: u8) -> bool {
    !is_digit(b) && b != 46
}

/// The cell `(cx, cy)` touches the number: it lies in the box one cell
/// around the number's digits.
pub open spec fn touches(n: Number, cx: int, cy: int) -> bool {
    n.y - 1 <= cy <= n.y + 1 && n.x - 1 <= cx <= n.x + n.len
}

/// Some symbol of the grid touches the number.
pub open spec fn is_part(grid: Seq<Vec<u8>>, n: Number) -> bool {
    exists|cx: int, cy: int|
        0 <= cy < grid.len() && 0 <= cx < grid[cy]@.len() && touches(n, cx, cy) && is_symbol(
            #[trigger] grid[cy]@[cx],
        )
}

/// The sum of the first `k` numbers that a symbol touches.
pub open spec fn spec_part_sum(grid: Seq<Vec<u8>>, numbers: Seq<Number>, k: int) -> int
    decreases k,
{
    if k <= 0 {
        0
    } else {
        spec_part_sum(grid, numbers, k - 1) + if is_part(grid, numbers[k - 1]) {
            numbers[k - 1].num as int
        } else {
            0
        }
    }
}

/// Finds the numbers of one row. Returns `None` if one of them cannot be
/// held in a `u32`.
pub fn numbers_in_line(line: &[u8], y: usize) -> (r: Option<Vec<Number>>)
    ensures
        r matches Some(numbers) ==> numbers_of(line@, y, numbers@),
        r is None ==> exists|x: int, end: int|
            0 <= x <= end <= line@.len() && digits_value(#[trigger] line@.subrange(x, end))
                > u32::MAX,
{
    let mut numbers: Vec<Number> = Vec::new();
    let mut start: usize = 0;
    let mut open = false;
    let mut value: u32 = 0;
    let mut i: usize = 0;
    while i < line.len()
        invariant
            i <= line@.len(),
            numbers_up_to(line@, y, i as int, numbers@),
            open ==> {
                &&& start < i
                &&& forall|k: int| start <= k < i ==> is_digit(#[trigger] line@[k])
                &&& (start == 0 || !is_digit(line@[start - 1]))
                &&& value == digits_value(line@.subrange(start as int, i as int))
            },
            !open ==> i == 0 || !is_digit(line@[i - 1]),
        decreases line@.len() - i,
    {
        let ghost before = numbers@;
        let b = line[i];
        if b >= 48 && b <= 57 {
            if !open {
                start = i;
                open = true;
                value = 0;
                assert(line@.subrange(i as int, i as int) =~= Seq::<u8>::empty());
            }
            assert(line@.subrange(start as int, i + 1).drop_last() =~= line@.subrange(
                start as int,
                i as int,
            ));
            let ghost shorter = digits_value(line@.subrange(start as int, i as int));
            assert(value == shorter);
            assert(digits_value(line@.subrange(start as int, i + 1)) == shorter * 10 + (b - 48));
            let widened = match value.checked_mul(10) {
                None => {
                    assert(digits_value(line@.subrange(start as int, i + 1)) > u32::MAX);
                    return None;
                },
                Some(w) => w,
            };
            value = match widened.checked_add((b - 48) as u32) {
                None => {
                    assert(digits_value(line@.subrange(start as int, i + 1)) > u32::MAX);
                    return None;
                },
                Some(v) => v,
            };
            proof {
                let run = line@.subrange(start as int, i + 1);
                assert(run.last() == b);
                assert(value == digits_value(run));
                assert forall|x: int, len: int|
                    is_run(line@, x, len) && x + len < i + 1 implies exists|k: int|
                    0 <= k < numbers@.len() && (#[trigger] numbers@[k]).x == x && numbers@[k].len
                        == len by {
                    if x + len == i {
                        assert(is_digit(line@[x + len]));
                    }
                }
            }
        } else {
            if open {
                let n = Number { num: value, x: start, y, len: i - start };
                numbers.push(n);
                open = false;
                proof {
                    assert(is_run(line@, start as int, i - start));
                    assert forall|k: int| 0 <= k < numbers@.len() implies {
                        let m = #[trigger] numbers@[k];
                        &&& m.y == y
                        &&& is_run(line@, m.x as int, m.len as int)
                        &&& m.x + m.len < i + 1
                        &&& m.num == digits_value(line@.subrange(m.x as int, m.x + m.len))
                    } by {
                        if k < before.len() {
                            assert(numbers@[k] == before[k]);
                        }
                    }
                    assert forall|x: int, len: int|
                        is_run(line@, x, len) && x + len < i + 1 implies exists|k: int|
                        0 <= k < numbers@.len() && (#[trigger] numbers@[k]).x == x
                            && numbers@[k].len == len by {
                        if x + len == i {
                            lemma_run_start(line@, x, len, start as int, i as int);
                            assert(numbers@[before.len() as int].x == x);
                        } else {
                            let k = choose|k: int|
                                0 <= k < before.len() && (#[trigger] before[k]).x == x
                                    && before[k].len == len;
                            assert(numbers@[k] == before[k]);
                        }
                    }
                }
            } else {
                proof {
                    assert forall|x: int, len: int|
                        is_run(line@, x, len) && x + len < i + 1 implies exists|k: int|
                        0 <= k < numbers@.len() && (#[trigger] numbers@[k]).x == x
                            && numbers@[k].len == len by {
                        if x + len == i {
                            assert(is_digit(line@[x + len - 1]));
                        }
                    }
                }
            }
        }
        i += 1;
    }
    let ghost before = numbers@;
    if open {
        let n = Number { num: value, x: start, y, len: i - start };
        numbers.push(n);
        proof {
            assert(is_run(line@, start as int, i - start));
            assert forall|k: int| 0 <= k < numbers@.len() implies {
                let m = #[trigger] numbers@[k];
                &&& m.y == y
                &&& is_run(line@, m.x as int, m.len as int)
                &&& (m.x + m.len < line@.len() + 1)
                &&& m.num == digits_value(line@.subrange(m.x as int, m.x + m.len))
            } by {
                if k < before.len() {
                    assert(numbers@[k] == before[k]);
                }
            }
            assert forall|x: int, len: int| is_run(line@, x, len) implies exists|k: int|
                0 <= k < numbers@.len() && (#[trigger] numbers@[k]).x == x && numbers@[k].len
                    == len by {
                if x + len == i {
                    lemma_run_start(line@, x, len, start as int, i as int);
                    assert(numbers@[before.len() as int].x == x);
                } else {
                    let k = choose|k: int|
                        0 <= k < before.len() && (#[trigger] before[k]).x == x && before[k].len
                            == len;
                    assert(numbers@[k] == before[k]);
                }
            }
        }
    } else {
        proof {
            assert forall|x: int, len: int| is_run(line@, x, len) implies x + len < i by {
                if x + len == i {
                    assert(is_digit(line@[x + len - 1]));
                }
            }
        }
    }
    Some(numbers)
}

/// Two runs of digits that end at the same place and have no digit before
/// them begin at the same place.
proof fn lemma_run_start(line: Seq<u8>, x: int, len: int, start: int, end: int)
    requires
        0 <= x,
        1 <= len,
        x + len == end,
        end <= line.len(),
        forall|k: int| x <= k < x + len ==> is_digit(#[trigger] line[k]),
        x == 0 || !is_digit(line[x - 1]),
        0 <= start < end,
        forall|k: int| start <= k < end ==> is_digit(#[trigger] line[k]),
        start == 0 || !is_digit(line[start - 1]),
    ensures
        x == start,
{
    if x < start {
        assert(is_digit(line[start - 1]));
    } else if start < x {
        assert(is_digit(line[x - 1]));
    }
}

/// Whether some symbol of the grid touches the number.
pub fn is_part_number(grid: &Vec<Vec<u8>>, n: &Number) -> (r: bool)
    requires
        n.x + n.len < usize::MAX,
        n.y < usize::MAX,
    ensures
        r == is_part(grid@, *n),
{
    let top: usize = if n.y > 0 {
        n.y - 1
    } else {
        0
    };
    let left: usize = if n.x > 0 {
        n.x - 1
    } else {
        0
    };
    let mut cy: usize = top;
    while cy <= n.y + 1 && cy < grid.len()
        invariant
            n.x + n.len < usize::MAX,
            n.y < usize::MAX,
            top == if n.y > 0 {
                n.y - 1
            } else {
                0
            },
            left == if n.x > 0 {
                n.x - 1
            } else {
                0
            },
            top <= cy,
            forall|a: int, b: int|
                top <= b < cy && 0 <= b < grid@.len() && 0 <= a < grid@[b]@.len() && touches(
                    *n,
                    a,
                    b,
                ) ==> !is_symbol(#[trigger] grid@[b]@[a]),
        decreases grid@.len() - cy,
    {
        let row = &grid[cy];
        let mut cx: usize = left;
        while cx <= n.x + n.len && cx < row.len()
            invariant
                n.x + n.len < usize::MAX,
                left == if n.x > 0 {
                    n.x - 1
                } else {
                    0
                },
                left <= cx,
                row@ == grid@[cy as int]@,
                cy < grid@.len(),
                top <= cy <= n.y + 1,
                top == if n.y > 0 {
                    n.y - 1
                } else {
                    0
                },
                forall|a: int| left <= a < cx && a < row@.len() ==> !is_symbol(#[trigger] row@[a]),
            decreases row@.len() - cx,
        {
            let b = row[cx];
            if !(b >= 48 && b <= 57) && b != 46 {
                assert(touches(*n, cx as int, cy as int));
                assert(is_symbol(grid@[cy as int]@[cx as int]));
                return true;
            }
            cx += 1;
        }
        cy += 1;
    }
    assert forall|a: int, b: int|
        0 <= b < grid@.len() && 0 <= a < grid@[b]@.len() && touches(*n, a, b) implies !is_symbol(
        #[trigger] grid@[b]@[a],
    ) by {
        assert(top <= b < cy);
    }
    false
}

/// The sum of the numbers that a symbol touches.
pub fn sum_of_part_numbers(grid: &Vec<Vec<u8>>, numbers: &Vec<Number>) -> (sum: u64)
    requires
        numbers@.len() <= 0xFFFF_FFFF,
        forall|k: int|
            0 <= k < numbers@.len() ==> (#[trigger] numbers@[k]).x + numbers@[k].len < usize::MAX
                && numbers@[k].y < usize::MAX,
    ensures
        sum == spec_part_sum(grid@, numbers@, numbers@.len() as int),
{
    let mut sum: u64 = 0;
    let mut k: usize = 0;
    while k < numbers.len()
        invariant
            k <= numbers@.len(),
            numbers@.len() <= 0xFFFF_FFFF,
            forall|j: int|
                0 <= j < numbers@.len() ==> (#[trigger] numbers@[j]).x + numbers@[j].len
                    < usize::MAX && numbers@[j].y < usize::MAX,
            sum == spec_part_sum(grid@, numbers@, k as int),
            sum <= k * 0xFFFF_FFFF,
        decreases numbers@.len() - k,
    {
        if is_part_number(grid, &numbers[k]) {
            sum = sum + numbers[k].num as u64;
        }
        k += 1;
    }
    sum
}

/// The entries are the numbers of the first `rows` rows of the grid: each
/// entry is a whole run of digits of its row with its value, and each such
/// run has an entry.
pub open spec fn numbers_of_grid(grid: Seq<Vec<u8>>, rows: int, numbers: Seq<Number>) -> bool {
    &&& forall|k: int|
        0 <= k < numbers.len() ==> {
            let n = #[trigger] numbers[k];
            &&& n.y < rows
            &&& is_run(grid[n.y as int]@, n.x as int, n.len as int)
            &&& n.num == digits_value(grid[n.y as int]@.subrange(n.x as int, n.x + n.len))
        }
    &&& forall|y: int, x: int, len: int|
        0 <= y < rows && is_run(grid[y]@, x, len) ==> exists|k: int|
            0 <= k < numbers.len() && (#[trigger] numbers[k]).y == y && numbers[k].x == x
                && numbers[k].len == len
}

/// Finds the numbers of a grid, row by row. Returns `None` if one of them
/// cannot be held in a `u32`.
pub fn parse_map(grid: &Vec<Vec<u8>>) -> (r: Option<Vec<Number>>)
    ensures
        r matches Some(numbers) ==> numbers_of_grid(grid@, grid@.len() as int, numbers@),
        r is None ==> exists|y: int, x: int, end: int|
            0 <= y < grid@.len() && 0 <= x <= end <= grid@[y]@.len() && digits_value(
                #[trigger] grid@[y]@.subrange(x, end),
            ) > u32::MAX,
{
    let mut numbers: Vec<Number> = Vec::new();
    let mut y: usize = 0;
    while y < grid.len()
        invariant
            y <= grid@.len(),
            numbers_of_grid(grid@, y as int, numbers@),
        decreases grid@.len() - y,
    {
        let ghost before = numbers@;
        let mut found = match numbers_in_line(grid[y].as_slice(), y) {
            None => {
                proof {
                    let line = grid@[y as int]@;
                    let (x, end) = choose|x: int, end: int|
                        0 <= x <= end <= line.len() && digits_value(
                            #[trigger] line.subrange(x, end),
                        ) > u32::MAX;
                    assert(digits_value(grid@[y as int]@.subrange(x, end)) > u32::MAX);
                }
                return None;
            },
            Some(found) => found,
        };
        let ghost row = found@;
        numbers.append(&mut found);
        proof {
            let line = grid@[y as int]@;
            assert(numbers@ == before + row);
            assert forall|k: int| 0 <= k < numbers@.len() implies {
                let n = #[trigger] numbers@[k];
                &&& n.y < y + 1
                &&& is_run(grid@[n.y as int]@, n.x as int, n.len as int)
                &&& n.num == digits_value(grid@[n.y as int]@.subrange(n.x as int, n.x + n.len))
            } by {
                if k < before.len() {
                    assert(numbers@[k] == before[k]);
                } else {
                    assert(numbers@[k] == row[k - before.len()]);
                }
            }
            assert forall|b: int, x: int, len: int|
                0 <= b < y + 1 && is_run(grid@[b]@, x, len) implies exists|k: int|
                0 <= k < numbers@.len() && (#[trigger] numbers@[k]).y == b && numbers@[k].x == x
                    && numbers@[k].len == len by {
                if b < y {
                    let k = choose|k: int|
                        0 <= k < before.len() && (#[trigger] before[k]).y == b && before[k].x == x
                            && before[k].len == len;
                    assert(numbers@[k] == before[k]);
                } else {
                    let k = choose|k: int|
                        0 <= k < row.len() && (#[trigger] row[k]).x == x && row[k].len == len;
                    assert(numbers@[before.len() + k] == row[k]);
                }
            }
        }
        y += 1;
    }
    Some(numbers)
}

/// How many of the first `k` numbers touch the cell, and the product of
/// their values.
pub open spec fn touching(numbers: Seq<Number>, k: int, cx: int, cy: int) -> (int, int)
    decreases k,
{
    if k <= 0 {
        (0, 1)
    } else {
        let (count, product) = touching(numbers, k - 1, cx, cy);
        if touches(numbers[k - 1], cx, cy) {
            (count + 1, product * numbers[k - 1].num)
        } else {
            (count, product)
        }
    }
}

/// The gear ratio of a cell: the product of the two numbers that touch it, if
/// the cell holds an asterisk and exactly two numbers touch it; else zero.
pub open spec fn gear_ratio(grid: Seq<Vec<u8>>, numbers: Seq<Number>, cx: int, cy: int) -> int {
    let (count, product) = touching(numbers, numbers.len() as int, cx, cy);
    if grid[cy]@[cx] == 42 && count == 2 {
        product
    } else {
        0
    }
}

/// The sum of the gear ratios of the first `cx` cells of row `cy`.
pub open spec fn row_gear_sum(grid: Seq<Vec<u8>>, numbers: Seq<Number>, cx: int, cy: int) -> int
    decreases cx,
{
    if cx <= 0 {
        0
    } else {
        row_gear_sum(grid, numbers, cx - 1, cy) + gear_ratio(grid, numbers, cx - 1, cy)
    }
}

/// The sum of the gear ratios of the first `cy` rows.
pub open spec fn spec_gear_sum(grid: Seq<Vec<u8>>, numbers: Seq<Number>, cy: int) -> int
    decreases cy,
{
    if cy <= 0 {
        0
    } else {
        spec_gear_sum(grid, numbers, cy - 1) + row_gear_sum(
            grid,
            numbers,
            grid[cy - 1]@.len() as int,
            cy - 1,
        )
    }
}

/// The gear ratio of one cell.
pub fn gear_ratio_at(grid: &Vec<Vec<u8>>, numbers: &Vec<Number>, cx: usize, cy: usize) -> (r: u64)
    requires
        cy < grid@.len(),
        cx < grid@[cy as int]@.len(),
        forall|k: int|
            0 <= k < numbers@.len() ==> (#[trigger] numbers@[k]).x + numbers@[k].len < usize::MAX
                && numbers@[k].y < usize::MAX,
    ensures
        r == gear_ratio(grid@, numbers@, cx as int, cy as int),
{
    if grid[cy][cx] != 42 {
        return 0;
    }
    let rows = grid.len();
    let columns = grid[cy].len();
    let mut count: usize = 0;
    let mut product: u64 = 1;
    let mut k: usize = 0;
    while k < numbers.len()
        invariant
            k <= numbers@.len(),
            forall|j: int|
                0 <= j < numbers@.len() ==> (#[trigger] numbers@[j]).x + numbers@[j].len
                    < usize::MAX && numbers@[j].y < usize::MAX,
            count <= 2,
            count <= k,
            cy < rows,
            cx < columns,
            count == touching(numbers@, k as int, cx as int, cy as int).0,
            product == touching(numbers@, k as int, cx as int, cy as int).1,
            product <= 0xFFFF_FFFF * 0xFFFF_FFFF,
            count < 2 ==> product <= 0xFFFF_FFFF,
            count == 0 ==> product == 1,
        decreases numbers@.len() - k,
    {
        let n = &numbers[k];
        let near_y = cy + 1 >= n.y && cy <= n.y + 1;
        let near_x = cx + 1 >= n.x && cx <= n.x + n.len;
        assert((near_y && near_x) == touches(*n, cx as int, cy as int));
        if near_y && near_x {
            if count == 2 {
                proof {
                    lemma_touching_grows(numbers@, k + 1, numbers@.len() as int, cx as int, cy as int);
                }
                return 0;
            }
            assert(product * n.num <= 0xFFFF_FFFF * 0xFFFF_FFFF) by (nonlinear_arith)
                requires
                    product <= 0xFFFF_FFFF,
                    n.num <= 0xFFFF_FFFF,
            ;
            assert(count == 0 ==> product * n.num <= 0xFFFF_FFFF) by (nonlinear_arith)
                requires
                    count == 0 ==> product == 1,
                    n.num <= 0xFFFF_FFFF,
            ;
            product = product * n.num as u64;
            count += 1;
        }
        k += 1;
    }
    if count == 2 {
        product
    } else {
        0
    }
}

/// The count of touching numbers does not shrink as more numbers are looked
/// at.
pub proof fn lemma_touching_grows(numbers: Seq<Number>, k: int, n: int, cx: int, cy: int)
    requires
        0 <= k <= n,
    ensures
        touching(numbers, k, cx, cy).0 <= touching(numbers, n, cx, cy).0,
    decreases n - k,
{
    if k < n {
        lemma_touching_grows(numbers, k, n - 1, cx, cy);
    }
}

/// The product of the values of touching numbers is not negative.
pub proof fn lemma_touching_product(numbers: Seq<Number>, k: int, cx: int, cy: int)
    ensures
        touching(numbers, k, cx, cy).1 >= 0,
        touching(numbers, k, cx, cy).0 >= 0,
    decreases k,
{
    if k > 0 {
        lemma_touching_product(numbers, k - 1, cx, cy);
        let before = touching(numbers, k - 1, cx, cy).1;
        let value = numbers[k - 1].num;
        assert(before * value >= 0) by (nonlinear_arith)
            requires
                before >= 0,
                value >= 0,
        ;
    }
}

/// The sum of the gear ratios of a row does not shrink as more cells are
/// counted, and is not negative.
pub proof fn lemma_row_gear_sum_grows(
    grid: Seq<Vec<u8>>,
    numbers: Seq<Number>,
    k: int,
    n: int,
    cy: int,
)
    requires
        0 <= k <= n,
    ensures
        0 <= row_gear_sum(grid, numbers, k, cy) <= row_gear_sum(grid, numbers, n, cy),
    decreases n,
{
    if n > 0 {
        lemma_touching_product(numbers, numbers.len() as int, n - 1, cy);
        if k < n {
            lemma_row_gear_sum_grows(grid, numbers, k, n - 1, cy);
        } else {
            lemma_row_gear_sum_grows(grid, numbers, k - 1, n - 1, cy);
        }
    }
}

/// The sum of the gear ratios does not shrink as more rows are counted, and
/// is not negative.
pub proof fn lemma_gear_sum_grows(grid: Seq<Vec<u8>>, numbers: Seq<Number>, k: int, n: int)
    requires
        0 <= k <= n,
    ensures
        0 <= spec_gear_sum(grid, numbers, k) <= spec_gear_sum(grid, numbers, n),
    decreases n,
{
    if n > 0 {
        lemma_row_gear_sum_grows(grid, numbers, 0, grid[n - 1]@.len() as int, n - 1);
        if k < n {
            lemma_gear_sum_grows(grid, numbers, k, n - 1);
        } else {
            lemma_gear_sum_grows(grid, numbers, k - 1, n - 1);
        }
    }
}

/// The sum of the gear ratios of all cells of the grid, or `None` if it
/// cannot be held in a `u64`.
pub fn sum_of_gear_ratios(grid: &Vec<Vec<u8>>, numbers: &Vec<Number>) -> (r: Option<u64>)
    requires
        forall|k: int|
            0 <= k < numbers@.len() ==> (#[trigger] numbers@[k]).x + numbers@[k].len < usize::MAX
                && numbers@[k].y < usize::MAX,
    ensures
        r matches Some(sum) ==> sum == spec_gear_sum(grid@, numbers@, grid@.len() as int),
        r is None <==> spec_gear_sum(grid@, numbers@, grid@.len() as int) > u64::MAX,
{
    let mut sum: u64 = 0;
    let mut cy: usize = 0;
    while cy < grid.len()
        invariant
            cy <= grid@.len(),
            forall|k: int|
                0 <= k < numbers@.len() ==> (#[trigger] numbers@[k]).x + numbers@[k].len
                    < usize::MAX && numbers@[k].y < usize::MAX,
            sum == spec_gear_sum(grid@, numbers@, cy as int),
        decreases grid@.len() - cy,
    {
        let mut row_sum: u64 = 0;
        let mut cx: usize = 0;
        while cx < grid[cy].len()
            invariant
                cy < grid@.len(),
                cx <= grid@[cy as int]@.len(),
                forall|k: int|
                    0 <= k < numbers@.len() ==> (#[trigger] numbers@[k]).x + numbers@[k].len
                        < usize::MAX && numbers@[k].y < usize::MAX,
                row_sum == row_gear_sum(grid@, numbers@, cx as int, cy as int),
            decreases grid@[cy as int]@.len() - cx,
        {
            let ratio = gear_ratio_at(grid, numbers, cx, cy);
            row_sum = match row_sum.checked_add(ratio) {
                None => {
                    proof {
                        lemma_row_gear_sum_grows(
                            grid@,
                            numbers@,
                            cx + 1,
                            grid@[cy as int]@.len() as int,
                            cy as int,
                        );
                        lemma_gear_sum_grows(grid@, numbers@, cy as int, cy as int);
                        lemma_gear_sum_grows(grid@, numbers@, cy + 1, grid@.len() as int);
                    }
                    return None;
                },
                Some(s) => s,
            };
            cx += 1;
        }
        sum = match sum.checked_add(row_sum) {
            None => {
                proof {
                    lemma_gear_sum_grows(grid@, numbers@, cy + 1, grid@.len() as int);
                }
                return None;
            },
            Some(s) => s,
        };
        cy += 1;
    }
    Some(sum)
}

} // verus!
