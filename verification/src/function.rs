//! The evaluator's functions: one binary operation on two integers, and
//! the aggregates over a rectangle of cells.
//!
//! An aggregate reads every cell of its rectangle through a lookup that
//! answers with the cell's integer, or with nothing for a cell in error.
//! One cell in error makes the aggregate an error. An aggregate over an
//! empty rectangle is 0. A result that does not fit in 32 bits is an error.

use vstd::prelude::*;
use crate::arith::{
    divide_nearest, divide_toward_zero, is_sqrt_floor, narrow, narrow_i128,
    quotient_nearest, quotient_toward_zero, sqrt_floor,
};
use crate::coords::{in_rect, rect_is_empty, rect_size, Coord};
use crate::text::{chars_of, is_word, same_word};

verus! {

/// The code of the operator `+`.
pub const OP_ADD: i8 = 1;

/// The code of the operator `-`.
pub const OP_SUB: i8 = 2;

/// The code of the operator `*`.
pub const OP_MUL: i8 = 3;

/// The code of the operator `/`.
pub const OP_DIV: i8 = 5;

/// What a lookup answers for each cell: its integer, or nothing where the
/// cell is in error.
pub type Lookup = spec_fn(Coord) -> Option<i32>;

/// The value of `a op b`: ordinary integer arithmetic, division rounding
/// toward zero. There is no value for a code that names no operator, for
/// a division by zero, and for a result outside the 32-bit range.
pub open spec fn binary_value(op: i8, a: int, b: int) -> Option<i32> {
    if op == OP_ADD {
        narrow(a + b)
    } else if op == OP_SUB {
        narrow(a - b)
    } else if op == OP_MUL {
        narrow(a * b)
    } else if op == OP_DIV {
        if b == 0 {
            None
        } else {
            narrow(quotient_toward_zero(a, b))
        }
    } else {
        None
    }
}

/// Evaluates one binary operation; `None` marks an error.
pub fn eval_binary(op: i8, a: i32, b: i32) -> (r: Option<i32>)
    ensures
        r == binary_value(op, a as int, b as int),
{
    if op == OP_ADD {
        narrow_i128(a as i128 + b as i128)
    } else if op == OP_SUB {
        narrow_i128(a as i128 - b as i128)
    } else if op == OP_MUL {
        assert(-0x8000_0000 * 0x8000_0000 <= a * b <= 0x8000_0000 * 0x8000_0000)
            by (nonlinear_arith)
            requires -0x8000_0000 <= a <= 0x8000_0000, -0x8000_0000 <= b <= 0x8000_0000;
        narrow_i128(a as i128 * b as i128)
    } else if op == OP_DIV {
        if b == 0 {
            None
        } else {
            narrow_i128(divide_toward_zero(a, b) as i128)
        }
    } else {
        None
    }
}

/// Some cell of the rectangle is in error.
pub open spec fn rect_has_error(m: Lookup, start: Coord, end: Coord) -> bool {
    exists|c: Coord| in_rect(c, start, end) && (#[trigger] m(c)) is None
}

/// What cell `c` adds to a sum: its integer, or the square of it; nothing
/// for a cell in error.
pub open spec fn term(m: Lookup, c: Coord, squared: bool) -> int {
    match m(c) {
        Some(v) => if squared { v * v } else { v as int },
        None => 0,
    }
}

/// The sum of the terms of column `col` over the rows `lo..=hi`.
pub open spec fn column_sum(m: Lookup, col: int, lo: int, hi: int, squared: bool) -> int
    decreases hi - lo + 1,
{
    if hi < lo {
        0
    } else {
        column_sum(m, col, lo, hi - 1, squared) + term(m, (col as u16, hi as u16), squared)
    }
}

/// The sum of the terms of the columns `col_lo..=col_hi`, each over the
/// rows `row_lo..=row_hi`.
pub open spec fn block_sum(
    m: Lookup,
    col_lo: int,
    col_hi: int,
    row_lo: int,
    row_hi: int,
    squared: bool,
) -> int
    decreases col_hi - col_lo + 1,
{
    if col_hi < col_lo {
        0
    } else {
        block_sum(m, col_lo, col_hi - 1, row_lo, row_hi, squared) + column_sum(
            m,
            col_hi,
            row_lo,
            row_hi,
            squared,
        )
    }
}

/// The sum of the integers in the rectangle, or of their squares.
pub open spec fn rect_sum(m: Lookup, start: Coord, end: Coord, squared: bool) -> int {
    block_sum(m, start.0 as int, end.0 as int, start.1 as int, end.1 as int, squared)
}

/// `v` is the least integer in the rectangle.
pub open spec fn is_rect_min(m: Lookup, start: Coord, end: Coord, v: i32) -> bool {
    &&& exists|c: Coord| in_rect(c, start, end) && #[trigger] m(c) == Some(v)
    &&& forall|c: Coord| in_rect(c, start, end) && (#[trigger] m(c)) is Some ==> v <= m(c)->0
}

/// `v` is the greatest integer in the rectangle.
pub open spec fn is_rect_max(m: Lookup, start: Coord, end: Coord, v: i32) -> bool {
    &&& exists|c: Coord| in_rect(c, start, end) && #[trigger] m(c) == Some(v)
    &&& forall|c: Coord| in_rect(c, start, end) && (#[trigger] m(c)) is Some ==> v >= m(c)->0
}

/// `r` is the standard deviation of a population of `n` integers with sum
/// `sum` and sum of squares `sum_sq`, rounded to the nearest integer, a
/// tie going up.
///
/// With `d = n * sum_sq - sum * sum` the variance is `d / n²` and the
/// deviation `sqrt(d) / n`, so `r` is the integer with
/// `(2r - 1) n <= 2 sqrt(d) < (2r + 1) n`, stated here over squares.
pub open spec fn is_rounded_stdev(r: int, n: int, sum: int, sum_sq: int) -> bool {
    let d = n * sum_sq - sum * sum;
    &&& r >= 0
    &&& r == 0 || ((2 * r - 1) * n) * ((2 * r - 1) * n) <= 4 * d
    &&& 4 * d < ((2 * r + 1) * n) * ((2 * r + 1) * n)
}

/// The rounded standard deviation of `n` integers with the given sums.
pub open spec fn rounded_stdev(n: int, sum: int, sum_sq: int) -> int {
    choose|r: int| is_rounded_stdev(r, n, sum, sum_sq)
}

/// The least integer of the rectangle.
pub open spec fn range_min(m: Lookup, start: Coord, end: Coord) -> Option<i32> {
    if rect_has_error(m, start, end) {
        None
    } else if rect_is_empty(start, end) {
        Some(0i32)
    } else {
        Some(choose|v: i32| is_rect_min(m, start, end, v))
    }
}

/// The greatest integer of the rectangle.
pub open spec fn range_max(m: Lookup, start: Coord, end: Coord) -> Option<i32> {
    if rect_has_error(m, start, end) {
        None
    } else if rect_is_empty(start, end) {
        Some(0i32)
    } else {
        Some(choose|v: i32| is_rect_max(m, start, end, v))
    }
}

/// The sum of the integers of the rectangle.
pub open spec fn range_sum(m: Lookup, start: Coord, end: Coord) -> Option<i32> {
    if rect_has_error(m, start, end) {
        None
    } else {
        narrow(rect_sum(m, start, end, false))
    }
}

/// The mean of the integers of the rectangle, rounded to the nearest
/// integer, a tie going away from zero.
pub open spec fn range_avg(m: Lookup, start: Coord, end: Coord) -> Option<i32> {
    if rect_has_error(m, start, end) {
        None
    } else if rect_is_empty(start, end) {
        Some(0i32)
    } else {
        narrow(quotient_nearest(rect_sum(m, start, end, false), rect_size(start, end)))
    }
}

/// The standard deviation of the integers of the rectangle, taken as a
/// whole population, rounded to the nearest integer; 0 for fewer than two
/// cells.
pub open spec fn range_stdev(m: Lookup, start: Coord, end: Coord) -> Option<i32> {
    if rect_has_error(m, start, end) {
        None
    } else if rect_size(start, end) <= 1 {
        Some(0i32)
    } else {
        narrow(
            rounded_stdev(
                rect_size(start, end),
                rect_sum(m, start, end, false),
                rect_sum(m, start, end, true),
            ),
        )
    }
}

/// Two lookups that agree on a stretch of a column give it the same sum.
pub proof fn lemma_column_sum_agree(
    m1: Lookup,
    m2: Lookup,
    col: int,
    lo: int,
    hi: int,
    squared: bool,
)
    requires
        0 <= col <= u16::MAX,
        0 <= lo,
        hi <= u16::MAX,
        forall|c: Coord| c.0 == col && lo <= c.1 <= hi ==> #[trigger] m1(c) == m2(c),
    ensures
        column_sum(m1, col, lo, hi, squared) == column_sum(m2, col, lo, hi, squared),
    decreases hi - lo + 1,
{
    if hi >= lo {
        lemma_column_sum_agree(m1, m2, col, lo, hi - 1, squared);
        assert(m1((col as u16, hi as u16)) == m2((col as u16, hi as u16)));
    }
}

/// Two lookups that agree on a block of cells give it the same sum.
pub proof fn lemma_block_sum_agree(
    m1: Lookup,
    m2: Lookup,
    col_lo: int,
    col_hi: int,
    row_lo: int,
    row_hi: int,
    squared: bool,
)
    requires
        0 <= col_lo,
        col_hi <= u16::MAX,
        0 <= row_lo,
        row_hi <= u16::MAX,
        forall|c: Coord|
            col_lo <= c.0 <= col_hi && row_lo <= c.1 <= row_hi ==> #[trigger] m1(c) == m2(c),
    ensures
        block_sum(m1, col_lo, col_hi, row_lo, row_hi, squared) == block_sum(
            m2,
            col_lo,
            col_hi,
            row_lo,
            row_hi,
            squared,
        ),
    decreases col_hi - col_lo + 1,
{
    if col_hi >= col_lo {
        lemma_block_sum_agree(m1, m2, col_lo, col_hi - 1, row_lo, row_hi, squared);
        lemma_column_sum_agree(m1, m2, col_hi, row_lo, row_hi, squared);
    }
}

/// Two lookups that agree on a rectangle give it the same sums.
pub proof fn lemma_rect_sum_agree(m1: Lookup, m2: Lookup, start: Coord, end: Coord, squared: bool)
    requires
        forall|c: Coord| in_rect(c, start, end) ==> #[trigger] m1(c) == m2(c),
    ensures
        rect_sum(m1, start, end, squared) == rect_sum(m2, start, end, squared),
{
    lemma_block_sum_agree(
        m1,
        m2,
        start.0 as int,
        end.0 as int,
        start.1 as int,
        end.1 as int,
        squared,
    );
}

/// A rectangle has at most one least integer.
pub proof fn lemma_rect_min_unique(m: Lookup, start: Coord, end: Coord, v1: i32, v2: i32)
    requires
        is_rect_min(m, start, end, v1),
        is_rect_min(m, start, end, v2),
    ensures
        v1 == v2,
{
    let c1 = choose|c: Coord| in_rect(c, start, end) && #[trigger] m(c) == Some(v1);
    let c2 = choose|c: Coord| in_rect(c, start, end) && #[trigger] m(c) == Some(v2);
    assert(m(c1) is Some && m(c2) is Some);
}

/// A rectangle has at most one greatest integer.
pub proof fn lemma_rect_max_unique(m: Lookup, start: Coord, end: Coord, v1: i32, v2: i32)
    requires
        is_rect_max(m, start, end, v1),
        is_rect_max(m, start, end, v2),
    ensures
        v1 == v2,
{
    let c1 = choose|c: Coord| in_rect(c, start, end) && #[trigger] m(c) == Some(v1);
    let c2 = choose|c: Coord| in_rect(c, start, end) && #[trigger] m(c) == Some(v2);
    assert(m(c1) is Some && m(c2) is Some);
}

/// At most one integer is the rounded standard deviation of a population.
pub proof fn lemma_rounded_stdev_unique(r1: int, r2: int, n: int, sum: int, sum_sq: int)
    requires
        n > 0,
        is_rounded_stdev(r1, n, sum, sum_sq),
        is_rounded_stdev(r2, n, sum, sum_sq),
    ensures
        r1 == r2,
{
    if r1 < r2 {
        let a = (2 * r1 + 1) * n;
        let b = (2 * r2 - 1) * n;
        assert(0 <= a <= b) by (nonlinear_arith)
            requires a == (2 * r1 + 1) * n, b == (2 * r2 - 1) * n, 0 <= r1 < r2, n > 0;
        assert(a * a <= b * b) by (nonlinear_arith)
            requires 0 <= a <= b;
    } else if r2 < r1 {
        let a = (2 * r2 + 1) * n;
        let b = (2 * r1 - 1) * n;
        assert(0 <= a <= b) by (nonlinear_arith)
            requires a == (2 * r2 + 1) * n, b == (2 * r1 - 1) * n, 0 <= r2 < r1, n > 0;
        assert(a * a <= b * b) by (nonlinear_arith)
            requires 0 <= a <= b;
    }
}

/// The lookup `m` gives, for every cell of the rectangle, an answer that
/// `f` may return for that cell.
pub open spec fn answers<F: Fn(Coord) -> Option<i32>>(
    f: F,
    m: Lookup,
    start: Coord,
    end: Coord,
) -> bool {
    forall|c: Coord| in_rect(c, start, end) ==> call_ensures(f, (c,), #[trigger] m(c))
}

/// The lookup that answers from a record of cells read so far.
pub open spec fn table(seen: Map<Coord, Option<i32>>) -> Lookup {
    |c: Coord|
        if seen.dom().contains(c) {
            seen[c]
        } else {
            None
        }
}

/// Some recorded cell is in error.
pub open spec fn any_error(seen: Map<Coord, Option<i32>>) -> bool {
    exists|x: Coord| #[trigger] seen.dom().contains(x) && seen[x] is None
}

/// Some recorded cell holds `v`.
pub open spec fn records(seen: Map<Coord, Option<i32>>, v: i32) -> bool {
    exists|x: Coord| #[trigger] seen.dom().contains(x) && seen[x] == Some(v)
}

/// What one pass over a rectangle collects.
#[derive(Clone, Copy, Debug)]
pub struct RangeStats {
    /// Some cell was in error.
    pub failed: bool,
    /// The number of cells.
    pub count: u64,
    /// The sum of the integers read.
    pub sum: i128,
    /// The sum of their squares.
    pub sum_sq: u128,
    /// The least integer read.
    pub low: i32,
    /// The greatest integer read.
    pub high: i32,
}

impl RangeStats {
    /// The sums are within what `count` cells can add up to.
    pub open spec fn bounded(self) -> bool {
        &&& self.count <= 0x1_0000_0000
        &&& -(self.count * 0x8000_0000) <= self.sum <= self.count * 0x8000_0000
        &&& self.sum_sq <= self.count * 0x4000_0000_0000_0000
    }

    /// These are the figures of the rectangle under the lookup `m`.
    pub open spec fn describes(self, m: Lookup, start: Coord, end: Coord) -> bool {
        &&& self.bounded()
        &&& self.failed == rect_has_error(m, start, end)
        &&& self.count == rect_size(start, end)
        &&& self.sum == rect_sum(m, start, end, false)
        &&& self.sum_sq == rect_sum(m, start, end, true)
        &&& !self.failed && !rect_is_empty(start, end) ==> is_rect_min(m, start, end, self.low)
            && is_rect_max(m, start, end, self.high)
    }
}

/// Reads every cell of the rectangle once, column by column, and collects
/// the figures that the aggregates are made of.
pub fn scan_range<F: Fn(Coord) -> Option<i32>>(start: Coord, end: Coord, get_val: F) -> (st:
    RangeStats)
    requires
        forall|c: Coord| in_rect(c, start, end) ==> call_requires(get_val, (c,)),
    ensures
        exists|m: Lookup| answers(get_val, m, start, end) && st.describes(m, start, end),
{
    let mut st = RangeStats {
        failed: false,
        count: 0,
        sum: 0,
        sum_sq: 0,
        low: i32::MAX,
        high: i32::MIN,
    };
    let ghost mut seen: Map<Coord, Option<i32>> = Map::empty();
    if start.0 > end.0 || start.1 > end.1 {
        proof {
            let m = table(seen);
            assert(answers(get_val, m, start, end));
            assert(block_sum(m, start.0 as int, end.0 as int, start.1 as int, end.1 as int, false)
                == 0 && block_sum(
                m,
                start.0 as int,
                end.0 as int,
                start.1 as int,
                end.1 as int,
                true,
            ) == 0) by {
                lemma_block_sum_no_rows(m, start.0 as int, end.0 as int, start.1 as int, end.1 as int, false);
                lemma_block_sum_no_rows(m, start.0 as int, end.0 as int, start.1 as int, end.1 as int, true);
            }
            assert(st.describes(m, start, end));
        }
        return st;
    }
    let ghost height: int = end.1 - start.1 + 1;
    let mut c: u32 = start.0 as u32;
    while c <= end.0 as u32
        invariant
            start.0 <= c <= end.0 + 1,
            start.1 <= end.1,
            height == end.1 - start.1 + 1,
            forall|x: Coord| in_rect(x, start, end) ==> call_requires(get_val, (x,)),
            forall|x: Coord| #[trigger]
                seen.dom().contains(x) <==> in_rect(x, start, end) && x.0 < c,
            forall|x: Coord| #[trigger]
                seen.dom().contains(x) ==> call_ensures(get_val, (x,), seen[x]),
            st.failed == any_error(seen),
            st.count == (c - start.0) * height,
            st.bounded(),
            st.sum == block_sum(table(seen), start.0 as int, c - 1, start.1 as int, end.1 as int, false),
            st.sum_sq == block_sum(table(seen), start.0 as int, c - 1, start.1 as int, end.1 as int, true),
            forall|x: Coord| #[trigger]
                seen.dom().contains(x) && seen[x] is Some ==> st.low <= seen[x]->0 <= st.high,
            st.count > 0 && !st.failed ==> records(seen, st.low) && records(seen, st.high),
            st.count == 0 ==> st.low == i32::MAX && st.high == i32::MIN,
        decreases end.0 + 1 - c,
    {
        let mut r: u32 = start.1 as u32;
        proof {
            assert((c - start.0) * height <= 0xFFFF * 0x1_0000) by (nonlinear_arith)
                requires 0 <= c - start.0 <= 0xFFFF, 0 <= height <= 0x1_0000;
        }
        while r <= end.1 as u32
            invariant
                start.0 <= c <= end.0,
                start.1 <= r <= end.1 + 1,
                height == end.1 - start.1 + 1,
                forall|x: Coord| in_rect(x, start, end) ==> call_requires(get_val, (x,)),
                forall|x: Coord| #[trigger]
                    seen.dom().contains(x) <==> in_rect(x, start, end) && (x.0 < c || (x.0 == c
                        && x.1 < r)),
                forall|x: Coord| #[trigger]
                    seen.dom().contains(x) ==> call_ensures(get_val, (x,), seen[x]),
                st.failed == any_error(seen),
                st.count == (c - start.0) * height + (r - start.1),
                (c - start.0) * height <= 0xFFFF * 0x1_0000,
                st.bounded(),
                st.sum == block_sum(table(seen), start.0 as int, c - 1, start.1 as int, end.1 as int, false)
                    + column_sum(table(seen), c as int, start.1 as int, r - 1, false),
                st.sum_sq == block_sum(table(seen), start.0 as int, c - 1, start.1 as int, end.1 as int, true)
                    + column_sum(table(seen), c as int, start.1 as int, r - 1, true),
                forall|x: Coord| #[trigger]
                    seen.dom().contains(x) && seen[x] is Some ==> st.low <= seen[x]->0 <= st.high,
                st.count > 0 && !st.failed ==> records(seen, st.low) && records(seen, st.high),
                st.count == 0 ==> st.low == i32::MAX && st.high == i32::MIN,
            decreases end.1 + 1 - r,
        {
            let cell: Coord = (c as u16, r as u16);
            assert(in_rect(cell, start, end));
            let v = get_val(cell);
            let ghost before = seen;
            let ghost old_st = st;
            proof {
                seen = seen.insert(cell, v);
                lemma_block_sum_agree(table(before), table(seen), start.0 as int, c - 1, start.1 as int, end.1 as int, false);
                lemma_block_sum_agree(table(before), table(seen), start.0 as int, c - 1, start.1 as int, end.1 as int, true);
                lemma_column_sum_agree(table(before), table(seen), c as int, start.1 as int, r - 1, false);
                lemma_column_sum_agree(table(before), table(seen), c as int, start.1 as int, r - 1, true);
                assert(table(seen)(cell) == v);
            }
            st.count = st.count + 1;
            match v {
                Some(x) => {
                    assert(0 <= x * x <= 0x4000_0000_0000_0000) by (nonlinear_arith)
                        requires -0x8000_0000 <= x <= 0x7FFF_FFFF;
                    st.sum = st.sum + x as i128;
                    st.sum_sq = st.sum_sq + (x as i128 * x as i128) as u128;
                    if x < st.low {
                        st.low = x;
                    }
                    if x > st.high {
                        st.high = x;
                    }
                    proof {
                        assert(seen.dom().contains(cell));
                        if any_error(seen) {
                            let w = choose|w: Coord| #[trigger] seen.dom().contains(w) && seen[w] is None;
                            assert(before.dom().contains(w) && before[w] is None);
                        }
                        if any_error(before) {
                            let w = choose|w: Coord| #[trigger] before.dom().contains(w) && before[w] is None;
                            assert(seen.dom().contains(w) && seen[w] is None);
                        }
                        if !st.failed {
                            if st.low == x {
                                assert(seen.dom().contains(cell) && seen[cell] == Some(st.low));
                            } else {
                                let w = choose|w: Coord| #[trigger] before.dom().contains(w) && before[w] == Some(old_st.low);
                                assert(seen.dom().contains(w) && seen[w] == Some(st.low));
                            }
                            if st.high == x {
                                assert(seen.dom().contains(cell) && seen[cell] == Some(st.high));
                            } else {
                                let w = choose|w: Coord| #[trigger] before.dom().contains(w) && before[w] == Some(old_st.high);
                                assert(seen.dom().contains(w) && seen[w] == Some(st.high));
                            }
                        }
                    }
                },
                None => {
                    st.failed = true;
                    proof {
                        assert(seen.dom().contains(cell) && seen[cell] is None);
                    }
                },
            }
            r = r + 1;
        }
        proof {
            assert((c - start.0) * height + height == (c + 1 - start.0) * height)
                by (nonlinear_arith);
        }
        c = c + 1;
    }
    proof {
        let m = table(seen);
        assert(answers(get_val, m, start, end)) by {
            assert forall|x: Coord| in_rect(x, start, end) implies call_ensures(
                get_val,
                (x,),
                #[trigger] m(x),
            ) by {
                assert(seen.dom().contains(x));
            }
        }
        assert(st.failed == rect_has_error(m, start, end)) by {
            if any_error(seen) {
                let w = choose|w: Coord| #[trigger] seen.dom().contains(w) && seen[w] is None;
                assert(in_rect(w, start, end) && m(w) is None);
            }
            if rect_has_error(m, start, end) {
                let w = choose|w: Coord| in_rect(w, start, end) && (#[trigger] m(w)) is None;
                assert(seen.dom().contains(w) && seen[w] is None);
            }
        }
        assert((end.0 + 1 - start.0) * height == rect_size(start, end));
        assert((end.0 + 1 - start.0) * height > 0) by (nonlinear_arith)
            requires end.0 + 1 - start.0 > 0, height > 0;
        if !st.failed {
            let lo = choose|w: Coord| #[trigger] seen.dom().contains(w) && seen[w] == Some(st.low);
            assert(in_rect(lo, start, end) && m(lo) == Some(st.low));
            let hi = choose|w: Coord| #[trigger] seen.dom().contains(w) && seen[w] == Some(st.high);
            assert(in_rect(hi, start, end) && m(hi) == Some(st.high));
            assert forall|x: Coord| in_rect(x, start, end) && (#[trigger] m(x)) is Some implies st.low
                <= m(x)->0 <= st.high by {
                assert(seen.dom().contains(x));
            }
        }
        assert(st.describes(m, start, end));
    }
    st
}

/// A block without rows sums to 0.
pub proof fn lemma_block_sum_no_rows(
    m: Lookup,
    col_lo: int,
    col_hi: int,
    row_lo: int,
    row_hi: int,
    squared: bool,
)
    requires
        row_hi < row_lo || col_hi < col_lo,
    ensures
        block_sum(m, col_lo, col_hi, row_lo, row_hi, squared) == 0,
    decreases col_hi - col_lo + 1,
{
    if col_hi >= col_lo {
        lemma_block_sum_no_rows(m, col_lo, col_hi - 1, row_lo, row_hi, squared);
    }
}

/// The square root of `4 * d`, rounded down, from that of `d`.
fn sqrt_floor_of_fourfold(d: u128) -> (s: u128)
    requires
        d <= 0x4000_0000_0000_0000_0000_0000_0000_0000,
    ensures
        is_sqrt_floor(s as int, 4 * d),
        s <= 0x1_0000_0000_0000_0001,
{
    let t: u128 = sqrt_floor(d) as u128;
    assert(t <= 0x8000_0000_0000_0000) by (nonlinear_arith)
        requires t * t <= d, d <= 0x4000_0000_0000_0000_0000_0000_0000_0000, t >= 0;
    assert(t * t <= 0x4000_0000_0000_0000_0000_0000_0000_0000) by (nonlinear_arith)
        requires 0 <= t <= 0x8000_0000_0000_0000;
    let s: u128 = if d > t * t + t { 2 * t + 1 } else { 2 * t };
    assert(is_sqrt_floor(s as int, 4 * d)) by (nonlinear_arith)
        requires
            t * t <= d < (t + 1) * (t + 1),
            t >= 0,
            s == (if d > t * t + t { 2 * t + 1 } else { 2 * t }),
    ;
    s
}

/// The standard deviation, rounded to the nearest integer, of a population
/// of `n` integers with sum `sum` and sum of squares `sum_sq`.
pub fn stdev_of(n: u64, sum: i128, sum_sq: u128) -> (r: u128)
    requires
        1 <= n <= 0x1_0000_0000,
        -(n * 0x8000_0000) <= sum <= n * 0x8000_0000,
        sum_sq <= n * 0x4000_0000_0000_0000,
    ensures
        r == rounded_stdev(n as int, sum as int, sum_sq as int),
        is_rounded_stdev(r as int, n as int, sum as int, sum_sq as int),
{
    let wide_n: u128 = n as u128;
    let abs_sum: u128 = if sum < 0 { (-sum) as u128 } else { sum as u128 };
    assert(wide_n * sum_sq <= 0x4000_0000_0000_0000_0000_0000_0000_0000) by (nonlinear_arith)
        requires 0 <= wide_n <= 0x1_0000_0000, 0 <= sum_sq <= 0x4000_0000_0000_0000_0000_0000;
    assert(abs_sum * abs_sum <= 0x4000_0000_0000_0000_0000_0000_0000_0000) by (nonlinear_arith)
        requires 0 <= abs_sum <= 0x8000_0000_0000_0000;
    assert(abs_sum * abs_sum == sum * sum) by (nonlinear_arith)
        requires abs_sum == sum || abs_sum == -sum;
    let a: u128 = wide_n * sum_sq;
    let b: u128 = abs_sum * abs_sum;
    let r: u128;
    if a <= b {
        r = 0;
        proof {
            assert(0 < ((2 * 0 + 1) * n) * ((2 * 0 + 1) * n)) by (nonlinear_arith)
                requires n >= 1;
        }
    } else {
        let d: u128 = a - b;
        let s: u128 = sqrt_floor_of_fourfold(d);
        let twice: u128 = 2 * wide_n;
        r = (s + wide_n) / twice;
        proof {
            let x = (s + wide_n) as int;
            let y = twice as int;
            vstd::arithmetic::div_mod::lemma_fundamental_div_mod(x, y);
            vstd::arithmetic::div_mod::lemma_mod_bound(x, y);
            let lo = (2 * r - 1) * n;
            let hi = (2 * r + 1) * n;
            assert(y * (x / y) == 2 * r * n) by (nonlinear_arith)
                requires y == 2 * n, r == x / y;
            assert(lo == 2 * r * n - n && hi == 2 * r * n + n) by (nonlinear_arith)
                requires lo == (2 * r - 1) * n, hi == (2 * r + 1) * n;
            assert(lo <= s && s + 1 <= hi);
            if r >= 1 {
                assert(lo >= 0) by (nonlinear_arith)
                    requires lo == (2 * r - 1) * n, r >= 1, n >= 1;
                assert(lo * lo <= s * s) by (nonlinear_arith)
                    requires 0 <= lo <= s;
            }
            assert((s + 1) * (s + 1) <= hi * hi) by (nonlinear_arith)
                requires 0 <= s + 1 <= hi;
        }
    }
    proof {
        assert(is_rounded_stdev(r as int, n as int, sum as int, sum_sq as int));
        let other = rounded_stdev(n as int, sum as int, sum_sq as int);
        lemma_rounded_stdev_unique(r as int, other, n as int, sum as int, sum_sq as int);
    }
    r
}

/// The least integer in the rectangle from `start` to `end`.
///
/// `None` if `get_val` answers `None` for a cell; 0 for an empty rectangle.
pub fn min_range<F: Fn(Coord) -> Option<i32>>(start: Coord, end: Coord, get_val: F) -> (r: Option<
    i32,
>)
    requires
        forall|c: Coord| in_rect(c, start, end) ==> call_requires(get_val, (c,)),
    ensures
        exists|m: Lookup| answers(get_val, m, start, end) && r == range_min(m, start, end),
{
    let st = scan_range(start, end, get_val);
    let r = if st.failed {
        None
    } else if start.0 > end.0 || start.1 > end.1 {
        Some(0)
    } else {
        Some(st.low)
    };
    proof {
        let m = choose|m: Lookup| answers(get_val, m, start, end) && st.describes(m, start, end);
        if !st.failed && !rect_is_empty(start, end) {
            let v = choose|v: i32| is_rect_min(m, start, end, v);
            lemma_rect_min_unique(m, start, end, st.low, v);
        }
        assert(answers(get_val, m, start, end) && r == range_min(m, start, end));
    }
    r
}

/// The greatest integer in the rectangle from `start` to `end`.
///
/// `None` if `get_val` answers `None` for a cell; 0 for an empty rectangle.
pub fn max_range<F: Fn(Coord) -> Option<i32>>(start: Coord, end: Coord, get_val: F) -> (r: Option<
    i32,
>)
    requires
        forall|c: Coord| in_rect(c, start, end) ==> call_requires(get_val, (c,)),
    ensures
        exists|m: Lookup| answers(get_val, m, start, end) && r == range_max(m, start, end),
{
    let st = scan_range(start, end, get_val);
    let r = if st.failed {
        None
    } else if start.0 > end.0 || start.1 > end.1 {
        Some(0)
    } else {
        Some(st.high)
    };
    proof {
        let m = choose|m: Lookup| answers(get_val, m, start, end) && st.describes(m, start, end);
        if !st.failed && !rect_is_empty(start, end) {
            let v = choose|v: i32| is_rect_max(m, start, end, v);
            lemma_rect_max_unique(m, start, end, st.high, v);
        }
        assert(answers(get_val, m, start, end) && r == range_max(m, start, end));
    }
    r
}

/// The mean of the integers in the rectangle from `start` to `end`,
/// rounded to the nearest integer, a tie going away from zero.
///
/// `None` if `get_val` answers `None` for a cell; 0 for an empty rectangle.
pub fn avg_range<F: Fn(Coord) -> Option<i32>>(start: Coord, end: Coord, get_val: F) -> (r: Option<
    i32,
>)
    requires
        forall|c: Coord| in_rect(c, start, end) ==> call_requires(get_val, (c,)),
    ensures
        exists|m: Lookup| answers(get_val, m, start, end) && r == range_avg(m, start, end),
{
    let st = scan_range(start, end, get_val);
    let r = if st.failed {
        None
    } else if start.0 > end.0 || start.1 > end.1 {
        Some(0)
    } else {
        proof {
            assert(rect_size(start, end) > 0) by (nonlinear_arith)
                requires
                    rect_size(start, end) == (end.0 - start.0 + 1) * (end.1 - start.1 + 1),
                    end.0 - start.0 + 1 > 0,
                    end.1 - start.1 + 1 > 0,
            ;
        }
        narrow_i128(divide_nearest(st.sum, st.count))
    };
    proof {
        let m = choose|m: Lookup| answers(get_val, m, start, end) && st.describes(m, start, end);
        assert(answers(get_val, m, start, end) && r == range_avg(m, start, end));
    }
    r
}

/// The sum of the integers in the rectangle from `start` to `end`.
///
/// `None` if `get_val` answers `None` for a cell, or if the sum does not
/// fit in 32 bits; 0 for an empty rectangle.
pub fn sum_range<F: Fn(Coord) -> Option<i32>>(start: Coord, end: Coord, get_val: F) -> (r: Option<
    i32,
>)
    requires
        forall|c: Coord| in_rect(c, start, end) ==> call_requires(get_val, (c,)),
    ensures
        exists|m: Lookup| answers(get_val, m, start, end) && r == range_sum(m, start, end),
{
    let st = scan_range(start, end, get_val);
    let r = if st.failed {
        None
    } else {
        narrow_i128(st.sum)
    };
    proof {
        let m = choose|m: Lookup| answers(get_val, m, start, end) && st.describes(m, start, end);
        assert(answers(get_val, m, start, end) && r == range_sum(m, start, end));
    }
    r
}

/// The standard deviation of the integers in the rectangle from `start`
/// to `end`, taken as a whole population (the variance divides by the
/// number of cells), rounded to the nearest integer.
///
/// `None` if `get_val` answers `None` for a cell, or if the result does
/// not fit in 32 bits; 0 for a rectangle of fewer than two cells.
pub fn stdev_range<F: Fn(Coord) -> Option<i32>>(start: Coord, end: Coord, get_val: F) -> (r:
    Option<i32>)
    requires
        forall|c: Coord| in_rect(c, start, end) ==> call_requires(get_val, (c,)),
    ensures
        exists|m: Lookup| answers(get_val, m, start, end) && r == range_stdev(m, start, end),
{
    let st = scan_range(start, end, get_val);
    let r = if st.failed {
        None
    } else if st.count <= 1 {
        Some(0)
    } else {
        let dev: u128 = stdev_of(st.count, st.sum, st.sum_sq);
        if dev > 2147483647 {
            None
        } else {
            Some(dev as i32)
        }
    };
    proof {
        let m = choose|m: Lookup| answers(get_val, m, start, end) && st.describes(m, start, end);
        assert(answers(get_val, m, start, end) && r == range_stdev(m, start, end));
    }
    r
}

/// The aggregates over a rectangle of cells.
#[derive(Clone, Copy, Debug, PartialEq, Eq, Structural)]
pub enum RangeFn {
    Min,
    Max,
    Avg,
    Sum,
    Stdev,
}

/// The value of the aggregate `func` over the rectangle.
pub open spec fn range_value(func: RangeFn, m: Lookup, start: Coord, end: Coord) -> Option<i32> {
    match func {
        RangeFn::Min => range_min(m, start, end),
        RangeFn::Max => range_max(m, start, end),
        RangeFn::Avg => range_avg(m, start, end),
        RangeFn::Sum => range_sum(m, start, end),
        RangeFn::Stdev => range_stdev(m, start, end),
    }
}

/// The aggregate that `name` names, whatever the case of its letters.
pub open spec fn range_fn_named(name: Seq<char>) -> Option<RangeFn> {
    if same_word(name, "MIN"@) {
        Some(RangeFn::Min)
    } else if same_word(name, "MAX"@) {
        Some(RangeFn::Max)
    } else if same_word(name, "AVG"@) {
        Some(RangeFn::Avg)
    } else if same_word(name, "SUM"@) {
        Some(RangeFn::Sum)
    } else if same_word(name, "STDEV"@) {
        Some(RangeFn::Stdev)
    } else {
        None
    }
}

/// Evaluates the aggregate `func` over the rectangle from `start` to `end`.
pub fn eval_range_fn<F: Fn(Coord) -> Option<i32>>(
    func: RangeFn,
    start: Coord,
    end: Coord,
    get_val: F,
) -> (r: Option<i32>)
    requires
        forall|c: Coord| in_rect(c, start, end) ==> call_requires(get_val, (c,)),
    ensures
        exists|m: Lookup| answers(get_val, m, start, end) && r == range_value(func, m, start, end),
{
    let r = match func {
        RangeFn::Min => min_range(start, end, get_val),
        RangeFn::Max => max_range(start, end, get_val),
        RangeFn::Avg => avg_range(start, end, get_val),
        RangeFn::Sum => sum_range(start, end, get_val),
        RangeFn::Stdev => stdev_range(start, end, get_val),
    };
    proof {
        let m = match func {
            RangeFn::Min => choose|m: Lookup|
                answers(get_val, m, start, end) && r == range_min(m, start, end),
            RangeFn::Max => choose|m: Lookup|
                answers(get_val, m, start, end) && r == range_max(m, start, end),
            RangeFn::Avg => choose|m: Lookup|
                answers(get_val, m, start, end) && r == range_avg(m, start, end),
            RangeFn::Sum => choose|m: Lookup|
                answers(get_val, m, start, end) && r == range_sum(m, start, end),
            RangeFn::Stdev => choose|m: Lookup|
                answers(get_val, m, start, end) && r == range_stdev(m, start, end),
        };
        assert(answers(get_val, m, start, end) && r == range_value(func, m, start, end));
    }
    r
}

/// Evaluates the function named `func` over the cells from `start` to
/// `end`; the name may be in either case.
///
/// `SLEEP` hands back what `get_val` answers for `start`, and leaves the
/// waiting to the caller: a positive answer is the number of seconds owed.
/// A name that names no function gives `None`.
pub fn eval_range<F: Fn(Coord) -> Option<i32>>(
    func: &str,
    start: Coord,
    end: Coord,
    get_val: F,
) -> (r: Option<i32>)
    requires
        call_requires(get_val, (start,)),
        forall|c: Coord| in_rect(c, start, end) ==> call_requires(get_val, (c,)),
    ensures
        same_word(func@, "SLEEP"@) ==> call_ensures(get_val, (start,), r),
        !same_word(func@, "SLEEP"@) ==> match range_fn_named(func@) {
            Some(k) => exists|m: Lookup|
                answers(get_val, m, start, end) && r == range_value(k, m, start, end),
            None => r is None,
        },
{
    let name: Vec<char> = chars_of(func);
    if is_word(name.as_slice(), "SLEEP") {
        get_val(start)
    } else if is_word(name.as_slice(), "MIN") {
        eval_range_fn(RangeFn::Min, start, end, get_val)
    } else if is_word(name.as_slice(), "MAX") {
        eval_range_fn(RangeFn::Max, start, end, get_val)
    } else if is_word(name.as_slice(), "AVG") {
        eval_range_fn(RangeFn::Avg, start, end, get_val)
    } else if is_word(name.as_slice(), "SUM") {
        eval_range_fn(RangeFn::Sum, start, end, get_val)
    } else if is_word(name.as_slice(), "STDEV") {
        eval_range_fn(RangeFn::Stdev, start, end, get_val)
    } else {
        None
    }
}

/// An aggregate depends on nothing but the cells of its rectangle: two
/// lookups that agree there give the same value.
pub proof fn lemma_range_value_agree(
    func: RangeFn,
    m1: Lookup,
    m2: Lookup,
    start: Coord,
    end: Coord,
)
    requires
        forall|c: Coord| in_rect(c, start, end) ==> #[trigger] m1(c) == m2(c),
    ensures
        range_value(func, m1, start, end) == range_value(func, m2, start, end),
{
    lemma_rect_sum_agree(m1, m2, start, end, false);
    lemma_rect_sum_agree(m1, m2, start, end, true);
    assert(rect_has_error(m1, start, end) == rect_has_error(m2, start, end)) by {
        if rect_has_error(m1, start, end) {
            let c = choose|c: Coord| in_rect(c, start, end) && (#[trigger] m1(c)) is None;
            assert(in_rect(c, start, end) && m2(c) is None);
        }
        if rect_has_error(m2, start, end) {
            let c = choose|c: Coord| in_rect(c, start, end) && (#[trigger] m2(c)) is None;
            assert(m1(c) == m2(c));
            assert(in_rect(c, start, end) && m1(c) is None);
        }
    }
    if !rect_has_error(m1, start, end) && !rect_is_empty(start, end) {
        lemma_rect_extremes_exist(m1, start, end);
        let lo1 = choose|v: i32| is_rect_min(m1, start, end, v);
        let hi1 = choose|v: i32| is_rect_max(m1, start, end, v);
        assert(is_rect_min(m2, start, end, lo1)) by {
            let c = choose|c: Coord| in_rect(c, start, end) && #[trigger] m1(c) == Some(lo1);
            assert(in_rect(c, start, end) && m2(c) == Some(lo1));
            assert forall|c: Coord| in_rect(c, start, end) && (#[trigger] m2(c)) is Some implies lo1
                <= m2(c)->0 by {
                assert(m1(c) == m2(c));
            }
        }
        assert(is_rect_max(m2, start, end, hi1)) by {
            let c = choose|c: Coord| in_rect(c, start, end) && #[trigger] m1(c) == Some(hi1);
            assert(in_rect(c, start, end) && m2(c) == Some(hi1));
            assert forall|c: Coord| in_rect(c, start, end) && (#[trigger] m2(c)) is Some implies hi1
                >= m2(c)->0 by {
                assert(m1(c) == m2(c));
            }
        }
        let lo2 = choose|v: i32| is_rect_min(m2, start, end, v);
        let hi2 = choose|v: i32| is_rect_max(m2, start, end, v);
        lemma_rect_min_unique(m2, start, end, lo1, lo2);
        lemma_rect_max_unique(m2, start, end, hi1, hi2);
    }
}

/// A rectangle that is not empty and holds no error has a least and a
/// greatest integer.
pub proof fn lemma_rect_extremes_exist(m: Lookup, start: Coord, end: Coord)
    requires
        !rect_is_empty(start, end),
        !rect_has_error(m, start, end),
    ensures
        exists|v: i32| is_rect_min(m, start, end, v),
        exists|v: i32| is_rect_max(m, start, end, v),
{
    assert forall|c: Coord| in_rect(c, start, end) implies (#[trigger] m(c))->0 >= i32::MIN by {}
    assert forall|c: Coord| in_rect(c, start, end) implies (#[trigger] m(c))->0 <= i32::MAX by {}
    lemma_min_from(m, start, end, i32::MIN as int);
    lemma_max_from(m, start, end, i32::MAX as int);
}

/// A rectangle whose integers are all at least `bound` has a least one.
proof fn lemma_min_from(m: Lookup, start: Coord, end: Coord, bound: int)
    requires
        !rect_is_empty(start, end),
        !rect_has_error(m, start, end),
        i32::MIN <= bound <= i32::MAX,
        forall|c: Coord| in_rect(c, start, end) ==> (#[trigger] m(c))->0 >= bound,
    ensures
        exists|v: i32| is_rect_min(m, start, end, v),
    decreases i32::MAX - bound,
{
    assert(in_rect(start, start, end));
    assert(m(start) is Some);
    if exists|c: Coord| in_rect(c, start, end) && #[trigger] m(c) == Some(bound as i32) {
        assert(is_rect_min(m, start, end, bound as i32));
    } else {
        assert(bound < i32::MAX) by {
            assert(m(start)->0 >= bound);
            assert(m(start) != Some(bound as i32));
        }
        assert forall|c: Coord| in_rect(c, start, end) implies (#[trigger] m(c))->0 >= bound
            + 1 by {
            assert(m(c) is Some);
            assert(m(c) != Some(bound as i32));
        }
        lemma_min_from(m, start, end, bound + 1);
    }
}

/// A rectangle whose integers are all at most `bound` has a greatest one.
proof fn lemma_max_from(m: Lookup, start: Coord, end: Coord, bound: int)
    requires
        !rect_is_empty(start, end),
        !rect_has_error(m, start, end),
        i32::MIN <= bound <= i32::MAX,
        forall|c: Coord| in_rect(c, start, end) ==> (#[trigger] m(c))->0 <= bound,
    ensures
        exists|v: i32| is_rect_max(m, start, end, v),
    decreases bound - i32::MIN,
{
    assert(in_rect(start, start, end));
    assert(m(start) is Some);
    if exists|c: Coord| in_rect(c, start, end) && #[trigger] m(c) == Some(bound as i32) {
        assert(is_rect_max(m, start, end, bound as i32));
    } else {
        assert(bound > i32::MIN) by {
            assert(m(start)->0 <= bound);
            assert(m(start) != Some(bound as i32));
        }
        assert forall|c: Coord| in_rect(c, start, end) implies (#[trigger] m(c))->0 <= bound
            - 1 by {
            assert(m(c) is Some);
            assert(m(c) != Some(bound as i32));
        }
        lemma_max_from(m, start, end, bound - 1);
    }
}

} // verus!
