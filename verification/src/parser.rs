//! Reading the text of a formula.
//!
//! After the blanks around it are dropped, a formula is one of:
//! - `SLEEP(x)`, where `x` is an integer or the name of a cell;
//! - two operands with one of `+ - * /` between them, each operand an
//!   integer or the name of a cell;
//! - `MIN`, `MAX`, `AVG`, `SUM` or `STDEV` applied to two cell names with a
//!   colon between them;
//! - the name of a cell;
//! - an integer.
//! An integer is a run of digits that may follow a sign. The name of a cell
//! is a run of letters, in either case, and then a run of digits; blanks
//! may stand around it. Anything else is not recognised.

use vstd::prelude::*;
use vstd::slice::slice_subrange;
use vstd::string::StrSliceExecFns;
use crate::arith::narrow;
use crate::coords::{high_corner, low_corner, normalize_corners, Coord};
use crate::formula::{BinOp, Formula, Operand};
use crate::function::RangeFn;
use crate::text::{
    all_blank, all_digits, base26, blank, chars_of, decimal, find_char, first_nonblank,
    first_of, is_blank, letter_run, letter_run_end, read_base26, read_decimal, starts_with, trim,
    trimmed,
};

verus! {

/// The integer that `s` writes: a run of digits after an optional sign,
/// with a value that fits in 32 bits.
pub open spec fn literal_value(s: Seq<char>) -> Option<i32> {
    if s.len() > 0 && s[0] == '-' {
        let body = s.drop_first();
        if body.len() > 0 && all_digits(body) {
            narrow(-decimal(body))
        } else {
            None
        }
    } else {
        let body = if s.len() > 0 && s[0] == '+' {
            s.drop_first()
        } else {
            s
        };
        if body.len() > 0 && all_digits(body) {
            narrow(decimal(body))
        } else {
            None
        }
    }
}

/// The cell that `s` names, as (column, row): between blanks, a run of
/// letters that gives the column (`A` is 1, `Z` is 26, `AA` is 27) and a
/// run of digits that gives the row, each at most 65535.
pub open spec fn cell_name_value(s: Seq<char>) -> Option<Coord> {
    let t = trimmed(s);
    let k = letter_run_end(t, 0);
    let letters = t.take(k);
    let digits = t.skip(k);
    if k > 0 && digits.len() > 0 && all_digits(digits) && base26(letters) <= u16::MAX && decimal(
        digits,
    ) <= u16::MAX {
        Some((base26(letters) as u16, decimal(digits) as u16))
    } else {
        None
    }
}

/// The operand that `s` writes: an integer, or else the name of a cell.
pub open spec fn operand_of_text(s: Seq<char>) -> Option<Operand> {
    match literal_value(s) {
        Some(v) => Some(Operand::Literal(v)),
        None => match cell_name_value(s) {
            Some(c) => Some(Operand::Ref(c)),
            None => None,
        },
    }
}

/// `c` is one of the four operators.
pub open spec fn is_operator(c: char) -> bool {
    c == '+' || c == '-' || c == '*' || c == '/'
}

/// The operator that `c` writes.
pub open spec fn operator_of(c: char) -> BinOp {
    if c == '+' {
        BinOp::Add
    } else if c == '-' {
        BinOp::Sub
    } else if c == '*' {
        BinOp::Mul
    } else {
        BinOp::Div
    }
}

/// The place of the first operator in `s` at or after `from`, or the
/// length of `s` if there is none.
pub open spec fn first_operator(s: Seq<char>, from: int) -> int
    decreases s.len() - from,
{
    if from >= s.len() {
        s.len() as int
    } else if is_operator(s[from]) {
        from
    } else {
        first_operator(s, from + 1)
    }
}

/// Where a binary expression splits: at the first operator that has
/// something other than blanks before it. An operator at the very start
/// is the sign of the left operand.
pub open spec fn split_place(s: Seq<char>) -> int {
    first_operator(s, first_nonblank(s, 0) + 1)
}

/// The operator of `s` and the text on either side of it, if `s` has an
/// operator with something other than blanks on both sides.
pub open spec fn split_text(s: Seq<char>) -> Option<(char, Seq<char>, Seq<char>)> {
    let i = split_place(s);
    if i < s.len() && !all_blank(s.skip(i + 1)) {
        Some((s[i], s.take(i), s.skip(i + 1)))
    } else {
        None
    }
}

/// What stands between the brackets, if `t` is `name`, an opening bracket,
/// anything, and a closing bracket.
pub open spec fn call_argument(t: Seq<char>, name: Seq<char>) -> Option<Seq<char>> {
    let n = name.len() as int;
    if t.len() >= n + 2 && t.take(n) == name && t[n] == '(' && t.last() == ')' {
        Some(t.subrange(n + 1, t.len() - 1))
    } else {
        None
    }
}

/// The rectangle that `inner` writes as two cell names with a colon
/// between them, its corners put in order: low first, then high.
pub open spec fn corners_of_text(inner: Seq<char>) -> Option<(Coord, Coord)> {
    let k = first_of(inner, ':', 0);
    if k < inner.len() {
        match (cell_name_value(inner.take(k)), cell_name_value(inner.skip(k + 1))) {
            (Some(a), Some(b)) => Some((low_corner(a, b), high_corner(a, b))),
            _ => None,
        }
    } else {
        None
    }
}

/// The rectangle of a call of `name` on a range, if `t` is one.
pub open spec fn range_call(t: Seq<char>, name: Seq<char>) -> Option<(Coord, Coord)> {
    match call_argument(t, name) {
        Some(inner) => corners_of_text(inner),
        None => None,
    }
}

/// The function and the rectangle of a call on a range: the first of
/// `MIN`, `MAX`, `AVG`, `SUM`, `STDEV` and `SLEEP` of which `s`, without
/// the blanks around it, is a call.
pub open spec fn range_call_of_text(s: Seq<char>) -> Option<(Seq<char>, Coord, Coord)> {
    let t = trimmed(s);
    if let Some(r) = range_call(t, "MIN"@) {
        Some(("MIN"@, r.0, r.1))
    } else if let Some(r) = range_call(t, "MAX"@) {
        Some(("MAX"@, r.0, r.1))
    } else if let Some(r) = range_call(t, "AVG"@) {
        Some(("AVG"@, r.0, r.1))
    } else if let Some(r) = range_call(t, "SUM"@) {
        Some(("SUM"@, r.0, r.1))
    } else if let Some(r) = range_call(t, "STDEV"@) {
        Some(("STDEV"@, r.0, r.1))
    } else if let Some(r) = range_call(t, "SLEEP"@) {
        Some(("SLEEP"@, r.0, r.1))
    } else {
        None
    }
}

/// The aggregate over a rectangle that `t` writes.
pub open spec fn aggregate_of_text(t: Seq<char>) -> Option<Formula> {
    if let Some(r) = range_call(t, "MIN"@) {
        Some(Formula::Range { func: RangeFn::Min, start: r.0, end: r.1 })
    } else if let Some(r) = range_call(t, "MAX"@) {
        Some(Formula::Range { func: RangeFn::Max, start: r.0, end: r.1 })
    } else if let Some(r) = range_call(t, "AVG"@) {
        Some(Formula::Range { func: RangeFn::Avg, start: r.0, end: r.1 })
    } else if let Some(r) = range_call(t, "SUM"@) {
        Some(Formula::Range { func: RangeFn::Sum, start: r.0, end: r.1 })
    } else if let Some(r) = range_call(t, "STDEV"@) {
        Some(Formula::Range { func: RangeFn::Stdev, start: r.0, end: r.1 })
    } else {
        None
    }
}

/// The binary expression that the two sides and the operator make.
pub open spec fn binary_of_text(op: char, lhs: Seq<char>, rhs: Seq<char>) -> Option<Formula> {
    match (operand_of_text(lhs), operand_of_text(rhs)) {
        (Some(a), Some(b)) => Some(Formula::Binary { op: operator_of(op), lhs: a, rhs: b }),
        _ => None,
    }
}

/// The formula that `s` writes, or nothing where `s` is not recognised.
///
/// `SLEEP` takes an integer or one cell, never a range. A text with an
/// operator that has something on both sides is a binary expression or
/// nothing.
pub open spec fn formula_of_text(s: Seq<char>) -> Option<Formula> {
    let t = trimmed(s);
    if let Some(inner) = call_argument(t, "SLEEP"@) {
        match operand_of_text(inner) {
            Some(arg) => Some(Formula::Sleep(arg)),
            None => None,
        }
    } else if let Some(parts) = split_text(t) {
        binary_of_text(parts.0, parts.1, parts.2)
    } else if let Some(f) = aggregate_of_text(t) {
        Some(f)
    } else if let Some(c) = cell_name_value(t) {
        Some(Formula::Ref(c))
    } else if let Some(v) = literal_value(t) {
        Some(Formula::Literal(v))
    } else {
        None
    }
}

/// Reads an integer.
pub fn read_literal(s: &[char]) -> (r: Option<i32>)
    ensures
        r == literal_value(s@),
{
    let n: usize = s.len();
    if n > 0 && s[0] == '-' {
        let body = slice_subrange(s, 1, n);
        assert(body@ =~= s@.drop_first());
        match read_decimal(body, 0x8000_0000) {
            Some(v) => Some((-(v as i64)) as i32),
            None => None,
        }
    } else {
        let body = if n > 0 && s[0] == '+' {
            slice_subrange(s, 1, n)
        } else {
            s
        };
        assert(n > 0 && s@[0] == '+' ==> body@ =~= s@.drop_first());
        match read_decimal(body, 0x7FFF_FFFF) {
            Some(v) => Some(v as i32),
            None => None,
        }
    }
}

/// Reads the name of a cell.
pub fn read_cell_name(s: &[char]) -> (r: Option<Coord>)
    ensures
        r == cell_name_value(s@),
{
    let t = trim(s);
    let k: usize = letter_run(t);
    let letters = slice_subrange(t, 0, k);
    let digits = slice_subrange(t, k, t.len());
    assert(letters@ =~= t@.take(k as int));
    assert(digits@ =~= t@.skip(k as int));
    if k == 0 {
        return None;
    }
    match read_decimal(digits, 0xFFFF) {
        None => None,
        Some(row) => match read_base26(letters, 0xFFFF) {
            None => None,
            Some(col) => Some((col as u16, row as u16)),
        },
    }
}

/// Reads an operand: an integer, or else the name of a cell.
pub fn read_operand(s: &[char]) -> (r: Option<Operand>)
    ensures
        r == operand_of_text(s@),
{
    match read_literal(s) {
        Some(v) => Some(Operand::Literal(v)),
        None => match read_cell_name(s) {
            Some(c) => Some(Operand::Ref(c)),
            None => None,
        },
    }
}

/// Whether `c` is one of the four operators.
pub fn operator(c: char) -> (r: bool)
    ensures
        r == is_operator(c),
{
    c == '+' || c == '-' || c == '*' || c == '/'
}

/// The operator that `c` writes.
pub fn to_operator(c: char) -> (op: BinOp)
    ensures
        op == operator_of(c),
{
    if c == '+' {
        BinOp::Add
    } else if c == '-' {
        BinOp::Sub
    } else if c == '*' {
        BinOp::Mul
    } else {
        BinOp::Div
    }
}

/// Whether every character of `s` is a blank.
pub fn is_all_blank(s: &[char]) -> (r: bool)
    ensures
        r == all_blank(s@),
{
    let n: usize = s.len();
    let mut i: usize = 0;
    while i < n
        invariant
            i <= n,
            n == s@.len(),
            forall|j: int| 0 <= j < i ==> is_blank(#[trigger] s@[j]),
        decreases n - i,
    {
        if !blank(s[i]) {
            return false;
        }
        i = i + 1;
    }
    true
}

/// Finds where a binary expression splits: the place of its operator, if
/// there is something other than blanks on both sides of it.
pub fn find_split(s: &[char]) -> (r: Option<usize>)
    ensures
        r matches Some(i) ==> i < s@.len() && split_text(s@) == Some(
            (s@[i as int], s@.take(i as int), s@.skip(i + 1)),
        ),
        r is None ==> split_text(s@) is None,
{
    let n: usize = s.len();
    let mut a: usize = 0;
    while a < n && blank(s[a])
        invariant
            a <= n,
            n == s@.len(),
            first_nonblank(s@, 0) == first_nonblank(s@, a as int),
        decreases n - a,
    {
        a = a + 1;
    }
    if a >= n {
        return None;
    }
    let mut i: usize = a + 1;
    while i < n && !operator(s[i])
        invariant
            a + 1 <= i <= n,
            n == s@.len(),
            first_operator(s@, a + 1) == first_operator(s@, i as int),
        decreases n - i,
    {
        i = i + 1;
    }
    if i >= n {
        return None;
    }
    let rest = slice_subrange(s, i + 1, n);
    assert(rest@ =~= s@.skip(i + 1));
    if is_all_blank(rest) {
        None
    } else {
        Some(i)
    }
}

/// What stands between the brackets, if `t` is `name`, an opening bracket,
/// anything, and a closing bracket.
pub fn read_call<'a>(t: &'a [char], name: &str) -> (r: Option<&'a [char]>)
    ensures
        match r {
            Some(inner) => call_argument(t@, name@) == Some(inner@),
            None => call_argument(t@, name@) is None,
        },
{
    let word: Vec<char> = chars_of(name);
    let n: usize = word.len();
    let len: usize = t.len();
    if len < 2 || len - 2 < n {
        return None;
    }
    if starts_with(t, word.as_slice()) && t[n] == '(' && t[len - 1] == ')' {
        Some(slice_subrange(t, n + 1, len - 1))
    } else {
        None
    }
}

/// Reads two cell names with a colon between them as the corners of a
/// rectangle, and puts them in order.
pub fn read_corners(inner: &[char]) -> (r: Option<(Coord, Coord)>)
    ensures
        r == corners_of_text(inner@),
{
    let k: usize = find_char(inner, ':');
    if k >= inner.len() {
        return None;
    }
    let left = slice_subrange(inner, 0, k);
    let right = slice_subrange(inner, k + 1, inner.len());
    assert(left@ =~= inner@.take(k as int));
    assert(right@ =~= inner@.skip(k + 1));
    match read_cell_name(left) {
        None => None,
        Some(a) => match read_cell_name(right) {
            None => None,
            Some(b) => Some(normalize_corners(a, b)),
        },
    }
}

/// Reads `t` as a call of `name` on a range.
pub fn read_range_call(t: &[char], name: &str) -> (r: Option<(Coord, Coord)>)
    ensures
        r == range_call(t@, name@),
{
    match read_call(t, name) {
        Some(inner) => read_corners(inner),
        None => None,
    }
}

/// Reads `t` as an aggregate over a rectangle.
pub fn read_aggregate(t: &[char]) -> (r: Option<Formula>)
    ensures
        r == aggregate_of_text(t@),
{
    if let Some(c) = read_range_call(t, "MIN") {
        Some(Formula::Range { func: RangeFn::Min, start: c.0, end: c.1 })
    } else if let Some(c) = read_range_call(t, "MAX") {
        Some(Formula::Range { func: RangeFn::Max, start: c.0, end: c.1 })
    } else if let Some(c) = read_range_call(t, "AVG") {
        Some(Formula::Range { func: RangeFn::Avg, start: c.0, end: c.1 })
    } else if let Some(c) = read_range_call(t, "SUM") {
        Some(Formula::Range { func: RangeFn::Sum, start: c.0, end: c.1 })
    } else if let Some(c) = read_range_call(t, "STDEV") {
        Some(Formula::Range { func: RangeFn::Stdev, start: c.0, end: c.1 })
    } else {
        None
    }
}

/// Reads the two sides of an operator as a binary expression.
pub fn read_binary(op: char, lhs: &[char], rhs: &[char]) -> (r: Option<Formula>)
    ensures
        r == binary_of_text(op, lhs@, rhs@),
{
    match read_operand(lhs) {
        None => None,
        Some(a) => match read_operand(rhs) {
            None => None,
            Some(b) => Some(Formula::Binary { op: to_operator(op), lhs: a, rhs: b }),
        },
    }
}

/// Classifies the text of a formula.
pub fn read_formula(s: &[char]) -> (r: Option<Formula>)
    ensures
        r == formula_of_text(s@),
{
    let t = trim(s);
    if let Some(inner) = read_call(t, "SLEEP") {
        return match read_operand(inner) {
            Some(arg) => Some(Formula::Sleep(arg)),
            None => None,
        };
    }
    if let Some(i) = find_split(t) {
        let n: usize = t.len();
        let lhs = slice_subrange(t, 0, i);
        let rhs = slice_subrange(t, i + 1, n);
        assert(lhs@ =~= t@.take(i as int));
        assert(rhs@ =~= t@.skip(i + 1));
        return read_binary(t[i], lhs, rhs);
    }
    if let Some(f) = read_aggregate(t) {
        return Some(f);
    }
    if let Some(c) = read_cell_name(t) {
        return Some(Formula::Ref(c));
    }
    match read_literal(t) {
        Some(v) => Some(Formula::Literal(v)),
        None => None,
    }
}

/// The reader of formulas and cell names.
pub struct Parser;

impl Parser {
    /// Reads the name of a cell, such as `B12`, as (column, row).
    ///
    /// Blanks around the name are dropped. The letters may be in either
    /// case. `None` if `s` is no run of letters followed by a run of
    /// digits, or if the column or the row exceeds 65535.
    pub fn cell_name_to_coord(s: &str) -> (r: Option<(u16, u16)>)
        ensures
            r == cell_name_value(s@),
    {
        let text: Vec<char> = chars_of(s);
        read_cell_name(text.as_slice())
    }

    /// Splits a binary expression at its operator into the operator and
    /// the text on either side of it.
    ///
    /// The operator is the first of `+ - * /` in `expr` that has something
    /// other than blanks before it. `None` if there is none, or if only
    /// blanks follow it.
    pub fn split_binary(expr: &str) -> (r: Option<(char, &str, &str)>)
        ensures
            match r {
                Some((op, lhs, rhs)) => split_text(expr@) == Some((op, lhs@, rhs@)),
                None => split_text(expr@) is None,
            },
    {
        let text: Vec<char> = chars_of(expr);
        match find_split(text.as_slice()) {
            Some(i) => {
                let n: usize = text.len();
                let lhs = expr.substring_char(0, i);
                let rhs = expr.substring_char(i + 1, n);
                assert(lhs@ =~= expr@.take(i as int));
                assert(rhs@ =~= expr@.skip(i + 1));
                Some((text[i], lhs, rhs))
            },
            None => None,
        }
    }

    /// Reads a call of a function on a range, such as `MAX(A1:B3)`, as the
    /// function's name and the corners of the rectangle, the low corner
    /// first.
    ///
    /// The name is one of `MIN`, `MAX`, `AVG`, `SUM`, `STDEV` and `SLEEP`,
    /// in capitals. Blanks around the call and around each cell name are
    /// dropped.
    pub fn parse_range(expr: &str) -> (r: Option<(&'static str, (u16, u16), (u16, u16))>)
        ensures
            match r {
                Some((name, start, end)) => range_call_of_text(expr@) == Some(
                    (name@, start, end),
                ),
                None => range_call_of_text(expr@) is None,
            },
    {
        let text: Vec<char> = chars_of(expr);
        let t = trim(text.as_slice());
        if let Some(c) = read_range_call(t, "MIN") {
            Some(("MIN", c.0, c.1))
        } else if let Some(c) = read_range_call(t, "MAX") {
            Some(("MAX", c.0, c.1))
        } else if let Some(c) = read_range_call(t, "AVG") {
            Some(("AVG", c.0, c.1))
        } else if let Some(c) = read_range_call(t, "SUM") {
            Some(("SUM", c.0, c.1))
        } else if let Some(c) = read_range_call(t, "STDEV") {
            Some(("STDEV", c.0, c.1))
        } else if let Some(c) = read_range_call(t, "SLEEP") {
            Some(("SLEEP", c.0, c.1))
        } else {
            None
        }
    }

    /// Classifies the text of a formula; `None` where it is not recognised.
    pub fn parse_formula(expr: &str) -> (r: Option<Formula>)
        ensures
            r == formula_of_text(expr@),
    {
        let text: Vec<char> = chars_of(expr);
        read_formula(text.as_slice())
    }
}

} // verus!
