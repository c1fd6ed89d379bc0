//! What a cell holds and what a formula means.

use vstd::prelude::*;
use crate::coords::{in_rect, within, Coord, Dims};
use crate::function::{
    answers, binary_value, eval_binary, eval_range_fn, lemma_range_value_agree, range_value,
    Lookup, RangeFn, OP_ADD, OP_DIV, OP_MUL, OP_SUB,
};

verus! {

/// The content of a cell: an integer, or the mark of an error.
#[derive(Clone, Copy, Debug, PartialEq, Eq, Structural)]
pub enum Cell {
    Value(i32),
    Error,
}

impl Cell {
    /// The content of a cell that was never set: the integer 0.
    pub fn new() -> (c: Cell)
        ensures
            c == Cell::Value(0),
    {
        Cell::Value(0)
    }

    /// The cell's integer, or nothing for a cell in error.
    pub open spec fn number(self) -> Option<i32> {
        match self {
            Cell::Value(v) => Some(v),
            Cell::Error => None,
        }
    }

    /// The cell's integer, or `None` for a cell in error.
    pub fn value(&self) -> (r: Option<i32>)
        ensures
            r == self.number(),
    {
        match self {
            Cell::Value(v) => Some(*v),
            Cell::Error => None,
        }
    }
}

/// The cell that holds the outcome `v` of an evaluation.
pub open spec fn cell_of(v: Option<i32>) -> Cell {
    match v {
        Some(x) => Cell::Value(x),
        None => Cell::Error,
    }
}

/// The cell that holds the outcome `v` of an evaluation.
pub fn to_cell(v: Option<i32>) -> (c: Cell)
    ensures
        c == cell_of(v),
{
    match v {
        Some(x) => Cell::Value(x),
        None => Cell::Error,
    }
}

/// The operators of a binary expression.
#[derive(Clone, Copy, Debug, PartialEq, Eq, Structural)]
pub enum BinOp {
    Add,
    Sub,
    Mul,
    Div,
}

impl BinOp {
    /// The operator's code.
    pub open spec fn spec_code(self) -> i8 {
        match self {
            BinOp::Add => OP_ADD,
            BinOp::Sub => OP_SUB,
            BinOp::Mul => OP_MUL,
            BinOp::Div => OP_DIV,
        }
    }

    /// The operator's code.
    #[verifier::when_used_as_spec(spec_code)]
    pub fn code(self) -> (c: i8)
        ensures
            c == self.spec_code(),
    {
        match self {
            BinOp::Add => OP_ADD,
            BinOp::Sub => OP_SUB,
            BinOp::Mul => OP_MUL,
            BinOp::Div => OP_DIV,
        }
    }
}

/// One side of a binary expression, or the argument of `SLEEP`.
#[derive(Clone, Copy, Debug, PartialEq, Eq)]
pub enum Operand {
    Literal(i32),
    Ref(Coord),
}

impl Operand {
    /// The operand's value under the lookup `m`.
    pub open spec fn value(self, m: Lookup) -> Option<i32> {
        match self {
            Operand::Literal(v) => Some(v),
            Operand::Ref(c) => m(c),
        }
    }

    /// The operand is a reference to cell `p`.
    pub open spec fn names(self, p: Coord) -> bool {
        self == Operand::Ref(p)
    }

    /// The cell that the operand refers to, if it is a reference.
    pub fn target(&self) -> (r: Option<Coord>)
        ensures
            forall|p: Coord| self.names(p) <==> r == Some(p),
    {
        match self {
            Operand::Literal(_) => None,
            Operand::Ref(c) => Some(*c),
        }
    }

    /// A reference, if the operand is one, is to a cell of the grid.
    pub open spec fn fits(self, dims: Dims) -> bool {
        match self {
            Operand::Literal(_) => true,
            Operand::Ref(c) => dims.contains(c),
        }
    }

    /// Whether a reference, if the operand is one, is to a cell of the grid.
    pub fn within(&self, dims: &Dims) -> (r: bool)
        ensures
            r == self.fits(*dims),
    {
        match self {
            Operand::Literal(_) => true,
            Operand::Ref(c) => dims.holds(*c),
        }
    }
}

/// A formula, as the parser classifies it.
#[derive(Clone, Copy, Debug, PartialEq, Eq)]
pub enum Formula {
    /// An integer.
    Literal(i32),
    /// The content of another cell.
    Ref(Coord),
    /// One operator between two operands.
    Binary { op: BinOp, lhs: Operand, rhs: Operand },
    /// An aggregate over the rectangle from `start` to `end`.
    Range { func: RangeFn, start: Coord, end: Coord },
    /// `SLEEP`: the value of its argument, owed as seconds of waiting.
    Sleep(Operand),
}

impl Formula {
    /// The formula's value under the lookup `m`.
    ///
    /// An operand in error makes a binary expression an error, and so does
    /// a division by zero or a result outside the 32-bit range.
    pub open spec fn value(self, m: Lookup) -> Cell {
        match self {
            Formula::Literal(v) => Cell::Value(v),
            Formula::Ref(c) => cell_of(m(c)),
            Formula::Binary { op, lhs, rhs } => match (lhs.value(m), rhs.value(m)) {
                (Some(a), Some(b)) => cell_of(binary_value(op.spec_code(), a as int, b as int)),
                _ => Cell::Error,
            },
            Formula::Range { func, start, end } => cell_of(range_value(func, m, start, end)),
            Formula::Sleep(arg) => cell_of(arg.value(m)),
        }
    }

    /// The formula refers to cell `p` by its name.
    pub open spec fn names(self, p: Coord) -> bool {
        match self {
            Formula::Literal(_) => false,
            Formula::Ref(c) => c == p,
            Formula::Binary { op, lhs, rhs } => lhs.names(p) || rhs.names(p),
            Formula::Range { .. } => false,
            Formula::Sleep(arg) => arg.names(p),
        }
    }

    /// The formula is an aggregate whose rectangle holds cell `p`.
    pub open spec fn covers(self, p: Coord) -> bool {
        match self {
            Formula::Range { func, start, end } => in_rect(p, start, end),
            _ => false,
        }
    }

    /// The formula reads cell `p`: `p` is one of its precedents.
    pub open spec fn reads(self, p: Coord) -> bool {
        self.names(p) || self.covers(p)
    }

    /// Every cell that the formula reads is a cell of the grid, and the
    /// corners of a rectangle are in order, low before high.
    pub open spec fn fits(self, dims: Dims) -> bool {
        match self {
            Formula::Literal(_) => true,
            Formula::Ref(c) => dims.contains(c),
            Formula::Binary { op, lhs, rhs } => lhs.fits(dims) && rhs.fits(dims),
            Formula::Range { func, start, end } => {
                &&& dims.contains(start)
                &&& dims.contains(end)
                &&& start.0 <= end.0
                &&& start.1 <= end.1
            },
            Formula::Sleep(arg) => arg.fits(dims),
        }
    }

    /// Whether every cell that the formula reads is a cell of the grid,
    /// and the corners of a rectangle are in order.
    pub fn within(&self, dims: &Dims) -> (r: bool)
        ensures
            r == self.fits(*dims),
    {
        match self {
            Formula::Literal(_) => true,
            Formula::Ref(c) => dims.holds(*c),
            Formula::Binary { op, lhs, rhs } => lhs.within(dims) && rhs.within(dims),
            Formula::Range { func, start, end } => dims.holds(*start) && dims.holds(*end)
                && start.0 <= end.0 && start.1 <= end.1,
            Formula::Sleep(arg) => arg.within(dims),
        }
    }

    /// Whether the formula reads cell `p`.
    pub fn reads_cell(&self, p: Coord) -> (r: bool)
        ensures
            r == self.reads(p),
    {
        match self {
            Formula::Range { func, start, end } => within(p, *start, *end),
            _ => {
                let (a, b) = self.named();
                let first = match a {
                    Some(c) => c.0 == p.0 && c.1 == p.1,
                    None => false,
                };
                let second = match b {
                    Some(c) => c.0 == p.0 && c.1 == p.1,
                    None => false,
                };
                first || second
            },
        }
    }

    /// The formula is a division, and its divisor is 0 under the lookup `m`.
    pub open spec fn divides_by_zero(self, m: Lookup) -> bool {
        match self {
            Formula::Binary { op, lhs, rhs } => op == BinOp::Div && rhs.value(m) == Some(0i32),
            _ => false,
        }
    }

    /// The cells that the formula refers to by name: there are two at most.
    pub fn named(&self) -> (r: (Option<Coord>, Option<Coord>))
        ensures
            forall|p: Coord| self.names(p) <==> (r.0 == Some(p) || r.1 == Some(p)),
    {
        match self {
            Formula::Literal(_) => (None, None),
            Formula::Ref(c) => (Some(*c), None),
            Formula::Binary { op, lhs, rhs } => (lhs.target(), rhs.target()),
            Formula::Range { .. } => (None, None),
            Formula::Sleep(arg) => (arg.target(), None),
        }
    }

    /// A cell that the formula reads is a cell of the grid.
    pub proof fn lemma_reads_within(self, dims: Dims, p: Coord)
        requires
            self.fits(dims),
            self.reads(p),
        ensures
            dims.contains(p),
    {
    }

    /// The seconds of waiting that a cell with this formula owes once it
    /// holds `held`: the value of a `SLEEP`, where it is positive.
    pub open spec fn delay(self, held: Cell) -> nat {
        match (self, held) {
            (Formula::Sleep(_), Cell::Value(v)) => if v > 0 { v as nat } else { 0 },
            _ => 0,
        }
    }
}

/// A formula depends on nothing but the cells it reads: under two lookups
/// that agree on them, it has the same value.
pub proof fn lemma_value_agree(f: Formula, m1: Lookup, m2: Lookup)
    requires
        forall|p: Coord| f.reads(p) ==> #[trigger] m1(p) == m2(p),
    ensures
        f.value(m1) == f.value(m2),
{
    match f {
        Formula::Literal(_) => {},
        Formula::Ref(c) => {
            assert(f.reads(c));
        },
        Formula::Binary { op, lhs, rhs } => {
            match lhs {
                Operand::Ref(c) => {
                    assert(f.reads(c));
                },
                _ => {},
            }
            match rhs {
                Operand::Ref(c) => {
                    assert(f.reads(c));
                },
                _ => {},
            }
        },
        Formula::Range { func, start, end } => {
            assert forall|c: Coord| in_rect(c, start, end) implies #[trigger] m1(c) == m2(c) by {
                assert(f.reads(c));
            }
            lemma_range_value_agree(func, m1, m2, start, end);
        },
        Formula::Sleep(arg) => {
            match arg {
                Operand::Ref(c) => {
                    assert(f.reads(c));
                },
                _ => {},
            }
        },
    }
}

/// `m` gives, for every cell that `f` reads, an answer that `get_val` may
/// return for that cell.
pub open spec fn informs<F: Fn(Coord) -> Option<i32>>(get_val: F, m: Lookup, f: Formula) -> bool {
    forall|p: Coord| f.reads(p) ==> call_ensures(get_val, (p,), #[trigger] m(p))
}

/// Reads an operand, asking `get_val` for a cell.
fn operand_value<F: Fn(Coord) -> Option<i32>>(arg: &Operand, get_val: &F) -> (r: Option<i32>)
    requires
        forall|p: Coord| arg.names(p) ==> call_requires(*get_val, (p,)),
    ensures
        match *arg {
            Operand::Literal(v) => r == Some(v),
            Operand::Ref(c) => call_ensures(*get_val, (c,), r),
        },
{
    match arg {
        Operand::Literal(v) => Some(*v),
        Operand::Ref(c) => {
            assert(arg.names(*c));
            get_val(*c)
        },
    }
}

/// Evaluates a formula, reading each cell it needs through `get_val`, once.
pub fn evaluate<F: Fn(Coord) -> Option<i32>>(f: &Formula, get_val: F) -> (r: Cell)
    requires
        forall|p: Coord| f.reads(p) ==> call_requires(get_val, (p,)),
    ensures
        exists|m: Lookup| informs(get_val, m, *f) && r == f.value(m),
{
    match f {
        Formula::Literal(v) => {
            let r = Cell::Value(*v);
            proof {
                let m: Lookup = |c: Coord| None::<i32>;
                assert(informs(get_val, m, *f) && r == f.value(m));
            }
            r
        },
        Formula::Ref(c) => {
            assert(f.reads(*c));
            let v = get_val(*c);
            let r = to_cell(v);
            proof {
                let m: Lookup = |p: Coord| v;
                assert(informs(get_val, m, *f) && r == f.value(m));
            }
            r
        },
        Formula::Binary { op, lhs, rhs } => {
            assert forall|p: Coord| lhs.names(p) implies call_requires(get_val, (p,)) by {
                assert(f.reads(p));
            }
            assert forall|p: Coord| rhs.names(p) implies call_requires(get_val, (p,)) by {
                assert(f.reads(p));
            }
            let a = operand_value(lhs, &get_val);
            let same = match (lhs, rhs) {
                (Operand::Ref(x), Operand::Ref(y)) => x.0 == y.0 && x.1 == y.1,
                _ => false,
            };
            let b = if same { a } else { operand_value(rhs, &get_val) };
            let r = match (a, b) {
                (Some(x), Some(y)) => to_cell(eval_binary(op.code(), x, y)),
                _ => Cell::Error,
            };
            proof {
                let m: Lookup = |p: Coord| if lhs.names(p) { a } else { b };
                assert(informs(get_val, m, *f) && r == f.value(m));
            }
            r
        },
        Formula::Range { func, start, end } => {
            assert forall|c: Coord| in_rect(c, *start, *end) implies call_requires(
                get_val,
                (c,),
            ) by {
                assert(f.reads(c));
            }
            let v = eval_range_fn(*func, *start, *end, get_val);
            let r = to_cell(v);
            proof {
                let m = choose|m: Lookup|
                    answers(get_val, m, *start, *end) && v == range_value(*func, m, *start, *end);
                assert(informs(get_val, m, *f) && r == f.value(m));
            }
            r
        },
        Formula::Sleep(arg) => {
            assert forall|p: Coord| arg.names(p) implies call_requires(get_val, (p,)) by {
                assert(f.reads(p));
            }
            let v = operand_value(arg, &get_val);
            let r = to_cell(v);
            proof {
                let m: Lookup = |p: Coord| v;
                assert(informs(get_val, m, *f) && r == f.value(m));
            }
            r
        },
    }
}

} // verus!
