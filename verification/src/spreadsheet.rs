//! The sheet: a grid of cells, the graph of what reads what, and the edits
//! that keep every cell up to date.

use vstd::prelude::*;
use crate::coords::{in_rect, is_within_range, Coord, Dims, MAX_COLS, MAX_ROWS};
pub use crate::formula::Cell;
use crate::formula::{evaluate, informs, lemma_value_agree, BinOp, Formula, Operand};
use crate::parser::{formula_of_text, Parser};
use crate::render::{
    cell_text, cell_to_string, col_to_letter, label_text, nat_text, pad_left, push_nat,
    push_padded, spaces,
};
use vstd::string::StringExecFns;
use crate::function::Lookup;
use crate::graph::{
    cyclic, has_edge, is_walk, lemma_back_edge_is_cycle, lemma_edit_keeps_acyclic,
    lemma_reaches_self, lemma_reaches_step, lemma_reversed_sweeps, lemma_same_edges,
    lemma_settled_acyclic, reaches, reversed, settled, stands_before, step, sweeps, Edges,
};
use crate::lists::{
    add_item, lemma_whites_bounds, lemma_whites_update, remove_item, same_cell, whites, BLACK,
    GRAY, WHITE,
};

verus! {

/// The record of one aggregate: the cell that holds it and the rectangle
/// it reads. Which cells it depends on is a matter of geometry.
#[derive(Clone, Copy, Debug, PartialEq, Eq)]
pub struct RangeDep {
    pub cell: Coord,
    pub start: Coord,
    pub end: Coord,
}

/// The status of an edit that was carried out.
pub const STATUS_OK: u8 = 0;

/// The status of an edit that was rejected because it names a cell, as
/// its target or in its formula, that the grid does not have.
pub const STATUS_INVALID_CELL: u8 = 1;

/// The status of an edit that was rejected because the rectangle of its
/// aggregate does not lie in the grid.
pub const STATUS_INVALID_RANGE: u8 = 2;

/// The status of an edit that was rejected because its formula was not
/// recognised.
pub const STATUS_UNRECOGNIZED: u8 = 3;

/// The status of an edit that was rejected because it would have closed a
/// cycle of dependencies.
pub const STATUS_CIRCULAR: u8 = 4;

/// The status of an edit that was carried out and left its cell in error
/// because its formula divides by zero.
pub const STATUS_VALUE_ERROR: u8 = 5;

/// An edit with this status was carried out.
pub open spec fn committed(status: u8) -> bool {
    status == STATUS_OK || status == STATUS_VALUE_ERROR
}

/// The status of the edit that gives the cell at `coord` the formula that
/// `text` writes.
///
/// The target is checked first, then the text, then the cells that the
/// formula reads, then whether the graph would hold a cycle with the
/// formula in place. An edit that passes all four is carried out.
pub open spec fn edit_status(v: SheetView, coord: Coord, text: Seq<char>) -> u8 {
    if !v.dims.contains(coord) {
        STATUS_INVALID_CELL
    } else {
        match formula_of_text(text) {
            None => STATUS_UNRECOGNIZED,
            Some(f) => if !f.fits(v.dims) {
                if f is Range {
                    STATUS_INVALID_RANGE
                } else {
                    STATUS_INVALID_CELL
                }
            } else if v.with_formula(coord, f).cyclic() {
                STATUS_CIRCULAR
            } else if f.divides_by_zero(v.lookup()) {
                STATUS_VALUE_ERROR
            } else {
                STATUS_OK
            },
        }
    }
}

/// How many of `span` rows or columns can be shown after the first
/// `skip` of `limit`.
pub open spec fn visible(skip: int, span: int, limit: int) -> int {
    if skip >= limit {
        0
    } else if span <= limit - skip {
        span
    } else {
        limit - skip
    }
}

/// The heading of a window of `n` columns after the first `left_col`:
/// four spaces, then the label of each column to the right of a field of
/// eight characters.
pub open spec fn header_text(left_col: nat, n: nat) -> Seq<char>
    decreases n,
{
    if n == 0 {
        spaces(4)
    } else {
        header_text(left_col, (n - 1) as nat) + pad_left(label_text(left_col + n), 8)
    }
}

/// The line of row `row` in a window of `n` columns after the first
/// `left_col`: the number of the row to the right of a field of three
/// characters, a space, then what each cell shows to the right of a field
/// of eight characters.
pub open spec fn row_text(v: SheetView, row: nat, left_col: nat, n: nat) -> Seq<char>
    decreases n,
{
    if n == 0 {
        pad_left(nat_text(row), 3) + seq![' ']
    } else {
        row_text(v, row, left_col, (n - 1) as nat) + pad_left(
            cell_text(v.values[((left_col + n) as u16, row as u16)]),
            8,
        )
    }
}

/// The seconds of waiting that the cells of `s` owe between them: for
/// each cell with a `SLEEP` the number it holds, where that is positive.
pub open spec fn delay_total(v: SheetView, s: Seq<Coord>) -> nat
    decreases s.len(),
{
    if s.len() == 0 {
        0
    } else {
        delay_total(v, s.drop_last()) + v.formulas[s.last()].delay(v.values[s.last()])
    }
}

/// What an edit does to a sheet: `after` is the sheet that the edit of
/// `before` with status `status` leaves, and `swept` its report.
///
/// An edit that is rejected leaves the sheet as it was and reports
/// nothing. An edit that is carried out gives the cell its formula and
/// leaves every other formula; then no cell is stale; the report holds the
/// cell and the cells that depend on it, each once and each after the
/// cells that it reads; and a cell that is not in the report holds what it
/// held.
pub open spec fn edited(
    before: SheetView,
    after: SheetView,
    swept: Seq<Coord>,
    coord: Coord,
    text: Seq<char>,
    status: u8,
) -> bool {
    &&& status == edit_status(before, coord, text)
    &&& after.dims == before.dims
    &&& !after.cyclic()
    &&& after.consistent()
    &&& !committed(status) ==> after == before && swept.len() == 0
    &&& committed(status) ==> {
        &&& formula_of_text(text) matches Some(f)
        &&& after.formulas == before.formulas.insert(coord, f)
        &&& sweeps(after.edges(), coord, swept)
        &&& forall|c: Coord|
            before.dims.contains(c) && !swept.contains(c) ==> #[trigger] after.values[c]
                == before.values[c]
    }
}

/// A cell that a search has entered, and how far the search has gone
/// through the cells that depend on it.
#[derive(Clone, Copy, Debug)]
struct Frame {
    /// The cell.
    node: Coord,
    /// How many of the cells that refer to it by name were looked at.
    dep_at: usize,
    /// How many of the records of aggregates were looked at.
    range_at: usize,
}

/// The state of a depth-first search.
ghost struct Search {
    /// The mark of each cell, by its place in the grid.
    marks: Seq<u8>,
    /// The cells entered and not left, the first entered first.
    stack: Seq<Frame>,
    /// The cells left, in the order in which the search left them.
    order: Seq<Coord>,
}

/// A sheet as the contracts see it.
pub ghost struct SheetView {
    /// The size of the grid.
    pub dims: Dims,
    /// What each cell holds.
    pub values: Map<Coord, Cell>,
    /// The formula of each cell; a cell that was never set has the
    /// literal 0.
    pub formulas: Map<Coord, Formula>,
    /// For each cell, the cells whose formulas refer to it by name.
    pub dependents: Map<Coord, Set<Coord>>,
    /// The records of the aggregates.
    pub ranges: Set<RangeDep>,
}

impl SheetView {
    /// What reading a cell gives: its integer, or nothing for a cell in
    /// error and for a place outside the grid.
    pub open spec fn lookup(self) -> Lookup {
        |c: Coord|
            if self.dims.contains(c) {
                self.values[c].number()
            } else {
                None
            }
    }

    /// The formula of cell `v` reads cell `u`: `u` is a precedent of `v`,
    /// and `v` a dependent of `u`.
    pub open spec fn edge(self, u: Coord, v: Coord) -> bool {
        self.dims.contains(u) && self.dims.contains(v) && self.formulas[v].reads(u)
    }

    /// The dependency graph: an edge leads from each cell to its dependents.
    pub open spec fn edges(self) -> Edges {
        |u: Coord, v: Coord| self.edge(u, v)
    }

    /// The dependency graph has a cycle.
    pub open spec fn cyclic(self) -> bool {
        cyclic(self.edges())
    }

    /// Cell `c` holds the value of its formula over what the cells hold now.
    pub open spec fn fresh(self, c: Coord) -> bool {
        self.values[c] == self.formulas[c].value(self.lookup())
    }

    /// No cell is stale.
    pub open spec fn consistent(self) -> bool {
        forall|c: Coord| self.dims.contains(c) ==> #[trigger] self.fresh(c)
    }

    /// The grid is of a valid size, every formula reads cells of the grid
    /// only, and the two indices of the graph say what the formulas say.
    pub open spec fn linked(self) -> bool {
        &&& self.dims.valid()
        &&& forall|c: Coord| self.dims.contains(c) <==> #[trigger] self.values.dom().contains(c)
        &&& forall|c: Coord| self.dims.contains(c) <==> #[trigger] self.formulas.dom().contains(c)
        &&& forall|c: Coord| self.dims.contains(c) <==> #[trigger] self.dependents.dom().contains(c)
        &&& forall|c: Coord| self.dims.contains(c) ==> (#[trigger] self.formulas[c]).fits(self.dims)
        &&& forall|p: Coord, d: Coord|
            self.dims.contains(p) ==> (#[trigger] self.dependents[p].contains(d) <==> self.dims.contains(
                d,
            ) && self.formulas[d].names(p))
        &&& forall|r: RangeDep| #[trigger]
            self.ranges.contains(r) <==> self.dims.contains(r.cell) && self.records(r)
    }

    /// `r` is the record of the aggregate that its cell holds.
    pub open spec fn records(self, r: RangeDep) -> bool {
        match self.formulas[r.cell] {
            Formula::Range { func, start, end } => start == r.start && end == r.end,
            _ => false,
        }
    }

    /// The sheet is well formed: its graph is in order and free of cycles,
    /// and no cell is stale.
    pub open spec fn wf(self) -> bool {
        self.linked() && !self.cyclic() && self.consistent()
    }

    /// The precedents of cell `c`: the cells that its formula reads.
    pub open spec fn precedents_of(self, c: Coord) -> Set<Coord> {
        Set::new(|p: Coord| self.edge(p, c))
    }

    /// The dependents of cell `c`: the cells whose formulas read it.
    pub open spec fn dependents_of(self, c: Coord) -> Set<Coord> {
        Set::new(|d: Coord| self.edge(c, d))
    }

    /// The sheet with the formula of cell `c` replaced by `f`, as far as
    /// the formulas go.
    pub open spec fn with_formula(self, c: Coord, f: Formula) -> SheetView {
        SheetView { formulas: self.formulas.insert(c, f), ..self }
    }
}

/// A grid of cells with their formulas and the graph of their dependencies.
pub struct Spreadsheet {
    dims: Dims,
    values: Vec<Cell>,
    formulas: Vec<Formula>,
    dependents: Vec<Vec<Coord>>,
    ranges: Vec<RangeDep>,
    sweep: Vec<Coord>,
}

impl View for Spreadsheet {
    type V = SheetView;

    closed spec fn view(&self) -> SheetView {
        SheetView {
            dims: self.dims,
            values: Map::new(|c: Coord| self.dims.contains(c), |c: Coord| self.value_at(c)),
            formulas: Map::new(|c: Coord| self.dims.contains(c), |c: Coord| self.formula_at(c)),
            dependents: Map::new(
                |c: Coord| self.dims.contains(c),
                |c: Coord| Set::new(|d: Coord| self.deps(c).contains(d)),
            ),
            ranges: Set::new(|r: RangeDep| self.ranges@.contains(r)),
        }
    }
}

impl Spreadsheet {
    /// What cell `c` holds.
    spec fn value_at(&self, c: Coord) -> Cell {
        self.values@[self.dims.index(c)]
    }

    /// The formula of cell `c`.
    spec fn formula_at(&self, c: Coord) -> Formula {
        self.formulas@[self.dims.index(c)]
    }

    /// The cells listed as referring to cell `c` by name.
    spec fn deps(&self, c: Coord) -> Seq<Coord> {
        self.dependents@[self.dims.index(c)]@
    }

    /// The cells that the last edit evaluated, in the order in which it
    /// did: the edited cell first. Empty after an edit that was rejected.
    pub closed spec fn swept(&self) -> Seq<Coord> {
        self.sweep@
    }

    /// The storage has the size of the grid.
    pub closed spec fn shaped(&self) -> bool {
        &&& self.dims.valid()
        &&& self.values@.len() == self.dims.size()
        &&& self.formulas@.len() == self.dims.size()
        &&& self.dependents@.len() == self.dims.size()
    }

    /// The record `r` stands for the aggregate that its cell holds, and
    /// that cell is not `skip`.
    spec fn range_ok(&self, r: RangeDep, skip: Option<Coord>) -> bool {
        &&& self.dims.contains(r.cell)
        &&& Some(r.cell) != skip
        &&& self@.records(r)
    }

    /// The aggregate in cell `d` has its record.
    spec fn has_range(&self, d: Coord) -> bool {
        exists|k: int| 0 <= k < self.ranges@.len() && (#[trigger] self.ranges@[k]).cell == d
    }

    /// The two indices say what the formulas say, but for cell `skip`, of
    /// which they say nothing.
    spec fn indexed(&self, skip: Option<Coord>) -> bool {
        &&& self.shaped()
        &&& forall|c: Coord|
            self.dims.contains(c) ==> (#[trigger] self.formula_at(c)).fits(self.dims)
        &&& forall|p: Coord| self.dims.contains(p) ==> (#[trigger] self.deps(p)).no_duplicates()
        &&& forall|p: Coord, d: Coord|
            self.dims.contains(p) && #[trigger] self.deps(p).contains(d) ==> self.dims.contains(d)
                && Some(d) != skip && self.formula_at(d).names(p)
        &&& forall|p: Coord, d: Coord|
            self.dims.contains(p) && self.dims.contains(d) && Some(d) != skip
                && #[trigger] self.formula_at(d).names(p) ==> self.deps(p).contains(d)
        &&& forall|k: int|
            0 <= k < self.ranges@.len() ==> self.range_ok(#[trigger] self.ranges@[k], skip)
        &&& forall|d: Coord|
            self.dims.contains(d) && Some(d) != skip && (#[trigger] self.formula_at(d)) is Range
                ==> self.has_range(d)
        &&& forall|j: int, k: int|
            0 <= j < k < self.ranges@.len() ==> (#[trigger] self.ranges@[j]).cell
                != (#[trigger] self.ranges@[k]).cell
    }

    /// The storage is in order and the two indices say what the formulas
    /// say. Cycles and stale cells are not excluded.
    pub closed spec fn linked(&self) -> bool {
        self.indexed(None)
    }

    /// The sheet is well formed: `linked`, free of cycles, and no cell is
    /// stale. Every sheet that `new` makes is well formed, and `set_cell`
    /// keeps it so.
    pub closed spec fn wf(&self) -> bool {
        &&& self.linked()
        &&& !self@.cyclic()
        &&& self@.consistent()
        &&& forall|k: int| 0 <= k < self.sweep@.len() ==> self.dims.contains(#[trigger] self.sweep@[k])
    }

    /// What `linked` says of the view.
    pub proof fn lemma_linked_view(&self)
        requires
            self.linked(),
        ensures
            self@.linked(),
    {
        let v = self@;
        assert forall|r: RangeDep| #[trigger] v.ranges.contains(r) <==> v.dims.contains(r.cell)
            && v.records(r) by {
            if v.ranges.contains(r) {
                let k = choose|k: int| 0 <= k < self.ranges@.len() && self.ranges@[k] == r;
                assert(self.range_ok(self.ranges@[k], None));
            }
            if v.dims.contains(r.cell) && v.records(r) {
                assert(self.formula_at(r.cell) is Range);
                assert(self.has_range(r.cell));
                let k = choose|k: int|
                    0 <= k < self.ranges@.len() && (#[trigger] self.ranges@[k]).cell == r.cell;
                assert(self.range_ok(self.ranges@[k], None));
                assert(self.ranges@[k] == r);
            }
        }
        assert forall|p: Coord, d: Coord| v.dims.contains(p) implies (#[trigger] v.dependents[p].contains(
            d,
        ) <==> v.dims.contains(d) && v.formulas[d].names(p)) by {
            if v.dependents[p].contains(d) {
                assert(self.deps(p).contains(d));
            }
        }
    }

    /// What `wf` says of the view and of the report of the last edit.
    pub proof fn lemma_wf_view(&self)
        requires
            self.wf(),
        ensures
            self@.wf(),
            self.linked(),
            self.shaped(),
            forall|k: int|
                0 <= k < self.swept().len() ==> self@.dims.contains(#[trigger] self.swept()[k]),
    {
        self.lemma_linked_view();
    }

    /// Makes a sheet of `rows` by `cols` cells, each holding 0 and no
    /// formula other than that. `None` unless `rows` is from 1 to 999 and
    /// `cols` from 1 to 18278.
    pub fn new(rows: usize, cols: usize) -> (r: Option<Spreadsheet>)
        ensures
            r is Some <==> 1 <= rows <= MAX_ROWS && 1 <= cols <= MAX_COLS,
            r matches Some(sheet) ==> {
                &&& sheet.wf()
                &&& !sheet@.cyclic()
                &&& sheet@.dims.rows == rows
                &&& sheet@.dims.cols == cols
                &&& forall|c: Coord|
                    sheet@.dims.contains(c) ==> sheet@.values[c] == Cell::Value(0)
                        && sheet@.formulas[c] == Formula::Literal(0)
                &&& sheet.swept().len() == 0
            },
    {
        if rows < 1 || rows > MAX_ROWS || cols < 1 || cols > MAX_COLS {
            return None;
        }
        let dims = Dims { rows: rows as u16, cols: cols as u16 };
        let n: usize = dims.len();
        let mut values: Vec<Cell> = Vec::new();
        let mut formulas: Vec<Formula> = Vec::new();
        let mut dependents: Vec<Vec<Coord>> = Vec::new();
        let mut i: usize = 0;
        while i < n
            invariant
                i <= n,
                values@.len() == i,
                formulas@.len() == i,
                dependents@.len() == i,
                forall|j: int| 0 <= j < i ==> #[trigger] values@[j] == Cell::Value(0),
                forall|j: int| 0 <= j < i ==> #[trigger] formulas@[j] == Formula::Literal(0),
                forall|j: int| 0 <= j < i ==> (#[trigger] dependents@[j])@.len() == 0,
            decreases n - i,
        {
            values.push(Cell::Value(0));
            formulas.push(Formula::Literal(0));
            dependents.push(Vec::new());
            i = i + 1;
        }
        let sheet = Spreadsheet {
            dims,
            values,
            formulas,
            dependents,
            ranges: Vec::new(),
            sweep: Vec::new(),
        };
        proof {
            assert forall|c: Coord| sheet.dims.contains(c) implies #[trigger] sheet.value_at(c)
                == Cell::Value(0) by {
                sheet.dims.lemma_index_bound(c);
            }
            assert forall|c: Coord| sheet.dims.contains(c) implies #[trigger] sheet.formula_at(c)
                == Formula::Literal(0) by {
                sheet.dims.lemma_index_bound(c);
            }
            assert forall|c: Coord| sheet.dims.contains(c) implies (#[trigger] sheet.deps(c)).len()
                == 0 by {
                sheet.dims.lemma_index_bound(c);
            }
            assert(sheet.linked());
            sheet.lemma_no_edges_acyclic();
            assert(sheet@.consistent());
        }
        Some(sheet)
    }

    /// A sheet in which no formula reads a cell has no cycle.
    proof fn lemma_no_edges_acyclic(&self)
        requires
            forall|u: Coord, v: Coord| !self@.edge(u, v),
        ensures
            !self@.cyclic(),
    {
        let e = self@.edges();
        if cyclic(e) {
            let w = choose|w: Seq<Coord>| #[trigger]
                crate::graph::is_walk(e, w) && w.len() >= 2 && w.first() == w.last();
            assert(crate::graph::step(e, w, 0));
            assert(self@.edge(w[0], w[1]));
        }
    }

    /// The size of the grid.
    pub fn dims(&self) -> (d: Dims)
        ensures
            d == self@.dims,
    {
        self.dims
    }

    /// The number of rows.
    pub fn rows(&self) -> (n: usize)
        ensures
            n == self@.dims.rows,
    {
        self.dims.rows as usize
    }

    /// The number of columns.
    pub fn cols(&self) -> (n: usize)
        ensures
            n == self@.dims.cols,
    {
        self.dims.cols as usize
    }

    /// What the cell at `c` holds; `None` if `c` is no cell of the grid.
    pub fn cell(&self, c: Coord) -> (r: Option<Cell>)
        requires
            self.shaped(),
        ensures
            r == (if self@.dims.contains(c) {
                Some(self@.values[c])
            } else {
                None
            }),
    {
        if self.dims.holds(c) {
            Some(self.values[self.dims.offset(c)])
        } else {
            None
        }
    }

    /// The formula of the cell at `c`; `None` if `c` is no cell of the grid.
    pub fn formula(&self, c: Coord) -> (r: Option<Formula>)
        requires
            self.shaped(),
        ensures
            r == (if self@.dims.contains(c) {
                Some(self@.formulas[c])
            } else {
                None
            }),
    {
        if self.dims.holds(c) {
            Some(self.formulas[self.dims.offset(c)])
        } else {
            None
        }
    }

    /// The integer in the cell at `c`; `None` if the cell is in error or
    /// `c` is no cell of the grid.
    pub fn get_val(&self, c: Coord) -> (r: Option<i32>)
        requires
            self.shaped(),
        ensures
            r == self@.lookup()(c),
    {
        if self.dims.holds(c) {
            self.values[self.dims.offset(c)].value()
        } else {
            None
        }
    }

    /// The cells, their formulas and the report of the last edit are those
    /// of `other`.
    spec fn same_cells(&self, other: &Spreadsheet) -> bool {
        &&& self.dims == other.dims
        &&& self.values@ == other.values@
        &&& self.formulas@ == other.formulas@
        &&& self.sweep@ == other.sweep@
    }

    /// Takes `d` off the list of the cells that refer to `p`.
    fn drop_edge(&mut self, p: Coord, d: Coord)
        requires
            old(self).shaped(),
            old(self).dims.contains(p),
            old(self).deps(p).no_duplicates(),
        ensures
            final(self).shaped(),
            final(self).same_cells(old(self)),
            final(self).ranges@ == old(self).ranges@,
            forall|q: Coord|
                old(self).dims.contains(q) && q != p ==> #[trigger] final(self).deps(q) == old(
                    self,
                ).deps(q),
            final(self).deps(p).no_duplicates(),
            forall|x: Coord|
                #[trigger] final(self).deps(p).contains(x) <==> old(self).deps(p).contains(x) && x
                    != d,
    {
        let i: usize = self.dims.offset(p);
        remove_item(&mut self.dependents[i], d);
        proof {
            assert forall|q: Coord| old(self).dims.contains(q) && q != p implies #[trigger] self.deps(
                q,
            ) == old(self).deps(q) by {
                self.dims.lemma_index_bound(q);
                if self.dims.index(q) == self.dims.index(p) {
                    self.dims.lemma_index_injective(q, p);
                }
            }
        }
    }

    /// Puts `d` on the list of the cells that refer to `p`.
    fn add_edge(&mut self, p: Coord, d: Coord)
        requires
            old(self).shaped(),
            old(self).dims.contains(p),
            old(self).deps(p).no_duplicates(),
        ensures
            final(self).shaped(),
            final(self).same_cells(old(self)),
            final(self).ranges@ == old(self).ranges@,
            forall|q: Coord|
                old(self).dims.contains(q) && q != p ==> #[trigger] final(self).deps(q) == old(
                    self,
                ).deps(q),
            final(self).deps(p).no_duplicates(),
            forall|x: Coord|
                #[trigger] final(self).deps(p).contains(x) <==> old(self).deps(p).contains(x) || x
                    == d,
    {
        let i: usize = self.dims.offset(p);
        add_item(&mut self.dependents[i], d);
        proof {
            assert forall|q: Coord| old(self).dims.contains(q) && q != p implies #[trigger] self.deps(
                q,
            ) == old(self).deps(q) by {
                self.dims.lemma_index_bound(q);
                if self.dims.index(q) == self.dims.index(p) {
                    self.dims.lemma_index_injective(q, p);
                }
            }
        }
    }

    /// Takes the record of the aggregate in cell `d` off the records.
    fn drop_range(&mut self, d: Coord)
        requires
            forall|j: int, k: int|
                0 <= j < k < old(self).ranges@.len() ==> (#[trigger] old(self).ranges@[j]).cell
                    != (#[trigger] old(self).ranges@[k]).cell,
        ensures
            final(self).same_cells(old(self)),
            final(self).dependents@ == old(self).dependents@,
            forall|j: int, k: int|
                0 <= j < k < final(self).ranges@.len() ==> (#[trigger] final(self).ranges@[j]).cell
                    != (#[trigger] final(self).ranges@[k]).cell,
            forall|r: RangeDep|
                #[trigger] final(self).ranges@.contains(r) <==> old(self).ranges@.contains(r)
                    && r.cell != d,
    {
        let mut i: usize = 0;
        while i < self.ranges.len()
            invariant
                i <= self.ranges@.len(),
                *self == *old(self),
                forall|j: int| 0 <= j < i ==> (#[trigger] self.ranges@[j]).cell != d,
                forall|j: int, k: int|
                    0 <= j < k < self.ranges@.len() ==> (#[trigger] self.ranges@[j]).cell
                        != (#[trigger] self.ranges@[k]).cell,
            decreases self.ranges@.len() - i,
        {
            if same_cell(self.ranges[i].cell, d) {
                let ghost before = self.ranges@;
                let ghost last = before.len() - 1;
                self.ranges.swap_remove(i);
                proof {
                    let after = self.ranges@;
                    assert forall|k: int| 0 <= k < after.len() implies #[trigger] after[k] == (if k
                        == i {
                        before[last]
                    } else {
                        before[k]
                    }) by {}
                    assert forall|r: RangeDep| #[trigger]
                        after.contains(r) <==> before.contains(r) && r.cell != d by {
                        if after.contains(r) {
                            let k = choose|k: int| 0 <= k < after.len() && after[k] == r;
                            if k == i {
                                assert(before[last] == r);
                            } else {
                                assert(before[k] == r);
                            }
                        }
                        if before.contains(r) && r.cell != d {
                            let k = choose|k: int| 0 <= k < before.len() && before[k] == r;
                            if k == last {
                                assert(after[i as int] == r);
                            } else {
                                assert(after[k] == r);
                            }
                        }
                    }
                    assert forall|j: int, k: int| 0 <= j < k < after.len() implies (#[trigger] after[j]).cell
                        != (#[trigger] after[k]).cell by {
                        let j0 = if j == i { last } else { j };
                        let k0 = if k == i { last } else { k };
                        assert(after[j] == before[j0] && after[k] == before[k0]);
                        if j0 < k0 {
                            assert(before[j0].cell != before[k0].cell);
                        } else {
                            assert(before[k0].cell != before[j0].cell);
                        }
                    }
                }
                return;
            }
            i = i + 1;
        }
        proof {
            assert forall|r: RangeDep| #[trigger] self.ranges@.contains(r) implies r.cell != d by {
                let k = choose|k: int| 0 <= k < self.ranges@.len() && self.ranges@[k] == r;
            }
        }
    }

    /// The formula of a cell of the grid, by its place in the storage.
    proof fn lemma_formula_same(&self, other: &Spreadsheet)
        requires
            self.same_cells(other),
        ensures
            forall|c: Coord| #[trigger] self.formula_at(c) == other.formula_at(c),
            forall|c: Coord| #[trigger] self.value_at(c) == other.value_at(c),
            forall|r: RangeDep| #[trigger] self@.records(r) == other@.records(r),
    {
        assert(self@.formulas =~= other@.formulas);
    }

    /// Takes cell `d` out of the two indices.
    fn unlink(&mut self, d: Coord)
        requires
            old(self).indexed(None),
            old(self).dims.contains(d),
        ensures
            final(self).indexed(Some(d)),
            final(self).same_cells(old(self)),
    {
        let f: Formula = self.formulas[self.dims.offset(d)];
        assert(f == self.formula_at(d));
        let (a, b) = f.named();
        let ghost s0 = *self;
        if let Some(p) = a {
            proof {
                f.lemma_reads_within(self.dims, p);
            }
            self.drop_edge(p, d);
        }
        let ghost s1 = *self;
        proof {
            self.lemma_formula_same(&s0);
        }
        if let Some(p) = b {
            proof {
                f.lemma_reads_within(self.dims, p);
                if a != Some(p) {
                    assert(s1.deps(p) == s0.deps(p));
                }
            }
            self.drop_edge(p, d);
        }
        let ghost s2 = *self;
        if let Formula::Range { .. } = f {
            self.drop_range(d);
        }
        proof {
            self.lemma_formula_same(&s0);
            assert forall|p: Coord, x: Coord| self.dims.contains(p) implies (#[trigger] self.deps(
                p,
            ).contains(x) <==> s0.deps(p).contains(x) && x != d) by {
                assert(self.deps(p) == s2.deps(p));
                if x == d && s0.deps(p).contains(x) {
                    assert(f.names(p));
                }
                if a == Some(p) {
                    if b == Some(p) {
                    } else {
                        assert(s2.deps(p) == s1.deps(p));
                    }
                } else {
                    assert(s1.deps(p) == s0.deps(p));
                    if b == Some(p) {
                    } else {
                        assert(s2.deps(p) == s1.deps(p));
                    }
                }
            }
            assert forall|p: Coord| self.dims.contains(p) implies (#[trigger] self.deps(
                p,
            )).no_duplicates() by {
                assert(self.deps(p) == s2.deps(p));
                if b == Some(p) {
                } else {
                    assert(s2.deps(p) == s1.deps(p));
                    if a == Some(p) {
                    } else {
                        assert(s1.deps(p) == s0.deps(p));
                    }
                }
            }
            assert forall|r: RangeDep| #[trigger]
                self.ranges@.contains(r) <==> s0.ranges@.contains(r) && r.cell != d by {
                if !(f is Range) {
                    if s0.ranges@.contains(r) {
                        let k = choose|k: int| 0 <= k < s0.ranges@.len() && s0.ranges@[k] == r;
                        assert(s0.range_ok(s0.ranges@[k], None));
                    }
                }
            }
            assert forall|k: int| 0 <= k < self.ranges@.len() implies self.range_ok(
                #[trigger] self.ranges@[k],
                Some(d),
            ) by {
                let r = self.ranges@[k];
                assert(self.ranges@.contains(r));
                let k0 = choose|k0: int| 0 <= k0 < s0.ranges@.len() && s0.ranges@[k0] == r;
                assert(s0.range_ok(s0.ranges@[k0], None));
            }
            assert forall|x: Coord|
                self.dims.contains(x) && Some(x) != Some(d) && (#[trigger] self.formula_at(
                    x,
                )) is Range implies self.has_range(x) by {
                assert(s0.has_range(x));
                let k0 = choose|k0: int|
                    0 <= k0 < s0.ranges@.len() && (#[trigger] s0.ranges@[k0]).cell == x;
                let r = s0.ranges@[k0];
                assert(s0.ranges@.contains(r));
                assert(self.ranges@.contains(r));
                let k = choose|k: int| 0 <= k < self.ranges@.len() && self.ranges@[k] == r;
                assert(self.ranges@[k].cell == x);
            }
        }
    }

    /// Enters cell `d` into the two indices, as its formula says.
    fn link(&mut self, d: Coord)
        requires
            old(self).indexed(Some(d)),
            old(self).dims.contains(d),
        ensures
            final(self).indexed(None),
            final(self).same_cells(old(self)),
    {
        let f: Formula = self.formulas[self.dims.offset(d)];
        assert(f == self.formula_at(d));
        let (a, b) = f.named();
        let ghost s0 = *self;
        if let Some(p) = a {
            proof {
                f.lemma_reads_within(self.dims, p);
            }
            self.add_edge(p, d);
        }
        let ghost s1 = *self;
        proof {
            self.lemma_formula_same(&s0);
        }
        if let Some(p) = b {
            proof {
                f.lemma_reads_within(self.dims, p);
                if a != Some(p) {
                    assert(s1.deps(p) == s0.deps(p));
                }
            }
            self.add_edge(p, d);
        }
        let ghost s2 = *self;
        if let Formula::Range { func, start, end } = f {
            self.ranges.push(RangeDep { cell: d, start, end });
        }
        proof {
            self.lemma_formula_same(&s0);
            assert forall|p: Coord, x: Coord| self.dims.contains(p) implies (#[trigger] self.deps(
                p,
            ).contains(x) <==> s0.deps(p).contains(x) || (x == d && f.names(p))) by {
                assert(self.deps(p) == s2.deps(p));
                if a == Some(p) {
                    if b == Some(p) {
                    } else {
                        assert(s2.deps(p) == s1.deps(p));
                    }
                } else {
                    assert(s1.deps(p) == s0.deps(p));
                    if b == Some(p) {
                    } else {
                        assert(s2.deps(p) == s1.deps(p));
                    }
                }
            }
            assert forall|p: Coord| self.dims.contains(p) implies (#[trigger] self.deps(
                p,
            )).no_duplicates() by {
                assert(self.deps(p) == s2.deps(p));
                if b == Some(p) {
                } else {
                    assert(s2.deps(p) == s1.deps(p));
                    if a == Some(p) {
                    } else {
                        assert(s1.deps(p) == s0.deps(p));
                    }
                }
            }
            assert forall|k: int| 0 <= k < self.ranges@.len() implies self.range_ok(
                #[trigger] self.ranges@[k],
                None,
            ) by {
                if k < s0.ranges@.len() {
                    assert(s0.range_ok(s0.ranges@[k], Some(d)));
                    assert(self.ranges@[k] == s0.ranges@[k]);
                }
            }
            assert forall|x: Coord|
                self.dims.contains(x) && (#[trigger] self.formula_at(x)) is Range implies self.has_range(
                x,
            ) by {
                if x == d {
                    assert(self.ranges@[s0.ranges@.len() as int].cell == d);
                } else {
                    assert(s0.has_range(x));
                    let k0 = choose|k0: int|
                        0 <= k0 < s0.ranges@.len() && (#[trigger] s0.ranges@[k0]).cell == x;
                    assert(self.ranges@[k0].cell == x);
                }
            }
            assert forall|j: int, k: int| 0 <= j < k < self.ranges@.len() implies (#[trigger] self.ranges@[j]).cell
                != (#[trigger] self.ranges@[k]).cell by {
                if k < s0.ranges@.len() {
                    assert(s0.ranges@[j].cell != s0.ranges@[k].cell);
                } else {
                    assert(s0.range_ok(s0.ranges@[j], Some(d)));
                }
            }
        }
    }

    /// Replaces the formula of cell `d`, which stands in neither index.
    fn put_formula(&mut self, d: Coord, f: Formula)
        requires
            old(self).indexed(Some(d)),
            old(self).dims.contains(d),
            f.fits(old(self).dims),
        ensures
            final(self).indexed(Some(d)),
            final(self).dims == old(self).dims,
            final(self).values@ == old(self).values@,
            final(self).sweep@ == old(self).sweep@,
            final(self).formula_at(d) == f,
            forall|c: Coord|
                old(self).dims.contains(c) && c != d ==> #[trigger] final(self).formula_at(c)
                    == old(self).formula_at(c),
    {
        let i: usize = self.dims.offset(d);
        self.formulas[i] = f;
        proof {
            assert forall|c: Coord| old(self).dims.contains(c) && c != d implies #[trigger] self.formula_at(
                c,
            ) == old(self).formula_at(c) by {
                self.dims.lemma_index_bound(c);
                if self.dims.index(c) == self.dims.index(d) {
                    self.dims.lemma_index_injective(c, d);
                }
            }
            assert forall|p: Coord| self.dims.contains(p) implies #[trigger] self.deps(p) == old(
                self,
            ).deps(p) by {}
            assert forall|k: int| 0 <= k < self.ranges@.len() implies self.range_ok(
                #[trigger] self.ranges@[k],
                Some(d),
            ) by {
                assert(old(self).range_ok(old(self).ranges@[k], Some(d)));
            }
            assert forall|x: Coord|
                self.dims.contains(x) && Some(x) != Some(d) && (#[trigger] self.formula_at(
                    x,
                )) is Range implies self.has_range(x) by {
                assert(old(self).has_range(x));
                let k0 = choose|k0: int|
                    0 <= k0 < old(self).ranges@.len() && (#[trigger] old(self).ranges@[k0]).cell
                        == x;
                assert(self.ranges@[k0].cell == x);
            }
        }
    }

    /// Gives cell `d` the formula `f` and brings the two indices up to
    /// date. What the cells hold is left as it is.
    fn rewire(&mut self, d: Coord, f: Formula)
        requires
            old(self).linked(),
            old(self).dims.contains(d),
            f.fits(old(self).dims),
        ensures
            final(self).linked(),
            final(self)@.dims == old(self)@.dims,
            final(self)@.values == old(self)@.values,
            final(self)@.formulas == old(self)@.formulas.insert(d, f),
            final(self).swept() == old(self).swept(),
    {
        self.unlink(d);
        let ghost s1 = *self;
        self.put_formula(d, f);
        let ghost s2 = *self;
        self.link(d);
        proof {
            self.lemma_formula_same(&s2);
            s1.lemma_formula_same(old(self));
            assert(self@.values =~= old(self)@.values);
            assert forall|c: Coord| self.dims.contains(c) implies #[trigger] self.formula_at(c) == (if c
                == d {
                f
            } else {
                old(self).formula_at(c)
            }) by {
                assert(self.formula_at(c) == s2.formula_at(c));
                assert(s1.formula_at(c) == old(self).formula_at(c));
            }
            assert(self@.formulas =~= old(self)@.formulas.insert(d, f));
        }
    }

    /// The mark of cell `c`.
    spec fn mark_of(&self, marks: Seq<u8>, c: Coord) -> u8 {
        marks[self.dims.index(c)]
    }

    /// The search is through with `v` as far as the cell at place `i` of
    /// the stack goes: it has left `v`, or `v` is the next cell on the stack.
    spec fn done(&self, st: Search, i: int, v: Coord) -> bool {
        self.mark_of(st.marks, v) == BLACK || (i + 1 < st.stack.len() && st.stack[i + 1].node == v)
    }

    /// The frame at place `i` of the stack is in order.
    spec fn frame_ok(&self, st: Search, i: int) -> bool {
        let fr = st.stack[i];
        &&& self.dims.contains(fr.node)
        &&& self.mark_of(st.marks, fr.node) == GRAY
        &&& fr.dep_at <= self.deps(fr.node).len()
        &&& fr.range_at <= self.ranges@.len()
        &&& forall|j: int| 0 <= j < fr.dep_at ==> self.done(st, i, #[trigger] self.deps(fr.node)[j])
        &&& forall|j: int|
            0 <= j < fr.range_at && in_rect(fr.node, self.ranges@[j].start, self.ranges@[j].end)
                ==> self.done(st, i, (#[trigger] self.ranges@[j]).cell)
        &&& i + 1 < st.stack.len() ==> self@.edge(fr.node, st.stack[i + 1].node)
    }

    /// The cells that the search has left are those of `order`, which is a
    /// finishing order of the graph.
    spec fn blackened(&self, marks: Seq<u8>, order: Seq<Coord>) -> bool {
        &&& marks.len() == self.dims.size()
        &&& forall|i: int| 0 <= i < marks.len() ==> #[trigger] marks[i] <= BLACK
        &&& forall|j: int|
            0 <= j < order.len() ==> self.dims.contains(#[trigger] order[j]) && self.mark_of(
                marks,
                order[j],
            ) == BLACK
        &&& forall|c: Coord|
            self.dims.contains(c) && #[trigger] self.mark_of(marks, c) == BLACK ==> order.contains(c)
        &&& order.no_duplicates()
        &&& settled(self@.edges(), order)
    }

    /// The state of a search under way is in order.
    spec fn searching(&self, st: Search) -> bool {
        &&& self.blackened(st.marks, st.order)
        &&& forall|i: int| 0 <= i < st.stack.len() ==> #[trigger] self.frame_ok(st, i)
        &&& forall|i: int, j: int|
            0 <= i < j < st.stack.len() ==> (#[trigger] st.stack[i]).node != (#[trigger] st.stack[j]).node
        &&& forall|c: Coord|
            self.dims.contains(c) && #[trigger] self.mark_of(st.marks, c) == GRAY
                ==> self.on_stack(st.stack, c)
    }

    /// Cell `c` is on the stack.
    spec fn on_stack(&self, stack: Seq<Frame>, c: Coord) -> bool {
        exists|i: int| 0 <= i < stack.len() && (#[trigger] stack[i]).node == c
    }

    /// A search is at rest: every cell is either untouched or left, and
    /// the cells left are those of `order`, a finishing order of the graph
    /// without a cell twice.
    spec fn searched(&self, marks: Seq<u8>, order: Seq<Coord>) -> bool {
        self.searching(Search { marks, stack: Seq::empty(), order })
    }

    /// Every cell on the stack, and every cell of `order` from place
    /// `base` on, can be reached from `root`.
    spec fn from_root(&self, st: Search, root: Coord, base: int) -> bool {
        &&& forall|i: int|
            0 <= i < st.stack.len() ==> reaches(self@.edges(), root, (#[trigger] st.stack[i]).node)
        &&& forall|j: int|
            base <= j < st.order.len() ==> reaches(self@.edges(), root, #[trigger] st.order[j])
    }

    /// What the indices list for a cell is a dependent of it.
    proof fn lemma_listed_edge(&self, u: Coord)
        requires
            self.linked(),
            self.dims.contains(u),
        ensures
            forall|j: int|
                0 <= j < self.deps(u).len() ==> self.dims.contains(#[trigger] self.deps(u)[j])
                    && self@.edge(u, self.deps(u)[j]),
            forall|k: int|
                0 <= k < self.ranges@.len() ==> self.dims.contains(
                    (#[trigger] self.ranges@[k]).cell,
                ) && (in_rect(u, self.ranges@[k].start, self.ranges@[k].end) ==> self@.edge(
                    u,
                    self.ranges@[k].cell,
                )),
            forall|k: int|
                0 <= k < self.ranges@.len() ==> (#[trigger] self.ranges@[k]).start.0
                    <= self.ranges@[k].end.0 && self.ranges@[k].start.1 <= self.ranges@[k].end.1,
    {
        assert forall|k: int| 0 <= k < self.ranges@.len() implies (#[trigger] self.ranges@[k]).start.0
            <= self.ranges@[k].end.0 && self.ranges@[k].start.1 <= self.ranges@[k].end.1 by {
            assert(self.range_ok(self.ranges@[k], None));
            assert(self.formula_at(self.ranges@[k].cell).fits(self.dims));
        }
        assert forall|j: int| 0 <= j < self.deps(u).len() implies self.dims.contains(
            #[trigger] self.deps(u)[j],
        ) && self@.edge(u, self.deps(u)[j]) by {
            assert(self.deps(u).contains(self.deps(u)[j]));
        }
        assert forall|k: int| 0 <= k < self.ranges@.len() implies self.dims.contains(
            (#[trigger] self.ranges@[k]).cell,
        ) && (in_rect(u, self.ranges@[k].start, self.ranges@[k].end) ==> self@.edge(
            u,
            self.ranges@[k].cell,
        )) by {
            assert(self.range_ok(self.ranges@[k], None));
        }
    }

    /// Every dependent of a cell is listed for it by one of the indices.
    proof fn lemma_edge_listed(&self, u: Coord, v: Coord)
        requires
            self.linked(),
            self@.edge(u, v),
        ensures
            (exists|j: int| 0 <= j < self.deps(u).len() && #[trigger] self.deps(u)[j] == v) || (
            exists|k: int|
                0 <= k < self.ranges@.len() && (#[trigger] self.ranges@[k]).cell == v && in_rect(
                    u,
                    self.ranges@[k].start,
                    self.ranges@[k].end,
                )),
    {
        if self.formula_at(v).names(u) {
            assert(self.deps(u).contains(v));
        } else {
            assert(self.formula_at(v) is Range);
            assert(self.has_range(v));
            let k = choose|k: int|
                0 <= k < self.ranges@.len() && (#[trigger] self.ranges@[k]).cell == v;
            assert(self.range_ok(self.ranges@[k], None));
        }
    }

    /// Setting the mark of one cell leaves the marks of the others.
    proof fn lemma_mark_update(&self, marks: Seq<u8>, c: Coord, m: u8)
        requires
            self.dims.valid(),
            self.dims.contains(c),
            marks.len() == self.dims.size(),
        ensures
            0 <= self.dims.index(c) < marks.len(),
            marks.update(self.dims.index(c), m).len() == marks.len(),
            self.mark_of(marks.update(self.dims.index(c), m), c) == m,
            forall|x: Coord|
                self.dims.contains(x) && x != c ==> #[trigger] self.mark_of(
                    marks.update(self.dims.index(c), m),
                    x,
                ) == self.mark_of(marks, x),
    {
        self.dims.lemma_index_bound(c);
        assert forall|x: Coord| self.dims.contains(x) && x != c implies #[trigger] self.mark_of(
            marks.update(self.dims.index(c), m),
            x,
        ) == self.mark_of(marks, x) by {
            self.dims.lemma_index_bound(x);
            if self.dims.index(x) == self.dims.index(c) {
                self.dims.lemma_index_injective(x, c);
            }
        }
    }

    /// The top frame moved one step on, past `passed`.
    spec fn stepped(&self, top: Frame, fr: Frame, passed: Option<Coord>) -> bool {
        &&& fr.node == top.node
        &&& top.dep_at <= self.deps(top.node).len()
        &&& top.range_at <= self.ranges@.len()
        &&& if top.dep_at < self.deps(top.node).len() {
            &&& fr.dep_at == top.dep_at + 1
            &&& fr.range_at == top.range_at
            &&& passed == Some(self.deps(top.node)[top.dep_at as int])
        } else {
            &&& top.range_at < self.ranges@.len()
            &&& fr.dep_at == top.dep_at
            &&& fr.range_at == top.range_at + 1
            &&& passed == (if in_rect(
                top.node,
                self.ranges@[top.range_at as int].start,
                self.ranges@[top.range_at as int].end,
            ) {
                Some(self.ranges@[top.range_at as int].cell)
            } else {
                None
            })
        }
    }

    /// The search may pass a cell that it has left already, or no cell.
    proof fn lemma_advance(&self, st: Search, fr: Frame, passed: Option<Coord>)
        requires
            self.linked(),
            self.searching(st),
            st.stack.len() > 0,
            self.stepped(st.stack.last(), fr, passed),
            passed matches Some(v) ==> self.mark_of(st.marks, v) == BLACK,
        ensures
            self.searching(Search { stack: st.stack.update(st.stack.len() - 1, fr), ..st }),
    {
        let top = st.stack.len() - 1;
        let st2 = Search { stack: st.stack.update(top, fr), ..st };
        assert forall|i: int| 0 <= i < st2.stack.len() implies #[trigger] self.frame_ok(st2, i) by {
            assert(self.frame_ok(st, i));
            if i == top {
                assert forall|j: int| 0 <= j < fr.dep_at implies self.done(
                    st2,
                    i,
                    #[trigger] self.deps(fr.node)[j],
                ) by {
                    if j < st.stack[top].dep_at {
                        assert(self.done(st, i, self.deps(fr.node)[j]));
                    }
                }
                assert forall|j: int|
                    0 <= j < fr.range_at && in_rect(
                        fr.node,
                        self.ranges@[j].start,
                        self.ranges@[j].end,
                    ) implies self.done(st2, i, (#[trigger] self.ranges@[j]).cell) by {
                    if j < st.stack[top].range_at {
                        assert(self.done(st, i, self.ranges@[j].cell));
                    }
                }
            } else {
                let f0 = st.stack[i];
                assert(st2.stack[i] == f0);
                assert(st2.stack[i + 1].node == st.stack[i + 1].node);
                assert forall|j: int| 0 <= j < f0.dep_at implies self.done(
                    st2,
                    i,
                    #[trigger] self.deps(f0.node)[j],
                ) by {
                    assert(self.done(st, i, self.deps(f0.node)[j]));
                }
                assert forall|j: int|
                    0 <= j < f0.range_at && in_rect(
                        f0.node,
                        self.ranges@[j].start,
                        self.ranges@[j].end,
                    ) implies self.done(st2, i, (#[trigger] self.ranges@[j]).cell) by {
                    assert(self.done(st, i, self.ranges@[j].cell));
                }
            }
        }
        assert forall|i: int, j: int| 0 <= i < j < st2.stack.len() implies (#[trigger] st2.stack[i]).node
            != (#[trigger] st2.stack[j]).node by {
            assert(st2.stack[i].node == st.stack[i].node);
            assert(st2.stack[j].node == st.stack[j].node);
        }
        assert forall|c: Coord|
            self.dims.contains(c) && #[trigger] self.mark_of(st2.marks, c) == GRAY implies self.on_stack(
            st2.stack,
            c,
        ) by {
            assert(self.on_stack(st.stack, c));
            let i = choose|i: int| 0 <= i < st.stack.len() && (#[trigger] st.stack[i]).node == c;
            assert(st2.stack[i].node == c);
        }
    }

    /// The search may enter a cell that it has not touched.
    proof fn lemma_push(&self, st: Search, fr: Frame, v: Coord)
        requires
            self.linked(),
            self.searching(st),
            st.stack.len() > 0,
            self.stepped(st.stack.last(), fr, Some(v)),
            self.dims.contains(v),
            self.mark_of(st.marks, v) == WHITE,
        ensures
            self.searching(
                Search {
                    marks: st.marks.update(self.dims.index(v), GRAY),
                    stack: st.stack.update(st.stack.len() - 1, fr).push(
                        Frame { node: v, dep_at: 0, range_at: 0 },
                    ),
                    order: st.order,
                },
            ),
    {
        let top = st.stack.len() - 1;
        let u = st.stack[top].node;
        let st2 = Search {
            marks: st.marks.update(self.dims.index(v), GRAY),
            stack: st.stack.update(top, fr).push(Frame { node: v, dep_at: 0, range_at: 0 }),
            order: st.order,
        };
        self.lemma_mark_update(st.marks, v, GRAY);
        assert(self.frame_ok(st, top));
        self.lemma_listed_edge(u);
        assert(self@.edge(u, v));
        assert forall|i: int| 0 <= i < st.stack.len() implies (#[trigger] st.stack[i]).node != v by {
            assert(self.frame_ok(st, i));
        }
        assert forall|i: int| 0 <= i < st2.stack.len() implies #[trigger] self.frame_ok(st2, i) by {
            if i == top + 1 {
            } else {
                assert(self.frame_ok(st, i));
                let f0 = st.stack[i];
                let f2 = st2.stack[i];
                assert(f2.node == f0.node);
                assert(f0.node != v);
                assert forall|j: int| 0 <= j < f2.dep_at implies self.done(
                    st2,
                    i,
                    #[trigger] self.deps(f2.node)[j],
                ) by {
                    let x = self.deps(f2.node)[j];
                    if j < f0.dep_at {
                        assert(self.done(st, i, x));
                        self.lemma_listed_edge(f0.node);
                        assert(self.dims.contains(x));
                        if i < top {
                            assert(st2.stack[i + 1].node == st.stack[i + 1].node);
                        }
                    }
                }
                assert forall|j: int|
                    0 <= j < f2.range_at && in_rect(
                        f2.node,
                        self.ranges@[j].start,
                        self.ranges@[j].end,
                    ) implies self.done(st2, i, (#[trigger] self.ranges@[j]).cell) by {
                    let x = self.ranges@[j].cell;
                    if j < f0.range_at {
                        assert(self.done(st, i, x));
                        self.lemma_listed_edge(f0.node);
                        assert(self.dims.contains(x));
                        if i < top {
                            assert(st2.stack[i + 1].node == st.stack[i + 1].node);
                        }
                    }
                }
                if i < top {
                    assert(st2.stack[i + 1].node == st.stack[i + 1].node);
                }
            }
        }
        assert forall|i: int, j: int| 0 <= i < j < st2.stack.len() implies (#[trigger] st2.stack[i]).node
            != (#[trigger] st2.stack[j]).node by {
            assert(st2.stack[i].node == st.stack[i].node);
            if j <= top {
                assert(st2.stack[j].node == st.stack[j].node);
            }
        }
        assert forall|c: Coord|
            self.dims.contains(c) && #[trigger] self.mark_of(st2.marks, c) == GRAY implies self.on_stack(
            st2.stack,
            c,
        ) by {
            if c == v {
                assert(st2.stack[top + 1].node == c);
            } else {
                assert(self.mark_of(st.marks, c) == GRAY);
                assert(self.on_stack(st.stack, c));
                let i = choose|i: int|
                    0 <= i < st.stack.len() && (#[trigger] st.stack[i]).node == c;
                assert(st2.stack[i].node == c);
            }
        }
        assert(self.blackened(st2.marks, st2.order)) by {
            assert forall|j: int| 0 <= j < st2.order.len() implies self.dims.contains(
                #[trigger] st2.order[j],
            ) && self.mark_of(st2.marks, st2.order[j]) == BLACK by {
                assert(self.mark_of(st.marks, st.order[j]) == BLACK);
            }
            assert forall|c: Coord|
                self.dims.contains(c) && #[trigger] self.mark_of(st2.marks, c)
                    == BLACK implies st2.order.contains(c) by {
                assert(self.mark_of(st.marks, c) == BLACK);
            }
        }
    }

    /// The search may leave the cell on top of the stack once it has looked
    /// at every cell that depends on it.
    proof fn lemma_pop(&self, st: Search)
        requires
            self.linked(),
            self.searching(st),
            st.stack.len() > 0,
            st.stack.last().dep_at == self.deps(st.stack.last().node).len(),
            st.stack.last().range_at == self.ranges@.len(),
        ensures
            self.searching(
                Search {
                    marks: st.marks.update(self.dims.index(st.stack.last().node), BLACK),
                    stack: st.stack.drop_last(),
                    order: st.order.push(st.stack.last().node),
                },
            ),
    {
        let top = st.stack.len() - 1;
        let u = st.stack[top].node;
        let st2 = Search {
            marks: st.marks.update(self.dims.index(u), BLACK),
            stack: st.stack.drop_last(),
            order: st.order.push(u),
        };
        assert(self.frame_ok(st, top));
        self.lemma_mark_update(st.marks, u, BLACK);
        let e = self@.edges();
        let n = st.order.len() as int;
        assert(!st.order.contains(u)) by {
            if st.order.contains(u) {
                let j = choose|j: int| 0 <= j < st.order.len() && st.order[j] == u;
                assert(self.mark_of(st.marks, st.order[j]) == BLACK);
            }
        }
        assert(st2.order.no_duplicates()) by {
            assert forall|a: int, b: int|
                0 <= a < st2.order.len() && 0 <= b < st2.order.len() && a != b implies st2.order[a]
                != st2.order[b] by {
                if a < n && b < n {
                    assert(st.order[a] != st.order[b]);
                } else if a < n {
                    assert(st.order[a] == st2.order[a]);
                } else {
                    assert(st.order[b] == st2.order[b]);
                }
            }
        }
        assert(settled(e, st2.order)) by {
            assert forall|i: int, v: Coord|
                0 <= i < st2.order.len() && #[trigger] has_edge(
                    e,
                    st2.order[i],
                    v,
                ) implies stands_before(st2.order, v, i) by {
                if i < n {
                    assert(has_edge(e, st.order[i], v));
                    assert(stands_before(st.order, v, i));
                    let j = choose|j: int| 0 <= j < i && #[trigger] st.order[j] == v;
                    assert(st2.order[j] == v);
                } else {
                    assert(self@.edge(u, v));
                    self.lemma_edge_listed(u, v);
                    if exists|j: int| 0 <= j < self.deps(u).len() && #[trigger] self.deps(u)[j] == v {
                        let j = choose|j: int|
                            0 <= j < self.deps(u).len() && #[trigger] self.deps(u)[j] == v;
                        assert(self.done(st, top, self.deps(u)[j]));
                    } else {
                        let k = choose|k: int|
                            0 <= k < self.ranges@.len() && (#[trigger] self.ranges@[k]).cell == v
                                && in_rect(u, self.ranges@[k].start, self.ranges@[k].end);
                        assert(self.done(st, top, self.ranges@[k].cell));
                    }
                    assert(self.mark_of(st.marks, v) == BLACK);
                    assert(st.order.contains(v));
                    let j = choose|j: int| 0 <= j < st.order.len() && st.order[j] == v;
                    assert(st2.order[j] == v);
                }
            }
        }
        assert(self.blackened(st2.marks, st2.order)) by {
            assert forall|j: int| 0 <= j < st2.order.len() implies self.dims.contains(
                #[trigger] st2.order[j],
            ) && self.mark_of(st2.marks, st2.order[j]) == BLACK by {
                if j < n {
                    assert(st.order[j] == st2.order[j]);
                    assert(self.mark_of(st.marks, st.order[j]) == BLACK);
                }
            }
            assert forall|c: Coord|
                self.dims.contains(c) && #[trigger] self.mark_of(st2.marks, c)
                    == BLACK implies st2.order.contains(c) by {
                if c == u {
                    assert(st2.order[n] == u);
                } else {
                    assert(self.mark_of(st.marks, c) == BLACK);
                    assert(st.order.contains(c));
                    let j = choose|j: int| 0 <= j < st.order.len() && st.order[j] == c;
                    assert(st2.order[j] == c);
                }
            }
        }
        assert forall|i: int| 0 <= i < st2.stack.len() implies #[trigger] self.frame_ok(st2, i) by {
            assert(self.frame_ok(st, i));
            let f0 = st.stack[i];
            assert(st2.stack[i] == f0);
            assert(f0.node != u);
            self.lemma_listed_edge(f0.node);
            assert forall|j: int| 0 <= j < f0.dep_at implies self.done(
                st2,
                i,
                #[trigger] self.deps(f0.node)[j],
            ) by {
                let x = self.deps(f0.node)[j];
                assert(self.done(st, i, x));
                assert(self.dims.contains(x));
                if i + 1 < top {
                    assert(st2.stack[i + 1] == st.stack[i + 1]);
                }
            }
            assert forall|j: int|
                0 <= j < f0.range_at && in_rect(
                    f0.node,
                    self.ranges@[j].start,
                    self.ranges@[j].end,
                ) implies self.done(st2, i, (#[trigger] self.ranges@[j]).cell) by {
                let x = self.ranges@[j].cell;
                assert(self.done(st, i, x));
                assert(self.dims.contains(x));
                if i + 1 < top {
                    assert(st2.stack[i + 1] == st.stack[i + 1]);
                }
            }
            if i + 1 < top {
                assert(st2.stack[i + 1] == st.stack[i + 1]);
            }
        }
        assert forall|i: int, j: int| 0 <= i < j < st2.stack.len() implies (#[trigger] st2.stack[i]).node
            != (#[trigger] st2.stack[j]).node by {
            assert(st2.stack[i].node == st.stack[i].node);
            assert(st2.stack[j].node == st.stack[j].node);
        }
        assert forall|c: Coord|
            self.dims.contains(c) && #[trigger] self.mark_of(st2.marks, c) == GRAY implies self.on_stack(
            st2.stack,
            c,
        ) by {
            assert(c != u);
            assert(self.mark_of(st.marks, c) == GRAY);
            assert(self.on_stack(st.stack, c));
            let i = choose|i: int| 0 <= i < st.stack.len() && (#[trigger] st.stack[i]).node == c;
            assert(i != top);
            assert(st2.stack[i].node == c);
        }
    }

    /// A search at rest may enter a cell that it has not touched.
    proof fn lemma_start(&self, marks: Seq<u8>, order: Seq<Coord>, root: Coord)
        requires
            self.linked(),
            self.searched(marks, order),
            self.dims.contains(root),
            self.mark_of(marks, root) == WHITE,
        ensures
            self.searching(
                Search {
                    marks: marks.update(self.dims.index(root), GRAY),
                    stack: seq![Frame { node: root, dep_at: 0, range_at: 0 }],
                    order,
                },
            ),
    {
        let st = Search { marks, stack: Seq::empty(), order };
        let st2 = Search {
            marks: marks.update(self.dims.index(root), GRAY),
            stack: seq![Frame { node: root, dep_at: 0, range_at: 0 }],
            order,
        };
        self.lemma_mark_update(marks, root, GRAY);
        assert forall|c: Coord|
            self.dims.contains(c) && #[trigger] self.mark_of(st2.marks, c) == GRAY implies self.on_stack(
            st2.stack,
            c,
        ) by {
            if c == root {
                assert(st2.stack[0].node == c);
            } else {
                assert(self.mark_of(st.marks, c) == GRAY);
                assert(self.on_stack(st.stack, c));
            }
        }
        assert(self.blackened(st2.marks, st2.order)) by {
            assert forall|j: int| 0 <= j < st2.order.len() implies self.dims.contains(
                #[trigger] st2.order[j],
            ) && self.mark_of(st2.marks, st2.order[j]) == BLACK by {
                assert(self.mark_of(st.marks, st.order[j]) == BLACK);
            }
            assert forall|c: Coord|
                self.dims.contains(c) && #[trigger] self.mark_of(st2.marks, c)
                    == BLACK implies st2.order.contains(c) by {
                assert(self.mark_of(st.marks, c) == BLACK);
            }
        }
        assert(self.frame_ok(st2, 0));
    }

    /// An edge from the top of the stack to a cell on the stack closes a
    /// cycle.
    proof fn lemma_back_edge(&self, st: Search, v: Coord)
        requires
            self.linked(),
            self.searching(st),
            st.stack.len() > 0,
            self@.edge(st.stack.last().node, v),
            self.dims.contains(v),
            self.mark_of(st.marks, v) == GRAY,
        ensures
            self@.cyclic(),
    {
        let e = self@.edges();
        let path = Seq::new(st.stack.len(), |i: int| st.stack[i].node);
        assert forall|i: int| 0 <= i < path.len() - 1 implies #[trigger] step(e, path, i) by {
            assert(self.frame_ok(st, i));
        }
        assert(is_walk(e, path));
        assert(self.on_stack(st.stack, v));
        let i = choose|i: int| 0 <= i < st.stack.len() && (#[trigger] st.stack[i]).node == v;
        assert(path[i] == v);
        assert(has_edge(e, path.last(), path[i]));
        lemma_back_edge_is_cycle(e, path, i);
    }

    /// How many steps the top of the stack has left.
    spec fn remaining(&self, stack: Seq<Frame>) -> int {
        if stack.len() > 0 {
            let top = stack.last();
            (self.deps(top.node).len() - top.dep_at) + (self.ranges@.len() - top.range_at)
        } else {
            0
        }
    }

    /// Searches depth-first from `cell` through the cells that depend on
    /// it, with a stack of its own, and adds each cell that it leaves to
    /// `order`. Tells whether it met a cycle; if so it stops there.
    ///
    /// `marks` and `order` are those of a search at rest, so that one
    /// search can go on where another ended.
    fn is_cyclic(&self, cell: Coord, marks: &mut Vec<u8>, order: &mut Vec<Coord>) -> (found: bool)
        requires
            self.linked(),
            self.dims.contains(cell),
            self.searched(old(marks)@, old(order)@),
        ensures
            found ==> self@.cyclic(),
            !found ==> {
                &&& self.searched(final(marks)@, final(order)@)
                &&& self.mark_of(final(marks)@, cell) == BLACK
                &&& final(order)@.len() >= old(order)@.len()
                &&& final(order)@.take(old(order)@.len() as int) == old(order)@
                &&& forall|j: int|
                    old(order)@.len() <= j < final(order)@.len() ==> reaches(
                        self@.edges(),
                        cell,
                        #[trigger] final(order)@[j],
                    )
                &&& self.mark_of(old(marks)@, cell) == WHITE ==> final(order)@.len() > old(
                    order,
                )@.len() && final(order)@.last() == cell
            },
    {
        let root_at: usize = self.dims.offset(cell);
        proof {
            assert(self.blackened(marks@, order@));
            assert(order@.take(order@.len() as int) =~= order@);
        }
        if marks[root_at] != WHITE {
            proof {
                assert(marks@[root_at as int] <= BLACK);
                if marks@[root_at as int] == GRAY {
                    assert(self.mark_of(marks@, cell) == GRAY);
                    assert(self.on_stack(Seq::<Frame>::empty(), cell));
                }
            }
            return false;
        }
        let ghost base: int = order@.len() as int;
        let ghost e = self@.edges();
        let mut stack: Vec<Frame> = Vec::new();
        proof {
            self.lemma_start(marks@, order@, cell);
            self.lemma_mark_update(marks@, cell, GRAY);
            lemma_reaches_self(e, cell);
        }
        marks[root_at] = GRAY;
        stack.push(Frame { node: cell, dep_at: 0, range_at: 0 });
        proof {
            assert(stack@ =~= seq![Frame { node: cell, dep_at: 0, range_at: 0 }]);
        }
        while stack.len() > 0
            invariant
                self.linked(),
                self.dims.contains(cell),
                e == self@.edges(),
                base == old(order)@.len(),
                self.searching(Search { marks: marks@, stack: stack@, order: order@ }),
                self.from_root(Search { marks: marks@, stack: stack@, order: order@ }, cell, base),
                order@.len() >= base,
                order@.take(base) == old(order)@,
                stack@.len() > 0 ==> stack@[0].node == cell,
                stack@.len() == 0 ==> order@.len() > base && order@.last() == cell,
            decreases whites(marks@, marks@.len() as int), stack@.len(), self.remaining(stack@),
        {
            let top: usize = stack.len() - 1;
            let fr: Frame = stack[top];
            let u: Coord = fr.node;
            let ghost st = Search { marks: marks@, stack: stack@, order: order@ };
            proof {
                assert(self.frame_ok(st, top as int));
                assert(self.blackened(marks@, order@));
                self.lemma_listed_edge(u);
                lemma_whites_bounds(marks@, marks@.len() as int);
            }
            let at: usize = self.dims.offset(u);
            if fr.dep_at >= self.dependents[at].len() && fr.range_at >= self.ranges.len() {
                proof {
                    self.lemma_pop(st);
                    self.lemma_mark_update(marks@, u, BLACK);
                    lemma_whites_update(marks@, at as int, BLACK, marks@.len() as int);
                }
                stack.pop();
                marks[at] = BLACK;
                order.push(u);
                proof {
                    let st2 = Search { marks: marks@, stack: stack@, order: order@ };
                    assert(st2.stack =~= st.stack.drop_last());
                    assert(order@.take(base) =~= st.order.take(base));
                    assert forall|j: int| base <= j < st2.order.len() implies reaches(
                        e,
                        cell,
                        #[trigger] st2.order[j],
                    ) by {
                        if j < st.order.len() {
                            assert(st2.order[j] == st.order[j]);
                        } else {
                            assert(st.stack[top as int].node == u);
                        }
                    }
                    assert forall|i: int| 0 <= i < st2.stack.len() implies reaches(
                        e,
                        cell,
                        (#[trigger] st2.stack[i]).node,
                    ) by {
                        assert(st2.stack[i] == st.stack[i]);
                    }
                    if stack@.len() > 0 {
                        assert(stack@[0] == st.stack[0]);
                    }
                }
            } else {
                let passed: Option<Coord>;
                let moved: Frame;
                if fr.dep_at < self.dependents[at].len() {
                    passed = Some(self.dependents[at][fr.dep_at]);
                    moved = Frame { node: u, dep_at: fr.dep_at + 1, range_at: fr.range_at };
                } else {
                    let r: RangeDep = self.ranges[fr.range_at];
                    passed = if is_within_range(u, r.start, r.end) {
                        Some(r.cell)
                    } else {
                        None
                    };
                    moved = Frame { node: u, dep_at: fr.dep_at, range_at: fr.range_at + 1 };
                }
                proof {
                    assert(self.stepped(fr, moved, passed));
                    assert(st.stack.last() == fr);
                }
                stack[top] = moved;
                let ghost mid = stack@;
                proof {
                    assert(mid =~= st.stack.update(top as int, moved));
                    assert forall|i: int| 0 <= i < mid.len() implies reaches(
                        e,
                        cell,
                        (#[trigger] mid[i]).node,
                    ) by {
                        assert(mid[i].node == st.stack[i].node);
                    }
                }
                match passed {
                    None => {
                        proof {
                            self.lemma_advance(st, moved, passed);
                        }
                    },
                    Some(v) => {
                        let v_at: usize = self.dims.offset(v);
                        let mark: u8 = marks[v_at];
                        proof {
                            assert(mark == self.mark_of(marks@, v));
                            assert(self@.edge(u, v));
                        }
                        if mark == GRAY {
                            proof {
                                self.lemma_back_edge(st, v);
                            }
                            return true;
                        } else if mark == WHITE {
                            proof {
                                self.lemma_push(st, moved, v);
                                self.lemma_mark_update(marks@, v, GRAY);
                                lemma_whites_update(marks@, v_at as int, GRAY, marks@.len() as int);
                                assert(has_edge(e, u, v));
                                lemma_reaches_step(e, cell, u, v);
                            }
                            marks[v_at] = GRAY;
                            stack.push(Frame { node: v, dep_at: 0, range_at: 0 });
                            proof {
                                assert(stack@ =~= mid.push(Frame { node: v, dep_at: 0, range_at: 0 }));
                                assert forall|i: int| 0 <= i < stack@.len() implies reaches(
                                    e,
                                    cell,
                                    (#[trigger] stack@[i]).node,
                                ) by {
                                    if i < mid.len() {
                                        assert(stack@[i] == mid[i]);
                                    }
                                }
                            }
                        } else {
                            proof {
                                assert(marks@[v_at as int] <= BLACK);
                                self.lemma_advance(st, moved, passed);
                            }
                        }
                    },
                }
            }
            proof {
                // The measure stays above zero: it counts cells and steps.
                lemma_whites_bounds(marks@, marks@.len() as int);
                if stack@.len() > 0 {
                    assert(self.frame_ok(
                        Search { marks: marks@, stack: stack@, order: order@ },
                        stack@.len() - 1,
                    ));
                }
            }
        }
        proof {
            assert(stack@ =~= Seq::<Frame>::empty());
            assert(self.blackened(marks@, order@));
            assert(self.mark_of(marks@, order@.last()) == BLACK);
        }
        false
    }

    /// Evaluates the formula `f` over what the cells hold now.
    fn compute(&self, f: &Formula) -> (r: Cell)
        requires
            self.shaped(),
        ensures
            r == f.value(self@.lookup()),
    {
        let get_val = |c: Coord| -> (v: Option<i32>)
            requires
                self.shaped(),
            ensures
                v == self@.lookup()(c),
            { self.get_val(c) };
        let r = evaluate(f, get_val);
        proof {
            let m = choose|m: Lookup| informs(get_val, m, *f) && r == f.value(m);
            assert forall|p: Coord| f.reads(p) implies #[trigger] m(p) == self@.lookup()(p) by {
                assert(call_ensures(get_val, (p,), m(p)));
            }
            lemma_value_agree(*f, m, self@.lookup());
        }
        r
    }

    /// A sheet with the grid, the formulas and the indices of a sheet in
    /// order is in order, and has the same graph.
    proof fn lemma_same_graph(&self, other: &Spreadsheet)
        requires
            other.linked(),
            self.dims == other.dims,
            self.formulas@ == other.formulas@,
            self.dependents@ == other.dependents@,
            self.ranges@ == other.ranges@,
            self.values@.len() == other.values@.len(),
        ensures
            self.linked(),
            self@.dims == other@.dims,
            self@.formulas == other@.formulas,
            self@.dependents == other@.dependents,
            self@.ranges == other@.ranges,
            self@.edges() == other@.edges(),
    {
        assert(self@.formulas =~= other@.formulas);
        assert(self@.dependents =~~= other@.dependents);
        assert(self@.ranges =~= other@.ranges);
        assert forall|c: Coord| #[trigger] self.formula_at(c) == other.formula_at(c) by {}
        assert forall|c: Coord| #[trigger] self.deps(c) == other.deps(c) by {}
        assert forall|r: RangeDep, skip: Option<Coord>| #[trigger]
            self.range_ok(r, skip) == other.range_ok(r, skip) by {}
        assert forall|d: Coord| #[trigger] self.has_range(d) == other.has_range(d) by {}
        assert forall|k: int| 0 <= k < self.ranges@.len() implies self.range_ok(
            #[trigger] self.ranges@[k],
            None,
        ) by {
            assert(other.range_ok(other.ranges@[k], None));
        }
        assert(self.indexed(None));
        assert forall|u: Coord, v: Coord| #[trigger]
            has_edge(self@.edges(), u, v) == has_edge(other@.edges(), u, v) by {}
        lemma_same_edges(self@.edges(), other@.edges());
    }

    /// Evaluates the cells of `order` anew, from its end to its start, but
    /// for the last, `start`, which is taken as it stands; and reports
    /// the order in which it went.
    fn refresh(&mut self, order: &Vec<Coord>, start: Coord)
        requires
            old(self).linked(),
            order@.len() >= 1,
            order@.last() == start,
            order@.no_duplicates(),
            settled(old(self)@.edges(), order@),
            forall|j: int| 0 <= j < order@.len() ==> old(self).dims.contains(#[trigger] order@[j]),
            forall|c: Coord|
                old(self).dims.contains(c) && (c == start || !order@.contains(c)) ==> #[trigger] old(
                    self,
                )@.fresh(c),
        ensures
            final(self).linked(),
            final(self)@.dims == old(self)@.dims,
            final(self)@.formulas == old(self)@.formulas,
            final(self)@.consistent(),
            final(self).swept() == reversed(order@),
            forall|k: int|
                0 <= k < final(self).sweep@.len() ==> final(self).dims.contains(
                    #[trigger] final(self).sweep@[k],
                ),
            forall|c: Coord|
                old(self).dims.contains(c) && (c == start || !order@.contains(c))
                    ==> #[trigger] final(self)@.values[c] == old(self)@.values[c],
            old(self)@.consistent() ==> final(self)@.values == old(self)@.values,
    {
        let n: usize = order.len();
        let ghost e = self@.edges();
        let mut sweep: Vec<Coord> = Vec::new();
        sweep.push(start);
        let mut i: usize = n - 1;
        while i > 0
            invariant
                0 <= i <= n - 1,
                n == order@.len(),
                order@.last() == start,
                order@.no_duplicates(),
                settled(e, order@),
                forall|j: int| 0 <= j < order@.len() ==> self.dims.contains(#[trigger] order@[j]),
                old(self).linked(),
                self.dims == old(self).dims,
                self.formulas@ == old(self).formulas@,
                self.dependents@ == old(self).dependents@,
                self.ranges@ == old(self).ranges@,
                self.values@.len() == old(self).values@.len(),
                e == old(self)@.edges(),
                sweep@.len() == n - i,
                forall|k: int| 0 <= k < sweep@.len() ==> #[trigger] sweep@[k] == order@[n - 1 - k],
                forall|c: Coord|
                    self.dims.contains(c) && (!order@.contains(c) || exists|j: int|
                        i <= j < n && order@[j] == c) ==> #[trigger] self@.fresh(c),
                forall|c: Coord|
                    self.dims.contains(c) && (c == start || !order@.contains(c))
                        ==> #[trigger] self.value_at(c) == old(self).value_at(c),
                old(self)@.consistent() ==> self.values@ == old(self).values@,
            decreases i,
        {
            i = i - 1;
            let x: Coord = order[i];
            let at: usize = self.dims.offset(x);
            let f: Formula = self.formulas[at];
            proof {
                self.lemma_same_graph(old(self));
            }
            let v: Cell = self.compute(&f);
            let ghost before = *self;
            self.values[at] = v;
            sweep.push(x);
            proof {
                self.lemma_same_graph(old(self));
                before.lemma_same_graph(old(self));
                assert(f == before.formula_at(x));
                let m0 = before@.lookup();
                let m1 = self@.lookup();
                assert forall|c: Coord| self.dims.contains(c) && c != x implies #[trigger] self.value_at(
                    c,
                ) == before.value_at(c) by {
                    self.dims.lemma_index_bound(c);
                    if self.dims.index(c) == self.dims.index(x) {
                        self.dims.lemma_index_injective(c, x);
                    }
                }
                assert(self.value_at(x) == v);
                assert forall|c: Coord| c != x implies #[trigger] m1(c) == m0(c) by {
                    if self.dims.contains(c) {
                        assert(self.value_at(c) == before.value_at(c));
                    }
                }
                assert forall|c: Coord|
                    self.dims.contains(c) && (!order@.contains(c) || exists|j: int|
                        i <= j < n && order@[j] == c) implies #[trigger] self@.fresh(c) by {
                    let g = self.formula_at(c);
                    assert(g == before.formula_at(c));
                    // the formula of `c` does not read `x`
                    if g.reads(x) {
                        assert(has_edge(e, order@[i as int], c));
                        assert(stands_before(order@, c, i as int));
                        let j0 = choose|j0: int| 0 <= j0 < i && #[trigger] order@[j0] == c;
                        assert(order@.contains(c));
                        let j1 = choose|j1: int| i <= j1 < n && order@[j1] == c;
                        assert(order@[j0] == order@[j1]);
                        assert(false);
                    }
                    assert forall|p: Coord| g.reads(p) implies #[trigger] m0(p) == m1(p) by {}
                    lemma_value_agree(g, m0, m1);
                    if c == x {
                    } else {
                        assert(self.value_at(c) == before.value_at(c));
                        assert(before@.fresh(c)) by {
                            if order@.contains(c) {
                                let j1 = choose|j1: int| i <= j1 < n && order@[j1] == c;
                                assert(j1 != i);
                                assert(i + 1 <= j1 < n && order@[j1] == c);
                            }
                        }
                    }
                }
                assert forall|c: Coord|
                    self.dims.contains(c) && (c == start || !order@.contains(c))
                        implies #[trigger] self.value_at(c) == old(self).value_at(c) by {
                    assert(order@[n - 1] == start);
                    assert(c != x);
                    assert(self.value_at(c) == before.value_at(c));
                }
                if old(self)@.consistent() {
                    assert(old(self)@.fresh(x));
                    assert(before@.values =~= old(self)@.values);
                    assert(before@ == old(self)@);
                    assert(v == old(self).value_at(x));
                    assert(self.values@ =~= old(self).values@);
                }
            }
        }
        let ghost pre = *self;
        self.sweep = sweep;
        proof {
            self.lemma_same_graph(old(self));
            pre.lemma_same_graph(old(self));
            assert(self@.values =~= pre@.values);
            assert(self@ == pre@);
            assert(self.sweep@ =~= reversed(order@));
            assert forall|c: Coord| self.dims.contains(c) implies #[trigger] self@.fresh(c) by {
                if order@.contains(c) {
                    let j = choose|j: int| 0 <= j < order@.len() && order@[j] == c;
                    assert(0 <= j < n && order@[j] == c);
                }
                assert(pre@.fresh(c));
            }
            assert forall|c: Coord|
                old(self).dims.contains(c) && (c == start || !order@.contains(c))
                    implies #[trigger] self@.values[c] == old(self)@.values[c] by {
                assert(pre.value_at(c) == old(self).value_at(c));
            }
            if old(self)@.consistent() {
                assert(self@.values =~= old(self)@.values);
            }
        }
    }

    /// The marks of a search that has not begun.
    fn fresh_marks(&self) -> (marks: Vec<u8>)
        requires
            self.linked(),
        ensures
            self.searched(marks@, Seq::<Coord>::empty()),
            forall|c: Coord| self.dims.contains(c) ==> #[trigger] self.mark_of(marks@, c) == WHITE,
    {
        let n: usize = self.dims.len();
        let mut marks: Vec<u8> = Vec::new();
        let mut i: usize = 0;
        while i < n
            invariant
                i <= n,
                marks@.len() == i,
                forall|j: int| 0 <= j < i ==> #[trigger] marks@[j] == WHITE,
            decreases n - i,
        {
            marks.push(WHITE);
            i = i + 1;
        }
        proof {
            let order = Seq::<Coord>::empty();
            assert forall|c: Coord| self.dims.contains(c) implies #[trigger] self.mark_of(marks@, c)
                == WHITE by {
                self.dims.lemma_index_bound(c);
            }
            assert(settled(self@.edges(), order));
            assert(self.blackened(marks@, order));
        }
        marks
    }

    /// Whether the dependency graph holds a cycle.
    ///
    /// Searches the whole graph. A sheet that `new` made and `set_cell`
    /// edited never holds one.
    pub fn has_cycle(&self) -> (r: bool)
        requires
            self.linked(),
        ensures
            r == self@.cyclic(),
    {
        let mut marks: Vec<u8> = self.fresh_marks();
        let mut order: Vec<Coord> = Vec::new();
        let rows: u16 = self.dims.rows;
        let cols: u16 = self.dims.cols;
        let mut row: u16 = 1;
        while row <= rows
            invariant
                self.linked(),
                rows == self.dims.rows,
                cols == self.dims.cols,
                1 <= row <= rows + 1,
                self.searched(marks@, order@),
                forall|c: Coord|
                    self.dims.contains(c) && c.1 < row ==> #[trigger] self.mark_of(marks@, c)
                        == BLACK,
            decreases rows + 1 - row,
        {
            let mut col: u16 = 1;
            while col <= cols
                invariant
                    self.linked(),
                    rows == self.dims.rows,
                    cols == self.dims.cols,
                    1 <= row <= rows,
                    1 <= col <= cols + 1,
                    self.searched(marks@, order@),
                    forall|c: Coord|
                        self.dims.contains(c) && (c.1 < row || (c.1 == row && c.0 < col))
                            ==> #[trigger] self.mark_of(marks@, c) == BLACK,
                decreases cols + 1 - col,
            {
                let ghost marks0 = marks@;
                let ghost order0 = order@;
                if self.is_cyclic((col, row), &mut marks, &mut order) {
                    return true;
                }
                proof {
                    assert forall|c: Coord|
                        self.dims.contains(c) && (c.1 < row || (c.1 == row && c.0 < col + 1))
                            implies #[trigger] self.mark_of(marks@, c) == BLACK by {
                        if c != (col, row) {
                            self.lemma_stays_black(marks0, order0, marks@, order@, c);
                        }
                    }
                }
                col = col + 1;
            }
            row = row + 1;
        }
        proof {
            let e = self@.edges();
            assert(self.blackened(marks@, order@));
            assert forall|u: Coord, v: Coord| #[trigger] has_edge(e, u, v) implies order@.contains(
                u,
            ) by {
                assert(self.mark_of(marks@, u) == BLACK);
            }
            lemma_settled_acyclic(e, order@);
        }
        false
    }

    /// A cell that a search has left stays so when the search goes on.
    proof fn lemma_stays_black(
        &self,
        marks0: Seq<u8>,
        order0: Seq<Coord>,
        marks1: Seq<u8>,
        order1: Seq<Coord>,
        c: Coord,
    )
        requires
            self.searched(marks0, order0),
            self.searched(marks1, order1),
            order1.len() >= order0.len(),
            order1.take(order0.len() as int) == order0,
            self.dims.contains(c),
            self.mark_of(marks0, c) == BLACK,
        ensures
            self.mark_of(marks1, c) == BLACK,
    {
        assert(self.blackened(marks0, order0));
        assert(self.blackened(marks1, order1));
        assert(order0.contains(c));
        let j = choose|j: int| 0 <= j < order0.len() && order0[j] == c;
        assert(order1.take(order0.len() as int)[j] == order1[j]);
        assert(order1[j] == c);
    }

    /// Two sheets in order with the same grid, values and formulas are the
    /// same to the contracts.
    proof fn lemma_view_determined(&self, other: &Spreadsheet)
        requires
            self.linked(),
            other.linked(),
            self@.dims == other@.dims,
            self@.values == other@.values,
            self@.formulas == other@.formulas,
        ensures
            self@ == other@,
    {
        self.lemma_linked_view();
        other.lemma_linked_view();
        let a = self@;
        let b = other@;
        assert forall|p: Coord| #[trigger] a.dependents.dom().contains(p) implies a.dependents[p]
            =~= b.dependents[p] by {
            assert forall|d: Coord| a.dependents[p].contains(d) == b.dependents[p].contains(d) by {}
        }
        assert(a.dependents =~~= b.dependents);
        assert(a.ranges =~= b.ranges);
    }

    /// Forgets the report of the last edit, so that nothing is owed for it
    /// any more.
    pub fn clear_report(&mut self)
        ensures
            final(self).swept().len() == 0,
            final(self)@ == old(self)@,
            old(self).linked() ==> final(self).linked(),
            old(self).wf() ==> final(self).wf(),
    {
        self.sweep = Vec::new();
        proof {
            assert(self@.values =~= old(self)@.values);
            assert(self@.formulas =~= old(self)@.formulas);
            assert(self@.dependents =~~= old(self)@.dependents);
            assert(self@.ranges =~= old(self)@.ranges);
            if old(self).linked() {
                self.lemma_same_graph(old(self));
            }
        }
    }

    /// Evaluates anew every cell that depends on the cell at `start`, each
    /// once and each after the cells that it reads; the cell at `start`
    /// is taken as it stands.
    ///
    /// It asks that no cell but those that depend on `start` be stale, and
    /// leaves no cell stale. On a sheet without a stale cell it changes
    /// no value.
    pub fn recalc_dependents(&mut self, start: Coord)
        requires
            old(self).linked(),
            !old(self)@.cyclic(),
            old(self)@.dims.contains(start),
            forall|c: Coord|
                old(self)@.dims.contains(c) && (c == start || !reaches(
                    old(self)@.edges(),
                    start,
                    c,
                )) ==> #[trigger] old(self)@.fresh(c),
        ensures
            final(self).wf(),
            final(self)@.dims == old(self)@.dims,
            final(self)@.formulas == old(self)@.formulas,
            sweeps(final(self)@.edges(), start, final(self).swept()),
            forall|c: Coord|
                old(self)@.dims.contains(c) && (c == start || !final(self).swept().contains(c))
                    ==> #[trigger] final(self)@.values[c] == old(self)@.values[c],
            old(self)@.consistent() ==> final(self)@ == old(self)@,
    {
        let mut marks: Vec<u8> = self.fresh_marks();
        let mut order: Vec<Coord> = Vec::new();
        let found: bool = self.is_cyclic(start, &mut marks, &mut order);
        if found {
            return;
        }
        let ghost e = self@.edges();
        proof {
            assert(self.blackened(marks@, order@));
            lemma_reversed_sweeps(e, start, order@);
            assert forall|c: Coord|
                self.dims.contains(c) && (c == start || !order@.contains(c)) implies #[trigger] self@.fresh(
                c,
            ) by {
                if c != start && reaches(e, start, c) {
                    assert(sweeps(e, start, reversed(order@)));
                    assert(reversed(order@).contains(c));
                    let a = choose|a: int| 0 <= a < reversed(order@).len() && reversed(order@)[a] == c;
                    assert(order@[order@.len() - 1 - a] == c);
                }
            }
        }
        self.refresh(&order, start);
        proof {
            assert(self@.edges() == e) by {
                assert forall|u: Coord, v: Coord| #[trigger]
                    has_edge(self@.edges(), u, v) == has_edge(e, u, v) by {}
                lemma_same_edges(self@.edges(), e);
            }
            assert forall|c: Coord|
                old(self)@.dims.contains(c) && (c == start || !self.swept().contains(c))
                    implies #[trigger] self@.values[c] == old(self)@.values[c] by {
                if order@.contains(c) && c != start {
                    let j = choose|j: int| 0 <= j < order@.len() && order@[j] == c;
                    assert(reversed(order@)[order@.len() - 1 - j] == c);
                }
            }
            if old(self)@.consistent() {
                self.lemma_view_determined(old(self));
            }
        }
    }

    /// `order` is the finishing order of a search from `coord`: it ends with
    /// `coord` and holds, each once, cells of the grid that a walk reaches
    /// from `coord`.
    spec fn finishes(&self, order: Seq<Coord>, coord: Coord) -> bool {
        &&& order.len() >= 1
        &&& order.last() == coord
        &&& order.no_duplicates()
        &&& settled(self@.edges(), order)
        &&& forall|j: int| 0 <= j < order.len() ==> self.dims.contains(#[trigger] order[j])
        &&& forall|j: int|
            0 <= j < order.len() ==> reaches(self@.edges(), coord, #[trigger] order[j])
    }

    /// Gives the cell at `coord` the formula `f` for a trial, and searches
    /// the graph from that cell. If the search meets a cycle the cell gets
    /// its former formula back, and the sheet is as it was; if not, the
    /// formula stays, and the finishing order of the search is handed out.
    fn speculate(&mut self, coord: Coord, f: Formula) -> (r: Option<Vec<Coord>>)
        requires
            old(self).linked(),
            !old(self)@.cyclic(),
            old(self).dims.contains(coord),
            f.fits(old(self).dims),
        ensures
            final(self).linked(),
            final(self).swept() == old(self).swept(),
            final(self)@.dims == old(self)@.dims,
            final(self)@.values == old(self)@.values,
            r is None <==> old(self)@.with_formula(coord, f).cyclic(),
            r is None ==> final(self)@ == old(self)@,
            r matches Some(order) ==> final(self)@.formulas == old(self)@.formulas.insert(coord, f)
                && !final(self)@.cyclic() && final(self).finishes(order@, coord),
    {
        let at: usize = self.dims.offset(coord);
        let former: Formula = self.formulas[at];
        let ghost s0 = *self;
        proof {
            assert(former == s0.formula_at(coord));
            s0.lemma_linked_view();
        }
        self.rewire(coord, f);
        let ghost e = self@.edges();
        proof {
            let planned = s0@.with_formula(coord, f).edges();
            assert forall|u: Coord, v: Coord| #[trigger]
                has_edge(e, u, v) == has_edge(planned, u, v) by {}
            lemma_same_edges(e, planned);
        }
        let mut marks: Vec<u8> = self.fresh_marks();
        let mut order: Vec<Coord> = Vec::new();
        let found: bool = self.is_cyclic(coord, &mut marks, &mut order);
        if found {
            self.rewire(coord, former);
            proof {
                assert(self@.formulas =~= s0@.formulas);
                self.lemma_view_determined(&s0);
            }
            return None;
        }
        proof {
            assert(self.blackened(marks@, order@));
            assert(order@.contains(coord));
            assert forall|u: Coord, v: Coord| v != coord && #[trigger] has_edge(e, u, v) implies has_edge(
                s0@.edges(),
                u,
                v,
            ) by {}
            lemma_edit_keeps_acyclic(s0@.edges(), e, coord, order@);
        }
        Some(order)
    }

    /// Whether giving the cell at `coord` the formula `f` would close a
    /// cycle of dependencies. The formula is put in place for the search
    /// and taken out again: the sheet is left as it was.
    pub fn would_cycle(&mut self, coord: Coord, f: Formula) -> (r: bool)
        requires
            old(self).wf(),
            old(self)@.dims.contains(coord),
            f.fits(old(self)@.dims),
        ensures
            final(self).wf(),
            final(self)@ == old(self)@,
            final(self).swept() == old(self).swept(),
            r == old(self)@.with_formula(coord, f).cyclic(),
    {
        let at: usize = self.dims.offset(coord);
        let former: Formula = self.formulas[at];
        let ghost s0 = *self;
        proof {
            assert(former == s0.formula_at(coord));
            s0.lemma_linked_view();
        }
        match self.speculate(coord, f) {
            None => true,
            Some(_) => {
                self.rewire(coord, former);
                proof {
                    assert(self@.formulas =~= s0@.formulas);
                    self.lemma_view_determined(&s0);
                }
                false
            },
        }
    }

    /// Gives the cell at `coord` the formula that `expr` writes, and
    /// brings every cell that depends on it up to date.
    ///
    /// The edit is rejected, and the sheet left as it was, if the grid has
    /// no cell at `coord` (`STATUS_INVALID_CELL`), if `expr` is not
    /// recognised (`STATUS_UNRECOGNIZED`), if the formula names a cell
    /// outside the grid (`STATUS_INVALID_CELL`) or a rectangle that does
    /// not lie in it (`STATUS_INVALID_RANGE`), and if a cycle of
    /// dependencies would arise (`STATUS_CIRCULAR`).
    ///
    /// Otherwise the edit is carried out: the cell takes the formula and
    /// its value, which may be the mark of an error, and the cells that
    /// depend on it are evaluated anew, each once and each after the cells
    /// that it reads. The status is then `STATUS_OK`, or
    /// `STATUS_VALUE_ERROR` if the formula divides by zero.
    pub fn set_cell(&mut self, coord: Coord, expr: &str) -> (status: u8)
        requires
            old(self).wf(),
        ensures
            final(self).wf(),
            edited(old(self)@, final(self)@, final(self).swept(), coord, expr@, status),
    {
        self.clear_report();
        if !self.dims.holds(coord) {
            return STATUS_INVALID_CELL;
        }
        let f: Formula = match Parser::parse_formula(expr) {
            None => {
                return STATUS_UNRECOGNIZED;
            },
            Some(f) => f,
        };
        if !f.within(&self.dims) {
            return match f {
                Formula::Range { .. } => STATUS_INVALID_RANGE,
                _ => STATUS_INVALID_CELL,
            };
        }
        let ghost s0 = *self;
        proof {
            s0.lemma_linked_view();
        }
        let order: Vec<Coord> = match self.speculate(coord, f) {
            None => {
                return STATUS_CIRCULAR;
            },
            Some(order) => order,
        };
        let at: usize = self.dims.offset(coord);
        let ghost s1 = *self;
        let ghost e = self@.edges();
        proof {
            lemma_reversed_sweeps(e, coord, order@);
        }
        let by_zero: bool = match f {
            Formula::Binary { op, lhs, rhs } => match op {
                BinOp::Div => match rhs {
                    Operand::Literal(x) => x == 0,
                    Operand::Ref(c) => match self.get_val(c) {
                        Some(x) => x == 0,
                        None => false,
                    },
                },
                _ => false,
            },
            _ => false,
        };
        proof {
            assert(self@.lookup() =~= s0@.lookup());
            assert(by_zero == f.divides_by_zero(s0@.lookup()));
        }
        let v: Cell = self.compute(&f);
        self.values[at] = v;
        proof {
            self.lemma_same_graph(&s1);
            let m0 = s1@.lookup();
            let m1 = self@.lookup();
            let n = order@.len() as int;
            assert forall|c: Coord| self.dims.contains(c) && c != coord implies #[trigger] self.value_at(
                c,
            ) == s1.value_at(c) by {
                self.dims.lemma_index_bound(c);
                if self.dims.index(c) == self.dims.index(coord) {
                    self.dims.lemma_index_injective(c, coord);
                }
            }
            assert forall|c: Coord| c != coord implies #[trigger] m1(c) == m0(c) by {
                if self.dims.contains(c) {
                    assert(self.value_at(c) == s1.value_at(c));
                }
            }
            assert forall|c: Coord|
                self.dims.contains(c) && (c == coord || !order@.contains(c)) implies #[trigger] self@.fresh(
                c,
            ) by {
                let g = self.formula_at(c);
                if g.reads(coord) {
                    assert(has_edge(e, order@[n - 1], c));
                    assert(stands_before(order@, c, n - 1));
                    let j = choose|j: int| 0 <= j < n - 1 && #[trigger] order@[j] == c;
                    assert(order@[j] == c);
                    assert(false);
                }
                assert forall|p: Coord| g.reads(p) implies #[trigger] m0(p) == m1(p) by {}
                lemma_value_agree(g, m0, m1);
                if c != coord {
                    assert(self@.formulas[c] == s1@.formulas[c]);
                    assert(s1@.formulas[c] == s0@.formulas[c]);
                    assert(g == s0.formula_at(c));
                    assert(s0@.fresh(c));
                    assert(self.value_at(c) == s0.value_at(c));
                    assert(m0 =~= s0@.lookup());
                }
            }
        }
        let ghost s2 = *self;
        self.refresh(&order, coord);
        proof {
            assert(self@.edges() == e) by {
                assert forall|u: Coord, v: Coord| #[trigger]
                    has_edge(self@.edges(), u, v) == has_edge(e, u, v) by {}
                lemma_same_edges(self@.edges(), e);
            }
            assert forall|c: Coord|
                old(self)@.dims.contains(c) && !self.swept().contains(c) implies #[trigger] self@.values[c]
                == old(self)@.values[c] by {
                if order@.contains(c) {
                    let j = choose|j: int| 0 <= j < order@.len() && order@[j] == c;
                    assert(reversed(order@)[order@.len() - 1 - j] == c);
                }
                assert(c != coord);
                assert(self@.values[c] == s2@.values[c]);
                assert(s2.value_at(c) == s1.value_at(c));
            }
        }
        if by_zero {
            STATUS_VALUE_ERROR
        } else {
            STATUS_OK
        }
    }

    /// The cells that the last edit evaluated, in the order in which it
    /// did: the edited cell first. Empty after an edit that was rejected.
    pub fn last_sweep(&self) -> (r: &Vec<Coord>)
        ensures
            r@ == self.swept(),
    {
        &self.sweep
    }

    /// The seconds of waiting that the last edit owes: the sum, over the
    /// cells that it evaluated, of what each `SLEEP` among them came to,
    /// where that is positive. The sheet does not wait; whoever shows the
    /// outcome of the edit waits first.
    ///
    /// A sum beyond 64 bits is given as the largest number of 64 bits.
    pub fn pending_delay(&self) -> (secs: u64)
        requires
            self.wf(),
        ensures
            secs == (if delay_total(self@, self.swept()) <= u64::MAX {
                delay_total(self@, self.swept())
            } else {
                u64::MAX as nat
            }),
    {
        let n: usize = self.sweep.len();
        let mut total: u64 = 0;
        let mut i: usize = 0;
        while i < n
            invariant
                self.wf(),
                i <= n,
                n == self.sweep@.len(),
                total == (if delay_total(self@, self.sweep@.take(i as int)) <= u64::MAX {
                    delay_total(self@, self.sweep@.take(i as int))
                } else {
                    u64::MAX as nat
                }),
            decreases n - i,
        {
            let c: Coord = self.sweep[i];
            let at: usize = self.dims.offset(c);
            let owed: u64 = match (self.formulas[at], self.values[at]) {
                (Formula::Sleep(_), Cell::Value(v)) => if v > 0 {
                    v as u64
                } else {
                    0
                },
                _ => 0,
            };
            proof {
                let t0 = self.sweep@.take(i as int);
                let t1 = self.sweep@.take(i + 1);
                assert(t1.drop_last() =~= t0);
                assert(t1.last() == c);
                assert(owed == self@.formulas[c].delay(self@.values[c]));
            }
            total = if owed > u64::MAX - total {
                u64::MAX
            } else {
                total + owed
            };
            i = i + 1;
        }
        proof {
            assert(self.sweep@.take(n as int) =~= self.sweep@);
        }
        total
    }

    /// The window of the sheet that begins after the first `top_row` rows
    /// and the first `left_col` columns and holds up to `height` rows of up
    /// to `width` cells: for each cell what it shows, its integer or `ERR`.
    pub fn get_viewport(&self, top_row: usize, left_col: usize, height: usize, width: usize) -> (win:
        Vec<Vec<String>>)
        requires
            self.shaped(),
        ensures
            win@.len() == visible(top_row as int, height as int, self@.dims.rows as int),
            forall|i: int|
                0 <= i < win@.len() ==> (#[trigger] win@[i])@.len() == visible(
                    left_col as int,
                    width as int,
                    self@.dims.cols as int,
                ),
            forall|i: int, j: int|
                0 <= i < win@.len() && 0 <= j < win@[i]@.len() ==> (#[trigger] win@[i]@[j])@
                    == cell_text(
                    self@.values[((left_col + 1 + j) as u16, (top_row + 1 + i) as u16)],
                ),
    {
        let rows: usize = self.dims.rows as usize;
        let cols: usize = self.dims.cols as usize;
        let shown_rows: usize = if top_row >= rows {
            0
        } else if height <= rows - top_row {
            height
        } else {
            rows - top_row
        };
        let shown_cols: usize = if left_col >= cols {
            0
        } else if width <= cols - left_col {
            width
        } else {
            cols - left_col
        };
        let mut win: Vec<Vec<String>> = Vec::new();
        let mut i: usize = 0;
        while i < shown_rows
            invariant
                self.shaped(),
                rows == self.dims.rows,
                cols == self.dims.cols,
                i <= shown_rows,
                shown_rows == visible(top_row as int, height as int, rows as int),
                shown_cols == visible(left_col as int, width as int, cols as int),
                win@.len() == i,
                forall|a: int| 0 <= a < win@.len() ==> (#[trigger] win@[a])@.len() == shown_cols,
                forall|a: int, b: int|
                    0 <= a < win@.len() && 0 <= b < win@[a]@.len() ==> (#[trigger] win@[a]@[b])@
                        == cell_text(
                        self@.values[((left_col + 1 + b) as u16, (top_row + 1 + a) as u16)],
                    ),
            decreases shown_rows - i,
        {
            let mut line: Vec<String> = Vec::new();
            let mut j: usize = 0;
            while j < shown_cols
                invariant
                    self.shaped(),
                    rows == self.dims.rows,
                    cols == self.dims.cols,
                    i < shown_rows,
                    j <= shown_cols,
                    shown_rows == visible(top_row as int, height as int, rows as int),
                    shown_cols == visible(left_col as int, width as int, cols as int),
                    line@.len() == j,
                    forall|b: int|
                        0 <= b < line@.len() ==> (#[trigger] line@[b])@ == cell_text(
                            self@.values[((left_col + 1 + b) as u16, (top_row + 1 + i) as u16)],
                        ),
                decreases shown_cols - j,
            {
                let c: Coord = ((left_col + 1 + j) as u16, (top_row + 1 + i) as u16);
                let at: usize = self.dims.offset(c);
                let text: String = cell_to_string(&self.values[at]);
                line.push(text);
                j = j + 1;
            }
            win.push(line);
            i = i + 1;
        }
        win
    }

    /// The lines that show a window of the sheet: a heading with the
    /// labels of the columns, then one line for each row. The window begins
    /// after the first `start_row` rows and the first `start_col` columns
    /// and holds up to `max_rows` rows of up to `max_cols` cells.
    pub fn display(&self, start_row: usize, start_col: usize, max_rows: usize, max_cols: usize) -> (lines:
        Vec<String>)
        requires
            self.shaped(),
        ensures
            lines@.len() == 1 + visible(start_row as int, max_rows as int, self@.dims.rows as int),
            lines@[0]@ == header_text(
                start_col as nat,
                visible(start_col as int, max_cols as int, self@.dims.cols as int) as nat,
            ),
            forall|i: int|
                1 <= i < lines@.len() ==> (#[trigger] lines@[i])@ == row_text(
                    self@,
                    (start_row + i) as nat,
                    start_col as nat,
                    visible(start_col as int, max_cols as int, self@.dims.cols as int) as nat,
                ),
    {
        let rows: usize = self.dims.rows as usize;
        let cols: usize = self.dims.cols as usize;
        let shown_rows: usize = if start_row >= rows {
            0
        } else if max_rows <= rows - start_row {
            max_rows
        } else {
            rows - start_row
        };
        let shown_cols: usize = if start_col >= cols {
            0
        } else if max_cols <= cols - start_col {
            max_cols
        } else {
            cols - start_col
        };
        let mut lines: Vec<String> = Vec::new();
        let mut head: String = String::from_str("    ");
        proof {
            reveal_strlit("    ");
            assert(head@ =~= spaces(4));
        }
        let mut j: usize = 0;
        while j < shown_cols
            invariant
                j <= shown_cols,
                start_col + shown_cols <= cols || shown_cols == 0,
                cols <= MAX_COLS,
                head@ == header_text(start_col as nat, j as nat),
            decreases shown_cols - j,
        {
            let label: String = col_to_letter(start_col + 1 + j);
            push_padded(&mut head, label.as_str(), 8);
            j = j + 1;
        }
        lines.push(head);
        let mut i: usize = 0;
        while i < shown_rows
            invariant
                self.shaped(),
                rows == self.dims.rows,
                cols == self.dims.cols,
                i <= shown_rows,
                shown_rows == visible(start_row as int, max_rows as int, rows as int),
                shown_cols == visible(start_col as int, max_cols as int, cols as int),
                lines@.len() == 1 + i,
                lines@[0]@ == header_text(start_col as nat, shown_cols as nat),
                forall|a: int|
                    1 <= a < lines@.len() ==> (#[trigger] lines@[a])@ == row_text(
                        self@,
                        (start_row + a) as nat,
                        start_col as nat,
                        shown_cols as nat,
                    ),
            decreases shown_rows - i,
        {
            let row: usize = start_row + 1 + i;
            let mut number: String = String::new();
            push_nat(&mut number, row as u64);
            let mut line: String = String::new();
            push_padded(&mut line, number.as_str(), 3);
            let ghost before = line@;
            line.append(" ");
            proof {
                reveal_strlit(" ");
                assert(number@ =~= nat_text(row as nat));
                assert(before =~= pad_left(nat_text(row as nat), 3));
                assert(line@ =~= row_text(self@, row as nat, start_col as nat, 0));
            }
            let mut j: usize = 0;
            while j < shown_cols
                invariant
                    self.shaped(),
                    rows == self.dims.rows,
                    cols == self.dims.cols,
                    i < shown_rows,
                    row == start_row + 1 + i,
                    j <= shown_cols,
                    shown_rows == visible(start_row as int, max_rows as int, rows as int),
                    shown_cols == visible(start_col as int, max_cols as int, cols as int),
                    line@ == row_text(self@, row as nat, start_col as nat, j as nat),
                decreases shown_cols - j,
            {
                let c: Coord = ((start_col + 1 + j) as u16, row as u16);
                let at: usize = self.dims.offset(c);
                let text: String = cell_to_string(&self.values[at]);
                push_padded(&mut line, text.as_str(), 8);
                j = j + 1;
            }
            lines.push(line);
            i = i + 1;
        }
        lines
    }

    /// Whether the formula of the cell at `d` reads the cell at `p`:
    /// whether `p` is a precedent of `d`, and `d` a dependent of `p`.
    pub fn reads(&self, d: Coord, p: Coord) -> (r: bool)
        requires
            self.shaped(),
        ensures
            r == self@.edge(p, d),
    {
        if self.dims.holds(d) && self.dims.holds(p) {
            self.formulas[self.dims.offset(d)].reads_cell(p)
        } else {
            false
        }
    }

    /// The dependents of the cell at `c`, one step away: the cells whose
    /// formulas read it, each once.
    pub fn dependents_of(&self, c: Coord) -> (r: Vec<Coord>)
        requires
            self.linked(),
            self@.dims.contains(c),
        ensures
            r@.no_duplicates(),
            forall|d: Coord| r@.contains(d) <==> self@.edge(c, d),
    {
        let at: usize = self.dims.offset(c);
        let mut r: Vec<Coord> = Vec::new();
        let n: usize = self.dependents[at].len();
        proof {
            self.lemma_listed_edge(c);
        }
        let mut i: usize = 0;
        while i < n
            invariant
                i <= n,
                n == self.deps(c).len(),
                at == self.dims.index(c),
                at < self.dependents@.len(),
                r@.no_duplicates(),
                forall|d: Coord|
                    r@.contains(d) <==> exists|j: int| 0 <= j < i && #[trigger] self.deps(c)[j] == d,
            decreases n - i,
        {
            let ghost before = r@;
            let x: Coord = self.dependents[at][i];
            add_item(&mut r, x);
            proof {
                assert forall|d: Coord|
                    r@.contains(d) <==> exists|j: int|
                        0 <= j < i + 1 && #[trigger] self.deps(c)[j] == d by {
                    if r@.contains(d) {
                        if before.contains(d) {
                            let j = choose|j: int| 0 <= j < i && #[trigger] self.deps(c)[j] == d;
                            assert(self.deps(c)[j] == d);
                        } else {
                            assert(self.deps(c)[i as int] == d);
                        }
                    }
                    if exists|j: int| 0 <= j < i + 1 && #[trigger] self.deps(c)[j] == d {
                        let j = choose|j: int| 0 <= j < i + 1 && #[trigger] self.deps(c)[j] == d;
                        if j < i {
                            assert(before.contains(d));
                        }
                    }
                }
            }
            i = i + 1;
        }
        let m: usize = self.ranges.len();
        let mut k: usize = 0;
        while k < m
            invariant
                self.linked(),
                self.dims.contains(c),
                k <= m,
                m == self.ranges@.len(),
                n == self.deps(c).len(),
                r@.no_duplicates(),
                forall|d: Coord|
                    r@.contains(d) <==> (exists|j: int|
                        0 <= j < n && #[trigger] self.deps(c)[j] == d) || (exists|j: int|
                        0 <= j < k && (#[trigger] self.ranges@[j]).cell == d && in_rect(
                            c,
                            self.ranges@[j].start,
                            self.ranges@[j].end,
                        )),
            decreases m - k,
        {
            let ghost before = r@;
            let rec: RangeDep = self.ranges[k];
            proof {
                self.lemma_listed_edge(c);
            }
            if is_within_range(c, rec.start, rec.end) {
                add_item(&mut r, rec.cell);
            }
            proof {
                assert forall|d: Coord|
                    r@.contains(d) <==> (exists|j: int|
                        0 <= j < n && #[trigger] self.deps(c)[j] == d) || (exists|j: int|
                        0 <= j < k + 1 && (#[trigger] self.ranges@[j]).cell == d && in_rect(
                            c,
                            self.ranges@[j].start,
                            self.ranges@[j].end,
                        )) by {
                    if r@.contains(d) && !before.contains(d) {
                        assert(self.ranges@[k as int].cell == d);
                    }
                    if exists|j: int|
                        0 <= j < k + 1 && (#[trigger] self.ranges@[j]).cell == d && in_rect(
                            c,
                            self.ranges@[j].start,
                            self.ranges@[j].end,
                        ) {
                        let j = choose|j: int|
                            0 <= j < k + 1 && (#[trigger] self.ranges@[j]).cell == d && in_rect(
                                c,
                                self.ranges@[j].start,
                                self.ranges@[j].end,
                            );
                        if j < k {
                            assert(before.contains(d));
                        }
                    }
                }
            }
            k = k + 1;
        }
        proof {
            assert forall|d: Coord| r@.contains(d) <==> self@.edge(c, d) by {
                if r@.contains(d) {
                    if exists|j: int| 0 <= j < n && #[trigger] self.deps(c)[j] == d {
                        let j = choose|j: int| 0 <= j < n && #[trigger] self.deps(c)[j] == d;
                        assert(self@.edge(c, self.deps(c)[j]));
                    } else {
                        let j = choose|j: int|
                            0 <= j < m && (#[trigger] self.ranges@[j]).cell == d && in_rect(
                                c,
                                self.ranges@[j].start,
                                self.ranges@[j].end,
                            );
                        assert(self@.edge(c, self.ranges@[j].cell));
                    }
                }
                if self@.edge(c, d) {
                    self.lemma_edge_listed(c, d);
                }
            }
        }
        r
    }
}

} // verus!
