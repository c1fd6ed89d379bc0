//! What holds of every sheet and of every formula.

use vstd::prelude::*;
use crate::coords::{in_rect, Coord};
use crate::formula::{lemma_value_agree, Cell, Formula};
use crate::function::{binary_value, rect_has_error, Lookup, OP_DIV};
use crate::graph::{has_edge, is_walk, reaches, step, sweeps};
use crate::render::{
    all_capitals, int_text, label_text, lemma_base26_of_label, lemma_decimal_of_nat_text,
    lemma_label_of_base26, nat_text,
};
use crate::spreadsheet::{RangeDep, SheetView, Spreadsheet};
use crate::parser::literal_value;
use crate::text::base26;

verus! {

/// The dependency graph of a well-formed sheet has no cycle: no walk of
/// one edge or more leads from a cell back to it. Every sheet that `new`
/// makes is well formed and `set_cell` keeps it so, whatever the edits.
pub proof fn law_graph_is_acyclic(sheet: &Spreadsheet, w: Seq<Coord>)
    requires
        sheet.wf(),
        is_walk(sheet@.edges(), w),
        w.len() >= 2,
    ensures
        !sheet@.cyclic(),
        w.first() != w.last(),
{
    sheet.lemma_wf_view();
}

/// In a well-formed sheet no formula reads its own cell.
pub proof fn law_no_cell_reads_itself(sheet: &Spreadsheet, c: Coord)
    requires
        sheet.wf(),
    ensures
        !sheet@.edge(c, c),
{
    sheet.lemma_wf_view();
    if sheet@.edge(c, c) {
        let e = sheet@.edges();
        let w = seq![c, c];
        assert forall|i: int| 0 <= i < w.len() - 1 implies #[trigger] crate::graph::step(e, w, i) by {
            assert(crate::graph::has_edge(e, c, c));
        }
        assert(is_walk(e, w));
        assert(w.len() >= 2 && w.first() == w.last());
    }
}

/// Two sheets that are the same to the contracts have the same edges in
/// both directions: each cell has the same precedents and the same
/// dependents. So an edit that is rejected, which leaves the sheet the
/// same to the contracts, leaves both sets of edges as they were.
pub proof fn law_same_view_same_edges(a: SheetView, b: SheetView, c: Coord)
    requires
        a == b,
    ensures
        a.values == b.values,
        a.formulas == b.formulas,
        a.precedents_of(c) == b.precedents_of(c),
        a.dependents_of(c) == b.dependents_of(c),
        a.dependents == b.dependents,
        a.ranges == b.ranges,
{
}

/// The two indices of a sheet in order give the dependents of a cell:
/// those that refer to it by name, and the aggregates whose rectangle
/// holds it.
pub proof fn law_indices_give_dependents(v: SheetView, p: Coord, d: Coord)
    requires
        v.linked(),
        v.dims.contains(p),
    ensures
        v.edge(p, d) <==> v.dependents[p].contains(d) || exists|r: RangeDep|
            #[trigger] v.ranges.contains(r) && r.cell == d && in_rect(p, r.start, r.end),
{
    if v.edge(p, d) && !v.dependents[p].contains(d) {
        match v.formulas[d] {
            Formula::Range { func, start, end } => {
                let r = RangeDep { cell: d, start, end };
                assert(v.ranges.contains(r) && r.cell == d && in_rect(p, r.start, r.end));
            },
            _ => {},
        }
    }
}

/// Evaluating a formula again without a change to the cells it reads
/// gives the same value: the value depends on nothing else.
pub proof fn law_recompute_is_idempotent(f: Formula, before: Lookup, after: Lookup)
    requires
        forall|p: Coord| f.reads(p) ==> #[trigger] before(p) == after(p),
    ensures
        f.value(before) == f.value(after),
{
    lemma_value_agree(f, before, after);
}

/// In a well-formed sheet every cell holds what its formula gives over
/// the cells as they are, so evaluating any cell again changes nothing.
pub proof fn law_no_cell_is_stale(sheet: &Spreadsheet, c: Coord)
    requires
        sheet.wf(),
        sheet@.dims.contains(c),
    ensures
        sheet@.values[c] == sheet@.formulas[c].value(sheet@.lookup()),
{
    sheet.lemma_wf_view();
    assert(sheet@.fresh(c));
}

/// A formula that reads a cell in error is in error, whatever else it
/// reads: a reference, an operand of an operator, the argument of
/// `SLEEP`, a member of the rectangle of an aggregate.
pub proof fn law_error_propagates(f: Formula, m: Lookup, p: Coord)
    requires
        f.reads(p),
        m(p) is None,
    ensures
        f.value(m) == Cell::Error,
{
    match f {
        Formula::Range { func, start, end } => {
            assert(in_rect(p, start, end) && m(p) is None);
            assert(rect_has_error(m, start, end));
        },
        _ => {},
    }
}

/// In a well-formed sheet every dependent of a cell in error is in error.
pub proof fn law_error_reaches_dependents(sheet: &Spreadsheet, p: Coord, d: Coord)
    requires
        sheet.wf(),
        sheet@.edge(p, d),
        sheet@.values[p] == Cell::Error,
    ensures
        sheet@.values[d] == Cell::Error,
{
    sheet.lemma_wf_view();
    assert(sheet@.fresh(d));
    law_error_propagates(sheet@.formulas[d], sheet@.lookup(), p);
}

/// A division by zero has no value, and a formula that divides by zero,
/// by a literal or by the content of a cell, is in error.
pub proof fn law_division_by_zero(f: Formula, m: Lookup, a: int)
    ensures
        binary_value(OP_DIV, a, 0) is None,
        f.divides_by_zero(m) ==> f.value(m) == Cell::Error,
{
}

/// What a walk reaches from a cell of the grid is a cell of the grid.
pub proof fn law_walks_stay_in_grid(v: SheetView, a: Coord, b: Coord)
    requires
        v.dims.contains(a),
        reaches(v.edges(), a, b),
    ensures
        v.dims.contains(b),
{
    let e = v.edges();
    let w = choose|w: Seq<Coord>| #[trigger] is_walk(e, w) && w.first() == a && w.last() == b;
    if w.len() >= 2 {
        assert(step(e, w, w.len() - 2));
        assert(v.edge(w[w.len() - 2], w[w.len() - 1]));
    }
}

/// What the cells hold is settled by the formulas: two sheets without a
/// stale cell that have the same formulas, and hold the same outside the
/// cells that a change at `start` is carried to, hold the same everywhere.
/// So the outcome of an edit does not depend on the order in which the
/// cells were evaluated.
pub proof fn law_values_are_determined(a: SheetView, b: SheetView, start: Coord, s: Seq<Coord>)
    requires
        a.linked(),
        b.linked(),
        a.dims == b.dims,
        a.formulas == b.formulas,
        a.consistent(),
        b.consistent(),
        a.dims.contains(start),
        sweeps(a.edges(), start, s),
        forall|c: Coord| a.dims.contains(c) && !s.contains(c) ==> #[trigger] a.values[c] == b.values[c],
    ensures
        a.values == b.values,
{
    assert forall|k: int| 0 <= k < s.len() implies a.dims.contains(#[trigger] s[k]) by {
        assert(s.contains(s[k]));
        law_walks_stay_in_grid(a, start, s[k]);
    }
    lemma_agree_up_to(a, b, start, s, s.len() as int);
    assert forall|c: Coord| a.values.dom().contains(c) implies #[trigger] a.values[c]
        == b.values[c] by {
        if s.contains(c) {
            let k = choose|k: int| 0 <= k < s.len() && s[k] == c;
            assert(a.values[s[k]] == b.values[s[k]]);
        }
    }
    assert(a.values =~= b.values);
}

/// The two sheets hold the same in the first `n` cells of `s`.
proof fn lemma_agree_up_to(a: SheetView, b: SheetView, start: Coord, s: Seq<Coord>, n: int)
    requires
        a.linked(),
        b.linked(),
        a.dims == b.dims,
        a.formulas == b.formulas,
        a.consistent(),
        b.consistent(),
        sweeps(a.edges(), start, s),
        forall|k: int| 0 <= k < s.len() ==> a.dims.contains(#[trigger] s[k]),
        forall|c: Coord| a.dims.contains(c) && !s.contains(c) ==> #[trigger] a.values[c] == b.values[c],
        0 <= n <= s.len(),
    ensures
        forall|k: int| 0 <= k < n ==> a.values[#[trigger] s[k]] == b.values[s[k]],
    decreases n,
{
    if n > 0 {
        lemma_agree_up_to(a, b, start, s, n - 1);
        let x = s[n - 1];
        let f = a.formulas[x];
        let ma = a.lookup();
        let mb = b.lookup();
        assert forall|p: Coord| f.reads(p) implies #[trigger] ma(p) == mb(p) by {
            f.lemma_reads_within(a.dims, p);
            if s.contains(p) {
                let j = choose|j: int| 0 <= j < s.len() && s[j] == p;
                assert(has_edge(a.edges(), s[j], s[n - 1]));
                assert(j < n - 1);
                assert(a.values[s[j]] == b.values[s[j]]);
            } else {
                assert(a.values[p] == b.values[p]);
            }
        }
        lemma_value_agree(f, ma, mb);
        assert(a.fresh(x));
        assert(b.fresh(x));
    }
}

/// Reading the label of a column gives the column back.
pub proof fn law_label_reads_back(n: nat)
    ensures
        base26(label_text(n)) == n,
{
    lemma_base26_of_label(n);
}

/// The label of the column that a run of capital letters stands for is
/// that run: with the law before, labels and columns stand for each other.
pub proof fn law_label_of_column(s: Seq<char>)
    requires
        all_capitals(s),
    ensures
        base26(s) >= 0,
        label_text(base26(s) as nat) == s,
{
    lemma_label_of_base26(s);
}

/// Reading what a cell shows for an integer gives the integer back.
pub proof fn law_number_reads_back(v: i32)
    ensures
        literal_value(int_text(v as int)) == Some(v),
{
    if v < 0 {
        let n = (-v) as nat;
        lemma_decimal_of_nat_text(n);
        let s = int_text(v as int);
        assert(s[0] == '-');
        assert(s.drop_first() =~= nat_text(n));
    } else {
        let n = v as nat;
        lemma_decimal_of_nat_text(n);
        let s = int_text(v as int);
        assert(s == nat_text(n));
        assert(crate::text::is_digit(s[0]));
    }
}

} // verus!
