//! Walks, cycles and finishing orders in a graph over cells.
//!
//! The graph is given by its edges alone. In the graph of a sheet an edge
//! leads from a cell to each cell whose formula reads it, so a walk
//! follows the way a change spreads.

use vstd::prelude::*;
use crate::coords::Coord;

verus! {

/// The edges of a graph: `e(u, v)` says that an edge leads from `u` to `v`.
pub type Edges = spec_fn(Coord, Coord) -> bool;

/// An edge leads from `u` to `v`.
pub open spec fn has_edge(e: Edges, u: Coord, v: Coord) -> bool {
    e(u, v)
}

/// An edge leads from the cell at place `i` of `w` to the next.
pub open spec fn step(e: Edges, w: Seq<Coord>, i: int) -> bool {
    has_edge(e, w[i], w[i + 1])
}

/// `w` is a walk: at least one cell, and an edge from each to the next.
pub open spec fn is_walk(e: Edges, w: Seq<Coord>) -> bool {
    w.len() >= 1 && forall|i: int| 0 <= i < w.len() - 1 ==> #[trigger] step(e, w, i)
}

/// A walk leads from `a` to `b`; the walk of `a` alone leads from `a` to `a`.
pub open spec fn reaches(e: Edges, a: Coord, b: Coord) -> bool {
    exists|w: Seq<Coord>| #[trigger] is_walk(e, w) && w.first() == a && w.last() == b
}

/// The graph has a cycle: a walk of at least one edge from a cell to itself.
pub open spec fn cyclic(e: Edges) -> bool {
    exists|w: Seq<Coord>| #[trigger] is_walk(e, w) && w.len() >= 2 && w.first() == w.last()
}

/// `v` stands in `order` before place `i`.
pub open spec fn stands_before(order: Seq<Coord>, v: Coord, i: int) -> bool {
    exists|j: int| 0 <= j < i && #[trigger] order[j] == v
}

/// `order` is a finishing order: every cell that an edge leads to from a
/// cell of `order` stands earlier in it.
pub open spec fn settled(e: Edges, order: Seq<Coord>) -> bool {
    forall|i: int, v: Coord|
        0 <= i < order.len() && #[trigger] has_edge(e, order[i], v) ==> stands_before(order, v, i)
}

/// From every cell a walk leads to itself.
pub proof fn lemma_reaches_self(e: Edges, a: Coord)
    ensures
        reaches(e, a, a),
{
    let w = seq![a];
    assert(is_walk(e, w));
    assert(w.first() == a && w.last() == a);
}

/// A walk to `b` and an edge from `b` to `c` make a walk to `c`.
pub proof fn lemma_reaches_step(e: Edges, a: Coord, b: Coord, c: Coord)
    requires
        reaches(e, a, b),
        has_edge(e, b, c),
    ensures
        reaches(e, a, c),
{
    let w = choose|w: Seq<Coord>| #[trigger] is_walk(e, w) && w.first() == a && w.last() == b;
    let w2 = w.push(c);
    assert forall|i: int| 0 <= i < w2.len() - 1 implies #[trigger] step(e, w2, i) by {
        if i < w.len() - 1 {
            assert(step(e, w, i));
        }
    }
    assert(is_walk(e, w2));
    assert(w2.first() == a && w2.last() == c);
}

/// The part of a walk from place `k` on is a walk.
pub proof fn lemma_walk_tail(e: Edges, w: Seq<Coord>, k: int)
    requires
        is_walk(e, w),
        0 <= k < w.len(),
    ensures
        is_walk(e, w.skip(k)),
{
    let t = w.skip(k);
    assert forall|i: int| 0 <= i < t.len() - 1 implies #[trigger] step(e, t, i) by {
        assert(step(e, w, i + k));
    }
}

/// A walk that sets out from a cell of a finishing order goes down the
/// order, one place at least with every edge.
pub proof fn lemma_walk_descends(e: Edges, order: Seq<Coord>, w: Seq<Coord>, i: int, k: int)
    requires
        settled(e, order),
        is_walk(e, w),
        0 <= i < order.len(),
        w[0] == order[i],
        0 <= k < w.len(),
    ensures
        stands_before(order, w[k], i - k + 1),
    decreases k,
{
    if k == 0 {
        assert(order[i] == w[0]);
    } else {
        lemma_walk_descends(e, order, w, i, k - 1);
        let j = choose|j: int| 0 <= j < i - (k - 1) + 1 && #[trigger] order[j] == w[k - 1];
        assert(step(e, w, k - 1));
        assert(has_edge(e, order[j], w[k]));
        let j2 = choose|j2: int| 0 <= j2 < j && #[trigger] order[j2] == w[k];
        assert(order[j2] == w[k]);
    }
}

/// No walk of one edge or more leads from a cell of a finishing order
/// back to that cell.
pub proof fn lemma_no_cycle_from(e: Edges, order: Seq<Coord>, w: Seq<Coord>, i: int)
    requires
        settled(e, order),
        order.no_duplicates(),
        is_walk(e, w),
        w.len() >= 2,
        0 <= i < order.len(),
        w[0] == order[i],
    ensures
        w.first() != w.last(),
{
    lemma_walk_descends(e, order, w, i, w.len() - 1);
    let j = choose|j: int| 0 <= j < i - (w.len() - 1) + 1 && #[trigger] order[j] == w[w.len() - 1];
    assert(j < i);
}

/// Whatever a walk reaches from a cell of a finishing order is in the order.
pub proof fn lemma_reached_is_settled(e: Edges, order: Seq<Coord>, a: Coord, b: Coord)
    requires
        settled(e, order),
        order.contains(a),
        reaches(e, a, b),
    ensures
        order.contains(b),
{
    let w = choose|w: Seq<Coord>| #[trigger] is_walk(e, w) && w.first() == a && w.last() == b;
    let i = choose|i: int| 0 <= i < order.len() && order[i] == a;
    lemma_walk_descends(e, order, w, i, w.len() - 1);
    let j = choose|j: int| 0 <= j < i - (w.len() - 1) + 1 && #[trigger] order[j] == w[w.len() - 1];
    assert(order[j] == b);
}

/// A graph is free of cycles if a finishing order holds every cell that an
/// edge leaves.
pub proof fn lemma_settled_acyclic(e: Edges, order: Seq<Coord>)
    requires
        settled(e, order),
        order.no_duplicates(),
        forall|u: Coord, v: Coord| #[trigger] has_edge(e, u, v) ==> order.contains(u),
    ensures
        !cyclic(e),
{
    if cyclic(e) {
        let w = choose|w: Seq<Coord>| #[trigger]
            is_walk(e, w) && w.len() >= 2 && w.first() == w.last();
        assert(step(e, w, 0));
        assert(has_edge(e, w[0], w[1]));
        let i = choose|i: int| 0 <= i < order.len() && order[i] == w[0];
        lemma_no_cycle_from(e, order, w, i);
    }
}

/// A graph without cycles stays so when only the edges into one cell `x`
/// change, provided a finishing order of the new graph holds `x`.
pub proof fn lemma_edit_keeps_acyclic(before: Edges, after: Edges, x: Coord, order: Seq<Coord>)
    requires
        !cyclic(before),
        forall|u: Coord, v: Coord| v != x && #[trigger] has_edge(after, u, v) ==> has_edge(before, u, v),
        settled(after, order),
        order.no_duplicates(),
        order.contains(x),
    ensures
        !cyclic(after),
{
    if cyclic(after) {
        let w = choose|w: Seq<Coord>| #[trigger]
            is_walk(after, w) && w.len() >= 2 && w.first() == w.last();
        if exists|k: int| 0 <= k < w.len() && w[k] == x {
            let k = choose|k: int| 0 <= k < w.len() && w[k] == x;
            lemma_walk_tail(after, w, k);
            let t = w.skip(k);
            assert(t.first() == x && t.last() == w.last());
            assert(reaches(after, x, w.last()));
            lemma_reached_is_settled(after, order, x, w.last());
            let i = choose|i: int| 0 <= i < order.len() && order[i] == w.last();
            lemma_no_cycle_from(after, order, w, i);
        } else {
            assert forall|i: int| 0 <= i < w.len() - 1 implies #[trigger] step(before, w, i) by {
                assert(step(after, w, i));
                assert(w[i + 1] != x);
            }
            assert(is_walk(before, w));
        }
    }
}

/// A walk and an edge from its last cell back to one of its cells make a
/// cycle.
pub proof fn lemma_back_edge_is_cycle(e: Edges, path: Seq<Coord>, i: int)
    requires
        is_walk(e, path),
        0 <= i < path.len(),
        has_edge(e, path.last(), path[i]),
    ensures
        cyclic(e),
{
    lemma_walk_tail(e, path, i);
    let t = path.skip(i);
    let w = t.push(path[i]);
    assert forall|j: int| 0 <= j < w.len() - 1 implies #[trigger] step(e, w, j) by {
        if j < t.len() - 1 {
            assert(step(e, t, j));
        }
    }
    assert(is_walk(e, w));
    assert(w.len() >= 2 && w.first() == w.last());
}

/// `order` read from its end to its start.
pub open spec fn reversed(order: Seq<Coord>) -> Seq<Coord> {
    Seq::new(order.len(), |i: int| order[order.len() - 1 - i])
}

/// `s` is an order in which a change at `start` can be carried through
/// the graph: it begins with `start`, holds the cells that a walk reaches
/// from `start`, each once, and no edge leads from a cell to one that
/// stands at or before it.
pub open spec fn sweeps(e: Edges, start: Coord, s: Seq<Coord>) -> bool {
    &&& s.len() >= 1
    &&& s[0] == start
    &&& s.no_duplicates()
    &&& forall|c: Coord| s.contains(c) <==> reaches(e, start, c)
    &&& forall|a: int, b: int|
        0 <= a < s.len() && 0 <= b < s.len() && #[trigger] has_edge(e, s[a], s[b]) ==> a < b
}

/// A finishing order that ends with `start` and holds nothing but cells
/// reached from `start`, read backwards, is an order in which a change at
/// `start` can be carried through the graph.
pub proof fn lemma_reversed_sweeps(e: Edges, start: Coord, order: Seq<Coord>)
    requires
        order.len() >= 1,
        order.last() == start,
        order.no_duplicates(),
        settled(e, order),
        forall|j: int| 0 <= j < order.len() ==> reaches(e, start, #[trigger] order[j]),
    ensures
        sweeps(e, start, reversed(order)),
{
    let s = reversed(order);
    let n = order.len() as int;
    assert forall|a: int, b: int| 0 <= a < s.len() && 0 <= b < s.len() && a != b implies s[a]
        != s[b] by {
        assert(order[n - 1 - a] != order[n - 1 - b]);
    }
    assert forall|c: Coord| s.contains(c) <==> reaches(e, start, c) by {
        if s.contains(c) {
            let a = choose|a: int| 0 <= a < s.len() && s[a] == c;
            assert(order[n - 1 - a] == c);
        }
        if reaches(e, start, c) {
            assert(order[n - 1] == start);
            lemma_reached_is_settled(e, order, start, c);
            let j = choose|j: int| 0 <= j < order.len() && order[j] == c;
            assert(s[n - 1 - j] == c);
        }
    }
    assert forall|a: int, b: int|
        0 <= a < s.len() && 0 <= b < s.len() && #[trigger] has_edge(e, s[a], s[b]) implies a
        < b by {
        let i = n - 1 - a;
        assert(has_edge(e, order[i], s[b]));
        let j = choose|j: int| 0 <= j < i && #[trigger] order[j] == s[b];
        assert(order[j] == order[n - 1 - b]);
    }
}

/// Two graphs with the same edges are one graph.
pub proof fn lemma_same_edges(e1: Edges, e2: Edges)
    requires
        forall|u: Coord, v: Coord| #[trigger] has_edge(e1, u, v) == has_edge(e2, u, v),
    ensures
        e1 == e2,
{
    assert forall|u: Coord, v: Coord| #[trigger] e1(u, v) == e2(u, v) by {
        assert(has_edge(e1, u, v) == has_edge(e2, u, v));
    }
    assert(e1 =~= e2);
}

} // verus!
