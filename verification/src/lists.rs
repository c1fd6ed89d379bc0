//! Small lists of cells kept as sets, and the marks of a search.

use vstd::prelude::*;
use crate::coords::Coord;

verus! {

/// Whether two coordinates name the same cell.
pub fn same_cell(a: Coord, b: Coord) -> (r: bool)
    ensures
        r == (a == b),
{
    a.0 == b.0 && a.1 == b.1
}

/// Whether `d` is in `list`.
pub fn has_item(list: &Vec<Coord>, d: Coord) -> (r: bool)
    ensures
        r == list@.contains(d),
{
    let mut i: usize = 0;
    while i < list.len()
        invariant
            i <= list@.len(),
            forall|j: int| 0 <= j < i ==> list@[j] != d,
        decreases list@.len() - i,
    {
        if same_cell(list[i], d) {
            return true;
        }
        i = i + 1;
    }
    false
}

/// Puts `d` into `list` unless it is there.
pub fn add_item(list: &mut Vec<Coord>, d: Coord)
    requires
        old(list)@.no_duplicates(),
    ensures
        final(list)@.no_duplicates(),
        forall|x: Coord| final(list)@.contains(x) <==> old(list)@.contains(x) || x == d,
{
    if !has_item(list, d) {
        let ghost before = list@;
        list.push(d);
        proof {
            assert(list@ == before.push(d));
            assert forall|x: Coord| list@.contains(x) <==> before.contains(x) || x == d by {
                if list@.contains(x) {
                    let k = choose|k: int| 0 <= k < list@.len() && list@[k] == x;
                    if k < before.len() {
                        assert(before[k] == x);
                    }
                }
                if before.contains(x) {
                    let k = choose|k: int| 0 <= k < before.len() && before[k] == x;
                    assert(list@[k] == x);
                }
                if x == d {
                    assert(list@[before.len() as int] == x);
                }
            }
            assert forall|i: int, j: int|
                0 <= i < list@.len() && 0 <= j < list@.len() && i != j implies list@[i]
                != list@[j] by {
                if i == before.len() {
                    assert(before[j] == list@[j]);
                } else if j == before.len() {
                    assert(before[i] == list@[i]);
                } else {
                    assert(before[i] == list@[i] && before[j] == list@[j]);
                }
            }
        }
    }
}

/// Takes `d` out of `list` if it is there.
pub fn remove_item(list: &mut Vec<Coord>, d: Coord)
    requires
        old(list)@.no_duplicates(),
    ensures
        final(list)@.no_duplicates(),
        forall|x: Coord| final(list)@.contains(x) <==> old(list)@.contains(x) && x != d,
{
    let mut i: usize = 0;
    while i < list.len()
        invariant
            i <= list@.len(),
            list@ == old(list)@,
            list@.no_duplicates(),
            forall|j: int| 0 <= j < i ==> list@[j] != d,
        decreases list@.len() - i,
    {
        if same_cell(list[i], d) {
            let ghost before = list@;
            let ghost last = before.len() - 1;
            list.swap_remove(i);
            proof {
                assert(list@.len() == last);
                assert forall|k: int| 0 <= k < list@.len() implies list@[k] == (if k == i {
                    before[last]
                } else {
                    before[k]
                }) by {}
                assert forall|x: Coord| list@.contains(x) <==> before.contains(x) && x != d by {
                    if list@.contains(x) {
                        let k = choose|k: int| 0 <= k < list@.len() && list@[k] == x;
                        if k == i {
                            assert(before[last] == x);
                        } else {
                            assert(before[k] == x);
                        }
                    }
                    if before.contains(x) && x != d {
                        let k = choose|k: int| 0 <= k < before.len() && before[k] == x;
                        if k == last {
                            assert(list@[i as int] == x);
                        } else {
                            assert(list@[k] == x);
                        }
                    }
                }
                assert forall|a: int, b: int|
                    0 <= a < list@.len() && 0 <= b < list@.len() && a != b implies list@[a]
                    != list@[b] by {
                    let a0 = if a == i { last } else { a };
                    let b0 = if b == i { last } else { b };
                    assert(list@[a] == before[a0] && list@[b] == before[b0]);
                }
            }
            return;
        }
        i = i + 1;
    }
    proof {
        assert forall|x: Coord| list@.contains(x) implies x != d by {
            let k = choose|k: int| 0 <= k < list@.len() && list@[k] == x;
        }
    }
}

/// The mark of a cell that a search has not come to.
pub const WHITE: u8 = 0;

/// The mark of a cell that a search has entered and not left.
pub const GRAY: u8 = 1;

/// The mark of a cell that a search has left.
pub const BLACK: u8 = 2;

/// How many of the first `n` marks are white.
pub open spec fn whites(marks: Seq<u8>, n: int) -> int
    decreases n,
{
    if n <= 0 {
        0
    } else {
        whites(marks, n - 1) + if marks[n - 1] == WHITE { 1int } else { 0int }
    }
}

/// The count of white marks is between 0 and `n`.
pub proof fn lemma_whites_bounds(marks: Seq<u8>, n: int)
    requires
        0 <= n,
    ensures
        0 <= whites(marks, n) <= n,
    decreases n,
{
    if n > 0 {
        lemma_whites_bounds(marks, n - 1);
    }
}

/// Changing the mark at place `i`, at or after `n`, leaves the count of
/// the first `n` as it was; changing a white mark below `n` to another
/// takes one off.
pub proof fn lemma_whites_update(marks: Seq<u8>, i: int, mark: u8, n: int)
    requires
        0 <= i < marks.len(),
        0 <= n <= marks.len(),
        mark != WHITE,
    ensures
        whites(marks.update(i, mark), n) == whites(marks, n) - if i < n && marks[i] == WHITE {
            1int
        } else {
            0int
        },
    decreases n,
{
    if n > 0 {
        lemma_whites_update(marks, i, mark, n - 1);
    }
}

} // verus!
