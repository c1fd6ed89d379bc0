use sheetcalc::formula::{Formula, Operand};
use sheetcalc::spreadsheet::{
    Cell, Spreadsheet, STATUS_CIRCULAR, STATUS_INVALID_CELL, STATUS_INVALID_RANGE, STATUS_OK,
    STATUS_UNRECOGNIZED, STATUS_VALUE_ERROR,
};

fn sheet(rows: usize, cols: usize) -> Spreadsheet {
    Spreadsheet::new(rows, cols).unwrap()
}

#[test]
fn new_rejects_sizes_outside_the_limits() {
    assert!(Spreadsheet::new(0, 5).is_none());
    assert!(Spreadsheet::new(5, 0).is_none());
    assert!(Spreadsheet::new(1000, 5).is_none());
    assert!(Spreadsheet::new(5, 18279).is_none());
    assert!(Spreadsheet::new(1, 1).is_some());
    assert!(Spreadsheet::new(999, 3).is_some());
    assert!(Spreadsheet::new(2, 18278).is_some());
}

#[test]
fn new_cells_hold_zero() {
    let s = sheet(3, 4);
    assert_eq!(s.rows(), 3);
    assert_eq!(s.cols(), 4);
    for r in 1..=3u16 {
        for c in 1..=4u16 {
            assert_eq!(s.cell((c, r)), Some(Cell::Value(0)));
            assert_eq!(s.get_val((c, r)), Some(0));
            assert_eq!(s.formula((c, r)), Some(Formula::Literal(0)));
        }
    }
    assert_eq!(s.cell((5, 1)), None);
    assert_eq!(s.cell((1, 4)), None);
    assert_eq!(s.cell((0, 1)), None);
    assert_eq!(s.get_val((1, 0)), None);
    assert!(!s.has_cycle());
}

#[test]
fn edit_propagates_to_dependent() {
    let mut s = sheet(3, 3);
    assert_eq!(s.set_cell((1, 1), "5"), STATUS_OK);
    assert_eq!(s.set_cell((2, 1), "A1+3"), STATUS_OK);
    assert_eq!(s.cell((2, 1)), Some(Cell::Value(8)));
    assert_eq!(s.set_cell((1, 1), "10"), STATUS_OK);
    assert_eq!(s.cell((2, 1)), Some(Cell::Value(13)));
}

#[test]
fn cycle_is_rejected_and_rolled_back() {
    let mut s = sheet(3, 3);
    assert_eq!(s.set_cell((2, 1), "7"), STATUS_OK);
    assert_eq!(s.set_cell((1, 1), "B1"), STATUS_OK);
    assert_eq!(s.cell((1, 1)), Some(Cell::Value(7)));
    assert_eq!(s.set_cell((2, 1), "A1"), STATUS_CIRCULAR);
    assert_eq!(s.cell((2, 1)), Some(Cell::Value(7)));
    assert_eq!(s.formula((2, 1)), Some(Formula::Literal(7)));
    assert_eq!(s.cell((1, 1)), Some(Cell::Value(7)));
    assert_eq!(s.formula((1, 1)), Some(Formula::Ref((2, 1))));
    assert!(!s.has_cycle());
    // the graph still works as before the rejected edit
    assert_eq!(s.set_cell((2, 1), "9"), STATUS_OK);
    assert_eq!(s.cell((1, 1)), Some(Cell::Value(9)));
}

#[test]
fn sum_turns_to_error_with_its_member() {
    let mut s = sheet(3, 3);
    assert_eq!(s.set_cell((1, 1), "1"), STATUS_OK);
    assert_eq!(s.set_cell((1, 2), "2"), STATUS_OK);
    assert_eq!(s.set_cell((1, 3), "3"), STATUS_OK);
    assert_eq!(s.set_cell((2, 1), "SUM(A1:A3)"), STATUS_OK);
    assert_eq!(s.cell((2, 1)), Some(Cell::Value(6)));
    assert_eq!(s.set_cell((1, 2), "1/0"), STATUS_VALUE_ERROR);
    assert_eq!(s.cell((1, 2)), Some(Cell::Error));
    assert_eq!(s.cell((2, 1)), Some(Cell::Error));
    // overwriting the cause heals the dependents
    assert_eq!(s.set_cell((1, 2), "20"), STATUS_OK);
    assert_eq!(s.cell((2, 1)), Some(Cell::Value(24)));
}

#[test]
fn average_and_deviation_of_one_cell() {
    let mut s = sheet(3, 3);
    assert_eq!(s.set_cell((1, 1), "42"), STATUS_OK);
    assert_eq!(s.set_cell((2, 1), "AVG(A1:A1)"), STATUS_OK);
    assert_eq!(s.set_cell((2, 2), "STDEV(A1:A1)"), STATUS_OK);
    assert_eq!(s.cell((2, 1)), Some(Cell::Value(42)));
    assert_eq!(s.cell((2, 2)), Some(Cell::Value(0)));
}

#[test]
fn error_propagates_through_arithmetic() {
    let mut s = sheet(3, 3);
    assert_eq!(s.set_cell((1, 1), "4/0"), STATUS_VALUE_ERROR);
    assert_eq!(s.set_cell((2, 1), "A1+5"), STATUS_OK);
    assert_eq!(s.cell((2, 1)), Some(Cell::Error));
    assert_eq!(s.set_cell((3, 1), "B1"), STATUS_OK);
    assert_eq!(s.cell((3, 1)), Some(Cell::Error));
    assert_eq!(s.set_cell((1, 1), "4"), STATUS_OK);
    assert_eq!(s.cell((2, 1)), Some(Cell::Value(9)));
    assert_eq!(s.cell((3, 1)), Some(Cell::Value(9)));
}

#[test]
fn division_by_a_cell_that_holds_zero() {
    let mut s = sheet(3, 3);
    assert_eq!(s.set_cell((2, 1), "A1/B2"), STATUS_VALUE_ERROR);
    assert_eq!(s.cell((2, 1)), Some(Cell::Error));
    assert_eq!(s.set_cell((2, 2), "2"), STATUS_OK);
    assert_eq!(s.cell((2, 1)), Some(Cell::Value(0)));
    assert_eq!(s.set_cell((1, 1), "9"), STATUS_OK);
    assert_eq!(s.cell((2, 1)), Some(Cell::Value(4)));
    // a dependent that comes to divide by zero during a sweep turns to error
    assert_eq!(s.set_cell((2, 2), "0"), STATUS_OK);
    assert_eq!(s.cell((2, 1)), Some(Cell::Error));
}

#[test]
fn rejected_edits_name_their_reason_and_change_nothing() {
    let mut s = sheet(3, 3);
    assert_eq!(s.set_cell((1, 1), "5"), STATUS_OK);
    assert_eq!(s.set_cell((4, 1), "5"), STATUS_INVALID_CELL);
    assert_eq!(s.set_cell((1, 4), "5"), STATUS_INVALID_CELL);
    assert_eq!(s.set_cell((0, 1), "5"), STATUS_INVALID_CELL);
    assert_eq!(s.set_cell((1, 0), "5"), STATUS_INVALID_CELL);
    assert_eq!(s.set_cell((1, 1), "hello"), STATUS_UNRECOGNIZED);
    assert_eq!(s.set_cell((1, 1), "1+2+3"), STATUS_UNRECOGNIZED);
    assert_eq!(s.set_cell((1, 1), "SLEEP(A1:A2)"), STATUS_UNRECOGNIZED);
    assert_eq!(s.set_cell((1, 1), "D1"), STATUS_INVALID_CELL);
    assert_eq!(s.set_cell((1, 1), "A0"), STATUS_INVALID_CELL);
    assert_eq!(s.set_cell((1, 1), "B2+D9"), STATUS_INVALID_CELL);
    assert_eq!(s.set_cell((1, 1), "SLEEP(Z1)"), STATUS_INVALID_CELL);
    assert_eq!(s.set_cell((1, 1), "SUM(A1:D4)"), STATUS_INVALID_RANGE);
    assert_eq!(s.set_cell((1, 1), "SUM(A1:B2)"), STATUS_CIRCULAR);
    assert_eq!(s.set_cell((1, 1), "A1"), STATUS_CIRCULAR);
    assert_eq!(s.set_cell((1, 1), "A1+1"), STATUS_CIRCULAR);
    // an invalid target is reported before the text is read
    assert_eq!(s.set_cell((9, 9), "hello"), STATUS_INVALID_CELL);
    assert_eq!(s.cell((1, 1)), Some(Cell::Value(5)));
    assert_eq!(s.formula((1, 1)), Some(Formula::Literal(5)));
    assert!(s.last_sweep().is_empty());
}

#[test]
fn range_corners_may_come_in_any_order() {
    let mut s = sheet(3, 3);
    assert_eq!(s.set_cell((1, 1), "1"), STATUS_OK);
    assert_eq!(s.set_cell((2, 1), "2"), STATUS_OK);
    assert_eq!(s.set_cell((1, 2), "3"), STATUS_OK);
    assert_eq!(s.set_cell((2, 2), "4"), STATUS_OK);
    assert_eq!(s.set_cell((3, 3), "SUM(B2:A1)"), STATUS_OK);
    assert_eq!(s.cell((3, 3)), Some(Cell::Value(10)));
    assert_eq!(s.set_cell((3, 2), "MAX(A2:B1)"), STATUS_OK);
    assert_eq!(s.cell((3, 2)), Some(Cell::Value(4)));
    assert_eq!(s.set_cell((3, 1), "MIN(B1:A2)"), STATUS_OK);
    assert_eq!(s.cell((3, 1)), Some(Cell::Value(1)));
}

#[test]
fn long_chain_recomputes_in_order() {
    let mut s = sheet(200, 1);
    assert_eq!(s.set_cell((1, 1), "1"), STATUS_OK);
    for r in 2..=200u16 {
        let text = format!("A{}+1", r - 1);
        assert_eq!(s.set_cell((1, r), &text), STATUS_OK);
    }
    assert_eq!(s.cell((1, 200)), Some(Cell::Value(200)));
    assert_eq!(s.set_cell((1, 1), "1000"), STATUS_OK);
    for r in 1..=200u16 {
        assert_eq!(s.cell((1, r)), Some(Cell::Value(999 + r as i32)));
    }
    let sweep = s.last_sweep();
    assert_eq!(sweep.len(), 200);
    for r in 1..=200u16 {
        assert_eq!(sweep[(r - 1) as usize], (1, r));
    }
    assert_eq!(s.set_cell((1, 1), "A200"), STATUS_CIRCULAR);
    assert_eq!(s.cell((1, 1)), Some(Cell::Value(1000)));
    assert!(!s.has_cycle());
}

#[test]
fn diamond_recomputes_each_cell_once_after_its_precedents() {
    let mut s = sheet(4, 4);
    // A1 feeds B1 and C1, which both feed D1; a range over A1:C1 feeds A2
    assert_eq!(s.set_cell((2, 1), "A1+1"), STATUS_OK);
    assert_eq!(s.set_cell((3, 1), "A1*2"), STATUS_OK);
    assert_eq!(s.set_cell((4, 1), "B1+C1"), STATUS_OK);
    assert_eq!(s.set_cell((1, 2), "SUM(A1:C1)"), STATUS_OK);
    assert_eq!(s.set_cell((2, 2), "A2-D1"), STATUS_OK);
    assert_eq!(s.set_cell((1, 1), "10"), STATUS_OK);
    assert_eq!(s.cell((2, 1)), Some(Cell::Value(11)));
    assert_eq!(s.cell((3, 1)), Some(Cell::Value(20)));
    assert_eq!(s.cell((4, 1)), Some(Cell::Value(31)));
    assert_eq!(s.cell((1, 2)), Some(Cell::Value(41)));
    assert_eq!(s.cell((2, 2)), Some(Cell::Value(10)));
    let sweep = s.last_sweep();
    assert_eq!(sweep.len(), 6);
    assert_eq!(sweep[0], (1, 1));
    let place = |c: (u16, u16)| sweep.iter().position(|x| *x == c).unwrap();
    assert!(place((2, 1)) < place((4, 1)));
    assert!(place((3, 1)) < place((4, 1)));
    assert!(place((2, 1)) < place((1, 2)));
    assert!(place((3, 1)) < place((1, 2)));
    assert!(place((1, 2)) < place((2, 2)));
    assert!(place((4, 1)) < place((2, 2)));
}

#[test]
fn replacing_a_formula_drops_its_old_dependencies() {
    let mut s = sheet(3, 3);
    assert_eq!(s.set_cell((2, 1), "A1+1"), STATUS_OK);
    assert_eq!(s.set_cell((2, 1), "C1+1"), STATUS_OK);
    // B1 no longer reads A1, so A1 may now read B1
    assert_eq!(s.set_cell((1, 1), "B1"), STATUS_OK);
    assert_eq!(s.cell((1, 1)), Some(Cell::Value(1)));
    assert_eq!(s.set_cell((3, 1), "5"), STATUS_OK);
    assert_eq!(s.cell((2, 1)), Some(Cell::Value(6)));
    assert_eq!(s.cell((1, 1)), Some(Cell::Value(6)));
    // the same with a range
    assert_eq!(s.set_cell((1, 2), "SUM(A1:C1)"), STATUS_OK);
    assert_eq!(s.cell((1, 2)), Some(Cell::Value(17)));
    assert_eq!(s.set_cell((3, 1), "A2"), STATUS_CIRCULAR);
    assert_eq!(s.set_cell((1, 2), "3"), STATUS_OK);
    assert_eq!(s.set_cell((3, 1), "A2"), STATUS_OK);
    assert_eq!(s.cell((1, 1)), Some(Cell::Value(4)));
}

#[test]
fn cycle_through_a_range_is_rejected() {
    let mut s = sheet(3, 3);
    assert_eq!(s.set_cell((3, 3), "SUM(A1:B2)"), STATUS_OK);
    assert_eq!(s.set_cell((1, 1), "C3"), STATUS_CIRCULAR);
    assert_eq!(s.set_cell((2, 2), "C3+1"), STATUS_CIRCULAR);
    assert_eq!(s.set_cell((3, 1), "C3"), STATUS_OK);
    assert_eq!(s.set_cell((1, 2), "C1"), STATUS_CIRCULAR);
    assert!(!s.has_cycle());
    assert_eq!(s.formula((1, 2)), Some(Formula::Literal(0)));
}

#[test]
fn overflow_is_an_error_not_a_wrapped_number() {
    let mut s = sheet(3, 3);
    assert_eq!(s.set_cell((1, 1), "2147483647"), STATUS_OK);
    assert_eq!(s.set_cell((2, 1), "A1+1"), STATUS_OK);
    assert_eq!(s.cell((2, 1)), Some(Cell::Error));
    assert_eq!(s.set_cell((2, 2), "A1*2"), STATUS_OK);
    assert_eq!(s.cell((2, 2)), Some(Cell::Error));
    assert_eq!(s.set_cell((1, 2), "1"), STATUS_OK);
    assert_eq!(s.set_cell((3, 3), "SUM(A1:A2)"), STATUS_OK);
    assert_eq!(s.cell((3, 3)), Some(Cell::Error));
    assert_eq!(s.set_cell((3, 2), "AVG(A1:A2)"), STATUS_OK);
    assert_eq!(s.cell((3, 2)), Some(Cell::Value(1073741824)));
}

#[test]
fn sleep_is_the_identity_and_owes_its_seconds() {
    let mut s = sheet(3, 3);
    assert_eq!(s.set_cell((1, 1), "SLEEP(3)"), STATUS_OK);
    assert_eq!(s.cell((1, 1)), Some(Cell::Value(3)));
    assert_eq!(s.formula((1, 1)), Some(Formula::Sleep(Operand::Literal(3))));
    assert_eq!(s.pending_delay(), 3);
    assert_eq!(s.set_cell((2, 1), "SLEEP(A1)"), STATUS_OK);
    assert_eq!(s.cell((2, 1)), Some(Cell::Value(3)));
    assert_eq!(s.pending_delay(), 3);
    assert_eq!(s.set_cell((3, 1), "SLEEP(-4)"), STATUS_OK);
    assert_eq!(s.cell((3, 1)), Some(Cell::Value(-4)));
    assert_eq!(s.pending_delay(), 0);
    // an edit upstream makes the dependent sleep again, with the new value
    assert_eq!(s.set_cell((1, 1), "2"), STATUS_OK);
    assert_eq!(s.cell((2, 1)), Some(Cell::Value(2)));
    assert_eq!(s.pending_delay(), 2);
    assert_eq!(s.set_cell((1, 1), "SLEEP(1)"), STATUS_OK);
    assert_eq!(s.pending_delay(), 2);
    // a rejected edit owes nothing
    assert_eq!(s.set_cell((1, 1), "SLEEP(B1)"), STATUS_CIRCULAR);
    assert_eq!(s.pending_delay(), 0);
    // a sleeping cell in error owes nothing
    assert_eq!(s.set_cell((1, 1), "1/0"), STATUS_VALUE_ERROR);
    assert_eq!(s.cell((2, 1)), Some(Cell::Error));
    assert_eq!(s.pending_delay(), 0);
}

#[test]
fn recalculation_is_idempotent() {
    let mut s = sheet(3, 3);
    assert_eq!(s.set_cell((1, 1), "5"), STATUS_OK);
    assert_eq!(s.set_cell((2, 1), "A1+3"), STATUS_OK);
    assert_eq!(s.set_cell((3, 1), "SUM(A1:B1)"), STATUS_OK);
    s.recalc_dependents((1, 1));
    assert_eq!(s.cell((1, 1)), Some(Cell::Value(5)));
    assert_eq!(s.cell((2, 1)), Some(Cell::Value(8)));
    assert_eq!(s.cell((3, 1)), Some(Cell::Value(13)));
    assert_eq!(s.last_sweep().len(), 3);
    s.recalc_dependents((1, 1));
    assert_eq!(s.cell((3, 1)), Some(Cell::Value(13)));
}

#[test]
fn committed_graph_is_acyclic_after_many_edits() {
    let mut s = sheet(5, 5);
    let edits: [((u16, u16), &str); 12] = [
        ((1, 1), "B1+C1"),
        ((2, 1), "C1*2"),
        ((3, 1), "SUM(D1:E5)"),
        ((4, 1), "A1"),
        ((5, 5), "A1+B1"),
        ((4, 2), "MAX(A2:C2)"),
        ((1, 2), "D2"),
        ((2, 2), "7"),
        ((3, 1), "E5"),
        ((5, 5), "A1"),
        ((1, 1), "E5"),
        ((4, 4), "AVG(A1:E5)"),
    ];
    for (coord, text) in edits {
        let status = s.set_cell(coord, text);
        assert!(status == STATUS_OK || status == STATUS_CIRCULAR);
        assert!(!s.has_cycle());
    }
}

fn sorted(mut v: Vec<(u16, u16)>) -> Vec<(u16, u16)> {
    v.sort();
    v
}

#[test]
fn dependents_are_those_that_read_the_cell() {
    let mut s = sheet(4, 4);
    assert_eq!(s.set_cell((2, 1), "A1+1"), STATUS_OK);
    assert_eq!(s.set_cell((3, 1), "A1*A1"), STATUS_OK);
    assert_eq!(s.set_cell((4, 1), "SUM(A1:B2)"), STATUS_OK);
    assert_eq!(s.set_cell((4, 2), "SLEEP(A1)"), STATUS_OK);
    assert_eq!(s.set_cell((4, 3), "B1"), STATUS_OK);
    assert_eq!(sorted(s.dependents_of((1, 1))), vec![(2, 1), (3, 1), (4, 1), (4, 2)]);
    assert_eq!(sorted(s.dependents_of((2, 1))), vec![(4, 1), (4, 3)]);
    assert_eq!(sorted(s.dependents_of((2, 2))), vec![(4, 1)]);
    assert_eq!(s.dependents_of((3, 3)), vec![]);
    assert!(s.reads((2, 1), (1, 1)));
    assert!(s.reads((4, 1), (2, 2)));
    assert!(!s.reads((4, 1), (3, 1)));
    assert!(!s.reads((1, 1), (2, 1)));
    assert!(!s.reads((9, 9), (1, 1)));
    // a literal in place of a formula drops the edges
    assert_eq!(s.set_cell((3, 1), "7"), STATUS_OK);
    assert_eq!(sorted(s.dependents_of((1, 1))), vec![(2, 1), (4, 1), (4, 2)]);
    assert_eq!(s.set_cell((4, 1), "MAX(C3:D4)"), STATUS_OK);
    assert_eq!(sorted(s.dependents_of((1, 1))), vec![(2, 1), (4, 2)]);
    assert_eq!(sorted(s.dependents_of((4, 3))), vec![(4, 1)]);
}

#[test]
fn rejected_edit_leaves_values_formulas_and_edges() {
    let mut s = sheet(4, 4);
    assert_eq!(s.set_cell((1, 1), "3"), STATUS_OK);
    assert_eq!(s.set_cell((2, 1), "A1+C1"), STATUS_OK);
    assert_eq!(s.set_cell((3, 1), "MIN(A1:A4)"), STATUS_OK);
    assert_eq!(s.set_cell((4, 1), "B1"), STATUS_OK);
    let snapshot = |s: &Spreadsheet| {
        let mut cells = Vec::new();
        for r in 1..=4u16 {
            for c in 1..=4u16 {
                cells.push((s.cell((c, r)), s.formula((c, r)), sorted(s.dependents_of((c, r)))));
            }
        }
        cells
    };
    let before = snapshot(&s);
    // B1 reads A1 and C1 now; each of these edits would close a cycle through it
    assert_eq!(s.set_cell((1, 1), "D1*2"), STATUS_CIRCULAR);
    assert_eq!(snapshot(&s), before);
    assert_eq!(s.set_cell((3, 1), "SUM(A1:D1)"), STATUS_CIRCULAR);
    assert_eq!(snapshot(&s), before);
    assert_eq!(s.set_cell((1, 2), "SLEEP(C1)"), STATUS_CIRCULAR);
    assert_eq!(snapshot(&s), before);
    assert_eq!(s.set_cell((2, 1), "B1"), STATUS_CIRCULAR);
    assert_eq!(snapshot(&s), before);
    assert_eq!(s.set_cell((2, 1), "nonsense"), STATUS_UNRECOGNIZED);
    assert_eq!(snapshot(&s), before);
    assert_eq!(s.set_cell((2, 1), "E1"), STATUS_INVALID_CELL);
    assert_eq!(snapshot(&s), before);
    assert_eq!(s.set_cell((2, 1), "AVG(A1:A5)"), STATUS_INVALID_RANGE);
    assert_eq!(snapshot(&s), before);
    assert_eq!(s.set_cell((2, 5), "1"), STATUS_INVALID_CELL);
    assert_eq!(snapshot(&s), before);
}

#[test]
fn would_cycle_tells_and_leaves_the_sheet() {
    let mut s = sheet(3, 3);
    assert_eq!(s.set_cell((1, 1), "4"), STATUS_OK);
    assert_eq!(s.set_cell((2, 1), "A1+1"), STATUS_OK);
    assert_eq!(s.set_cell((3, 1), "SUM(A1:B1)"), STATUS_OK);
    assert!(s.would_cycle((1, 1), Formula::Ref((3, 1))));
    assert!(s.would_cycle((1, 1), Formula::Ref((1, 1))));
    assert!(s.would_cycle((2, 1), Formula::Sleep(Operand::Ref((3, 1)))));
    assert!(!s.would_cycle((1, 1), Formula::Ref((3, 3))));
    assert!(!s.would_cycle((3, 1), Formula::Ref((2, 1))));
    assert!(!s.would_cycle((2, 2), Formula::Literal(1)));
    assert_eq!(s.formula((1, 1)), Some(Formula::Literal(4)));
    assert_eq!(s.cell((3, 1)), Some(Cell::Value(9)));
    assert_eq!(sorted(s.dependents_of((1, 1))), vec![(2, 1), (3, 1)]);
    assert_eq!(s.dependents_of((3, 3)), vec![]);
    assert_eq!(s.last_sweep().len(), 1);
    assert_eq!(s.set_cell((1, 1), "5"), STATUS_OK);
    assert_eq!(s.cell((3, 1)), Some(Cell::Value(11)));
}
