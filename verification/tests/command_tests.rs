use sheetcalc::commands::{Action, Console};
use sheetcalc::spreadsheet::{
    Cell, Spreadsheet, STATUS_CIRCULAR, STATUS_INVALID_CELL, STATUS_OK, STATUS_UNRECOGNIZED,
    STATUS_VALUE_ERROR,
};

#[test]
fn session_begins_at_the_first_cell() {
    let c = Console::new();
    assert!(c.output_enabled);
    assert_eq!(c.viewport_row, 0);
    assert_eq!(c.viewport_col, 0);
    assert_eq!(c.status, STATUS_OK);
}

#[test]
fn quit_and_output_switches() {
    let mut sheet = Spreadsheet::new(5, 5).unwrap();
    let mut c = Console::new();
    assert_eq!(c.step(&mut sheet, "disable_output\n"), Action::Silent);
    assert!(!c.output_enabled);
    assert_eq!(c.step(&mut sheet, "w\n"), Action::Silent);
    assert_eq!(c.step(&mut sheet, "enable_output\n"), Action::Show);
    assert!(c.output_enabled);
    assert_eq!(c.step(&mut sheet, "q\n"), Action::Quit);
    assert_eq!(c.step(&mut sheet, "Q"), Action::Quit);
    assert_eq!(c.step(&mut sheet, "quit\n"), Action::Show);
    assert_eq!(c.status, STATUS_UNRECOGNIZED);
}

#[test]
fn edits_go_to_the_sheet() {
    let mut sheet = Spreadsheet::new(5, 5).unwrap();
    let mut c = Console::new();
    assert_eq!(c.step(&mut sheet, "A1=5\n"), Action::Show);
    assert_eq!(c.status, STATUS_OK);
    assert_eq!(c.step(&mut sheet, "B1=A1+3\n"), Action::Show);
    assert_eq!(c.status, STATUS_OK);
    assert_eq!(sheet.cell((2, 1)), Some(Cell::Value(8)));
    assert_eq!(c.step(&mut sheet, " b2 = A1*2 \n"), Action::Show);
    assert_eq!(c.status, STATUS_OK);
    assert_eq!(sheet.cell((2, 2)), Some(Cell::Value(10)));
    assert_eq!(c.step(&mut sheet, "A1=B1\n"), Action::Show);
    assert_eq!(c.status, STATUS_CIRCULAR);
    assert_eq!(c.step(&mut sheet, "C1=1/0\n"), Action::Show);
    assert_eq!(c.status, STATUS_VALUE_ERROR);
    assert_eq!(c.step(&mut sheet, "Z9=1\n"), Action::Show);
    assert_eq!(c.status, STATUS_INVALID_CELL);
    assert_eq!(c.step(&mut sheet, "17=1\n"), Action::Show);
    assert_eq!(c.status, STATUS_INVALID_CELL);
    assert_eq!(c.step(&mut sheet, "A1=what\n"), Action::Show);
    assert_eq!(c.status, STATUS_UNRECOGNIZED);
    assert_eq!(c.step(&mut sheet, "hello\n"), Action::Show);
    assert_eq!(c.status, STATUS_UNRECOGNIZED);
    assert_eq!(c.step(&mut sheet, "\n"), Action::Show);
    assert_eq!(c.status, STATUS_UNRECOGNIZED);
    assert_eq!(sheet.cell((1, 1)), Some(Cell::Value(5)));
    // the status of a line does not outlive the next
    assert_eq!(c.step(&mut sheet, "w\n"), Action::Show);
    assert_eq!(c.status, STATUS_OK);
}

#[test]
fn scrolling_by_pages() {
    let mut sheet = Spreadsheet::new(35, 8).unwrap();
    let mut c = Console::new();
    c.step(&mut sheet, "s\n");
    assert_eq!(c.viewport_row, 10);
    c.step(&mut sheet, "s\n");
    assert_eq!(c.viewport_row, 20);
    // less than a page is left beyond the window: it moves to the last page
    c.step(&mut sheet, "s\n");
    assert_eq!(c.viewport_row, 25);
    c.step(&mut sheet, "s\n");
    assert_eq!(c.viewport_row, 25);
    c.step(&mut sheet, "w\n");
    assert_eq!(c.viewport_row, 15);
    c.step(&mut sheet, "w\n");
    assert_eq!(c.viewport_row, 5);
    c.step(&mut sheet, "w\n");
    assert_eq!(c.viewport_row, 0);
    // fewer columns than a page: the window stays at the first
    c.step(&mut sheet, "d\n");
    assert_eq!(c.viewport_col, 0);
    c.step(&mut sheet, "a\n");
    assert_eq!(c.viewport_col, 0);
    let mut wide = Spreadsheet::new(3, 30).unwrap();
    c.step(&mut wide, "d\n");
    assert_eq!(c.viewport_col, 10);
    c.step(&mut wide, "d\n");
    assert_eq!(c.viewport_col, 20);
    c.step(&mut wide, "d\n");
    assert_eq!(c.viewport_col, 20);
    c.step(&mut wide, "a\n");
    assert_eq!(c.viewport_col, 10);
}

#[test]
fn scroll_to_a_cell() {
    let mut sheet = Spreadsheet::new(50, 30).unwrap();
    let mut c = Console::new();
    assert_eq!(c.step(&mut sheet, "scroll_to C7\n"), Action::Show);
    assert_eq!(c.status, STATUS_OK);
    assert_eq!((c.viewport_row, c.viewport_col), (6, 2));
    c.step(&mut sheet, "scroll_to   ad50  \n");
    assert_eq!(c.status, STATUS_OK);
    assert_eq!((c.viewport_row, c.viewport_col), (49, 29));
    c.step(&mut sheet, "scroll_to AE1\n");
    assert_eq!(c.status, STATUS_INVALID_CELL);
    assert_eq!((c.viewport_row, c.viewport_col), (49, 29));
    c.step(&mut sheet, "scroll_to A0\n");
    assert_eq!(c.status, STATUS_INVALID_CELL);
    c.step(&mut sheet, "scroll_to nowhere\n");
    assert_eq!(c.status, STATUS_INVALID_CELL);
    c.step(&mut sheet, "scroll_to\n");
    assert_eq!(c.status, STATUS_OK);
    assert_eq!((c.viewport_row, c.viewport_col), (49, 29));
}
