use sheetcalc::parser::Parser;
use sheetcalc::render::{cell_to_string, col_to_letter, int_to_string};
use sheetcalc::spreadsheet::{Cell, Spreadsheet, STATUS_OK, STATUS_VALUE_ERROR};

#[test]
fn column_labels() {
    assert_eq!(col_to_letter(1), "A");
    assert_eq!(col_to_letter(26), "Z");
    assert_eq!(col_to_letter(27), "AA");
    assert_eq!(col_to_letter(52), "AZ");
    assert_eq!(col_to_letter(53), "BA");
    assert_eq!(col_to_letter(702), "ZZ");
    assert_eq!(col_to_letter(703), "AAA");
    assert_eq!(col_to_letter(18278), "ZZZ");
    assert_eq!(col_to_letter(0), "");
}

#[test]
fn column_labels_round_trip() {
    for n in 1..=18278usize {
        let label = col_to_letter(n);
        let name = format!("{}1", label);
        assert_eq!(Parser::cell_name_to_coord(&name), Some((n as u16, 1)));
    }
}

#[test]
fn integers_as_text() {
    assert_eq!(int_to_string(0), "0");
    assert_eq!(int_to_string(7), "7");
    assert_eq!(int_to_string(10), "10");
    assert_eq!(int_to_string(-1), "-1");
    assert_eq!(int_to_string(12345), "12345");
    assert_eq!(int_to_string(i32::MAX), "2147483647");
    assert_eq!(int_to_string(i32::MIN), "-2147483648");
}

#[test]
fn cells_as_text() {
    assert_eq!(cell_to_string(&Cell::Value(-40)), "-40");
    assert_eq!(cell_to_string(&Cell::Error), "ERR");
    assert_eq!(cell_to_string(&Cell::new()), "0");
}

#[test]
fn viewport_shows_values_and_errors() {
    let mut s = Spreadsheet::new(3, 4).unwrap();
    assert_eq!(s.set_cell((1, 1), "5"), STATUS_OK);
    assert_eq!(s.set_cell((2, 1), "A1*-3"), STATUS_OK);
    assert_eq!(s.set_cell((4, 3), "1/0"), STATUS_VALUE_ERROR);
    let win = s.get_viewport(0, 0, 10, 10);
    assert_eq!(win.len(), 3);
    assert_eq!(win[0], vec!["5", "-15", "0", "0"]);
    assert_eq!(win[1], vec!["0", "0", "0", "0"]);
    assert_eq!(win[2], vec!["0", "0", "0", "ERR"]);
    let win = s.get_viewport(1, 2, 10, 10);
    assert_eq!(win.len(), 2);
    assert_eq!(win[0], vec!["0", "0"]);
    assert_eq!(win[1], vec!["0", "ERR"]);
    let win = s.get_viewport(0, 1, 1, 2);
    assert_eq!(win.len(), 1);
    assert_eq!(win[0], vec!["-15", "0"]);
    assert!(s.get_viewport(3, 0, 10, 10).is_empty());
    let win = s.get_viewport(0, 4, 10, 10);
    assert_eq!(win.len(), 3);
    assert!(win[0].is_empty());
    assert!(s.get_viewport(0, 0, 0, 5).is_empty());
}

#[test]
fn display_lines_have_a_heading_and_a_line_per_row() {
    let mut s = Spreadsheet::new(12, 3).unwrap();
    assert_eq!(s.set_cell((1, 1), "5"), STATUS_OK);
    assert_eq!(s.set_cell((3, 2), "1/0"), STATUS_VALUE_ERROR);
    assert_eq!(s.set_cell((2, 12), "-123456789"), STATUS_OK);
    let lines = s.display(0, 0, 10, 10);
    assert_eq!(lines.len(), 11);
    assert_eq!(lines[0], "           A       B       C");
    assert_eq!(lines[1], "  1        5       0       0");
    assert_eq!(lines[2], "  2        0       0     ERR");
    assert_eq!(lines[10], " 10        0       0       0");
    let lines = s.display(10, 1, 10, 1);
    assert_eq!(lines.len(), 3);
    assert_eq!(lines[0], "           B");
    assert_eq!(lines[1], " 11        0");
    assert_eq!(lines[2], " 12 -123456789");
    let lines = s.display(12, 0, 10, 10);
    assert_eq!(lines.len(), 1);
    assert_eq!(lines[0], "           A       B       C");
    let lines = s.display(0, 3, 2, 10);
    assert_eq!(lines.len(), 3);
    assert_eq!(lines[0], "    ");
    assert_eq!(lines[1], "  1 ");
}
