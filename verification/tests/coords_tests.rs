use sheetcalc::coords::{is_within_range, normalize_corners, within, Dims};
use sheetcalc::formula::{evaluate, BinOp, Cell, Formula, Operand};
use sheetcalc::function::RangeFn;
use sheetcalc::text::{chars_of, read_base26, read_decimal, trim};

#[test]
fn rectangles() {
    assert!(is_within_range((2, 2), (1, 1), (3, 3)));
    assert!(is_within_range((2, 2), (3, 3), (1, 1)));
    assert!(is_within_range((2, 2), (1, 3), (3, 1)));
    assert!(is_within_range((1, 1), (1, 1), (1, 1)));
    assert!(!is_within_range((4, 2), (1, 1), (3, 3)));
    assert!(!is_within_range((2, 0), (1, 1), (3, 3)));
    assert!(within((2, 2), (1, 1), (3, 3)));
    assert!(!within((2, 2), (3, 3), (1, 1)));
    assert_eq!(normalize_corners((5, 2), (3, 9)), ((3, 2), (5, 9)));
    assert_eq!(normalize_corners((1, 1), (1, 1)), ((1, 1), (1, 1)));
}

#[test]
fn grid_layout() {
    let d = Dims { rows: 3, cols: 4 };
    assert!(d.holds((1, 1)));
    assert!(d.holds((4, 3)));
    assert!(!d.holds((5, 3)));
    assert!(!d.holds((4, 4)));
    assert!(!d.holds((0, 1)));
    assert!(!d.holds((1, 0)));
    assert_eq!(d.len(), 12);
    assert_eq!(d.offset((1, 1)), 0);
    assert_eq!(d.offset((4, 1)), 3);
    assert_eq!(d.offset((1, 2)), 4);
    assert_eq!(d.offset((4, 3)), 11);
}

#[test]
fn reading_numbers_and_blanks() {
    let text = chars_of(" \t12 \n");
    assert_eq!(trim(&text), &['1', '2']);
    assert_eq!(trim(&chars_of("   ")), &[] as &[char; 0]);
    assert_eq!(read_decimal(&chars_of("0042"), 100), Some(42));
    assert_eq!(read_decimal(&chars_of("101"), 100), None);
    assert_eq!(read_decimal(&chars_of("100"), 100), Some(100));
    assert_eq!(read_decimal(&chars_of(""), 100), None);
    assert_eq!(read_decimal(&chars_of("1x"), 100), None);
    assert_eq!(read_decimal(&chars_of("99999999999999999999999999"), 100), None);
    assert_eq!(read_base26(&chars_of("a"), 100), Some(1));
    assert_eq!(read_base26(&chars_of("Az"), 100), Some(52));
    assert_eq!(read_base26(&chars_of("ZZ"), 100), None);
    assert_eq!(read_base26(&chars_of("A1"), 100), None);
}

#[test]
fn formulas_evaluate_over_a_lookup() {
    let lookup = |c: (u16, u16)| if c == (2, 2) { None } else { Some(c.0 as i32 * 10 + c.1 as i32) };
    assert_eq!(evaluate(&Formula::Literal(-3), lookup), Cell::Value(-3));
    assert_eq!(evaluate(&Formula::Ref((3, 4)), lookup), Cell::Value(34));
    assert_eq!(evaluate(&Formula::Ref((2, 2)), lookup), Cell::Error);
    let sum = Formula::Binary { op: BinOp::Add, lhs: Operand::Ref((1, 1)), rhs: Operand::Literal(5) };
    assert_eq!(evaluate(&sum, lookup), Cell::Value(16));
    let twice = Formula::Binary { op: BinOp::Mul, lhs: Operand::Ref((1, 2)), rhs: Operand::Ref((1, 2)) };
    assert_eq!(evaluate(&twice, lookup), Cell::Value(144));
    let bad = Formula::Binary { op: BinOp::Sub, lhs: Operand::Literal(5), rhs: Operand::Ref((2, 2)) };
    assert_eq!(evaluate(&bad, lookup), Cell::Error);
    let by_zero = Formula::Binary { op: BinOp::Div, lhs: Operand::Ref((1, 1)), rhs: Operand::Literal(0) };
    assert_eq!(evaluate(&by_zero, lookup), Cell::Error);
    let quot = Formula::Binary { op: BinOp::Div, lhs: Operand::Ref((9, 9)), rhs: Operand::Literal(-10) };
    assert_eq!(evaluate(&quot, lookup), Cell::Value(-9));
    let max = Formula::Range { func: RangeFn::Max, start: (3, 3), end: (4, 5) };
    assert_eq!(evaluate(&max, lookup), Cell::Value(45));
    let over_error = Formula::Range { func: RangeFn::Sum, start: (1, 1), end: (2, 2) };
    assert_eq!(evaluate(&over_error, lookup), Cell::Error);
    assert_eq!(evaluate(&Formula::Sleep(Operand::Ref((1, 7))), lookup), Cell::Value(17));
    assert_eq!(evaluate(&Formula::Sleep(Operand::Ref((2, 2))), lookup), Cell::Error);
    assert_eq!(evaluate(&Formula::Sleep(Operand::Literal(0)), lookup), Cell::Value(0));
}

#[test]
fn a_cell_begins_at_zero() {
    assert_eq!(Cell::new(), Cell::Value(0));
    assert_eq!(Cell::new().value(), Some(0));
    assert_eq!(Cell::Error.value(), None);
    assert_eq!(BinOp::Add.code(), 1);
    assert_eq!(BinOp::Sub.code(), 2);
    assert_eq!(BinOp::Mul.code(), 3);
    assert_eq!(BinOp::Div.code(), 5);
}
