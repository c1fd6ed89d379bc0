use sheetcalc::formula::{BinOp, Formula, Operand};
use sheetcalc::function::RangeFn;
use sheetcalc::parser::Parser;

#[test]
fn cell_names_decode_columns_and_rows() {
    assert_eq!(Parser::cell_name_to_coord("A1"), Some((1, 1)));
    assert_eq!(Parser::cell_name_to_coord("Z9"), Some((26, 9)));
    assert_eq!(Parser::cell_name_to_coord("AA27"), Some((27, 27)));
    assert_eq!(Parser::cell_name_to_coord("zzz999"), Some((18278, 999)));
    assert_eq!(Parser::cell_name_to_coord("  b12 "), Some((2, 12)));
    assert_eq!(Parser::cell_name_to_coord("A"), None);
    assert_eq!(Parser::cell_name_to_coord("12"), None);
    assert_eq!(Parser::cell_name_to_coord("A1B"), None);
    assert_eq!(Parser::cell_name_to_coord("A+5"), None);
    assert_eq!(Parser::cell_name_to_coord(""), None);
    assert_eq!(Parser::cell_name_to_coord("A65535"), Some((1, 65535)));
    assert_eq!(Parser::cell_name_to_coord("A65536"), None);
    assert_eq!(Parser::cell_name_to_coord("ZZZZ1"), None);
}

#[test]
fn binary_splits_at_first_operator_after_the_left_operand() {
    assert_eq!(Parser::split_binary("A1+3"), Some(('+', "A1", "3")));
    assert_eq!(Parser::split_binary("-5-3"), Some(('-', "-5", "3")));
    assert_eq!(Parser::split_binary("2*-3"), Some(('*', "2", "-3")));
    assert_eq!(Parser::split_binary("-5"), None);
    assert_eq!(Parser::split_binary("5-"), None);
    assert_eq!(Parser::split_binary("1+2+3"), Some(('+', "1", "2+3")));
}

#[test]
fn range_calls_normalize_corners() {
    assert_eq!(Parser::parse_range("SUM(A1:B3)"), Some(("SUM", (1, 1), (2, 3))));
    assert_eq!(Parser::parse_range("MAX(B3:A1)"), Some(("MAX", (1, 1), (2, 3))));
    assert_eq!(Parser::parse_range(" MIN( A3 : B1 ) "), Some(("MIN", (1, 1), (2, 3))));
    assert_eq!(Parser::parse_range("SLEEP(A1:A2)"), Some(("SLEEP", (1, 1), (1, 2))));
    assert_eq!(Parser::parse_range("sum(A1:B3)"), None);
    assert_eq!(Parser::parse_range("SUM(A1)"), None);
    assert_eq!(Parser::parse_range("SUM(A1:B3"), None);
}

#[test]
fn formulas_are_classified() {
    assert_eq!(Parser::parse_formula("42"), Some(Formula::Literal(42)));
    assert_eq!(Parser::parse_formula("-42"), Some(Formula::Literal(-42)));
    assert_eq!(Parser::parse_formula("+7"), Some(Formula::Literal(7)));
    assert_eq!(Parser::parse_formula("2147483647"), Some(Formula::Literal(2147483647)));
    assert_eq!(Parser::parse_formula("-2147483648"), Some(Formula::Literal(-2147483648)));
    assert_eq!(Parser::parse_formula("2147483648"), None);
    assert_eq!(Parser::parse_formula("C5"), Some(Formula::Ref((3, 5))));
    assert_eq!(
        Parser::parse_formula("A1+3"),
        Some(Formula::Binary { op: BinOp::Add, lhs: Operand::Ref((1, 1)), rhs: Operand::Literal(3) })
    );
    assert_eq!(
        Parser::parse_formula("1/0"),
        Some(Formula::Binary { op: BinOp::Div, lhs: Operand::Literal(1), rhs: Operand::Literal(0) })
    );
    assert_eq!(
        Parser::parse_formula("-5-3"),
        Some(Formula::Binary { op: BinOp::Sub, lhs: Operand::Literal(-5), rhs: Operand::Literal(3) })
    );
    assert_eq!(
        Parser::parse_formula("STDEV(B2:A1)"),
        Some(Formula::Range { func: RangeFn::Stdev, start: (1, 1), end: (2, 2) })
    );
    assert_eq!(Parser::parse_formula("SLEEP(3)"), Some(Formula::Sleep(Operand::Literal(3))));
    assert_eq!(Parser::parse_formula("SLEEP(-3)"), Some(Formula::Sleep(Operand::Literal(-3))));
    assert_eq!(Parser::parse_formula("SLEEP(B2)"), Some(Formula::Sleep(Operand::Ref((2, 2)))));
    assert_eq!(Parser::parse_formula("SLEEP(A1:B2)"), None);
    assert_eq!(Parser::parse_formula("1+2+3"), None);
    assert_eq!(Parser::parse_formula("A1 + 2"), None);
    assert_eq!(Parser::parse_formula("hello"), None);
    assert_eq!(Parser::parse_formula(""), None);
    assert_eq!(Parser::parse_formula("SUM(A1:B2)+1"), None);
}
