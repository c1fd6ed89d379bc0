use sheetcalc::function::{
    avg_range, eval_binary, eval_range, max_range, min_range, stdev_range, sum_range,
};

fn column(values: &[Option<i32>]) -> impl Fn((u16, u16)) -> Option<i32> + '_ {
    move |c: (u16, u16)| values[(c.1 - 1) as usize]
}

#[test]
fn binary_operations() {
    assert_eq!(eval_binary(1, 5, 3), Some(8));
    assert_eq!(eval_binary(2, 5, 8), Some(-3));
    assert_eq!(eval_binary(3, -4, 6), Some(-24));
    assert_eq!(eval_binary(5, 7, 2), Some(3));
    assert_eq!(eval_binary(5, -7, 2), Some(-3));
    assert_eq!(eval_binary(5, 7, -2), Some(-3));
    assert_eq!(eval_binary(5, -7, -2), Some(3));
    assert_eq!(eval_binary(5, 7, 0), None);
    assert_eq!(eval_binary(4, 7, 1), None);
    assert_eq!(eval_binary(0, 7, 1), None);
}

#[test]
fn binary_overflow_is_an_error() {
    assert_eq!(eval_binary(1, i32::MAX, 1), None);
    assert_eq!(eval_binary(2, i32::MIN, 1), None);
    assert_eq!(eval_binary(3, 65536, 65536), None);
    assert_eq!(eval_binary(5, i32::MIN, -1), None);
    assert_eq!(eval_binary(1, i32::MAX, 0), Some(i32::MAX));
    assert_eq!(eval_binary(3, i32::MIN, 1), Some(i32::MIN));
}

#[test]
fn aggregates_over_a_column() {
    let data = [Some(4), Some(-2), Some(9), Some(1)];
    assert_eq!(min_range((1, 1), (1, 4), column(&data)), Some(-2));
    assert_eq!(max_range((1, 1), (1, 4), column(&data)), Some(9));
    assert_eq!(sum_range((1, 1), (1, 4), column(&data)), Some(12));
    assert_eq!(avg_range((1, 1), (1, 4), column(&data)), Some(3));
    assert_eq!(stdev_range((1, 1), (1, 4), column(&data)), Some(4));
}

#[test]
fn average_rounds_half_away_from_zero() {
    assert_eq!(avg_range((1, 1), (1, 2), column(&[Some(1), Some(2)])), Some(2));
    assert_eq!(avg_range((1, 1), (1, 2), column(&[Some(-1), Some(-2)])), Some(-2));
    assert_eq!(avg_range((1, 1), (1, 3), column(&[Some(1), Some(1), Some(2)])), Some(1));
    assert_eq!(avg_range((1, 1), (1, 3), column(&[Some(1), Some(2), Some(2)])), Some(2));
    assert_eq!(avg_range((1, 1), (1, 3), column(&[Some(-1), Some(-1), Some(-2)])), Some(-1));
    assert_eq!(avg_range((1, 1), (1, 2), column(&[Some(-1), Some(2)])), Some(1));
    assert_eq!(avg_range((1, 1), (1, 2), column(&[Some(1), Some(-2)])), Some(-1));
}

#[test]
fn standard_deviation_is_of_the_population() {
    // values 2, 4, 4, 4, 5, 5, 7, 9: mean 5, variance 4, deviation 2
    let data = [Some(2), Some(4), Some(4), Some(4), Some(5), Some(5), Some(7), Some(9)];
    assert_eq!(stdev_range((1, 1), (1, 8), column(&data)), Some(2));
    // values 1, 2: deviation 0.5 rounds to 1
    assert_eq!(stdev_range((1, 1), (1, 2), column(&[Some(1), Some(2)])), Some(1));
    // values 1, 2, 3, 4: deviation about 1.118 rounds to 1
    assert_eq!(stdev_range((1, 1), (1, 4), column(&[Some(1), Some(2), Some(3), Some(4)])), Some(1));
    // values 0, 3: deviation 1.5 rounds to 2
    assert_eq!(stdev_range((1, 1), (1, 2), column(&[Some(0), Some(3)])), Some(2));
    // values 0, 0, 1: deviation about 0.471 rounds to 0
    assert_eq!(stdev_range((1, 1), (1, 3), column(&[Some(0), Some(0), Some(1)])), Some(0));
    // the widest spread there is: deviation 2147483647.5, which does not fit
    assert_eq!(stdev_range((1, 1), (1, 2), column(&[Some(i32::MIN), Some(i32::MAX)])), None);
    assert_eq!(
        stdev_range((1, 1), (1, 2), column(&[Some(i32::MIN + 2), Some(i32::MAX)])),
        Some(2147483647)
    );
}

#[test]
fn single_cell_average_and_deviation() {
    assert_eq!(avg_range((1, 1), (1, 1), column(&[Some(17)])), Some(17));
    assert_eq!(stdev_range((1, 1), (1, 1), column(&[Some(17)])), Some(0));
}

#[test]
fn one_error_makes_the_aggregate_an_error() {
    let data = [Some(4), None, Some(9)];
    assert_eq!(min_range((1, 1), (1, 3), column(&data)), None);
    assert_eq!(max_range((1, 1), (1, 3), column(&data)), None);
    assert_eq!(sum_range((1, 1), (1, 3), column(&data)), None);
    assert_eq!(avg_range((1, 1), (1, 3), column(&data)), None);
    assert_eq!(stdev_range((1, 1), (1, 3), column(&data)), None);
    assert_eq!(sum_range((1, 1), (1, 1), column(&data)), Some(4));
}

#[test]
fn empty_rectangle_yields_zero() {
    let data = [None, None];
    assert_eq!(min_range((1, 2), (1, 1), column(&data)), Some(0));
    assert_eq!(max_range((1, 2), (1, 1), column(&data)), Some(0));
    assert_eq!(sum_range((2, 1), (1, 1), column(&data)), Some(0));
    assert_eq!(avg_range((2, 1), (1, 2), column(&data)), Some(0));
    assert_eq!(stdev_range((2, 2), (1, 1), column(&data)), Some(0));
}

#[test]
fn sum_overflow_is_an_error() {
    let data = [Some(i32::MAX), Some(1)];
    assert_eq!(sum_range((1, 1), (1, 2), column(&data)), None);
    assert_eq!(avg_range((1, 1), (1, 2), column(&data)), Some(1073741824));
    let data = [Some(i32::MAX), Some(1), Some(-1)];
    assert_eq!(sum_range((1, 1), (1, 3), column(&data)), Some(i32::MAX));
}

#[test]
fn rectangle_spans_columns_and_rows() {
    let grid = |c: (u16, u16)| Some(c.0 as i32 * 10 + c.1 as i32);
    assert_eq!(sum_range((1, 1), (2, 2), grid), Some(11 + 12 + 21 + 22));
    assert_eq!(min_range((2, 3), (4, 5), grid), Some(23));
    assert_eq!(max_range((2, 3), (4, 5), grid), Some(45));
}

#[test]
fn functions_by_name() {
    let data = [Some(4), Some(-2), Some(9), Some(1)];
    assert_eq!(eval_range("MIN", (1, 1), (1, 4), column(&data)), Some(-2));
    assert_eq!(eval_range("max", (1, 1), (1, 4), column(&data)), Some(9));
    assert_eq!(eval_range("Avg", (1, 1), (1, 4), column(&data)), Some(3));
    assert_eq!(eval_range("SUM", (1, 1), (1, 4), column(&data)), Some(12));
    assert_eq!(eval_range("STDEV", (1, 1), (1, 4), column(&data)), Some(4));
    assert_eq!(eval_range("SLEEP", (1, 3), (1, 4), column(&data)), Some(9));
    assert_eq!(eval_range("MEDIAN", (1, 1), (1, 4), column(&data)), None);
}
