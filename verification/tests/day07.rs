use puzzle_solvers::day07;
use puzzle_solvers::day07::{
    apply, parse_and_sum_ops, parse_equation, part1, part2, shift, valid_ops_exist, Operation,
};

const EQUATIONS: &str = "190: 10 19
3267: 81 40 27
83: 17 5
156: 15 6
7290: 6 8 6 15
161011: 16 10 13
192: 17 8 14
21037: 9 7 18 13
292: 11 6 16 20";

#[test]
fn day07_test_part1() {
    let answer = part1(EQUATIONS);
    assert_eq!(answer, 3749);
}

#[test]
fn day07_test_part2() {
    let answer = part2(EQUATIONS);
    assert_eq!(answer, 11387);
}

#[test]
fn concat_joins_the_digits() {
    assert_eq!(day07::concat(12, 345), 12345);
    assert_eq!(day07::concat(15, 6), 156);
    assert_eq!(day07::concat(7, 0), 70);
    assert_eq!(day07::concat(0, 7), 7);
    assert_eq!(day07::concat(0, 0), 0);
    assert_eq!(day07::concat(9, 10), 910);
    assert_eq!(day07::concat(922_337_203, 6_854_775_807), i64::MAX);
}

#[test]
fn shift_is_the_power_of_ten_past_the_number() {
    assert_eq!(shift(0), Some(10));
    assert_eq!(shift(9), Some(10));
    assert_eq!(shift(10), Some(100));
    assert_eq!(shift(999), Some(1000));
    assert_eq!(shift(99_999_999_999_999_999), Some(100_000_000_000_000_000));
    assert_eq!(shift(999_999_999_999_999_999), Some(1_000_000_000_000_000_000));
    assert_eq!(shift(1_000_000_000_000_000_000), None);
    assert_eq!(shift(i64::MAX), None);
}

#[test]
fn apply_refuses_what_does_not_fit() {
    assert_eq!(apply(Operation::Add, 2, 3), Some(5));
    assert_eq!(apply(Operation::Mul, 2, 3), Some(6));
    assert_eq!(apply(Operation::Concat, 2, 3), Some(23));
    assert_eq!(apply(Operation::Add, i64::MAX, 1), None);
    assert_eq!(apply(Operation::Mul, i64::MAX, 2), None);
    assert_eq!(apply(Operation::Concat, i64::MAX, 1), None);
    assert_eq!(apply(Operation::Concat, 1, i64::MAX), None);
    assert_eq!(apply(Operation::Concat, 0, i64::MAX), Some(i64::MAX));
}

#[test]
fn operators_are_applied_from_left_to_right() {
    let plain = [Operation::Add, Operation::Mul];
    let all = [Operation::Add, Operation::Mul, Operation::Concat];
    assert!(valid_ops_exist(3267, &[81, 40, 27], &plain));
    assert!(!valid_ops_exist(83, &[17, 5], &plain));
    assert!(!valid_ops_exist(156, &[15, 6], &plain));
    assert!(valid_ops_exist(156, &[15, 6], &all));
    assert!(valid_ops_exist(7290, &[6, 8, 6, 15], &all));
    assert!(valid_ops_exist(5, &[5], &plain));
    assert!(!valid_ops_exist(5, &[6], &plain));
    assert!(!valid_ops_exist(5, &[5, 1], &[]));
    // (2 + 3) * 4, not 2 + 3 * 4
    assert!(valid_ops_exist(20, &[2, 3, 4], &plain));
    assert!(!valid_ops_exist(14, &[2, 3, 4], &[Operation::Add]));
    // the first number is kept even where it exceeds the wanted value
    assert!(valid_ops_exist(0, &[7, 0], &[Operation::Mul]));
    // a value on the way that exceeds the wanted value is dropped
    assert!(!valid_ops_exist(0, &[7, 1, 0], &[Operation::Mul]));
}

#[test]
fn equations_are_read_and_summed() {
    let line: Vec<char> = "21037: 9 7 18 13".chars().collect();
    assert_eq!(parse_equation(&line), (21037, vec![9, 7, 18, 13]));
    assert_eq!(parse_and_sum_ops("", &[Operation::Add]), 0);
    assert_eq!(parse_and_sum_ops("5: 2 3\n6: 2 3\n", &[Operation::Add]), 5);
    assert_eq!(parse_and_sum_ops("5: 2 3\n6: 2 3\n", &[Operation::Add, Operation::Mul]), 11);
}
