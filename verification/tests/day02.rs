use puzzle_solvers::day02::{
    damp_safe_reports, is_damp_safe, is_safe, parse_report, safe_reports, safe_reports_with,
};

const REPORTS: &str = "7 6 4 2 1
1 2 7 8 9
9 7 6 2 1
1 3 2 4 5
8 6 4 4 1
1 3 6 7 9";

#[test]
fn test_part1() {
    let result = safe_reports(REPORTS);
    assert_eq!(result, 2);
}

#[test]
fn test_is_safe1() {
    let input = [7, 6, 4, 2, 1];
    let result = is_safe(&input);
    assert!(result);
}

#[test]
fn test_is_safe2() {
    let input = [1, 2, 7, 8, 9];
    let result = is_safe(&input);
    assert!(!result);
}

#[test]
fn test_is_safe3() {
    let input = [9, 7, 6, 2, 1];
    let result = is_safe(&input);
    assert!(!result);
}

#[test]
fn test_is_safe4() {
    let input = [1, 3, 2, 4, 5];
    let result = is_safe(&input);
    assert!(!result);
}

#[test]
fn test_is_safe5() {
    let input = [8, 6, 4, 4, 1];
    let result = is_safe(&input);
    assert!(!result);
}

#[test]
fn test_is_safe6() {
    let input = [1, 3, 6, 7, 9];
    let result = is_safe(&input);
    assert!(result);
}

#[test]
fn test_part2() {
    let result = damp_safe_reports(REPORTS);
    assert_eq!(result, 4);
}

#[test]
fn test_is_damp_safe1() {
    let input = [7, 6, 4, 2, 1];
    let result = is_damp_safe(&input);
    assert!(result);
}

#[test]
fn test_is_damp_safe2() {
    let input = [1, 2, 7, 8, 9];
    let result = is_damp_safe(&input);
    assert!(!result);
}

#[test]
fn test_is_damp_safe3() {
    let input = [9, 7, 6, 2, 1];
    let result = is_damp_safe(&input);
    assert!(!result);
}

#[test]
fn test_is_damp_safe4() {
    let input = [1, 3, 2, 4, 5];
    let result = is_damp_safe(&input);
    assert!(result);
}

#[test]
fn test_is_damp_safe5() {
    let input = [8, 6, 4, 4, 1];
    let result = is_damp_safe(&input);
    assert!(result);
}

#[test]
fn test_is_damp_safe6() {
    let input = [1, 3, 6, 7, 9];
    let result = is_damp_safe(&input);
    assert!(result);
}

#[test]
fn main_test_part1() {
    let input = "7 6 4 2 1
1 2 7 8 9
9 7 6 2 1
1 3 2 4 5
8 6 4 4 1
1 3 6 7 9";
    let result = safe_reports(input);
    assert_eq!(result, 2);
}

#[test]
fn main_test_is_safe1() {
    let input = [7, 6, 4, 2, 1];
    let result = is_safe(&input);
    assert!(result);
}

#[test]
fn main_test_is_safe2() {
    let input = [1, 2, 7, 8, 9];
    let result = is_safe(&input);
    assert!(!result);
}

#[test]
fn main_test_is_safe3() {
    let input = [9, 7, 6, 2, 1];
    let result = is_safe(&input);
    assert!(!result);
}

#[test]
fn main_test_is_safe4() {
    let input = [1, 3, 2, 4, 5];
    let result = is_safe(&input);
    assert!(!result);
}

#[test]
fn main_test_is_safe5() {
    let input = [8, 6, 4, 4, 1];
    let result = is_safe(&input);
    assert!(!result);
}

#[test]
fn main_test_is_safe6() {
    let input = [1, 3, 6, 7, 9];
    let result = is_safe(&input);
    assert!(result);
}

#[test]
fn short_reports_are_safe() {
    assert!(is_safe(&[]));
    assert!(is_safe(&[5]));
    assert!(is_safe(&[5, 8]));
    assert!(!is_safe(&[5, 5]));
    assert!(!is_safe(&[5, 9]));
    assert!(is_damp_safe(&[5, 9]));
}

#[test]
fn far_apart_levels_are_unsafe_without_overflow() {
    assert!(!is_safe(&[i32::MIN, i32::MAX]));
    assert!(!is_safe(&[i32::MAX, i32::MIN, i32::MAX]));
}

#[test]
fn report_words_are_read_as_levels() {
    let line: Vec<char> = "  12 -3\t+7 ".chars().collect();
    assert_eq!(parse_report(&line), vec![12, -3, 7]);
}

#[test]
fn reports_are_counted_by_the_given_judge() {
    assert_eq!(safe_reports_with(REPORTS, |levels| levels.len() == 5), 6);
    assert_eq!(safe_reports_with(REPORTS, |levels| levels[0] == 1), 3);
    assert_eq!(safe_reports_with("", |_| true), 0);
}
