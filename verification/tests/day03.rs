use puzzle_solvers::day03::{
    dos_and_donts, operator_from, spells, sum_of_mults, tally, try_dos_and_donts,
    try_sum_of_mults, Operator,
};

#[test]
fn day03_test_part1() {
    let input = r"xmul(2,4)%&mul[3,7]!@^do_not_mul(5,5)+mul(32,64]then(mul(11,8)mul(8,5))";
    let answer = sum_of_mults(input);
    assert_eq!(answer, 161);
}

#[test]
fn test_no_whitespace() {
    let input = "mul ( 2 , 4 )";
    let answer = sum_of_mults(input);
    assert_eq!(answer, 0);

    let input = "mul( 2 , 4 )";
    let answer = sum_of_mults(input);
    assert_eq!(answer, 0);

    let input = "mul(2, 4)";
    let answer = sum_of_mults(input);
    assert_eq!(answer, 0);
}

#[test]
fn day03_test_part2() {
    let input = r"xmul(2,4)&mul[3,7]!^don't()_mul(5,5)+mul(32,64](mul(11,8)undo()?mul(8,5))";
    let result = dos_and_donts(input);
    assert_eq!(result, 48);
}

#[test]
fn numbers_of_more_than_three_digits_are_no_multiplication() {
    assert_eq!(sum_of_mults("mul(1234,2)mul(123,2)"), 246);
    assert_eq!(try_sum_of_mults("mul(999,999)"), Some(998001));
    assert_eq!(try_sum_of_mults(""), Some(0));
}

#[test]
fn sums_beyond_32_bits_are_refused() {
    let input = "mul(999,999)".repeat(2151);
    assert_eq!(try_sum_of_mults(&input), Some(2151 * 998001));
    let input = "mul(999,999)".repeat(2152);
    assert_eq!(try_sum_of_mults(&input), None);
    let input = format!("don't(){}", input);
    assert_eq!(try_dos_and_donts(&input), Some(0));
}

#[test]
fn digits_of_other_scripts_are_refused() {
    // the pattern's digit class takes them, the numbers cannot be read
    assert_eq!(try_sum_of_mults("mul(\u{0663},4)"), None);
}

#[test]
fn switches_turn_multiplications_off_and_on() {
    assert_eq!(dos_and_donts("mul(2,3)don't()mul(5,5)do()mul(1,7)"), 13);
    let ops = vec![
        Operator::Mult(2, 3),
        Operator::Dont,
        Operator::Mult(40000, 60000),
        Operator::Do,
        Operator::Mult(-1, 7),
    ];
    assert_eq!(tally(&ops), Some(-1));
    assert_eq!(tally(&vec![Operator::Mult(40000, 60000)]), None);
    assert_eq!(tally(&vec![Operator::Mult(40000, 50000), Operator::Mult(40000, 50000)]), None);
}

fn group(text: &str) -> Option<Vec<char>> {
    Some(text.chars().collect())
}

#[test]
fn matches_are_read_by_their_whole_text_first() {
    assert!(matches!(
        operator_from(&vec![group("mul(2,4)"), group("2"), group("4")]),
        Some(Operator::Mult(2, 4))
    ));
    assert!(matches!(operator_from(&vec![group("do()"), group(""), group("")]), Some(Operator::Do)));
    assert!(matches!(
        operator_from(&vec![group("don't()"), group(""), group("")]),
        Some(Operator::Dont)
    ));
    assert!(operator_from(&vec![group("mul(2,x)"), group("2"), group("x")]).is_none());
    assert!(operator_from(&vec![group("mul(2,4)"), group("2"), None]).is_none());
    assert!(matches!(
        operator_from(&vec![group("do()"), None, None, group(""), group(""), None, None]),
        Some(Operator::Do)
    ));
    assert!(matches!(
        operator_from(&vec![group("mul(3,5)"), group("3"), group("5"), None, None, None, None]),
        Some(Operator::Mult(3, 5))
    ));
    assert!(operator_from(&vec![group("mul(2,4)"), group("2")]).is_none());
    assert!(spells(&"do()".chars().collect(), "do()"));
    assert!(!spells(&"do()".chars().collect(), "don't()"));
}
