use puzzle_solvers::day05::{
    contains, fix_order, has_rule, is_valid_order, parse_manual, part1, part2, run_logic, Before,
    Rule,
};

const MANUAL: &str = "47|53
97|13
97|61
97|47
75|29
61|13
75|53
29|13
97|29
53|29
61|53
97|53
61|29
47|13
75|47
97|75
47|61
75|61
47|29
75|13
53|13

75,47,61,53,29
97,61,53,29,13
75,29,13
75,97,47,61,53
61,13,29
97,13,75,29,47";

#[test]
fn day05_test_part1() {
    let answer = part1(MANUAL);
    assert_eq!(answer, 143);
}

fn logic(rules: &[Rule], list: &[i32]) -> bool {
    let ordered = run_logic(rules);
    is_valid_order(list, &ordered)
}

#[test]
fn test_simple() {
    let result = logic(&[Rule(97, 13)], &[97, 13]);
    assert!(result);
}

#[test]
fn test_simple_bad() {
    let result = logic(&[Rule(97, 13)], &[13, 97]);
    assert!(!result);
}

#[test]
fn test_slightly_simple() {
    let result = logic(&[Rule(97, 13), Rule(13, 61)], &[97, 13, 61]);
    assert!(result);
}

#[test]
fn test_slightly_simple_bad() {
    let result = logic(&[Rule(97, 13), Rule(13, 61)], &[97, 61, 13]);
    assert!(!result);
}

#[test]
fn day05_test_part2() {
    let answer = part2(MANUAL);
    assert_eq!(answer, 123);
}

fn sorted(mut ordered: Vec<Before>) -> Vec<(i32, i32)> {
    ordered.sort_by_key(|before| (before.0, before.1));
    ordered.iter().map(|before| (before.0, before.1)).collect()
}

#[test]
fn order_follows_through_a_page_between() {
    let ordered = run_logic(&[Rule(1, 2), Rule(2, 3), Rule(3, 4)]);
    assert_eq!(sorted(ordered), vec![(1, 2), (1, 3), (1, 4), (2, 3), (2, 4), (3, 4)]);
    assert!(run_logic(&[]).is_empty());
    assert_eq!(sorted(run_logic(&[Rule(5, 6), Rule(5, 6)])), vec![(5, 6)]);
}

#[test]
fn a_rule_the_other_way_round_stops_what_would_follow() {
    // 1 before 2 and 2 before 3 would give 1 before 3, but a rule says 3 before 1
    let ordered = run_logic(&[Rule(1, 2), Rule(2, 3), Rule(3, 1)]);
    assert_eq!(sorted(ordered), vec![(1, 2), (2, 3), (3, 1)]);
    assert!(has_rule(&[Rule(1, 2)], 1, 2));
    assert!(!has_rule(&[Rule(1, 2)], 2, 1));
    assert!(contains(&vec![Before(1, 2)], 1, 2));
    assert!(!contains(&vec![Before(1, 2)], 2, 1));
}

#[test]
fn repair_puts_pages_in_order() {
    let (rules, updates) = parse_manual(MANUAL);
    assert_eq!(rules.len(), 21);
    assert_eq!(rules[0], Rule(47, 53));
    assert_eq!(updates.len(), 6);
    let ordered = run_logic(&rules);
    assert_eq!(fix_order(&[75, 97, 47, 61, 53], &ordered), vec![97, 75, 47, 61, 53]);
    assert_eq!(fix_order(&[61, 13, 29], &ordered), vec![61, 29, 13]);
    assert_eq!(fix_order(&[97, 13, 75, 29, 47], &ordered), vec![97, 75, 47, 29, 13]);
    assert_eq!(fix_order(&[75, 29, 13], &ordered), vec![75, 29, 13]);
    assert_eq!(fix_order(&[], &ordered), Vec::<i32>::new());
    assert_eq!(fix_order(&[13], &ordered), vec![13]);
    assert!(is_valid_order(&[], &ordered));
    assert!(is_valid_order(&[13], &ordered));
}

#[test]
fn manual_without_updates_sums_to_nothing() {
    assert_eq!(part1("1|2\n\n"), 0);
    assert_eq!(part2("1|2\n\n"), 0);
    assert_eq!(part1("1|2\n\n1,2\n2,1\n"), 2);
    assert_eq!(part2("1|2\n\n1,2\n2,1\n"), 2);
}
