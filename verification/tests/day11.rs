use puzzle_solvers::day11::{blink, parse_stones, part1, part2, transform, Memoize};

#[test]
fn day11_test_part1() {
    let input = "125 17";
    let answer = part1(input);
    assert_eq!(answer, 55312);
}

#[test]
fn stones_change_by_their_digits() {
    assert_eq!(transform(0), vec![1]);
    assert_eq!(transform(1), vec![2024]);
    assert_eq!(transform(10), vec![1, 0]);
    assert_eq!(transform(99), vec![9, 9]);
    assert_eq!(transform(999), vec![2021976]);
    assert_eq!(transform(1000), vec![10, 0]);
    assert_eq!(transform(253000), vec![253, 0]);
    assert_eq!(transform(512072), vec![512, 72]);
}

#[test]
fn blinks_keep_the_order_of_the_stones() {
    let mut stones = vec![0, 1, 10, 99, 999];
    blink(&mut stones);
    assert_eq!(stones, vec![1, 2024, 1, 0, 9, 9, 2021976]);
    let mut stones = vec![125, 17];
    blink(&mut stones);
    assert_eq!(stones, vec![253000, 1, 7]);
    blink(&mut stones);
    assert_eq!(stones, vec![253, 0, 2024, 14168]);
    for _ in 0..4 {
        blink(&mut stones);
    }
    assert_eq!(stones.len(), 22);
    let mut none: Vec<usize> = vec![];
    blink(&mut none);
    assert!(none.is_empty());
}

#[test]
fn counting_agrees_with_blinking() {
    // 50 blinks behind, 25 left
    let mut memo = Memoize::new();
    let counted = memo.num_stones(50, 125) + memo.num_stones(50, 17);
    assert_eq!(counted, 55312);
    assert_eq!(memo.num_stones(75, 125), 1);
    assert_eq!(memo.num_stones(74, 17), 2);
    assert_eq!(memo.num_stones(74, 125), 1);
    assert_eq!(memo.num_stones(69, 125) + memo.num_stones(69, 17), 22);
}

#[test]
fn seventy_five_blinks_are_counted() {
    assert_eq!(part2("125 17"), 65601038650482);
    assert_eq!(part2(""), 0);
}

#[test]
fn stones_are_read_from_words() {
    assert_eq!(parse_stones(" 125\t17\n+3 "), vec![125, 17, 3]);
}
