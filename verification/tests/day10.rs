use puzzle_solvers::day10::{build_graph, count_scores, parse_to_matrix, part1, part2};

const MAP: &str = "89010123
78121874
87430965
96549874
45678903
32019012
01329801
10456732";

#[test]
fn day10_test_part1() {
    let answer = part1(MAP);
    assert_eq!(answer, 36);
}

#[test]
fn day10_test_part2() {
    let answer = part2(MAP);
    assert_eq!(answer, 81);
}

#[test]
fn heights_are_read_digit_by_digit() {
    assert_eq!(parse_to_matrix("012\n987\n"), vec![vec![0, 1, 2], vec![9, 8, 7]]);
    assert!(parse_to_matrix("").is_empty());
}

#[test]
fn graph_has_an_edge_for_each_step_one_higher() {
    let (graph, heads, ends) = build_graph(vec![vec![0, 1, 2], vec![9, 0, 3], vec![9, 5, 4]]);
    assert_eq!(graph.node_count(), 9);
    assert_eq!(heads, vec![0, 4]);
    assert_eq!(ends, vec![3, 6]);
    let mut edges: Vec<(usize, usize)> = graph
        .raw_edges()
        .iter()
        .map(|edge| (edge.source().index(), edge.target().index()))
        .collect();
    edges.sort();
    assert_eq!(edges, vec![(0, 1), (1, 2), (2, 5), (4, 1), (5, 8), (8, 7)]);
    for (number, weight) in graph.node_weights().enumerate() {
        assert_eq!(*weight, number);
    }
}

#[test]
fn scores_are_added_over_heads_and_ends() {
    let (graph, heads, ends) = build_graph(vec![vec![0, 1], vec![9, 0]]);
    assert_eq!(heads, vec![0, 3]);
    assert_eq!(ends, vec![2]);
    assert_eq!(count_scores(&heads, &ends, &graph, |_, head, end| head * 10 + end), 2 + 32);
    assert_eq!(count_scores(&heads, &[], &graph, |_, _, _| 1), 0);
    assert_eq!(count_scores(&[], &ends, &graph, |_, _, _| 1), 0);
}

#[test]
fn trails_that_part_and_meet_count_once_for_the_score() {
    let map = "0123\n1234\n8765\n9876\n";
    assert_eq!(part1(map), 1);
    assert_eq!(part2(map), 16);
    assert_eq!(part1("0123456789"), 1);
    assert_eq!(part2("0123456789"), 1);
    assert_eq!(part1("012345678"), 0);
    assert_eq!(part1("9876543210123456789"), 2);
    assert_eq!(part2("09"), 0);
}
