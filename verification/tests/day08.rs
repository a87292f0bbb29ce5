use puzzle_solvers::day08::{
    count_antinodes, count_nodes, generate_nodes, insert_nodes_in_direction,
    insert_res_nodes_in_direction, map_ants, parse, part1, part2, read_space, AntSpace, Insert,
    NodeSpace,
};

const MAP: &str = "............
........0...
.....0......
.......0....
....0.......
......A.....
............
............
........A...
.........A..
............
............";

#[test]
fn day08_test_part1() {
    let answer = part1(MAP);
    assert_eq!(answer, 14);
}

#[test]
fn day08_test_part2() {
    let answer = part2(MAP);
    assert_eq!(answer, 34);
}

fn blank(height: usize, width: usize) -> Vec<Vec<NodeSpace>> {
    (0..height).map(|_| (0..width).map(|_| NodeSpace::Empty).collect()).collect()
}

fn show(matrix: &[Vec<NodeSpace>]) -> Vec<String> {
    matrix
        .iter()
        .map(|row| {
            row.iter()
                .map(|space| match space {
                    NodeSpace::Empty => '.',
                    NodeSpace::Node => '#',
                })
                .collect()
        })
        .collect()
}

#[test]
fn one_node_is_put_one_offset_away() {
    let mut matrix = blank(3, 4);
    insert_nodes_in_direction(&mut matrix, 1, 1, 1, 2);
    assert_eq!(show(&matrix), vec!["....", "....", "...#"]);
    insert_nodes_in_direction(&mut matrix, 1, 1, -2, 0);
    insert_nodes_in_direction(&mut matrix, 1, 1, 0, 3);
    insert_nodes_in_direction(&mut matrix, 2, 3, 1, 0);
    assert_eq!(show(&matrix), vec!["....", "....", "...#"]);
    insert_nodes_in_direction(&mut matrix, 1, 1, -1, -1);
    assert_eq!(show(&matrix), vec!["#...", "....", "...#"]);
    assert_eq!(count_nodes(&matrix), 2);
}

#[test]
fn nodes_are_put_all_along_the_line() {
    let mut matrix = blank(3, 5);
    insert_res_nodes_in_direction(&mut matrix, 0, 0, 1, 2);
    assert_eq!(show(&matrix), vec!["#....", "..#..", "....#"]);
    let mut matrix = blank(3, 5);
    insert_res_nodes_in_direction(&mut matrix, 2, 4, 0, -3);
    assert_eq!(show(&matrix), vec![".....", ".....", ".#..#"]);
    let mut matrix = blank(3, 5);
    insert_res_nodes_in_direction(&mut matrix, -1, 0, 1, 0);
    assert_eq!(show(&matrix), vec![".....", ".....", "....."]);
    assert_eq!(count_nodes(&matrix), 0);
}

#[test]
fn every_two_antennas_cast_nodes() {
    let mut matrix = blank(5, 5);
    generate_nodes(&mut matrix, &[(1, 1), (2, 2)], Insert::Once);
    assert_eq!(show(&matrix), vec!["#....", ".....", ".....", "...#.", "....."]);
    let mut matrix = blank(5, 5);
    generate_nodes(&mut matrix, &[(1, 1), (2, 2)], Insert::Repeated);
    assert_eq!(show(&matrix), vec!["#....", ".#...", "..#..", "...#.", "....#"]);
    let mut matrix = blank(5, 5);
    generate_nodes(&mut matrix, &[(2, 2)], Insert::Repeated);
    generate_nodes(&mut matrix, &[], Insert::Once);
    assert_eq!(count_nodes(&matrix), 0);
    let mut matrix = blank(3, 7);
    generate_nodes(&mut matrix, &[(1, 2), (1, 3), (1, 5)], Insert::Once);
    assert_eq!(show(&matrix), vec![".......", ".#..#..", "......."]);
}

#[test]
fn antennas_are_grouped_by_frequency() {
    let (ants, nodes) = parse("a.b\n.a.\nb..\n");
    assert!(matches!(ants[0][0], AntSpace::Antena('a')));
    assert!(matches!(ants[0][1], AntSpace::Empty));
    assert!(matches!(read_space('.'), AntSpace::Empty));
    assert!(matches!(read_space('#'), AntSpace::Antena('#')));
    assert_eq!(show(&nodes), vec!["...", "...", "..."]);
    let groups = map_ants(&ants);
    assert_eq!(groups, vec![('a', vec![(0, 0), (1, 1)]), ('b', vec![(0, 2), (2, 0)])]);
    assert_eq!(count_antinodes("a.b\n.a.\nb..\n", Insert::Once), 1);
    assert_eq!(count_antinodes("a.b\n.a.\nb..\n", Insert::Repeated), 5);
    assert_eq!(part1("...\n...\n"), 0);
    assert_eq!(part2("a..\n...\n"), 0);
}
