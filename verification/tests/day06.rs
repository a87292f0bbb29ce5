use puzzle_solvers::day06::{
    obstructed, parse, part1, part2, walk, Direction, Guard, Seen, Space, Status,
};

const ROOM: &str = "....#.....
.........#
..........
..#.......
.......#..
..........
.#..^.....
........#.
#.........
......#...";

#[test]
fn day06_test_part1() {
    let answer = part1(ROOM);
    assert_eq!(answer, 41);
}

#[test]
fn day06_test_part2() {
    let answer = part2(ROOM);
    assert_eq!(answer, 6);
}

#[test]
fn map_is_read_with_the_guard_on_the_caret() {
    let (matrix, guard) = parse("#.\n.^\n");
    assert_eq!(guard.location, (1, 1));
    assert_eq!(guard.direction, Direction::Up);
    assert!(matches!(matrix[0][0], Space::Obstruction));
    assert!(matches!(matrix[0][1], Space::Empty));
    assert!(matches!(matrix[1][0], Space::Empty));
    assert!(matches!(
        matrix[1][1],
        Space::Visited(Seen { up: true, right: false, down: false, left: false })
    ));
    let (_, guard) = parse("..\n#.\n");
    assert_eq!(guard.location, (0, 0));
    let (_, guard) = parse(".^\n^.\n");
    assert_eq!(guard.location, (0, 1));
}

#[test]
fn a_step_turns_right_at_obstructions() {
    let (mut matrix, mut guard) = parse(".#.\n.^.\n...\n");
    assert_eq!(guard.action(&mut matrix), Status::Continue);
    assert_eq!(guard.location, (1, 2));
    assert_eq!(guard.direction, Direction::Right);
    assert!(matches!(
        matrix[1][2],
        Space::Visited(Seen { up: false, right: true, down: false, left: false })
    ));
    assert_eq!(guard.action(&mut matrix), Status::Exited);
    assert_eq!(guard.location, (1, 2));
    assert_eq!(guard.direction, Direction::Right);
}

#[test]
fn a_step_turns_more_than_once_where_it_must() {
    let (mut matrix, mut guard) = parse(".#.\n.^#\n...\n");
    assert_eq!(guard.action(&mut matrix), Status::Continue);
    assert_eq!(guard.location, (2, 1));
    assert_eq!(guard.direction, Direction::Down);
    let (mut matrix, mut guard) = parse(".#.\n.^#\n.#.\n");
    assert_eq!(guard.action(&mut matrix), Status::Continue);
    assert_eq!(guard.location, (1, 0));
    assert_eq!(guard.direction, Direction::Left);
}

#[test]
fn a_place_entered_twice_the_same_way_ends_the_walk() {
    let (mut matrix, mut guard) = parse(".#..\n...#\n#^..\n..#.\n");
    assert_eq!(walk(&mut guard, &mut matrix), Status::Looped);
    let (mut matrix, mut guard) = parse(".#..\n...#\n.^..\n..#.\n");
    assert_eq!(walk(&mut guard, &mut matrix), Status::Exited);
    assert_eq!(part1(".#..\n...#\n.^..\n..#.\n"), 5);
    assert_eq!(part2(".#..\n...#\n.^..\n..#.\n"), 1);
}

#[test]
fn recorded_directions_are_kept_apart() {
    let mut seen = Seen::from(Direction::Left);
    assert!(seen.contains(Direction::Left));
    assert!(!seen.contains(Direction::Up));
    seen.insert(Direction::Down);
    assert!(seen.contains(Direction::Down) && seen.contains(Direction::Left));
    assert!(!seen.contains(Direction::Right));
}

#[test]
fn obstructed_copy_leaves_the_room_as_it_was() {
    let (matrix, _) = parse("..\n.^\n");
    let copy = obstructed(&matrix, 0, 1);
    assert!(matches!(copy[0][1], Space::Obstruction));
    assert!(matches!(copy[0][0], Space::Empty));
    assert!(matches!(copy[1][1], Space::Visited(_)));
    assert!(matches!(matrix[0][1], Space::Empty));
    let guard = Guard { location: (1, 1), direction: Direction::Up };
    assert_eq!(guard.location, (1, 1));
}
