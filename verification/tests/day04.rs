use puzzle_solvers::day04::{
    back_slash, count_from, forward_slash, num_mas_cross, num_xmas, search, Matrix, Walk,
};

const PUZZLE: &str = "MMMSXXMASM
MSAMXMSMSA
AMXSXMAAMM
MSAMASMSMX
XMASAMXAMM
XXAMMXXAMA
SMSMSASXSS
SAXAMASAAA
MAMMMXMMMM
MXMXAXMASX";

#[test]
fn day04_test_part1() {
    let answer = num_xmas(PUZZLE);
    assert_eq!(answer, 18);
}

#[test]
fn day04_test_part2() {
    let answer = num_mas_cross(PUZZLE);
    assert_eq!(answer, 9);
}

#[test]
fn test_simple1_part2() {
    let input = "MOM
OAO
SOS";
    let answer = num_mas_cross(input);
    assert_eq!(answer, 1);
}

#[test]
fn test_simple2_part2() {
    let input = "SOM
OAO
SOM";
    let answer = num_mas_cross(input);
    assert_eq!(answer, 1);
}

#[test]
fn test_simple3_part2() {
    let input = "MOS
OAO
MOS";
    let answer = num_mas_cross(input);
    assert_eq!(answer, 1);
}

#[test]
fn test_simple4_part2() {
    let input = "SOS
OAO
MOM";
    let answer = num_mas_cross(input);
    assert_eq!(answer, 1);
}

fn letters(rows: &[&str]) -> Matrix {
    Matrix::new(rows.iter().map(|row| row.bytes().collect()).collect())
}

fn collect(mut walk: impl Walk) -> Vec<u8> {
    let mut seen = Vec::new();
    while let Some(letter) = walk.next() {
        seen.push(letter);
    }
    seen
}

#[test]
fn matrix_records_its_sizes() {
    let matrix = letters(&["abc", "def"]);
    assert_eq!(matrix.y_len, 2);
    assert_eq!(matrix.x_len, 3);
}

#[test]
fn walks_meet_the_letters_of_their_direction() {
    let matrix = letters(&["abc", "def", "ghi"]);
    assert_eq!(collect(matrix.right_iter(1, 0)), b"def");
    assert_eq!(collect(matrix.left_iter(1, 2)), b"fed");
    assert_eq!(collect(matrix.up_iter(2, 1)), b"heb");
    assert_eq!(collect(matrix.down_iter(0, 1)), b"beh");
    assert_eq!(collect(matrix.up_right_iter(2, 0)), b"gec");
    assert_eq!(collect(matrix.up_left_iter(2, 2)), b"iea");
    assert_eq!(collect(matrix.down_right_iter(0, 0)), b"aei");
    assert_eq!(collect(matrix.down_left_iter(0, 2)), b"ceg");
    assert_eq!(collect(matrix.down_left_iter(1, 0)), b"d");
    assert_eq!(collect(matrix.up_right_iter(0, 1)), b"b");
}

#[test]
fn walk_states_follow_the_steps() {
    let matrix = letters(&["abc", "def", "ghi"]);
    let mut walk = matrix.up_left_iter(1, 1);
    assert!(walk.safe());
    assert_eq!(walk.get_state(), Some((1, 1)));
    assert_eq!(walk.next(), Some(b'e'));
    assert_eq!(walk.get_state(), Some((0, 0)));
    assert_eq!(walk.next(), Some(b'a'));
    assert!(!walk.safe());
    assert_eq!(walk.get_state(), None);
    assert_eq!(walk.next(), None);

    let mut walk = matrix.down_right_iter(2, 1);
    assert_eq!(walk.next(), Some(b'h'));
    assert_eq!(walk.get_state(), None);
    assert_eq!(walk.next(), None);

    let mut walk = matrix.right_iter(0, 2);
    assert_eq!(walk.get_state(), Some((0, 2)));
    assert_eq!(walk.next(), Some(b'c'));
    assert!(!walk.safe());

    let mut walk = matrix.left_iter(0, 0);
    assert_eq!(walk.next(), Some(b'a'));
    assert_eq!(walk.get_state(), None);

    let mut walk = matrix.up_iter(0, 2);
    assert_eq!(walk.next(), Some(b'c'));
    assert!(!walk.safe());

    let mut walk = matrix.down_iter(2, 2);
    assert_eq!(walk.next(), Some(b'i'));
    assert_eq!(walk.get_state(), None);

    let mut walk = matrix.up_right_iter(1, 1);
    assert_eq!(walk.next(), Some(b'e'));
    assert_eq!(walk.get_state(), Some((0, 2)));

    let mut walk = matrix.down_left_iter(1, 1);
    assert_eq!(walk.next(), Some(b'e'));
    assert_eq!(walk.get_state(), Some((2, 0)));
    assert_eq!(walk.next(), Some(b'g'));
    assert_eq!(walk.get_state(), None);
}

#[test]
fn search_wants_the_whole_needle() {
    let matrix = letters(&["XMAS", "XMAX"]);
    assert!(search(matrix.right_iter(0, 0), b"XMAS"));
    assert!(search(matrix.right_iter(0, 0), b"XM"));
    assert!(search(matrix.right_iter(0, 0), b""));
    assert!(!search(matrix.right_iter(1, 0), b"XMAS"));
    assert!(!search(matrix.right_iter(0, 1), b"MASX"));
    assert!(search(matrix.left_iter(0, 3), b"SAMX"));
}

#[test]
fn count_from_looks_in_eight_directions() {
    let matrix = letters(&["SOSOS", "OAAAO", "SAXAS", "OAAAO", "SOSOS"]);
    assert_eq!(count_from(&matrix, 2, 2, b"XAS"), 8);
    assert_eq!(count_from(&matrix, 2, 2, b"XA"), 8);
    assert_eq!(count_from(&matrix, 0, 0, b"XAS"), 0);
    assert_eq!(num_xmas("XMAS\nOOOO\nSAMX"), 2);
}

#[test]
fn slashes_look_along_one_diagonal_each() {
    let matrix = letters(&["MOO", "OAO", "OOS"]);
    assert!(back_slash(&matrix, 1, 1, b"MAS"));
    assert!(!forward_slash(&matrix, 1, 1, b"MAS"));
    let matrix = letters(&["OOS", "OAO", "MOO"]);
    assert!(!back_slash(&matrix, 1, 1, b"MAS"));
    assert!(forward_slash(&matrix, 1, 1, b"MAS"));
    assert_eq!(num_mas_cross("MOO\nOAO\nOOS"), 0);
    assert_eq!(num_mas_cross("A"), 0);
}
