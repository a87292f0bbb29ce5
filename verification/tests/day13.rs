use puzzle_solvers::day13::{pair_from, parse_games, parse_pair, sum_tokens, Game};
use puzzle_solvers::text::read_usize;

const MACHINES: &str = "Button A: X+94, Y+34
Button B: X+22, Y+67
Prize: X=8400, Y=5400

Button A: X+26, Y+66
Button B: X+67, Y+21
Prize: X=12748, Y=12176

Button A: X+17, Y+86
Button B: X+84, Y+37
Prize: X=7870, Y=6450

Button A: X+69, Y+23
Button B: X+27, Y+71
Prize: X=18641, Y=10279";

fn chars(text: &str) -> Vec<char> {
    text.chars().collect()
}

#[test]
fn machines_are_read_three_lines_at_a_time() {
    let games = parse_games(MACHINES).unwrap();
    assert_eq!(games.len(), 4);
    assert_eq!(games[0], Game { a: (94, 34), b: (22, 67), prize: (8400, 5400) });
    assert_eq!(games[3], Game { a: (69, 23), b: (27, 71), prize: (18641, 10279) });
    let with_note = "Button A: X+1, Y+2\nButton B: X+3, Y+4\nPrize: X=5, Y=6\nnote\n";
    assert_eq!(
        parse_games(with_note).unwrap(),
        vec![Game { a: (1, 2), b: (3, 4), prize: (5, 6) }]
    );
}

#[test]
fn incomplete_machines_are_refused() {
    assert!(parse_games("").is_none());
    assert!(parse_games("Button A: X+1, Y+2\nButton B: X+3, Y+4\n").is_none());
    assert!(parse_games("Button A: X+1, Y+2\nButton B: X+3, Y+4\nPrize: X=5\n").is_none());
    assert!(parse_games(&format!("{}\n\n", MACHINES)).is_none());
    assert!(parse_games(&format!("{}\n\n\n{}", MACHINES, MACHINES)).is_none());
    assert_eq!(parse_games(&format!("{}\n\n{}", MACHINES, MACHINES)).unwrap().len(), 8);
}

#[test]
fn pairs_are_found_after_any_sign() {
    assert_eq!(parse_pair(&chars("Prize: X=8400, Y=5400")), Some((8400, 5400)));
    assert_eq!(parse_pair(&chars("Button A: X+94, Y+34")), Some((94, 34)));
    assert_eq!(parse_pair(&chars("Button A: X-94, Y-34")), Some((94, 34)));
    assert_eq!(parse_pair(&chars("Button A: X94, Y34")), None);
    assert_eq!(parse_pair(&chars(": X=1, Y=99999999999999999999999")), None);
    assert_eq!(pair_from(None), None);
    assert_eq!(pair_from(Some(vec![Some(chars(": X=1, Y=2")), Some(chars("1"))])), None);
    assert_eq!(read_usize(&chars("18446744073709551615")), Some(usize::MAX));
    assert_eq!(read_usize(&chars("18446744073709551616")), None);
    assert_eq!(read_usize(&chars("-0")), None);
    assert_eq!(read_usize(&chars("+7")), Some(7));
}

#[test]
fn prizes_move_out_by_the_offset() {
    let game = Game { a: (94, 34), b: (22, 67), prize: (8400, 5400) };
    let far = game.far(10000000000000);
    assert_eq!(far.prize, (10000000008400, 10000000005400));
    assert_eq!(far.a, (94, 34));
    assert_eq!(far.b, (22, 67));
}

#[test]
fn tokens_are_added_over_the_prizes_that_can_be_won() {
    assert_eq!(sum_tokens(&vec![Some(280), None, Some(200), None]), 480);
    assert_eq!(sum_tokens(&vec![]), 0);
    assert_eq!(sum_tokens(&vec![None]), 0);
}
