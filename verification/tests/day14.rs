use puzzle_solvers::text::read_i32;
use puzzle_solvers::day14::{
    census, counts_fit, guard_from, quadrants, tick, parse_guards, part1, quad_score, safety_checked,
    safety_factor, tally_quadrants, try_part1, walk_all, Guard, ParseGuardError, QuadCount,
    Quadrant, XY,
};

const GUARDS: &str = "p=0,4 v=3,-3
p=6,3 v=-1,-3
p=10,3 v=-1,2
p=2,0 v=2,-1
p=0,0 v=1,3
p=3,0 v=-2,-2
p=7,6 v=-1,-3
p=3,0 v=-1,-2
p=9,3 v=2,3
p=7,3 v=-1,2
p=2,4 v=2,-3
p=9,5 v=-3,-3";

#[test]
fn day14_test_part1() {
    let answer = part1(GUARDS, 11, 7, 100);
    assert_eq!(answer, 12);
}

#[test]
fn main_test_part1_small1() {
    let input = "p=2,4 v=2,-3";
    let mut guard = Guard::try_from(input).unwrap();
    guard.patrol(5);
    guard.teleport(&XY { x: 11, y: 7 });
    assert_eq!(guard.position, XY { x: 1, y: 3 });
}

#[test]
fn guard_is_found_anywhere_in_its_line() {
    let guard = Guard::try_from("guard p=12,3 v=-4,56 here").unwrap();
    assert_eq!(guard.position, XY { x: 12, y: 3 });
    assert_eq!(guard.velocity, XY { x: -4, y: 56 });
}

#[test]
fn guard_errors_tell_form_from_size() {
    assert!(matches!(Guard::try_from("p=1,2"), Err(ParseGuardError::Unmatched)));
    assert!(matches!(Guard::try_from(""), Err(ParseGuardError::Unmatched)));
    assert!(matches!(
        Guard::try_from("p=1,2 v=3,99999999999"),
        Err(ParseGuardError::Number)
    ));
    assert!(matches!(guard_from(None), Err(ParseGuardError::Unmatched)));
    assert_eq!(read_i32(&"-2147483648".chars().collect()), Some(i32::MIN));
    assert_eq!(read_i32(&"2147483648".chars().collect()), None);
    assert_eq!(read_i32(&"".chars().collect()), None);
}

#[test]
fn teleport_wraps_negative_positions() {
    let mut guard = Guard { position: XY { x: -1, y: -14 }, velocity: XY { x: 0, y: 0 } };
    guard.teleport(&XY { x: 11, y: 7 });
    assert_eq!(guard.position, XY { x: 10, y: 0 });
    let mut guard = Guard { position: XY { x: 22, y: 6 }, velocity: XY { x: 0, y: 0 } };
    guard.teleport(&XY { x: 11, y: 7 });
    assert_eq!(guard.position, XY { x: 0, y: 6 });
}

fn standing(x: i32, y: i32) -> Guard {
    Guard { position: XY { x, y }, velocity: XY { x: 0, y: 0 } }
}

#[test]
fn middle_row_and_column_are_no_quadrant() {
    let size = XY { x: 11, y: 7 };
    assert!(matches!(standing(0, 0).quad(&size), Some(Quadrant::TL)));
    assert!(matches!(standing(4, 2).quad(&size), Some(Quadrant::TL)));
    assert!(matches!(standing(6, 2).quad(&size), Some(Quadrant::TR)));
    assert!(matches!(standing(4, 4).quad(&size), Some(Quadrant::BL)));
    assert!(matches!(standing(10, 6).quad(&size), Some(Quadrant::BR)));
    assert!(standing(5, 0).quad(&size).is_none());
    assert!(standing(0, 3).quad(&size).is_none());
    assert!(standing(5, 3).quad(&size).is_none());
    let even = XY { x: 10, y: 6 };
    assert!(matches!(standing(4, 2).quad(&even), Some(Quadrant::TL)));
    assert!(matches!(standing(5, 3).quad(&even), Some(Quadrant::BR)));
}

#[test]
fn score_is_the_product_of_the_four_counts() {
    let quads = vec![
        Quadrant::TL,
        Quadrant::TR,
        Quadrant::TR,
        Quadrant::BL,
        Quadrant::BL,
        Quadrant::BL,
        Quadrant::BR,
    ];
    let count = tally_quadrants(&quads);
    assert_eq!((count.tl, count.tr, count.bl, count.br), (1, 2, 3, 1));
    assert!(counts_fit(&count));
    assert_eq!(quad_score(quads), 6);
    assert_eq!(quad_score(vec![Quadrant::TL, Quadrant::TR, Quadrant::BL]), 0);
    let empty = QuadCount::new();
    assert_eq!((empty.tl, empty.tr, empty.bl, empty.br), (0, 0, 0, 0));
    assert!(!counts_fit(&QuadCount { tl: 50000, tr: 50000, bl: 0, br: 1 }));
}

#[test]
fn checked_safety_refuses_what_cannot_be_computed() {
    let size = XY { x: 11, y: 7 };
    let far = || Guard { position: XY { x: 0, y: 0 }, velocity: XY { x: i32::MAX, y: 0 } };
    assert!(far().fits_patrol(1));
    assert!(!far().fits_patrol(2));
    assert_eq!(safety_checked(vec![far()], &size, 2), None);
    assert_eq!(safety_checked(vec![far()], &size, 1), Some(0));
    assert_eq!(safety_checked(vec![standing(0, 0)], &XY { x: 0, y: 7 }, 1), None);
    assert_eq!(try_part1(GUARDS, 11, 7, 100), Some(12));
    assert_eq!(try_part1(GUARDS, 11, 0, 100), None);
    assert_eq!(try_part1("p=1,2 v=3,4\nnothing", 11, 7, 100), None);
    assert!(parse_guards("p=1,2 v=3,4\nnothing").is_none());
    assert_eq!(parse_guards(GUARDS).unwrap().len(), 12);
    let guards = parse_guards(GUARDS).unwrap();
    assert_eq!(walk_all(guards, &size, 100).len(), 9);
    assert_eq!(safety_factor(parse_guards(GUARDS).unwrap(), &size, 100), 12);
}

#[test]
fn a_tick_moves_every_guard_one_second() {
    let size = XY { x: 11, y: 7 };
    let mut guards = vec![Guard::try_from("p=2,4 v=2,-3").unwrap(), standing(10, 6)];
    for _ in 0..5 {
        tick(&mut guards, &size);
    }
    assert_eq!(guards[0].position, XY { x: 1, y: 3 });
    assert_eq!(guards[0].velocity, XY { x: 2, y: -3 });
    assert_eq!(guards[1].position, XY { x: 10, y: 6 });
    let quads = quadrants(&guards, &size);
    assert_eq!(quads.len(), 1);
    assert!(matches!(quads[0], Quadrant::BR));
}

#[test]
fn census_counts_guards_place_by_place() {
    let size = XY { x: 3, y: 2 };
    let guards = vec![standing(2, 0), standing(0, 1), standing(2, 0)];
    assert_eq!(census(&guards, &size), vec![vec![0, 0, 2], vec![1, 0, 0]]);
    assert_eq!(census(&vec![], &size), vec![vec![0, 0, 0], vec![0, 0, 0]]);
    assert!(census(&vec![], &XY { x: 3, y: 0 }).is_empty());
}
