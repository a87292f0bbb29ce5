use puzzle_solvers::day12::{
    area_and_level_sides, area_and_perimeter, fence_prices, find_first_unvisited,
    find_max_region, gen_garden, part1, part2, upright_sides, Crop, GardenError,
};

const LARGE: &str = "RRRRIICCFF
RRRRIICCCF
VVRRRCCFFF
VVRCCCJFFF
VVVVCJJCFE
VVIVCCJJEE
VVIIICJJEE
MIIIIIJJEE
MIIISIJEEE
MMMISSJEEE
";

#[test]
fn day12_test_part1() {
    let answer = part1(LARGE);
    assert_eq!(answer, 1930);
}

#[test]
fn test_part1_small1() {
    let input = "AAAA
BBCD
BBCC
EEEC
";
    let answer = part1(input);
    assert_eq!(answer, 140);
}

#[test]
fn test_part1_small2() {
    let input = "OOOOO
OXOXO
OOOOO
OXOXO
OOOOO
";
    let answer = part1(input);
    assert_eq!(answer, 772);
}

#[test]
fn test_part2_small1() {
    let input = "AAAA
BBCD
BBCC
EEEC
";
    let answer = part2(input);
    assert_eq!(answer, 80);
}

#[test]
fn test_part2_small2() {
    let input = "EEEEE
EXXXX
EEEEE
EXXXX
EEEEE
";
    let answer = part2(input);
    assert_eq!(answer, 236);
}

#[test]
fn test_part2_small3() {
    let input = "AAAAAA
AAABBA
AAABBA
ABBAAA
ABBAAA
AAAAAA
";
    let answer = part2(input);
    assert_eq!(answer, 368);
}

#[test]
fn main_test_part2() {
    let answer = part2(LARGE);
    assert_eq!(answer, 1206);
}

#[test]
fn garden_single_plot_is_fenced_all_round() {
    let garden = gen_garden("A");
    assert_eq!(garden.len(), 1);
    assert_eq!(garden[0].len(), 1);
    let plot = &garden[0][0];
    assert_eq!(plot.crop, 'A');
    assert!(plot.top_wall && plot.right_wall && plot.down_wall && plot.left_wall);
    assert_eq!(plot.region, 0);
    assert_eq!(part1("A"), 4);
    assert_eq!(part2("A"), 4);
}

#[test]
fn garden_of_one_region_is_fenced_at_the_edge_only() {
    let garden = gen_garden("AAA\nAAA\nAAA\n");
    for (y, row) in garden.iter().enumerate() {
        for (x, plot) in row.iter().enumerate() {
            assert_eq!(plot.region, 0);
            assert_eq!(plot.top_wall, y == 0);
            assert_eq!(plot.down_wall, y == 2);
            assert_eq!(plot.left_wall, x == 0);
            assert_eq!(plot.right_wall, x == 2);
        }
    }
    assert_eq!(part1("AAA\nAAA\nAAA\n"), 9 * 12);
    assert_eq!(part2("AAA\nAAA\nAAA\n"), 9 * 4);
}

#[test]
fn garden_regions_are_numbered_in_reading_order() {
    let garden = gen_garden("AAAA\nBBCD\nBBCC\nEEEC\n");
    let regions: Vec<Vec<usize>> = garden
        .iter()
        .map(|row| row.iter().map(|plot| plot.region).collect())
        .collect();
    assert_eq!(
        regions,
        vec![vec![0, 0, 0, 0], vec![1, 1, 2, 3], vec![1, 1, 2, 2], vec![4, 4, 4, 2]]
    );
    assert_eq!(find_max_region(&garden), 4);
}

#[test]
fn garden_keeps_apart_equal_plants_that_do_not_touch() {
    let garden = gen_garden("ABA\n");
    assert_eq!(garden[0][0].region, 0);
    assert_eq!(garden[0][1].region, 1);
    assert_eq!(garden[0][2].region, 2);
    assert_eq!(part1("ABA\n"), 12);
}

#[test]
fn garden_areas_add_up_to_the_number_of_plots() {
    let garden = gen_garden(LARGE);
    let max = find_max_region(&garden);
    let mut total = 0;
    for k in 0..=max {
        total += garden.iter().flatten().filter(|plot| plot.region == k).count();
    }
    assert_eq!(total, 100);
    assert_eq!(max, 10);
}

#[test]
fn garden_segmentation_repeats() {
    let first = gen_garden(LARGE);
    let second = gen_garden(LARGE);
    for (a, b) in first.iter().flatten().zip(second.iter().flatten()) {
        assert_eq!(a.crop, b.crop);
        assert_eq!(a.region, b.region);
        assert_eq!(
            (a.top_wall, a.right_wall, a.down_wall, a.left_wall),
            (b.top_wall, b.right_wall, b.down_wall, b.left_wall)
        );
    }
}

#[test]
fn cross_shaped_region_has_as_many_sides_as_unit_fences() {
    let input = "XAX\nAAA\nXAX\n";
    // the cross: area 5, perimeter 12, sides 12; the four corners: 4 and 4 each
    assert_eq!(part1(input), 5 * 12 + 4 * 4);
    assert_eq!(part2(input), 5 * 12 + 4 * 4);
}

#[test]
fn first_unvisited_scans_from_the_hinted_row() {
    let garden = vec![
        vec![Crop::new('A'), Crop::new('B')],
        vec![Crop::new('C'), Crop::new('D')],
    ];
    let mut visited = vec![vec![false, false], vec![true, false]];
    assert_eq!(find_first_unvisited(&garden, &visited, 0), Some((0, 0)));
    assert_eq!(find_first_unvisited(&garden, &visited, 1), Some((1, 1)));
    visited[1][1] = true;
    assert_eq!(find_first_unvisited(&garden, &visited, 1), None);
    assert_eq!(find_first_unvisited(&garden, &visited, 2), None);
}

#[test]
fn new_plot_has_no_fence() {
    let plot = Crop::new('Q');
    assert_eq!(plot.crop, 'Q');
    assert!(!plot.top_wall && !plot.right_wall && !plot.down_wall && !plot.left_wall);
    assert_eq!(plot.region, 0);
}

#[test]
fn lines_ending_in_carriage_return_make_the_same_garden() {
    assert_eq!(part1("AAAA\r\nBBCD\r\nBBCC\r\nEEEC\r\n"), 140);
    assert_eq!(part2("AAAA\r\nBBCD\r\nBBCC\r\nEEEC"), 80);
}

fn measures(input: &str) -> Vec<(usize, usize, usize)> {
    let garden = gen_garden(input);
    (0..=find_max_region(&garden))
        .map(|region| {
            let (area, perimeter) = area_and_perimeter(&garden, region);
            let (same_area, level) = area_and_level_sides(&garden, region);
            assert_eq!(area, same_area);
            (area, perimeter, level + upright_sides(&garden, region))
        })
        .collect()
}

#[test]
fn regions_are_measured_one_by_one() {
    assert_eq!(
        measures("AAAA\nBBCD\nBBCC\nEEEC\n"),
        vec![(4, 10, 4), (4, 8, 4), (4, 10, 8), (1, 4, 4), (3, 8, 4)]
    );
    assert_eq!(
        measures("OOOOO\nOXOXO\nOOOOO\nOXOXO\nOOOOO\n"),
        vec![(21, 36, 20), (1, 4, 4), (1, 4, 4), (1, 4, 4), (1, 4, 4)]
    );
    let garden = gen_garden("AB\n");
    assert_eq!(area_and_perimeter(&garden, 7), (0, 0));
    assert_eq!(area_and_level_sides(&garden, 7), (0, 0));
    assert_eq!(upright_sides(&garden, 7), 0);
}

#[test]
fn no_region_has_more_sides_than_unit_fences() {
    for input in [LARGE, "A", "AB\nBA\n", "XAX\nAAA\nXAX\n", "AAAAAA\nAAABBA\nAAABBA\nABBAAA\nABBAAA\nAAAAAA\n"] {
        let mut plots = 0;
        for (area, perimeter, sides) in measures(input) {
            assert!(area >= 1);
            assert!(sides <= perimeter);
            assert!(sides >= 4 && sides % 2 == 0);
            if area == 1 {
                assert_eq!((perimeter, sides), (4, 4));
            }
            plots += area;
        }
        assert_eq!(plots, input.lines().map(|line| line.len()).sum::<usize>());
    }
    // more than one plot, and still every unit fence a side of its own
    assert_eq!(measures("XAX\nAAA\nXAX\n")[1], (5, 12, 12));
}

#[test]
fn both_prices_come_together_or_not_at_all() {
    assert_eq!(fence_prices(LARGE), Ok((1930, 1206)));
    assert_eq!(fence_prices("AAAA\nBBCD\nBBCC\nEEEC\n"), Ok((140, 80)));
    assert_eq!(fence_prices("A"), Ok((4, 4)));
    assert_eq!(fence_prices("\n"), Ok((0, 0)));
    assert_eq!(fence_prices(""), Err(GardenError::InvalidShape));
    assert_eq!(fence_prices("AA\nA\n"), Err(GardenError::InvalidShape));
    assert_eq!(fence_prices("A\nAA\n"), Err(GardenError::InvalidShape));
    assert_eq!(fence_prices("AA\n\nAA\n"), Err(GardenError::InvalidShape));
}
