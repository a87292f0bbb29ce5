//! Garden plots: the regions of a grid of plants and the price of fencing
//! them.

pub mod connect;
pub mod flood;
pub mod model;
pub mod price;

use crate::day12::connect::{
    lemma_closed_holds_connected, lemma_connected_cells, lemma_connected_refl,
    lemma_connected_step, lemma_root_of_connected, lemma_root_unique,
    lemma_same_index_iff_connected,
};
use crate::day12::flood::{
    closed_at, gained, grown, lemma_grid_cells, lemma_num_regions_le_cells,
    lemma_queued_push_front, lemma_rested_planted, lemma_roots_before_flat, lemma_settle,
    lemma_settled_at, lemma_settled_grown, lemma_unmarked_shrinks, lemma_wave_done,
    lemma_wave_pop, lemma_wave_start, marked, rested, settled, unmarked, wave,
};
use crate::day12::model::{
    across, adjacent, area, area_weight, before, connected, fence_weight, fenced, fences, height, in_grid, is_root,
    member, num_regions, perimeter, perimeter_price, rectangular, region_index, root_weight,
    roots_before, run_start, runs, sides, sides_price, start_weight, step, symbol,
    total_perimeter_price, total_sides_price, wall, width, Side,
};
use crate::day12::price::{
    lemma_perimeter_le_area, lemma_perimeter_price_bounds, lemma_price_sum,
    lemma_sides_price_bounds, lemma_total_price_bound,
};
use crate::tally::{
    ind, lemma_partial_cols_le_total, lemma_partial_le_total, lemma_sum_cols_is_sum_rows, sum_col,
    sum_cols, sum_row, sum_rows, sum_to,
};
use crate::text::{lemma_lines_total_len, lines, lines_of, texts};
use std::collections::VecDeque;
use vstd::prelude::*;

verus! {

/// One garden plot: its plant, the sides on which it is fenced, and the
/// number of its region.
#[derive(Debug)]
pub struct Crop {
    pub crop: char,
    pub top_wall: bool,
    pub right_wall: bool,
    pub down_wall: bool,
    pub left_wall: bool,
    pub region: usize,
}

impl Crop {
    /// A plot of `crop` with no fence yet, in region 0.
    pub fn new(crop: char) -> (plot: Crop)
        ensures
            plot == unfenced(crop),
    {
        Crop {
            crop,
            top_wall: false,
            right_wall: false,
            down_wall: false,
            left_wall: false,
            region: 0,
        }
    }
}

/// A plot of `crop` with no fence, in region 0.
pub open spec fn unfenced(crop: char) -> Crop {
    Crop {
        crop,
        top_wall: false,
        right_wall: false,
        down_wall: false,
        left_wall: false,
        region: 0,
    }
}

/// `plot` says of cell `p` of `g` what the grid says: its symbol, a fence on
/// each side where the neighbour is missing or differs, and its region's
/// number.
pub open spec fn plot_matches(g: Seq<Seq<char>>, plot: Crop, p: (int, int)) -> bool {
    &&& plot.crop == symbol(g, p)
    &&& plot.top_wall == wall(g, p, Side::Top)
    &&& plot.right_wall == wall(g, p, Side::Right)
    &&& plot.down_wall == wall(g, p, Side::Down)
    &&& plot.left_wall == wall(g, p, Side::Left)
    &&& plot.region == region_index(g, p)
}

/// `m` has a row for each row of `g`, of the same length.
pub open spec fn shaped<T>(g: Seq<Seq<char>>, m: Seq<Vec<T>>) -> bool {
    &&& m.len() == g.len()
    &&& forall|r: int| 0 <= r < g.len() ==> (#[trigger] m[r]).len() == g[r].len()
}

/// `garden` is the segmentation of `g`: one plot for each cell, each
/// matching it.
pub open spec fn segmented(g: Seq<Seq<char>>, garden: Seq<Vec<Crop>>) -> bool {
    &&& shaped(g, garden)
    &&& forall|r: int, c: int|
        0 <= r < g.len() && 0 <= c < g[r].len() ==> plot_matches(g, #[trigger] garden[r][c], (r, c))
}

/// The plants of a garden, plot by plot.
pub open spec fn plants(garden: Seq<Vec<Crop>>) -> Seq<Seq<char>> {
    Seq::new(garden.len(), |r: int| Seq::new(garden[r].len() as nat, |c: int| garden[r][c].crop))
}

/// A garden that segments a grid holds the symbols of the grid as its
/// plants.
pub proof fn lemma_plants(g: Seq<Seq<char>>, garden: Seq<Vec<Crop>>)
    requires
        segmented(g, garden),
    ensures
        plants(garden) == g,
{
    assert forall|r: int| 0 <= r < g.len() implies #[trigger] plants(garden)[r] =~= g[r] by {
        assert(garden[r].len() == g[r].len());
        assert forall|c: int| 0 <= c < g[r].len() implies plants(garden)[r][c] == g[r][c] by {
            assert(plot_matches(g, garden[r][c], (r, c)));
        }
    }
    assert(plants(garden) =~= g);
}

/// Two tables have rows of the same lengths.
pub open spec fn same_shape<A, B>(a: Seq<Vec<A>>, b: Seq<Vec<B>>) -> bool {
    &&& a.len() == b.len()
    &&& forall|r: int| 0 <= r < a.len() ==> (#[trigger] a[r]).len() == b[r].len()
}

/// A grid has one segmentation only: two gardens that both segment `g` hold
/// the same plot in every cell, fences and region number included.
pub proof fn segmentation_is_determined(g: Seq<Seq<char>>, a: Seq<Vec<Crop>>, b: Seq<Vec<Crop>>)
    requires
        segmented(g, a),
        segmented(g, b),
    ensures
        forall|r: int, c: int| 0 <= r < g.len() && 0 <= c < g[r].len() ==> #[trigger] a[r][c] == b[r][c],
{
    assert forall|r: int, c: int| 0 <= r < g.len() && 0 <= c < g[r].len() implies #[trigger] a[r][c]
        == b[r][c] by {
        assert(plot_matches(g, a[r][c], (r, c)));
        assert(plot_matches(g, b[r][c], (r, c)));
    }
}

/// Two plots of a segmented garden bear the same region number exactly when
/// a walk over neighbouring plots of one plant joins them.
pub proof fn same_region_iff_connected(
    g: Seq<Seq<char>>,
    garden: Seq<Vec<Crop>>,
    p: (int, int),
    q: (int, int),
)
    requires
        rectangular(g),
        segmented(g, garden),
        in_grid(g, p),
        in_grid(g, q),
    ensures
        garden[p.0][p.1].region == garden[q.0][q.1].region <==> connected(g, p, q),
{
    assert(plot_matches(g, garden[p.0][p.1], p));
    assert(plot_matches(g, garden[q.0][q.1], q));
    lemma_same_index_iff_connected(g, p, q);
}

/// Two neighbouring plots of a segmented garden bear the same region number
/// exactly when they hold the same plant.
pub proof fn neighbours_share_region_iff_same_plant(
    g: Seq<Seq<char>>,
    garden: Seq<Vec<Crop>>,
    p: (int, int),
    q: (int, int),
)
    requires
        rectangular(g),
        segmented(g, garden),
        in_grid(g, p),
        in_grid(g, q),
        adjacent(p, q),
    ensures
        garden[p.0][p.1].region == garden[q.0][q.1].region <==> symbol(g, p) == symbol(g, q),
{
    same_region_iff_connected(g, garden, p, q);
    if connected(g, p, q) {
        lemma_connected_cells(g, p, q);
    }
    if symbol(g, p) == symbol(g, q) {
        lemma_connected_refl(g, p);
        lemma_connected_step(g, p, p, q);
    }
}

/// The fence that `plot` records on side `s`.
pub open spec fn fence_on(plot: Crop, s: Side) -> bool {
    match s {
        Side::Top => plot.top_wall,
        Side::Right => plot.right_wall,
        Side::Down => plot.down_wall,
        Side::Left => plot.left_wall,
    }
}

/// A plot of a segmented garden is fenced on a side exactly when the garden
/// ends there or the plot across that side belongs to another region.
pub proof fn fence_iff_region_ends(
    g: Seq<Seq<char>>,
    garden: Seq<Vec<Crop>>,
    p: (int, int),
    s: Side,
)
    requires
        rectangular(g),
        segmented(g, garden),
        in_grid(g, p),
    ensures
        fence_on(garden[p.0][p.1], s) <==> !in_grid(g, across(p, s)) || garden[across(p, s).0][across(
            p,
            s,
        ).1].region != garden[p.0][p.1].region,
{
    assert(plot_matches(g, garden[p.0][p.1], p));
    if in_grid(g, across(p, s)) {
        neighbours_share_region_iff_same_plant(g, garden, p, across(p, s));
    }
}

/// 1 if the plot across side `s` of `p` lies in the garden and in the
/// region of `p`.
pub open spec fn kin_across(g: Seq<Seq<char>>, garden: Seq<Vec<Crop>>, p: (int, int), s: Side) -> nat {
    ind(
        in_grid(g, across(p, s)) && garden[across(p, s).0][across(p, s).1].region
            == garden[p.0][p.1].region,
    )
}

/// The fences of a plot of a segmented garden and its neighbours of the
/// same region are four together: a plot adds to the perimeter of its
/// region 4 less the number of these neighbours.
pub proof fn fences_and_kin_are_four(g: Seq<Seq<char>>, garden: Seq<Vec<Crop>>, p: (int, int))
    requires
        rectangular(g),
        segmented(g, garden),
        in_grid(g, p),
    ensures
        ind(garden[p.0][p.1].top_wall) + ind(garden[p.0][p.1].right_wall) + ind(
            garden[p.0][p.1].down_wall,
        ) + ind(garden[p.0][p.1].left_wall) + kin_across(g, garden, p, Side::Top) + kin_across(
            g,
            garden,
            p,
            Side::Right,
        ) + kin_across(g, garden, p, Side::Down) + kin_across(g, garden, p, Side::Left) == 4,
{
    fence_iff_region_ends(g, garden, p, Side::Top);
    fence_iff_region_ends(g, garden, p, Side::Right);
    fence_iff_region_ends(g, garden, p, Side::Down);
    fence_iff_region_ends(g, garden, p, Side::Left);
}

/// The largest region number among the plots of `garden`, 0 if it has none.
pub fn find_max_region(garden: &[Vec<Crop>]) -> (result: usize)
    ensures
        forall|r: int, c: int|
            0 <= r < garden.len() && 0 <= c < garden[r].len() ==> (#[trigger] garden[r][c]).region
                <= result,
        result == 0 || exists|r: int, c: int|
            0 <= r < garden.len() && 0 <= c < garden[r].len() && (#[trigger] garden[r][c]).region
                == result,
{
    let mut result: usize = 0;
    let mut y: usize = 0;
    while y < garden.len()
        invariant
            y <= garden.len(),
            forall|r: int, c: int|
                0 <= r < y && 0 <= c < garden[r].len() ==> (#[trigger] garden[r][c]).region
                    <= result,
            result == 0 || exists|r: int, c: int|
                0 <= r < garden.len() && 0 <= c < garden[r].len() && (
                #[trigger] garden[r][c]).region == result,
        decreases garden.len() - y,
    {
        let line = &garden[y];
        let mut x: usize = 0;
        while x < line.len()
            invariant
                y < garden.len(),
                line == garden[y as int],
                x <= line.len(),
                forall|r: int, c: int|
                    0 <= r < y && 0 <= c < garden[r].len() ==> (#[trigger] garden[r][c]).region
                        <= result,
                forall|c: int| 0 <= c < x ==> (#[trigger] garden[y as int][c]).region <= result,
                result == 0 || exists|r: int, c: int|
                    0 <= r < garden.len() && 0 <= c < garden[r].len() && (
                    #[trigger] garden[r][c]).region == result,
            decreases line.len() - x,
        {
            if line[x].region > result {
                result = line[x].region;
                assert(garden[y as int][x as int].region == result);
            }
            x += 1;
        }
        y += 1;
    }
    result
}

/// The first cell, in reading order from row `row_hint` on, that `visited`
/// does not mark.
pub fn find_first_unvisited(
    garden: &[Vec<Crop>],
    visited: &Vec<Vec<bool>>,
    row_hint: usize,
) -> (found: Option<(usize, usize)>)
    requires
        same_shape(garden@, visited@),
    ensures
        match found {
            Some((y, x)) => {
                &&& row_hint <= y < garden.len()
                &&& x < garden[y as int].len()
                &&& !visited[y as int][x as int]
                &&& forall|r: int, c: int|
                    row_hint <= r < garden.len() && 0 <= c < garden[r].len() && before(
                        (r, c),
                        (y as int, x as int),
                    ) ==> #[trigger] visited[r][c]
            },
            None => forall|r: int, c: int|
                row_hint <= r < garden.len() && 0 <= c < garden[r].len() ==> #[trigger] visited[r][c],
        },
{
    let mut y: usize = row_hint;
    while y < garden.len()
        invariant
            same_shape(garden@, visited@),
            row_hint <= y,
            forall|r: int, c: int|
                row_hint <= r < y && r < garden.len() && 0 <= c < garden[r].len()
                    ==> #[trigger] visited[r][c],
        decreases garden.len() - y,
    {
        let mut x: usize = 0;
        while x < garden[y].len()
            invariant
                same_shape(garden@, visited@),
                row_hint <= y < garden.len(),
                x <= garden[y as int].len(),
                forall|r: int, c: int|
                    row_hint <= r < y && 0 <= c < garden[r].len() ==> #[trigger] visited[r][c],
                forall|c: int| 0 <= c < x ==> #[trigger] visited[y as int][c],
            decreases garden[y as int].len() - x,
        {
            if !visited[y][x] {
                return Some((y, x));
            }
            x += 1;
        }
        y += 1;
    }
    None
}

/// Marks cell (`y`, `x`); true if it was not marked before.
fn mark(visited: &mut Vec<Vec<bool>>, y: usize, x: usize) -> (fresh: bool)
    requires
        y < old(visited).len(),
        x < old(visited)[y as int].len(),
    ensures
        fresh == !old(visited)[y as int][x as int],
        final(visited).len() == old(visited).len(),
        forall|r: int|
            0 <= r < old(visited).len() ==> (#[trigger] final(visited)[r]).len() == old(visited)[r].len(),
        forall|r: int, c: int|
            0 <= r < old(visited).len() && 0 <= c < old(visited)[r].len() ==> #[trigger] final(visited)[r][c] == (old(visited)[r][c] || (r == y && c == x)),
{
    if visited[y][x] {
        false
    } else {
        visited[y][x] = true;
        true
    }
}

/// Takes the flood from cell `p` to its equal neighbour (`ny`, `nx`): if the
/// neighbour is not marked yet, it is marked and joins the queue.
fn reach(
    visited: &mut Vec<Vec<bool>>,
    queue: &mut VecDeque<(usize, usize)>,
    ny: usize,
    nx: usize,
    Ghost(g): Ghost<Seq<Seq<char>>>,
    Ghost(fin): Ghost<Set<(int, int)>>,
    Ghost(s): Ghost<(int, int)>,
    Ghost(p): Ghost<(int, int)>,
    Ghost(base): Ghost<Seq<Vec<bool>>>,
)
    requires
        rectangular(g),
        shaped(g, old(visited)@),
        wave(g, old(visited)@, old(queue)@, fin, s),
        grown(g, base, old(visited)@),
        connected(g, s, p),
        step(g, p, (ny as int, nx as int)),
    ensures
        shaped(g, final(visited)@),
        wave(g, final(visited)@, final(queue)@, fin, s),
        grown(g, base, final(visited)@),
        grown(g, old(visited)@, final(visited)@),
        final(visited)[ny as int][nx as int],
        old(queue)@.len() <= final(queue)@.len() <= old(queue)@.len() + 1,
        unmarked(g, final(visited)@).len() + (final(queue)@.len() - old(queue)@.len()) == unmarked(
            g,
            old(visited)@,
        ).len(),
{
    let ghost n = (ny as int, nx as int);
    let ghost marks0 = visited@;
    let ghost queue0 = queue@;
    proof {
        reveal(wave);
    }
    if mark(visited, ny, nx) {
        queue.push_front((ny, nx));
        proof {
            lemma_queued_push_front(queue0, (ny, nx));
            lemma_unmarked_shrinks(g, marks0, visited@, n);
            lemma_connected_step(g, s, p, n);
        }
    } else {
        proof {
            assert(unmarked(g, visited@) =~= unmarked(g, marks0));
        }
    }
}

/// Fills the region of the unmarked cell (`y`, `x`), which is the first of
/// its region: marks every cell of the region, gives it the number
/// `region_idx` and puts up its fences.
fn flood(
    garden: &mut Vec<Vec<Crop>>,
    visited: &mut Vec<Vec<bool>>,
    y: usize,
    x: usize,
    region_idx: usize,
    Ghost(g): Ghost<Seq<Seq<char>>>,
)
    requires
        rectangular(g),
        shaped(g, old(garden)@),
        shaped(g, old(visited)@),
        rested(g, old(garden)@, old(visited)@),
        in_grid(g, (y as int, x as int)),
        !old(visited)[y as int][x as int],
        is_root(g, (y as int, x as int)),
        roots_before(g, (y as int, x as int)) == region_idx,
    ensures
        shaped(g, final(garden)@),
        shaped(g, final(visited)@),
        rested(g, final(garden)@, final(visited)@),
        final(visited)[y as int][x as int],
        grown(g, old(visited)@, final(visited)@),
        forall|r: int, c: int|
            0 <= r < height(g) && 0 <= c < width(g) && #[trigger] final(visited)[r][c] && !old(visited)[r][c] ==> connected(g, (y as int, x as int), (r, c)),
        unmarked(g, final(visited)@).len() < unmarked(g, old(visited)@).len(),
{
    let g_len = garden.len();
    let g_wid = garden[0].len();
    let ghost s = (y as int, x as int);
    let ghost vis0 = visited@;
    let ghost mut fin = marked(g, vis0);
    let mut queue: VecDeque<(usize, usize)> = VecDeque::new();
    let _ = mark(visited, y, x);
    queue.push_front((y, x));
    proof {
        assert(queue@ =~= seq![(y, x)]);
        lemma_wave_start(g, vis0, visited@, queue@, s);
        lemma_settled_grown(g, garden@, vis0, visited@, fin);
        lemma_unmarked_shrinks(g, vis0, visited@, s);
    }
    while queue.len() > 0
        invariant
            rectangular(g),
            g_len == g.len(),
            g_wid == width(g),
            s == (y as int, x as int),
            in_grid(g, s),
            is_root(g, s),
            roots_before(g, s) == region_idx,
            shaped(g, garden@),
            shaped(g, visited@),
            settled(g, garden@, visited@, fin),
            wave(g, visited@, queue@, fin, s),
            gained(g, vis0, fin, s),
            grown(g, vis0, visited@),
            visited[y as int][x as int],
            unmarked(g, visited@).len() < unmarked(g, vis0).len(),
        decreases unmarked(g, visited@).len(), queue@.len(),
    {
        let ghost queue0 = queue@;
        let ghost fin0 = fin;
        let (cy, cx) = queue.pop_back().unwrap();
        let ghost p = (cy as int, cx as int);
        let ghost garden0 = garden@;
        let ghost marks0 = visited@;
        proof {
            lemma_wave_pop(g, visited@, queue0, fin0, vis0, s);
            lemma_root_of_connected(g, s, p);
            lemma_settled_at(g, garden0, marks0, fin0, p);
            if cx > 0 {
                lemma_settled_at(g, garden0, marks0, fin0, (cy as int, cx - 1));
            }
            if cx + 1 < g_wid {
                lemma_settled_at(g, garden0, marks0, fin0, (cy as int, cx + 1));
            }
            if cy > 0 {
                lemma_settled_at(g, garden0, marks0, fin0, (cy - 1, cx as int));
            }
            if cy + 1 < g_len {
                lemma_settled_at(g, garden0, marks0, fin0, (cy + 1, cx as int));
            }
            fin = fin0.insert(p);
        }
        garden[cy][cx].region = region_idx;
        if cx > 0 && garden[cy][cx].crop == garden[cy][cx - 1].crop {
            reach(visited, &mut queue, cy, cx - 1, Ghost(g), Ghost(fin), Ghost(s), Ghost(p), Ghost(vis0));
        } else {
            garden[cy][cx].left_wall = true;
        }
        if cx + 1 < g_wid && garden[cy][cx].crop == garden[cy][cx + 1].crop {
            reach(visited, &mut queue, cy, cx + 1, Ghost(g), Ghost(fin), Ghost(s), Ghost(p), Ghost(vis0));
        } else {
            garden[cy][cx].right_wall = true;
        }
        if cy > 0 && garden[cy][cx].crop == garden[cy - 1][cx].crop {
            reach(visited, &mut queue, cy - 1, cx, Ghost(g), Ghost(fin), Ghost(s), Ghost(p), Ghost(vis0));
        } else {
            garden[cy][cx].top_wall = true;
        }
        if cy + 1 < g_len && garden[cy][cx].crop == garden[cy + 1][cx].crop {
            reach(visited, &mut queue, cy + 1, cx, Ghost(g), Ghost(fin), Ghost(s), Ghost(p), Ghost(vis0));
        } else {
            garden[cy][cx].down_wall = true;
        }
        proof {
            assert forall|q: (int, int)| #[trigger] step(g, p, q) implies visited[q.0][q.1] by {}
            assert(closed_at(g, visited@, p));
            assert(plot_matches(g, garden[cy as int][cx as int], p));
            assert(grown(g, marks0, visited@));
            assert(marks0[y as int][x as int]);
            lemma_settle(g, garden0, garden@, marks0, visited@, fin0, p);
        }
    }
    proof {
        lemma_wave_done(g, garden@, visited@, queue@, fin, vis0, s);
    }
}

/// The garden that `input` draws, one line for each row: every plot with its
/// plant, its fences and the number of its region.
pub fn gen_garden(input: &str) -> (garden: Vec<Vec<Crop>>)
    requires
        lines(input@).len() > 0,
        rectangular(lines(input@)),
    ensures
        segmented(lines(input@), garden@),
        height(lines(input@)) * width(lines(input@)) <= usize::MAX,
{
    let rows = lines_of(input);
    let ghost g = lines(input@);
    let g_len = rows.len();
    let g_wid = rows[0].len();
    proof {
        assert(texts(rows@).len() == rows.len());
        assert forall|r: int| 0 <= r < g.len() implies (#[trigger] rows[r])@ == g[r] && g[r].len()
            == g_wid by {
            assert(texts(rows@)[r] == rows[r]@);
            assert(texts(rows@)[0] == rows[0]@);
        }
        lemma_lines_total_len(input@);
        lemma_grid_cells(g);
        lemma_num_regions_le_cells(g);
        assert(num_regions(g) <= usize::MAX);
    }
    let mut garden: Vec<Vec<Crop>> = Vec::new();
    let mut visited: Vec<Vec<bool>> = Vec::new();
    let mut y: usize = 0;
    while y < g_len
        invariant
            g_len == rows.len(),
            g_len == g.len(),
            forall|r: int| 0 <= r < g.len() ==> (#[trigger] rows[r])@ == g[r],
            forall|r: int| 0 <= r < g.len() ==> (#[trigger] g[r]).len() == g_wid,
            y <= g_len,
            garden.len() == y,
            visited.len() == y,
            forall|r: int| 0 <= r < y ==> (#[trigger] garden[r]).len() == g_wid,
            forall|r: int| 0 <= r < y ==> (#[trigger] visited[r]).len() == g_wid,
            forall|r: int, c: int|
                0 <= r < y && 0 <= c < g_wid ==> (#[trigger] garden[r][c]) == unfenced(
                    symbol(g, (r, c)),
                ),
            forall|r: int, c: int| 0 <= r < y && 0 <= c < g_wid ==> !#[trigger] visited[r][c],
        decreases g_len - y,
    {
        let mut plots: Vec<Crop> = Vec::new();
        let mut marks: Vec<bool> = Vec::new();
        let mut x: usize = 0;
        assert(rows[y as int]@ == g[y as int]);
        while x < g_wid
            invariant
                y < rows.len(),
                y < g.len(),
                rows[y as int]@ == g[y as int],
                g[y as int].len() == g_wid,
                x <= g_wid,
                plots.len() == x,
                marks.len() == x,
                forall|c: int|
                    0 <= c < x ==> (#[trigger] plots[c]) == unfenced(symbol(g, (y as int, c))),
                forall|c: int| 0 <= c < x ==> !#[trigger] marks[c],
            decreases g_wid - x,
        {
            plots.push(Crop::new(rows[y][x]));
            marks.push(false);
            x += 1;
        }
        garden.push(plots);
        visited.push(marks);
        y += 1;
    }
    let mut region_idx: usize = 0;
    let mut row_hint: usize = 0;
    // The search for the next unvisited plot may begin at the row of the
    // last seed: a flood marks the whole region of its seed, so all that
    // comes before the seed in reading order is marked for good, and no
    // plot of an earlier row is left. `frontier` is the position just
    // after the last seed; the invariant below says this of it.
    let ghost mut frontier: (int, int) = (0, 0);
    proof {
        lemma_rested_planted(g, garden@, visited@);
    }
    loop
        invariant
            rectangular(g),
            g_len == g.len(),
            g_len > 0,
            g_wid == width(g),
            num_regions(g) <= usize::MAX,
            shaped(g, garden@),
            shaped(g, visited@),
            rested(g, garden@, visited@),
            forall|r: int, c: int|
                0 <= r < g_len && 0 <= c < g_wid && before((r, c), frontier)
                    ==> #[trigger] visited[r][c],
            forall|r: int, c: int|
                0 <= r < g_len && 0 <= c < g_wid && visited[r][c] && #[trigger] is_root(g, (r, c))
                    ==> before((r, c), frontier),
            region_idx == roots_before(g, frontier),
            row_hint == frontier.0,
            0 <= frontier.0 < g_len,
            0 <= frontier.1 <= g_wid,
        ensures
            segmented(g, garden@),
        decreases unmarked(g, visited@).len(),
    {
        let found = find_first_unvisited(garden.as_slice(), &visited, row_hint);
        match found {
            None => {
                assert forall|r: int, c: int| 0 <= r < g.len() && 0 <= c < g[r].len() implies plot_matches(
                    g,
                    #[trigger] garden[r][c],
                    (r, c),
                ) by {
                    if r < row_hint {
                        assert(before((r, c), frontier));
                    }
                    assert(visited[r][c]);
                    assert(marked(g, visited@).contains((r, c)));
                    lemma_settled_at(g, garden@, visited@, marked(g, visited@), (r, c));
                }
                break ;
            },
            Some((y, x)) => {
                row_hint = y;
                let ghost s = (y as int, x as int);
                let ghost vis0 = visited@;
                proof {
                    assert forall|r: int, c: int|
                        0 <= r < g_len && 0 <= c < g_wid && before((r, c), s) implies #[trigger] vis0[r][c] by {
                        if r < frontier.0 {
                            assert(before((r, c), frontier));
                        }
                    }
                    let inside = |p: (int, int)| in_grid(g, p) && vis0[p.0][p.1];
                    assert forall|p: (int, int), q: (int, int)|
                        inside(p) && #[trigger] step(g, p, q) implies inside(q) by {
                        assert(marked(g, vis0).contains(p));
                        lemma_settled_at(g, garden@, vis0, marked(g, vis0), p);
                    }
                    assert forall|q: (int, int)| #[trigger] connected(g, q, s) implies !before(
                        q,
                        s,
                    ) by {
                        if before(q, s) {
                            lemma_connected_cells(g, q, s);
                            assert(vis0[q.0][q.1]);
                            assert(inside(q));
                            lemma_closed_holds_connected(g, inside, q, s);
                        }
                    }
                    assert(is_root(g, s));
                    assert(!before(s, frontier));
                    assert forall|r: int, c: int|
                        0 <= c < width(g) && !before((r, c), frontier) && before(
                            (r, c),
                            s,
                        ) implies !#[trigger] is_root(g, (r, c)) by {
                        assert(vis0[r][c]);
                    }
                    lemma_roots_before_flat(g, frontier, s);
                }
                flood(&mut garden, &mut visited, y, x, region_idx, Ghost(g));
                proof {
                    assert forall|r: int, c: int|
                        0 <= r < g_len && 0 <= c < g_wid && before(
                            (r, c),
                            (y as int, x + 1),
                        ) implies #[trigger] visited[r][c] by {
                        if (r, c) != s {
                            assert(before((r, c), s));
                            assert(vis0[r][c]);
                        }
                    }
                    assert forall|r: int, c: int|
                        0 <= r < g_len && 0 <= c < g_wid && visited[r][c] && #[trigger] is_root(
                            g,
                            (r, c),
                        ) implies before((r, c), (y as int, x + 1)) by {
                        if !vis0[r][c] {
                            lemma_root_unique(g, s, (r, c));
                        }
                    }
                    let f = root_weight(g);
                    assert(sum_row(f, y as int, x + 1) == sum_row(f, y as int, x as int) + f(
                        y as int,
                        x as int,
                    ));
                    lemma_partial_le_total(f, width(g), height(g), y as int, x + 1);
                    frontier = (y as int, x + 1);
                }
                region_idx += 1;
            },
        }
    }
    garden
}

/// The area of region `i` of a segmented garden and the number of its top
/// and bottom sides, from a scan of each row from left to right.
pub fn area_and_level_sides(garden: &Vec<Vec<Crop>>, i: usize) -> (res: (usize, usize))
    requires
        rectangular(plants(garden@)),
        segmented(plants(garden@), garden@),
        height(plants(garden@)) * width(plants(garden@)) <= usize::MAX,
        sides(plants(garden@), i as nat) <= usize::MAX,
    ensures
        res.0 == area(plants(garden@), i as nat),
        res.1 == runs(plants(garden@), i as nat, Side::Top) + runs(
            plants(garden@),
            i as nat,
            Side::Down,
        ),
{
    let ghost g = plants(garden@);
    let ghost k = i as nat;
    let ghost w = width(g);
    let ghost h = height(g);
    let ghost aw = area_weight(g, k);
    let ghost top = start_weight(g, k, Side::Top);
    let ghost down = start_weight(g, k, Side::Down);
    let g_len = garden.len();
    let mut area: usize = 0;
    let mut walls: usize = 0;
    let mut y: usize = 0;
    proof {
        crate::day12::price::lemma_cells_bound(g, k);
    }
    while y < g_len
        invariant
            g == plants(garden@),
            rectangular(g),
            segmented(g, garden@),
            g_len == h,
            k == i,
            w == width(g),
            h == height(g),
            aw == area_weight(g, k),
            top == start_weight(g, k, Side::Top),
            down == start_weight(g, k, Side::Down),
            crate::day12::model::area(g, k) <= usize::MAX,
            sides(g, k) <= usize::MAX,
            y <= g_len,
            area == sum_rows(aw, w, y as int),
            walls == sum_rows(top, w, y as int) + sum_rows(down, w, y as int),
        decreases g_len - y,
    {
        let mut found_top_wall = false;
        let mut found_bottom_wall = false;
        let line = &garden[y];
        let mut x: usize = 0;
        while x < line.len()
            invariant
                g == plants(garden@),
                rectangular(g),
                segmented(g, garden@),
                g_len == h,
                k == i,
                w == width(g),
                h == height(g),
                aw == area_weight(g, k),
                top == start_weight(g, k, Side::Top),
                down == start_weight(g, k, Side::Down),
                crate::day12::model::area(g, k) <= usize::MAX,
                sides(g, k) <= usize::MAX,
                y < g_len,
                line == garden[y as int],
                x <= line.len(),
                area == sum_rows(aw, w, y as int) + sum_row(aw, y as int, x as int),
                walls + ind(found_top_wall) + ind(found_bottom_wall) == sum_rows(top, w, y as int)
                    + sum_row(top, y as int, x as int) + sum_rows(down, w, y as int) + sum_row(
                    down,
                    y as int,
                    x as int,
                ),
                found_top_wall == fenced(g, k, (y as int, x - 1), Side::Top),
                found_bottom_wall == fenced(g, k, (y as int, x - 1), Side::Down),
            decreases line.len() - x,
        {
            let plot = &line[x];
            proof {
                assert(plot_matches(g, garden[y as int][x as int], (y as int, x as int)));
                assert(line.len() == w);
                lemma_partial_le_total(aw, w, h, y as int, x + 1);
                lemma_partial_le_total(top, w, h, y as int, x + 1);
                lemma_partial_le_total(down, w, h, y as int, x + 1);
                assert(aw(y as int, x as int) == ind(member(g, k, (y as int, x as int))));
                assert(top(y as int, x as int) == ind(run_start(g, k, (y as int, x as int), Side::Top)));
                assert(down(y as int, x as int) == ind(
                    run_start(g, k, (y as int, x as int), Side::Down),
                ));
            }
            if plot.region != i {
                if found_top_wall {
                    walls += 1;
                    found_top_wall = false;
                }
                if found_bottom_wall {
                    walls += 1;
                    found_bottom_wall = false;
                }
            } else {
                area += 1;
                if plot.top_wall {
                    found_top_wall = true;
                } else if found_top_wall {
                    walls += 1;
                    found_top_wall = false;
                }
                if plot.down_wall {
                    found_bottom_wall = true;
                } else if found_bottom_wall {
                    walls += 1;
                    found_bottom_wall = false;
                }
            }
            x += 1;
        }
        proof {
            assert(line.len() == w);
            lemma_partial_le_total(top, w, h, y as int, w);
            lemma_partial_le_total(down, w, h, y as int, w);
        }
        if found_top_wall {
            walls += 1;
        }
        if found_bottom_wall {
            walls += 1;
        }
        y += 1;
    }
    (area, walls)
}

/// The number of left and right sides of region `i` of a segmented garden,
/// from a scan of each column from top to bottom.
pub fn upright_sides(garden: &Vec<Vec<Crop>>, i: usize) -> (walls: usize)
    requires
        rectangular(plants(garden@)),
        height(plants(garden@)) > 0,
        segmented(plants(garden@), garden@),
        sides(plants(garden@), i as nat) <= usize::MAX,
    ensures
        walls == runs(plants(garden@), i as nat, Side::Right) + runs(
            plants(garden@),
            i as nat,
            Side::Left,
        ),
{
    let ghost g = plants(garden@);
    let ghost k = i as nat;
    let ghost w = width(g);
    let ghost h = height(g);
    let ghost right = start_weight(g, k, Side::Right);
    let ghost left = start_weight(g, k, Side::Left);
    let g_len = garden.len();
    let g_wid = garden[0].len();
    let mut walls: usize = 0;
    let mut x: usize = 0;
    while x < g_wid
        invariant
            g == plants(garden@),
            rectangular(g),
            segmented(g, garden@),
            g_len == h,
            g_wid == w,
            k == i,
            w == width(g),
            h == height(g),
            right == start_weight(g, k, Side::Right),
            left == start_weight(g, k, Side::Left),
            sides(g, k) <= usize::MAX,
            x <= g_wid,
            walls == sum_cols(right, h, x as int) + sum_cols(left, h, x as int),
        decreases g_wid - x,
    {
        let mut found_right_wall = false;
        let mut found_left_wall = false;
        let mut y: usize = 0;
        while y < g_len
            invariant
                g == plants(garden@),
                rectangular(g),
                segmented(g, garden@),
                g_len == h,
                g_wid == w,
                k == i,
                w == width(g),
                h == height(g),
                right == start_weight(g, k, Side::Right),
                left == start_weight(g, k, Side::Left),
                sides(g, k) <= usize::MAX,
                x < g_wid,
                y <= g_len,
                walls + ind(found_right_wall) + ind(found_left_wall) == sum_cols(right, h, x as int)
                    + sum_col(right, x as int, y as int) + sum_cols(left, h, x as int) + sum_col(
                    left,
                    x as int,
                    y as int,
                ),
                found_right_wall == fenced(g, k, (y - 1, x as int), Side::Right),
                found_left_wall == fenced(g, k, (y - 1, x as int), Side::Left),
            decreases g_len - y,
        {
            proof {
                assert(garden[y as int].len() == g[y as int].len());
                assert(plot_matches(g, garden[y as int][x as int], (y as int, x as int)));
                lemma_partial_cols_le_total(right, w, h, y + 1, x as int);
                lemma_partial_cols_le_total(left, w, h, y + 1, x as int);
                assert(right(y as int, x as int) == ind(
                    run_start(g, k, (y as int, x as int), Side::Right),
                ));
                assert(left(y as int, x as int) == ind(
                    run_start(g, k, (y as int, x as int), Side::Left),
                ));
            }
            let plot = &garden[y][x];
            if plot.region != i {
                if found_right_wall {
                    walls += 1;
                    found_right_wall = false;
                }
                if found_left_wall {
                    walls += 1;
                    found_left_wall = false;
                }
            } else {
                if plot.right_wall {
                    found_right_wall = true;
                } else if found_right_wall {
                    walls += 1;
                    found_right_wall = false;
                }
                if plot.left_wall {
                    found_left_wall = true;
                } else if found_left_wall {
                    walls += 1;
                    found_left_wall = false;
                }
            }
            y += 1;
        }
        proof {
            lemma_partial_cols_le_total(right, w, h, h, x as int);
            lemma_partial_cols_le_total(left, w, h, h, x as int);
        }
        if found_right_wall {
            walls += 1;
        }
        if found_left_wall {
            walls += 1;
        }
        x += 1;
    }
    proof {
        lemma_sum_cols_is_sum_rows(right, w, h);
        lemma_sum_cols_is_sum_rows(left, w, h);
    }
    walls
}

/// The price of fencing the garden that `input` draws when each region costs
/// its area times the number of its sides.
pub fn part2(input: &str) -> (total: usize)
    requires
        lines(input@).len() > 0,
        rectangular(lines(input@)),
        total_sides_price(lines(input@)) <= usize::MAX,
    ensures
        total == total_sides_price(lines(input@)),
{
    let garden = gen_garden(input);
    let ghost g = lines(input@);
    let ghost f = sides_price(g);
    let max_region = find_max_region(garden.as_slice());
    proof {
        assert forall|k: int| 0 <= k implies #[trigger] f(k) <= area(g, k as nat) * 4 * area(
            g,
            k as nat,
        ) by {
            lemma_perimeter_le_area(g, k as nat);
            assert(area(g, k as nat) * sides(g, k as nat) <= area(g, k as nat) * 4 * area(
                g,
                k as nat,
            )) by (nonlinear_arith)
                requires
                    sides(g, k as nat) <= 4 * area(g, k as nat),
            ;
        }
        max_region_bound(g, garden@, max_region);
        lemma_plants(g, garden@);
    }
    let mut total: usize = 0;
    let mut i: usize = 0;
    while i <= max_region
        invariant
            rectangular(g),
            height(g) > 0,
            segmented(g, garden@),
            plants(garden@) == g,
            height(g) * width(g) <= usize::MAX,
            total_sides_price(g) <= usize::MAX,
            f == sides_price(g),
            forall|k: int| 0 <= k ==> #[trigger] f(k) <= area(g, k as nat) * 4 * area(g, k as nat),
            max_region < usize::MAX,
            i <= max_region + 1,
            total == sum_to(f, i as int),
        decreases max_region + 1 - i,
    {
        proof {
            lemma_sides_price_bounds(g, i as nat);
            lemma_price_sum(g, f, i + 1);
            assert(f(i as int) == area(g, i as nat) * sides(g, i as nat));
        }
        let (area, level) = area_and_level_sides(&garden, i);
        let upright = upright_sides(&garden, i);
        let walls = level + upright;
        total += area * walls;
        i += 1;
    }
    proof {
        assert forall|r: int, c: int|
            0 <= r < height(g) && 0 <= c < width(g) implies #[trigger] region_index(g, (r, c))
            < i by {
            assert(plot_matches(g, garden[r][c], (r, c)));
        }
        lemma_price_sum(g, f, i as int);
    }
    total
}

/// The price of fencing the garden that `input` draws when each region costs
/// its area times its perimeter.
pub fn part1(input: &str) -> (total: usize)
    requires
        lines(input@).len() > 0,
        rectangular(lines(input@)),
        total_perimeter_price(lines(input@)) <= usize::MAX,
    ensures
        total == total_perimeter_price(lines(input@)),
{
    let garden = gen_garden(input);
    let ghost g = lines(input@);
    let ghost f = perimeter_price(g);
    let max_region = find_max_region(garden.as_slice());
    proof {
        assert forall|k: int| 0 <= k implies #[trigger] f(k) <= area(g, k as nat) * 4 * area(
            g,
            k as nat,
        ) by {
            lemma_perimeter_le_area(g, k as nat);
            assert(area(g, k as nat) * perimeter(g, k as nat) <= area(g, k as nat) * 4 * area(
                g,
                k as nat,
            )) by (nonlinear_arith)
                requires
                    perimeter(g, k as nat) <= 4 * area(g, k as nat),
            ;
        }
        max_region_bound(g, garden@, max_region);
        lemma_plants(g, garden@);
    }
    let mut total: usize = 0;
    let mut i: usize = 0;
    while i <= max_region
        invariant
            rectangular(g),
            height(g) > 0,
            segmented(g, garden@),
            plants(garden@) == g,
            height(g) * width(g) <= usize::MAX,
            total_perimeter_price(g) <= usize::MAX,
            f == perimeter_price(g),
            forall|k: int| 0 <= k ==> #[trigger] f(k) <= area(g, k as nat) * 4 * area(g, k as nat),
            max_region < usize::MAX,
            i <= max_region + 1,
            total == sum_to(f, i as int),
        decreases max_region + 1 - i,
    {
        proof {
            lemma_perimeter_price_bounds(g, i as nat);
            lemma_price_sum(g, f, i + 1);
            assert(f(i as int) == area(g, i as nat) * perimeter(g, i as nat));
        }
        let (area, perim) = area_and_perimeter(&garden, i);
        total += area * perim;
        i += 1;
    }
    proof {
        assert forall|r: int, c: int|
            0 <= r < height(g) && 0 <= c < width(g) implies #[trigger] region_index(g, (r, c))
            < i by {
            assert(plot_matches(g, garden[r][c], (r, c)));
        }
        lemma_price_sum(g, f, i as int);
    }
    total
}

/// The largest region number of a segmented garden is below the number of
/// cells.
proof fn max_region_bound(g: Seq<Seq<char>>, garden: Seq<Vec<Crop>>, max_region: usize)
    requires
        rectangular(g),
        segmented(g, garden),
        height(g) * width(g) <= usize::MAX,
        max_region == 0 || exists|r: int, c: int|
            0 <= r < garden.len() && 0 <= c < garden[r].len() && (#[trigger] garden[r][c]).region
                == max_region,
    ensures
        max_region < usize::MAX,
{
    if max_region != 0 {
        let (r, c) = choose|r: int, c: int|
            0 <= r < garden.len() && 0 <= c < garden[r].len() && (#[trigger] garden[r][c]).region
                == max_region;
        assert(plot_matches(g, garden[r][c], (r, c)));
        crate::day12::connect::lemma_region_index_bound(g, (r, c));
        crate::day12::flood::lemma_num_regions_le_cells(g);
    }
}

/// The area and the perimeter of region `i` of a segmented garden, from the
/// fences of its plots.
pub fn area_and_perimeter(garden: &Vec<Vec<Crop>>, i: usize) -> (res: (usize, usize))
    requires
        rectangular(plants(garden@)),
        segmented(plants(garden@), garden@),
        height(plants(garden@)) * width(plants(garden@)) <= usize::MAX,
        perimeter(plants(garden@), i as nat) <= usize::MAX,
    ensures
        res.0 == area(plants(garden@), i as nat),
        res.1 == perimeter(plants(garden@), i as nat),
{
    let ghost g = plants(garden@);
    let ghost k = i as nat;
    let ghost w = width(g);
    let ghost h = height(g);
    let ghost aw = area_weight(g, k);
    let ghost top = fence_weight(g, k, Side::Top);
    let ghost right = fence_weight(g, k, Side::Right);
    let ghost down = fence_weight(g, k, Side::Down);
    let ghost left = fence_weight(g, k, Side::Left);
    let g_len = garden.len();
    let mut area: usize = 0;
    let mut perim: usize = 0;
    let mut y: usize = 0;
    proof {
        crate::day12::price::lemma_cells_bound(g, k);
    }
    while y < g_len
        invariant
            g == plants(garden@),
            rectangular(g),
            segmented(g, garden@),
            g_len == h,
            k == i,
            w == width(g),
            h == height(g),
            aw == area_weight(g, k),
            top == fence_weight(g, k, Side::Top),
            right == fence_weight(g, k, Side::Right),
            down == fence_weight(g, k, Side::Down),
            left == fence_weight(g, k, Side::Left),
            crate::day12::model::area(g, k) <= usize::MAX,
            perimeter(g, k) <= usize::MAX,
            y <= g_len,
            area == sum_rows(aw, w, y as int),
            perim == sum_rows(top, w, y as int) + sum_rows(right, w, y as int) + sum_rows(
                down,
                w,
                y as int,
            ) + sum_rows(left, w, y as int),
        decreases g_len - y,
    {
        let line = &garden[y];
        let mut x: usize = 0;
        while x < line.len()
            invariant
                g == plants(garden@),
                rectangular(g),
                segmented(g, garden@),
                g_len == h,
                k == i,
                w == width(g),
                h == height(g),
                aw == area_weight(g, k),
                top == fence_weight(g, k, Side::Top),
                right == fence_weight(g, k, Side::Right),
                down == fence_weight(g, k, Side::Down),
                left == fence_weight(g, k, Side::Left),
                crate::day12::model::area(g, k) <= usize::MAX,
                perimeter(g, k) <= usize::MAX,
                y < g_len,
                line == garden[y as int],
                x <= line.len(),
                area == sum_rows(aw, w, y as int) + sum_row(aw, y as int, x as int),
                perim == sum_rows(top, w, y as int) + sum_row(top, y as int, x as int) + sum_rows(
                    right,
                    w,
                    y as int,
                ) + sum_row(right, y as int, x as int) + sum_rows(down, w, y as int) + sum_row(
                    down,
                    y as int,
                    x as int,
                ) + sum_rows(left, w, y as int) + sum_row(left, y as int, x as int),
            decreases line.len() - x,
        {
            let plot = &line[x];
            proof {
                let p = (y as int, x as int);
                assert(plot_matches(g, garden[y as int][x as int], p));
                assert(line.len() == w);
                lemma_partial_le_total(aw, w, h, y as int, x + 1);
                lemma_partial_le_total(top, w, h, y as int, x + 1);
                lemma_partial_le_total(right, w, h, y as int, x + 1);
                lemma_partial_le_total(down, w, h, y as int, x + 1);
                lemma_partial_le_total(left, w, h, y as int, x + 1);
                assert(aw(y as int, x as int) == ind(member(g, k, p)));
                assert(top(y as int, x as int) == ind(fenced(g, k, p, Side::Top)));
                assert(right(y as int, x as int) == ind(fenced(g, k, p, Side::Right)));
                assert(down(y as int, x as int) == ind(fenced(g, k, p, Side::Down)));
                assert(left(y as int, x as int) == ind(fenced(g, k, p, Side::Left)));
            }
            if plot.region == i {
                area += 1;
                if plot.top_wall {
                    perim += 1;
                }
                if plot.right_wall {
                    perim += 1;
                }
                if plot.down_wall {
                    perim += 1;
                }
                if plot.left_wall {
                    perim += 1;
                }
            }
            x += 1;
        }
        proof {
            assert(line.len() == w);
        }
        y += 1;
    }
    (area, perim)
}

/// Why a text is not priced as a garden.
#[derive(Debug, PartialEq, Eq, Clone, Copy)]
pub enum GardenError {
    /// The text has no line, or its lines differ in length.
    InvalidShape,
    /// Four times the square of the number of plots does not fit in a
    /// machine word, so that the prices might not.
    TooLarge,
}

/// The text draws a garden: it has a line and all lines are equally long.
pub open spec fn valid_shape(g: Seq<Seq<char>>) -> bool {
    g.len() > 0 && rectangular(g)
}

/// Four times the square of the number of plots fits in a machine word.
pub open spec fn fits_word(g: Seq<Seq<char>>) -> bool {
    4 * (height(g) * width(g)) * (height(g) * width(g)) <= usize::MAX
}

/// Both prices of fencing the garden that `input` draws: by perimeter and
/// by number of sides. A text that draws no garden, or one too large to be
/// priced safely, is refused.
pub fn fence_prices(input: &str) -> (prices: Result<(usize, usize), GardenError>)
    ensures
        match prices {
            Ok((by_perimeter, by_sides)) => valid_shape(lines(input@)) && fits_word(lines(input@))
                && by_perimeter == total_perimeter_price(lines(input@)) && by_sides
                == total_sides_price(lines(input@)),
            Err(GardenError::InvalidShape) => !valid_shape(lines(input@)),
            Err(GardenError::TooLarge) => valid_shape(lines(input@)) && !fits_word(lines(input@)),
        },
{
    let rows = lines_of(input);
    let ghost g = lines(input@);
    proof {
        assert(texts(rows@).len() == rows.len());
        assert forall|r: int| 0 <= r < g.len() implies (#[trigger] rows[r])@ == g[r] by {
            assert(texts(rows@)[r] == rows[r]@);
        }
    }
    if rows.len() == 0 {
        return Err(GardenError::InvalidShape);
    }
    let columns = rows[0].len();
    proof {
        assert(rows[0]@ == g[0]);
    }
    let mut y: usize = 1;
    while y < rows.len()
        invariant
            g == lines(input@),
            rows.len() == g.len(),
            forall|r: int| 0 <= r < g.len() ==> (#[trigger] rows[r])@ == g[r],
            1 <= y <= rows.len(),
            columns == g[0].len(),
            forall|r: int| 0 <= r < y ==> (#[trigger] g[r]).len() == g[0].len(),
        decreases rows.len() - y,
    {
        if rows[y].len() != columns {
            proof {
                assert(rows[y as int]@ == g[y as int]);
                assert(rows[0]@ == g[0]);
                assert(g[y as int].len() != g[0].len());
                assert(!rectangular(g));
            }
            return Err(GardenError::InvalidShape);
        }
        y += 1;
    }
    let fits = match rows.len().checked_mul(columns) {
        None => false,
        Some(plots) => match plots.checked_mul(plots) {
            None => false,
            Some(square) => square.checked_mul(4).is_some(),
        },
    };
    proof {
        let n = height(g) * width(g);
        assert(n >= 0) by (nonlinear_arith)
            requires
                n == height(g) * width(g),
                height(g) >= 0,
                width(g) >= 0,
        ;
        assert(4 * n * n == (n * n) * 4) by (nonlinear_arith);
        assert(n <= n * n && n * n <= (n * n) * 4) by (nonlinear_arith)
            requires
                n >= 0,
        ;
        if fits {
            lemma_total_price_bound(g);
        }
    }
    if !fits {
        return Err(GardenError::TooLarge);
    }
    Ok((part1(input), part2(input)))
}

} // verus!
