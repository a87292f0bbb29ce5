//! What holds of areas, perimeters and sides.

use crate::day12::connect::{
    lemma_connected_refl, lemma_connected_step, lemma_region_index_bound,
    lemma_same_index_iff_connected,
};
use crate::day12::model::{
    across, area, area_weight, behind, fence_weight, fenced, fences, height, in_grid, member,
    num_regions, perimeter, perimeter_price, region_index, runs, sides, sides_price,
    start_weight, step, total_perimeter_price, total_sides_price, wall, width, Side,
};
use crate::tally::{lemma_sum_to_le, lemma_sum_to_scaled, scaled};
use crate::tally::{
    ind, lemma_sum_rows_add, lemma_sum_rows_flat, lemma_sum_rows_le, lemma_sum_rows_ones,
    lemma_sum_rows_split, lemma_sum_rows_witness, lemma_sum_to_flat, lemma_sum_to_mono,
    lemma_sum_to_term, sum_rows, sum_to, without,
};
use vstd::prelude::*;

verus! {

/// The areas of the regions, by region number.
pub open spec fn areas(g: Seq<Seq<char>>) -> spec_fn(int) -> nat {
    |k: int| area(g, k as nat)
}

/// 1 on the cells whose region number is below `n`.
pub open spec fn below_weight(g: Seq<Seq<char>>, n: int) -> spec_fn(int, int) -> nat {
    |r: int, c: int| ind(region_index(g, (r, c)) < n)
}

/// The first `n` regions hold the cells whose region number is below `n`.
proof fn lemma_areas_below(g: Seq<Seq<char>>, n: int)
    requires
        0 <= n,
    ensures
        sum_to(areas(g), n) == sum_rows(below_weight(g, n), width(g), height(g)),
    decreases n,
{
    let w = width(g);
    let h = height(g);
    if n == 0 {
        let f = below_weight(g, 0);
        assert forall|r: int, c: int| 0 <= r < h && 0 <= c < w implies #[trigger] f(r, c) == 0 by {}
        lemma_sum_rows_flat(f, w, 0, h);
    } else {
        lemma_areas_below(g, n - 1);
        let f = below_weight(g, n - 1);
        let a = area_weight(g, (n - 1) as nat);
        let s = below_weight(g, n);
        assert forall|r: int, c: int| 0 <= r < h && 0 <= c < w implies #[trigger] s(r, c) == f(r, c)
            + a(r, c) by {}
        lemma_sum_rows_add(f, a, s, w, h);
    }
}

/// The areas of all regions add up to the number of cells of the grid.
pub proof fn areas_sum_to_cell_count(g: Seq<Seq<char>>)
    ensures
        sum_to(areas(g), num_regions(g) as int) == height(g) * width(g),
{
    let n = num_regions(g) as int;
    let w = width(g);
    let h = height(g);
    lemma_areas_below(g, n);
    let f = below_weight(g, n);
    assert forall|r: int, c: int| 0 <= r < h && 0 <= c < w implies #[trigger] f(r, c) == 1 by {
        lemma_region_index_bound(g, (r, c));
    }
    if w >= 0 {
        lemma_sum_rows_ones(f, w, h);
    }
}

/// On each side, a region has no more straight stretches of fence than unit
/// fences.
pub proof fn lemma_runs_le_fences(g: Seq<Seq<char>>, k: nat, s: Side)
    ensures
        runs(g, k, s) <= fences(g, k, s),
{
    let f = start_weight(g, k, s);
    let t = fence_weight(g, k, s);
    assert forall|r: int, c: int| 0 <= r < height(g) && 0 <= c < width(g) implies #[trigger] f(r, c)
        <= t(r, c) by {}
    lemma_sum_rows_le(f, t, width(g), height(g));
}

/// On each side, a region has no more unit fences than cells.
pub proof fn lemma_fences_le_area(g: Seq<Seq<char>>, k: nat, s: Side)
    ensures
        fences(g, k, s) <= area(g, k),
{
    let f = fence_weight(g, k, s);
    let t = area_weight(g, k);
    assert forall|r: int, c: int| 0 <= r < height(g) && 0 <= c < width(g) implies #[trigger] f(r, c)
        <= t(r, c) by {}
    lemma_sum_rows_le(f, t, width(g), height(g));
}

/// A region has no more sides than its perimeter is long.
pub proof fn sides_at_most_perimeter(g: Seq<Seq<char>>, k: nat)
    ensures
        sides(g, k) <= perimeter(g, k),
{
    lemma_runs_le_fences(g, k, Side::Top);
    lemma_runs_le_fences(g, k, Side::Right);
    lemma_runs_le_fences(g, k, Side::Down);
    lemma_runs_le_fences(g, k, Side::Left);
}

/// A region's perimeter is at most four times its area.
pub proof fn lemma_perimeter_le_area(g: Seq<Seq<char>>, k: nat)
    ensures
        perimeter(g, k) <= 4 * area(g, k),
        sides(g, k) <= 4 * area(g, k),
{
    sides_at_most_perimeter(g, k);
    lemma_fences_le_area(g, k, Side::Top);
    lemma_fences_le_area(g, k, Side::Right);
    lemma_fences_le_area(g, k, Side::Down);
    lemma_fences_le_area(g, k, Side::Left);
}

/// A region has no more cells than the grid.
pub proof fn lemma_cells_bound(g: Seq<Seq<char>>, k: nat)
    ensures
        area(g, k) <= height(g) * width(g),
{
    let f = area_weight(g, k);
    let one = |r: int, c: int| 1nat;
    lemma_sum_rows_le(f, one, width(g), height(g));
    if width(g) >= 0 {
        lemma_sum_rows_ones(one, width(g), height(g));
    }
}

/// A weight that sits on cell `p` alone sums to its value there.
proof fn lemma_lone_cell(f: spec_fn(int, int) -> nat, g: Seq<Seq<char>>, p: (int, int))
    requires
        in_grid(g, p),
        forall|r: int, c: int|
            0 <= r < height(g) && 0 <= c < width(g) && (r, c) != p ==> #[trigger] f(r, c) == 0,
    ensures
        sum_rows(f, width(g), height(g)) == f(p.0, p.1),
{
    let rest = without(f, p);
    lemma_sum_rows_split(f, width(g), height(g), p);
    assert forall|r: int, c: int| 0 <= r < height(g) && 0 <= c < width(g) implies #[trigger] rest(
        r,
        c,
    ) == 0 by {
        if (r, c) != p {
            assert(f(r, c) == 0);
        }
    }
    lemma_sum_rows_flat(rest, width(g), 0, height(g));
}

/// A region of one cell is fenced on all four sides, each fence a side of
/// its own: its perimeter is 4 and so is the number of its sides.
pub proof fn single_cell_region(g: Seq<Seq<char>>, k: nat)
    requires
        area(g, k) == 1,
    ensures
        perimeter(g, k) == 4,
        sides(g, k) == 4,
{
    let w = width(g);
    let h = height(g);
    let aw = area_weight(g, k);
    let p = lemma_sum_rows_witness(aw, w, h);
    assert(member(g, k, p));
    lemma_sum_rows_split(aw, w, h, p);
    let rest = without(aw, p);
    assert forall|r: int, c: int| 0 <= r < h && 0 <= c < w && (r, c) != p implies !#[trigger] member(
        g,
        k,
        (r, c),
    ) by {
        if member(g, k, (r, c)) {
            lemma_sum_rows_split(rest, w, h, (r, c));
            assert(rest(r, c) == 1);
        }
    }
    assert forall|s: Side| #[trigger] wall(g, p, s) by {
        let q = across(p, s);
        if !wall(g, p, s) {
            assert(step(g, p, q));
            lemma_connected_refl(g, p);
            lemma_connected_step(g, p, p, q);
            lemma_same_index_iff_connected(g, p, q);
            assert(member(g, k, (q.0, q.1)));
        }
    }
    assert forall|s: Side| #[trigger] fences(g, k, s) == 1 && runs(g, k, s) == 1 by {
        let f = fence_weight(g, k, s);
        let t = start_weight(g, k, s);
        assert(wall(g, p, s));
        let b = behind(p, s);
        assert(!fenced(g, k, b, s)) by {
            if in_grid(g, b) {
                assert(!member(g, k, (b.0, b.1)));
            }
        }
        assert forall|r: int, c: int| 0 <= r < h && 0 <= c < w && (r, c) != p implies #[trigger] f(
            r,
            c,
        ) == 0 && #[trigger] t(r, c) == 0 by {
            assert(!member(g, k, (r, c)));
        }
        lemma_lone_cell(f, g, p);
        lemma_lone_cell(t, g, p);
    }
    assert(fences(g, k, Side::Top) == 1 && runs(g, k, Side::Top) == 1);
    assert(fences(g, k, Side::Right) == 1 && runs(g, k, Side::Right) == 1);
    assert(fences(g, k, Side::Down) == 1 && runs(g, k, Side::Down) == 1);
    assert(fences(g, k, Side::Left) == 1 && runs(g, k, Side::Left) == 1);
}

/// A region number that no cell bears has no area.
pub proof fn lemma_unused_number(g: Seq<Seq<char>>, k: nat)
    requires
        forall|r: int, c: int|
            0 <= r < height(g) && 0 <= c < width(g) ==> !#[trigger] member(g, k, (r, c)),
    ensures
        area(g, k) == 0,
        perimeter(g, k) == 0,
        sides(g, k) == 0,
{
    let f = area_weight(g, k);
    assert forall|r: int, c: int| 0 <= r < height(g) && 0 <= c < width(g) implies #[trigger] f(r, c)
        == 0 by {
        assert(!member(g, k, (r, c)));
    }
    lemma_sum_rows_flat(f, width(g), 0, height(g));
    lemma_perimeter_le_area(g, k);
}

/// Numbers from the number of regions on are borne by no cell.
pub proof fn lemma_numbers_end(g: Seq<Seq<char>>, k: nat)
    requires
        k >= num_regions(g),
    ensures
        area(g, k) == 0,
        perimeter(g, k) == 0,
        sides(g, k) == 0,
{
    assert forall|r: int, c: int| 0 <= r < height(g) && 0 <= c < width(g) implies !#[trigger] member(
        g,
        k,
        (r, c),
    ) by {
        lemma_region_index_bound(g, (r, c));
    }
    lemma_unused_number(g, k);
}

/// No region's side count or price by sides exceeds the total price by sides.
pub proof fn lemma_sides_price_bounds(g: Seq<Seq<char>>, k: nat)
    ensures
        area(g, k) * sides(g, k) <= total_sides_price(g),
        sides(g, k) <= total_sides_price(g),
{
    if k >= num_regions(g) {
        lemma_numbers_end(g, k);
        assert(area(g, k) * sides(g, k) == 0) by (nonlinear_arith)
            requires
                area(g, k) == 0,
        ;
    } else {
        let f = sides_price(g);
        lemma_sum_to_term(f, num_regions(g) as int, k as int);
        assert(f(k as int) == area(g, k) * sides(g, k));
        lemma_perimeter_le_area(g, k);
        assert(sides(g, k) <= area(g, k) * sides(g, k)) by (nonlinear_arith)
            requires
                sides(g, k) <= 4 * area(g, k),
        ;
    }
}

/// No region's perimeter or price by perimeter exceeds the total price by
/// perimeter.
pub proof fn lemma_perimeter_price_bounds(g: Seq<Seq<char>>, k: nat)
    ensures
        area(g, k) * perimeter(g, k) <= total_perimeter_price(g),
        perimeter(g, k) <= total_perimeter_price(g),
{
    if k >= num_regions(g) {
        lemma_numbers_end(g, k);
        assert(area(g, k) * perimeter(g, k) == 0) by (nonlinear_arith)
            requires
                area(g, k) == 0,
        ;
    } else {
        let f = perimeter_price(g);
        lemma_sum_to_term(f, num_regions(g) as int, k as int);
        assert(f(k as int) == area(g, k) * perimeter(g, k));
        lemma_perimeter_le_area(g, k);
        assert(perimeter(g, k) <= area(g, k) * perimeter(g, k)) by (nonlinear_arith)
            requires
                perimeter(g, k) <= 4 * area(g, k),
        ;
    }
}

/// Summing prices over the first `n` region numbers gives the total as soon
/// as `n` passes every number that a cell bears; before that, no more.
pub proof fn lemma_price_sum(g: Seq<Seq<char>>, f: spec_fn(int) -> nat, n: int)
    requires
        0 <= n,
        forall|k: int| 0 <= k ==> #[trigger] f(k) <= area(g, k as nat) * 4 * area(g, k as nat),
    ensures
        sum_to(f, n) <= sum_to(f, num_regions(g) as int),
        (forall|r: int, c: int|
            0 <= r < height(g) && 0 <= c < width(g) ==> #[trigger] region_index(g, (r, c)) < n)
            ==> sum_to(f, n) == sum_to(f, num_regions(g) as int),
{
    let m = num_regions(g) as int;
    if n <= m {
        lemma_sum_to_mono(f, n, m);
        if forall|r: int, c: int|
            0 <= r < height(g) && 0 <= c < width(g) ==> #[trigger] region_index(g, (r, c)) < n {
            assert forall|k: int| n <= k < m implies #[trigger] f(k) == 0 by {
                assert forall|r: int, c: int|
                    0 <= r < height(g) && 0 <= c < width(g) implies !#[trigger] member(
                    g,
                    k as nat,
                    (r, c),
                ) by {
                    assert(region_index(g, (r, c)) < n);
                }
                lemma_unused_number(g, k as nat);
                assert(area(g, k as nat) * 4 * area(g, k as nat) == 0) by (nonlinear_arith)
                    requires
                        area(g, k as nat) == 0,
                ;
            }
            lemma_sum_to_flat(f, n, m);
        }
    } else {
        assert forall|k: int| m <= k < n implies #[trigger] f(k) == 0 by {
            lemma_numbers_end(g, k as nat);
            assert(area(g, k as nat) * 4 * area(g, k as nat) == 0) by (nonlinear_arith)
                requires
                    area(g, k as nat) == 0,
            ;
        }
        lemma_sum_to_flat(f, m, n);
    }
}

/// Neither total price exceeds four times the square of the number of
/// cells.
pub proof fn lemma_total_price_bound(g: Seq<Seq<char>>)
    ensures
        total_perimeter_price(g) <= 4 * (height(g) * width(g)) * (height(g) * width(g)),
        total_sides_price(g) <= 4 * (height(g) * width(g)) * (height(g) * width(g)),
{
    let n = num_regions(g) as int;
    let cells = height(g) * width(g);
    areas_sum_to_cell_count(g);
    assert(cells >= 0);
    let c = (4 * cells) as nat;
    let bound = scaled(areas(g), c);
    let by_perimeter = perimeter_price(g);
    let by_sides = sides_price(g);
    assert forall|k: int| 0 <= k < n implies #[trigger] by_perimeter(k) <= bound(k) by {
        let a = area(g, k as nat);
        let p = perimeter(g, k as nat);
        lemma_perimeter_le_area(g, k as nat);
        lemma_cells_bound(g, k as nat);
        assert(a * p <= c * a) by (nonlinear_arith)
            requires
                p <= 4 * a,
                a <= cells,
                c == 4 * cells,
        ;
    }
    assert forall|k: int| 0 <= k < n implies #[trigger] by_sides(k) <= bound(k) by {
        let a = area(g, k as nat);
        let s = sides(g, k as nat);
        lemma_perimeter_le_area(g, k as nat);
        lemma_cells_bound(g, k as nat);
        assert(a * s <= c * a) by (nonlinear_arith)
            requires
                s <= 4 * a,
                a <= cells,
                c == 4 * cells,
        ;
    }
    lemma_sum_to_le(by_perimeter, bound, n);
    lemma_sum_to_le(by_sides, bound, n);
    lemma_sum_to_scaled(areas(g), c, n);
    assert(c * cells == 4 * cells * cells) by (nonlinear_arith)
        requires
            c == 4 * cells,
    ;
}

} // verus!
