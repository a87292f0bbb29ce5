//! The mathematical model of a garden: a rectangular grid of symbols, its
//! regions, and the two ways of measuring a region's fence.

use crate::tally::{ind, sum_row, sum_rows, sum_to};
use vstd::prelude::*;

verus! {

/// The number of rows of `g`.
pub open spec fn height(g: Seq<Seq<char>>) -> int {
    g.len() as int
}

/// The number of columns of `g`: the length of its first row.
pub open spec fn width(g: Seq<Seq<char>>) -> int {
    if g.len() == 0 {
        0
    } else {
        g[0].len() as int
    }
}

/// Every row is as long as the first.
pub open spec fn rectangular(g: Seq<Seq<char>>) -> bool {
    forall|r: int| 0 <= r < g.len() ==> (#[trigger] g[r]).len() == g[0].len()
}

/// `p`, as (row, column), names a cell of `g`.
pub open spec fn in_grid(g: Seq<Seq<char>>, p: (int, int)) -> bool {
    0 <= p.0 < height(g) && 0 <= p.1 < width(g)
}

/// The symbol in cell `p`.
pub open spec fn symbol(g: Seq<Seq<char>>, p: (int, int)) -> char {
    g[p.0][p.1]
}

/// `a` and `b` share an edge.
pub open spec fn adjacent(a: (int, int), b: (int, int)) -> bool {
    ||| a.0 == b.0 && (a.1 == b.1 + 1 || b.1 == a.1 + 1)
    ||| a.1 == b.1 && (a.0 == b.0 + 1 || b.0 == a.0 + 1)
}

/// One move between neighbouring cells that hold the same symbol.
pub open spec fn step(g: Seq<Seq<char>>, a: (int, int), b: (int, int)) -> bool {
    in_grid(g, a) && in_grid(g, b) && adjacent(a, b) && symbol(g, a) == symbol(g, b)
}

/// A walk over the grid in which every move is a `step`.
pub open spec fn is_path(g: Seq<Seq<char>>, path: Seq<(int, int)>) -> bool {
    &&& path.len() > 0
    &&& in_grid(g, path[0])
    &&& forall|i: int| 0 <= i < path.len() - 1 ==> step(g, #[trigger] path[i], path[i + 1])
}

/// Some walk of equal-symbol moves leads from `a` to `b`: the two cells lie in
/// one region.
pub open spec fn connected(g: Seq<Seq<char>>, a: (int, int), b: (int, int)) -> bool {
    exists|path: Seq<(int, int)>| #[trigger] is_path(g, path) && path[0] == a && path.last() == b
}

/// `a` comes before `b` in reading order: rows top to bottom, each left to
/// right.
pub open spec fn before(a: (int, int), b: (int, int)) -> bool {
    a.0 < b.0 || (a.0 == b.0 && a.1 < b.1)
}

/// `p` is the first cell of its region in reading order.
pub open spec fn is_root(g: Seq<Seq<char>>, p: (int, int)) -> bool {
    in_grid(g, p) && forall|q: (int, int)| #[trigger] connected(g, q, p) ==> !before(q, p)
}

/// 1 on the first cell of each region, 0 elsewhere.
pub open spec fn root_weight(g: Seq<Seq<char>>) -> spec_fn(int, int) -> nat {
    |r: int, c: int| ind(is_root(g, (r, c)))
}

/// The number of regions whose first cell comes before position `p`.
pub open spec fn roots_before(g: Seq<Seq<char>>, p: (int, int)) -> nat {
    sum_rows(root_weight(g), width(g), p.0) + sum_row(root_weight(g), p.0, p.1)
}

/// The first cell of the region of `p`.
pub open spec fn root_of(g: Seq<Seq<char>>, p: (int, int)) -> (int, int) {
    choose|q: (int, int)| is_root(g, q) && connected(g, q, p)
}

/// The number of the region of `p`: regions are numbered from 0 in the reading
/// order of their first cells.
pub open spec fn region_index(g: Seq<Seq<char>>, p: (int, int)) -> nat {
    roots_before(g, root_of(g, p))
}

/// The number of regions of `g`.
pub open spec fn num_regions(g: Seq<Seq<char>>) -> nat {
    sum_rows(root_weight(g), width(g), height(g))
}

/// `p` lies in region `k`.
pub open spec fn member(g: Seq<Seq<char>>, k: nat, p: (int, int)) -> bool {
    region_index(g, p) == k
}

/// The four sides of a cell.
pub enum Side {
    Top,
    Right,
    Down,
    Left,
}

/// The cell across side `s` of `p`.
pub open spec fn across(p: (int, int), s: Side) -> (int, int) {
    match s {
        Side::Top => (p.0 - 1, p.1),
        Side::Right => (p.0, p.1 + 1),
        Side::Down => (p.0 + 1, p.1),
        Side::Left => (p.0, p.1 - 1),
    }
}

/// Side `s` of cell `p` carries a fence: the cell across it is outside the
/// grid or holds another symbol.
pub open spec fn wall(g: Seq<Seq<char>>, p: (int, int), s: Side) -> bool {
    !in_grid(g, across(p, s)) || symbol(g, across(p, s)) != symbol(g, p)
}

/// The cell that precedes `p` along a fence on side `s`: to the left for a top
/// or bottom fence, above for a left or right fence.
pub open spec fn behind(p: (int, int), s: Side) -> (int, int) {
    match s {
        Side::Top => (p.0, p.1 - 1),
        Side::Down => (p.0, p.1 - 1),
        Side::Left => (p.0 - 1, p.1),
        Side::Right => (p.0 - 1, p.1),
    }
}

/// `p` lies in region `k` and has a fence on side `s`.
pub open spec fn fenced(g: Seq<Seq<char>>, k: nat, p: (int, int), s: Side) -> bool {
    in_grid(g, p) && member(g, k, p) && wall(g, p, s)
}

/// A straight stretch of region `k`'s fence on side `s` begins at `p`.
pub open spec fn run_start(g: Seq<Seq<char>>, k: nat, p: (int, int), s: Side) -> bool {
    fenced(g, k, p, s) && !fenced(g, k, behind(p, s), s)
}

/// 1 on the cells of region `k`.
pub open spec fn area_weight(g: Seq<Seq<char>>, k: nat) -> spec_fn(int, int) -> nat {
    |r: int, c: int| ind(member(g, k, (r, c)))
}

/// 1 on the cells of region `k` that have a fence on side `s`.
pub open spec fn fence_weight(g: Seq<Seq<char>>, k: nat, s: Side) -> spec_fn(int, int) -> nat {
    |r: int, c: int| ind(fenced(g, k, (r, c), s))
}

/// 1 on the cells where a straight stretch of region `k`'s fence on side `s`
/// begins.
pub open spec fn start_weight(g: Seq<Seq<char>>, k: nat, s: Side) -> spec_fn(int, int) -> nat {
    |r: int, c: int| ind(run_start(g, k, (r, c), s))
}

/// The number of cells of region `k`.
pub open spec fn area(g: Seq<Seq<char>>, k: nat) -> nat {
    sum_rows(area_weight(g, k), width(g), height(g))
}

/// The number of unit fences on side `s` of region `k`.
pub open spec fn fences(g: Seq<Seq<char>>, k: nat, s: Side) -> nat {
    sum_rows(fence_weight(g, k, s), width(g), height(g))
}

/// The number of straight stretches of fence on side `s` of region `k`.
pub open spec fn runs(g: Seq<Seq<char>>, k: nat, s: Side) -> nat {
    sum_rows(start_weight(g, k, s), width(g), height(g))
}

/// The perimeter of region `k`: its unit fences, each counted on its own.
pub open spec fn perimeter(g: Seq<Seq<char>>, k: nat) -> nat {
    fences(g, k, Side::Top) + fences(g, k, Side::Right) + fences(g, k, Side::Down) + fences(
        g,
        k,
        Side::Left,
    )
}

/// The number of sides of region `k`: its fences with collinear neighbours
/// merged into one.
pub open spec fn sides(g: Seq<Seq<char>>, k: nat) -> nat {
    runs(g, k, Side::Top) + runs(g, k, Side::Right) + runs(g, k, Side::Down) + runs(
        g,
        k,
        Side::Left,
    )
}

/// Region `k`'s price by perimeter.
pub open spec fn perimeter_price(g: Seq<Seq<char>>) -> spec_fn(int) -> nat {
    |k: int| area(g, k as nat) * perimeter(g, k as nat)
}

/// Region `k`'s price by number of sides.
pub open spec fn sides_price(g: Seq<Seq<char>>) -> spec_fn(int) -> nat {
    |k: int| area(g, k as nat) * sides(g, k as nat)
}

/// The price of fencing every region, each at area times perimeter.
pub open spec fn total_perimeter_price(g: Seq<Seq<char>>) -> nat {
    sum_to(perimeter_price(g), num_regions(g) as int)
}

/// The price of fencing every region, each at area times number of sides.
pub open spec fn total_sides_price(g: Seq<Seq<char>>) -> nat {
    sum_to(sides_price(g), num_regions(g) as int)
}

} // verus!
