//! Facts about walks, regions and their first cells.

use crate::day12::model::{
    before, connected, height, in_grid, is_path, is_root, num_regions, region_index, root_of,
    root_weight, roots_before, step, symbol, width,
};
use crate::tally::{lemma_partial_le_total, lemma_sum_row_mono, lemma_sum_rows_mono, sum_row};
use vstd::prelude::*;

verus! {

/// Every cell is connected to itself.
pub proof fn lemma_connected_refl(g: Seq<Seq<char>>, a: (int, int))
    requires
        in_grid(g, a),
    ensures
        connected(g, a, a),
{
    let path = seq![a];
    assert(is_path(g, path) && path[0] == a && path.last() == a);
}

/// A walk can be extended by one more step.
pub proof fn lemma_connected_step(g: Seq<Seq<char>>, a: (int, int), b: (int, int), c: (int, int))
    requires
        connected(g, a, b),
        step(g, b, c),
    ensures
        connected(g, a, c),
{
    let path = choose|path: Seq<(int, int)>| #[trigger]
        is_path(g, path) && path[0] == a && path.last() == b;
    let longer = path.push(c);
    assert forall|i: int| 0 <= i < longer.len() - 1 implies step(
        g,
        #[trigger] longer[i],
        longer[i + 1],
    ) by {
        if i < path.len() - 1 {
            assert(step(g, path[i], path[i + 1]));
        }
    }
    assert(is_path(g, longer) && longer[0] == a && longer.last() == c);
}

/// Every cell of a walk lies in the grid and holds the symbol of the first.
proof fn lemma_path_cells(g: Seq<Seq<char>>, path: Seq<(int, int)>, i: int)
    requires
        is_path(g, path),
        0 <= i < path.len(),
    ensures
        in_grid(g, path[i]),
        symbol(g, path[i]) == symbol(g, path[0]),
    decreases i,
{
    if i > 0 {
        lemma_path_cells(g, path, i - 1);
        assert(step(g, path[i - 1], path[i - 1 + 1]));
    }
}

/// Connected cells lie in the grid and hold the same symbol.
pub proof fn lemma_connected_cells(g: Seq<Seq<char>>, a: (int, int), b: (int, int))
    requires
        connected(g, a, b),
    ensures
        in_grid(g, a),
        in_grid(g, b),
        symbol(g, a) == symbol(g, b),
{
    let path = choose|path: Seq<(int, int)>| #[trigger]
        is_path(g, path) && path[0] == a && path.last() == b;
    lemma_path_cells(g, path, path.len() - 1);
}

/// A walk can be taken backwards.
pub proof fn lemma_connected_sym(g: Seq<Seq<char>>, a: (int, int), b: (int, int))
    requires
        connected(g, a, b),
    ensures
        connected(g, b, a),
{
    let path = choose|path: Seq<(int, int)>| #[trigger]
        is_path(g, path) && path[0] == a && path.last() == b;
    let n = path.len() as int;
    let back = Seq::new(path.len(), |i: int| path[n - 1 - i]);
    lemma_path_cells(g, path, n - 1);
    assert forall|i: int| 0 <= i < back.len() - 1 implies step(g, #[trigger] back[i], back[i + 1]) by {
        let j = n - 2 - i;
        assert(step(g, path[j], path[j + 1]));
    }
    assert(is_path(g, back) && back[0] == b && back.last() == a);
}

/// Two walks that meet can be joined.
pub proof fn lemma_connected_trans(
    g: Seq<Seq<char>>,
    a: (int, int),
    b: (int, int),
    c: (int, int),
)
    requires
        connected(g, a, b),
        connected(g, b, c),
    ensures
        connected(g, a, c),
{
    let p = choose|path: Seq<(int, int)>| #[trigger]
        is_path(g, path) && path[0] == a && path.last() == b;
    let q = choose|path: Seq<(int, int)>| #[trigger]
        is_path(g, path) && path[0] == b && path.last() == c;
    let joined = p + q.drop_first();
    assert forall|i: int| 0 <= i < joined.len() - 1 implies step(
        g,
        #[trigger] joined[i],
        joined[i + 1],
    ) by {
        if i < p.len() - 1 {
            assert(step(g, p[i], p[i + 1]));
        } else {
            let j = i - (p.len() - 1);
            assert(step(g, q[j], q[j + 1]));
            assert(joined[i] == q[j]);
            assert(joined[i + 1] == q[j + 1]);
        }
    }
    assert(is_path(g, joined) && joined[0] == a && joined.last() == c);
}

/// A set of cells that no step leaves holds every cell of a walk that starts
/// in it.
proof fn lemma_closed_holds_path(
    g: Seq<Seq<char>>,
    inside: spec_fn((int, int)) -> bool,
    path: Seq<(int, int)>,
    i: int,
)
    requires
        forall|p: (int, int), q: (int, int)| inside(p) && #[trigger] step(g, p, q) ==> inside(q),
        is_path(g, path),
        inside(path[0]),
        0 <= i < path.len(),
    ensures
        inside(path[i]),
    decreases i,
{
    if i > 0 {
        lemma_closed_holds_path(g, inside, path, i - 1);
        assert(step(g, path[i - 1], path[i - 1 + 1]));
    }
}

/// A set of cells that no step leaves holds every cell connected to one of
/// its own.
pub proof fn lemma_closed_holds_connected(
    g: Seq<Seq<char>>,
    inside: spec_fn((int, int)) -> bool,
    a: (int, int),
    b: (int, int),
)
    requires
        forall|p: (int, int), q: (int, int)| inside(p) && #[trigger] step(g, p, q) ==> inside(q),
        inside(a),
        connected(g, a, b),
    ensures
        inside(b),
{
    let path = choose|path: Seq<(int, int)>| #[trigger]
        is_path(g, path) && path[0] == a && path.last() == b;
    lemma_closed_holds_path(g, inside, path, path.len() - 1);
}

/// Every cell is connected to the first cell of some region.
pub proof fn lemma_root_exists(g: Seq<Seq<char>>, p: (int, int)) -> (r: (int, int))
    requires
        in_grid(g, p),
    ensures
        is_root(g, r),
        connected(g, r, p),
    decreases p.0, p.1,
{
    if is_root(g, p) {
        lemma_connected_refl(g, p);
        p
    } else {
        let q = choose|q: (int, int)| #[trigger] connected(g, q, p) && before(q, p);
        lemma_connected_cells(g, q, p);
        let r = lemma_root_exists(g, q);
        lemma_connected_trans(g, r, q, p);
        r
    }
}

/// A region has only one first cell.
pub proof fn lemma_root_unique(g: Seq<Seq<char>>, a: (int, int), b: (int, int))
    requires
        is_root(g, a),
        is_root(g, b),
        connected(g, a, b),
    ensures
        a == b,
{
    lemma_connected_sym(g, a, b);
}

/// `root_of` names the first cell of the region of `p`.
pub proof fn lemma_root_of(g: Seq<Seq<char>>, p: (int, int))
    requires
        in_grid(g, p),
    ensures
        is_root(g, root_of(g, p)),
        connected(g, root_of(g, p), p),
{
    let r = lemma_root_exists(g, p);
}

/// The first cell of a region is the `root_of` each of its cells.
pub proof fn lemma_root_of_connected(g: Seq<Seq<char>>, s: (int, int), p: (int, int))
    requires
        is_root(g, s),
        connected(g, s, p),
    ensures
        root_of(g, p) == s,
{
    lemma_connected_cells(g, s, p);
    lemma_root_of(g, p);
    let r = root_of(g, p);
    lemma_connected_sym(g, r, p);
    lemma_connected_trans(g, s, p, r);
    lemma_root_unique(g, s, r);
}

/// Of two first cells, the earlier has fewer first cells before it.
pub proof fn lemma_roots_before_strict(g: Seq<Seq<char>>, a: (int, int), b: (int, int))
    requires
        is_root(g, a),
        in_grid(g, b),
        before(a, b),
    ensures
        roots_before(g, a) < roots_before(g, b),
{
    let f = root_weight(g);
    let w = width(g);
    assert(f(a.0, a.1) == 1);
    assert(sum_row(f, a.0, a.1 + 1) == sum_row(f, a.0, a.1) + f(a.0, a.1));
    if a.0 == b.0 {
        lemma_sum_row_mono(f, a.0, a.1 + 1, b.1);
    } else {
        lemma_sum_row_mono(f, a.0, a.1 + 1, w);
        lemma_sum_rows_mono(f, w, a.0 + 1, b.0);
    }
}

/// A region's number is below the number of regions.
pub proof fn lemma_region_index_bound(g: Seq<Seq<char>>, p: (int, int))
    requires
        in_grid(g, p),
    ensures
        region_index(g, p) < num_regions(g),
{
    lemma_root_of(g, p);
    let r = root_of(g, p);
    let f = root_weight(g);
    assert(f(r.0, r.1) == 1);
    assert(sum_row(f, r.0, r.1 + 1) == sum_row(f, r.0, r.1) + f(r.0, r.1));
    lemma_partial_le_total(f, width(g), height(g), r.0, r.1 + 1);
}

/// Two cells bear the same region number exactly when they are connected.
pub proof fn lemma_same_index_iff_connected(g: Seq<Seq<char>>, p: (int, int), q: (int, int))
    requires
        in_grid(g, p),
        in_grid(g, q),
    ensures
        region_index(g, p) == region_index(g, q) <==> connected(g, p, q),
{
    lemma_root_of(g, p);
    lemma_root_of(g, q);
    let rp = root_of(g, p);
    let rq = root_of(g, q);
    if connected(g, p, q) {
        lemma_connected_trans(g, rp, p, q);
        lemma_root_of_connected(g, rp, q);
    }
    if region_index(g, p) == region_index(g, q) {
        if before(rp, rq) {
            lemma_roots_before_strict(g, rp, rq);
        }
        if before(rq, rp) {
            lemma_roots_before_strict(g, rq, rp);
        }
        assert(rp == rq);
        lemma_connected_sym(g, rp, p);
        lemma_connected_trans(g, p, rp, q);
    }
}

} // verus!
