//! Hiking trails on a map of heights: a trail climbs from height 0 to
//! height 9, one step of height at each step to a neighbouring place.

use crate::graph::{
    add_edge, add_node, count_paths, graph_edges, graph_nodes, has_path, linked, new_graph, reach,
    simple_paths,
};
use crate::tally::ind;
use crate::text::{is_digit, lines, lines_of, texts};
use petgraph::graph::Graph;
use petgraph::Directed;
use vstd::prelude::*;

verus! {

/// The heights that a table of heights holds, row by row.
pub open spec fn heights(matrix: Seq<Vec<i32>>) -> Seq<Seq<i32>> {
    Seq::new(matrix.len(), |r: int| matrix[r]@)
}

/// The map has a row and every row is as long as the first.
pub open spec fn wf(m: Seq<Seq<i32>>) -> bool {
    &&& m.len() > 0
    &&& forall|r: int| 0 <= r < m.len() ==> (#[trigger] m[r]).len() == m[0].len()
}

/// The width of the map.
pub open spec fn width(m: Seq<Seq<i32>>) -> int {
    m[0].len() as int
}

/// `p`, as (row, column), is a place of the map.
pub open spec fn on_map(m: Seq<Seq<i32>>, p: (int, int)) -> bool {
    0 <= p.0 < m.len() && 0 <= p.1 < width(m)
}

/// The number of the place `p` on a map `w` wide: places are numbered from
/// 0 in reading order.
pub open spec fn cell_id(w: int, p: (int, int)) -> int {
    p.0 * w + p.1
}

/// The step that direction `k` takes: right, down, left, up for 0 to 3.
pub open spec fn dir(k: int) -> (int, int) {
    if k == 0 {
        (0, 1)
    } else if k == 1 {
        (1, 0)
    } else if k == 2 {
        (0, -1)
    } else {
        (-1, 0)
    }
}

/// The neighbour of `p` in direction `k`.
pub open spec fn toward(p: (int, int), k: int) -> (int, int) {
    (p.0 + dir(k).0, p.1 + dir(k).1)
}

/// The neighbour of `p` in direction `k` lies on the map and one higher
/// than `p`.
pub open spec fn climbs(m: Seq<Seq<i32>>, p: (int, int), k: int) -> bool {
    0 <= k < 4 && on_map(m, p) && on_map(m, toward(p, k)) && m[toward(p, k).0][toward(p, k).1]
        - m[p.0][p.1] == 1
}

/// `a` is the number of `p` and `b` that of its neighbour in direction `k`,
/// which lies one higher.
pub open spec fn step_of(m: Seq<Seq<i32>>, p: (int, int), k: int, a: int, b: int) -> bool {
    climbs(m, p, k) && a == cell_id(width(m), p) && b == cell_id(width(m), toward(p, k))
}

/// The relation "the place numbered `b` is a neighbour of the place
/// numbered `a` and lies one higher".
pub open spec fn climb(m: Seq<Seq<i32>>) -> spec_fn(int, int) -> bool {
    |a: int, b: int| exists|p: (int, int), k: int| #[trigger] step_of(m, p, k, a, b)
}

/// `p` comes before `q` in reading order.
pub open spec fn earlier(p: (int, int), q: (int, int)) -> bool {
    p.0 < q.0 || (p.0 == q.0 && p.1 < q.1)
}

/// The numbers of the places of row `y` left of column `x` that lie at
/// height `v`, from left to right.
pub open spec fn row_ids(m: Seq<Seq<i32>>, v: i32, y: int, x: int) -> Seq<int>
    decreases x,
{
    if x <= 0 {
        Seq::empty()
    } else if m[y][x - 1] == v {
        row_ids(m, v, y, x - 1).push(cell_id(width(m), (y, x - 1)))
    } else {
        row_ids(m, v, y, x - 1)
    }
}

/// The numbers of the places above row `y` that lie at height `v`, in
/// reading order.
pub open spec fn ids_at(m: Seq<Seq<i32>>, v: i32, y: int) -> Seq<int>
    decreases y,
{
    if y <= 0 {
        Seq::empty()
    } else {
        ids_at(m, v, y - 1) + row_ids(m, v, y - 1, width(m))
    }
}

/// The numbers that `ids` holds.
pub open spec fn as_ints(ids: Seq<usize>) -> Seq<int> {
    Seq::new(ids.len(), |i: int| ids[i] as int)
}

/// The place `p` of the map bears the number `id` and lies at height `v`.
pub open spec fn spot_of(m: Seq<Seq<i32>>, p: (int, int), id: int, v: i32) -> bool {
    on_map(m, p) && cell_id(width(m), p) == id && m[p.0][p.1] == v
}

/// The place numbered `id` lies at height `v`.
pub open spec fn is_height(m: Seq<Seq<i32>>, id: int, v: i32) -> bool {
    exists|p: (int, int)| #[trigger] spot_of(m, p, id, v)
}

/// Places on one map have different numbers.
pub proof fn lemma_cell_id(w: int, p: (int, int), q: (int, int))
    requires
        0 <= p.1 < w,
        0 <= q.1 < w,
        cell_id(w, p) == cell_id(w, q),
    ensures
        p == q,
{
    assert(p.0 == q.0) by (nonlinear_arith)
        requires
            0 <= p.1 < w,
            0 <= q.1 < w,
            p.0 * w + p.1 == q.0 * w + q.1,
    ;
}

/// The number of a place is below the number of places of the map.
pub proof fn lemma_cell_id_bound(h: int, w: int, p: (int, int))
    requires
        0 <= p.0 < h,
        0 <= p.1 < w,
    ensures
        0 <= cell_id(w, p) < h * w,
        cell_id(w, (p.0 + 1, 0)) == cell_id(w, (p.0, w)),
{
    assert(0 <= p.0 * w + p.1 < h * w) by (nonlinear_arith)
        requires
            0 <= p.0 < h,
            0 <= p.1 < w,
    ;
    assert((p.0 + 1) * w + 0 == p.0 * w + w) by (nonlinear_arith);
}

/// The edge of direction `k` from the place `p` has been added when the
/// scan stands at the place `cur` and direction `kk`.
pub open spec fn emitted(p: (int, int), k: int, cur: (int, int), kk: int) -> bool {
    earlier(p, cur) || (p == cur && k < kk)
}

/// The edge `e` is a step one higher that has been added when the scan
/// stands at the place `cur` and direction `kk`.
pub open spec fn justified(m: Seq<Seq<i32>>, e: (int, int), cur: (int, int), kk: int) -> bool {
    exists|p: (int, int), k: int| #[trigger] step_of(m, p, k, e.0, e.1) && emitted(p, k, cur, kk)
}

/// `edges` holds the steps one higher that have been added when the scan
/// stands at the place `cur` and direction `kk`, each once.
pub open spec fn edges_upto(m: Seq<Seq<i32>>, edges: Seq<(int, int)>, cur: (int, int), kk: int) -> bool {
    &&& edges.no_duplicates()
    &&& forall|i: int| 0 <= i < edges.len() ==> justified(m, #[trigger] edges[i], cur, kk)
    &&& forall|p: (int, int), k: int|
        #![trigger climbs(m, p, k)]
        climbs(m, p, k) && emitted(p, k, cur, kk) ==> edges.contains(
            (cell_id(width(m), p), cell_id(width(m), toward(p, k))),
        )
}

/// One more direction of the scan: the edge is added exactly where the
/// neighbour lies one higher.
pub proof fn lemma_edges_step(
    m: Seq<Seq<i32>>,
    before: Seq<(int, int)>,
    after: Seq<(int, int)>,
    cur: (int, int),
    kk: int,
)
    requires
        wf(m),
        on_map(m, cur),
        0 <= kk < 4,
        edges_upto(m, before, cur, kk),
        climbs(m, cur, kk) ==> after == before.push(
            (cell_id(width(m), cur), cell_id(width(m), toward(cur, kk))),
        ),
        !climbs(m, cur, kk) ==> after == before,
    ensures
        edges_upto(m, after, cur, kk + 1),
{
    let w = width(m);
    if climbs(m, cur, kk) {
        let e = (cell_id(w, cur), cell_id(w, toward(cur, kk)));
        if before.contains(e) {
            let i = choose|i: int| 0 <= i < before.len() && before[i] == e;
            assert(justified(m, before[i], cur, kk));
            let (p, k) = choose|p: (int, int), k: int|
                #[trigger] step_of(m, p, k, before[i].0, before[i].1) && emitted(p, k, cur, kk);
            lemma_cell_id(w, p, cur);
            lemma_cell_id(w, toward(p, k), toward(cur, kk));
            assert(false);
        }
        assert forall|i: int, j: int| 0 <= i < j < after.len() implies after[i] != after[j] by {
            if j == before.len() {
                assert(before.contains(after[i]));
            }
        }
        assert forall|i: int| 0 <= i < after.len() implies justified(
            m,
            #[trigger] after[i],
            cur,
            kk + 1,
        ) by {
            if i < before.len() {
                assert(justified(m, before[i], cur, kk));
                let (p, k) = choose|p: (int, int), k: int|
                    #[trigger] step_of(m, p, k, before[i].0, before[i].1) && emitted(p, k, cur, kk);
                assert(step_of(m, p, k, after[i].0, after[i].1) && emitted(p, k, cur, kk + 1));
            } else {
                assert(step_of(m, cur, kk, after[i].0, after[i].1) && emitted(cur, kk, cur, kk + 1));
            }
        }
        assert forall|p: (int, int), k: int|
            #![trigger climbs(m, p, k)]
            climbs(m, p, k) && emitted(p, k, cur, kk + 1) implies after.contains(
            (cell_id(w, p), cell_id(w, toward(p, k))),
        ) by {
            let f = (cell_id(w, p), cell_id(w, toward(p, k)));
            if emitted(p, k, cur, kk) {
                let i = choose|i: int| 0 <= i < before.len() && before[i] == f;
                assert(after[i] == f);
            } else {
                assert(after[before.len() as int] == f);
            }
        }
    } else {
        assert forall|i: int| 0 <= i < after.len() implies justified(
            m,
            #[trigger] after[i],
            cur,
            kk + 1,
        ) by {
            assert(justified(m, before[i], cur, kk));
            let (p, k) = choose|p: (int, int), k: int|
                #[trigger] step_of(m, p, k, before[i].0, before[i].1) && emitted(p, k, cur, kk);
            assert(step_of(m, p, k, after[i].0, after[i].1) && emitted(p, k, cur, kk + 1));
        }
    }
}

/// What has been added when the scan has done with a place has been added
/// when it stands at the next.
pub proof fn lemma_edges_next(
    m: Seq<Seq<i32>>,
    edges: Seq<(int, int)>,
    cur: (int, int),
    next: (int, int),
)
    requires
        edges_upto(m, edges, cur, 4),
        on_map(m, cur),
        next == (cur.0, cur.1 + 1) || (cur.1 + 1 == width(m) && next == (cur.0 + 1, 0int)),
    ensures
        edges_upto(m, edges, next, 0),
{
    assert forall|i: int| 0 <= i < edges.len() implies justified(m, #[trigger] edges[i], next, 0) by {
        assert(justified(m, edges[i], cur, 4));
        let (p, k) = choose|p: (int, int), k: int|
            #[trigger] step_of(m, p, k, edges[i].0, edges[i].1) && emitted(p, k, cur, 4);
        assert(step_of(m, p, k, edges[i].0, edges[i].1) && emitted(p, k, next, 0));
    }
    assert forall|p: (int, int), k: int|
        #![trigger climbs(m, p, k)]
        climbs(m, p, k) && emitted(p, k, next, 0) implies edges.contains(
        (cell_id(width(m), p), cell_id(width(m), toward(p, k))),
    ) by {
        assert(emitted(p, k, cur, 4));
    }
}

/// A list of all the steps one higher, each once, is the relation
/// `climb`.
pub proof fn lemma_edges_all(m: Seq<Seq<i32>>, edges: Seq<(int, int)>)
    requires
        wf(m),
        edges_upto(m, edges, (m.len() as int, 0), 0),
    ensures
        linked(edges) == climb(m),
{
    let end = (m.len() as int, 0int);
    assert forall|a: int, b: int| #[trigger] linked(edges)(a, b) == climb(m)(a, b) by {
        if edges.contains((a, b)) {
            let i = choose|i: int| 0 <= i < edges.len() && edges[i] == (a, b);
            assert(justified(m, edges[i], end, 0));
            let (p, k) = choose|p: (int, int), k: int|
                #[trigger] step_of(m, p, k, edges[i].0, edges[i].1) && emitted(p, k, end, 0);
            assert(step_of(m, p, k, a, b));
        }
        if climb(m)(a, b) {
            let (p, k) = choose|p: (int, int), k: int| #[trigger] step_of(m, p, k, a, b);
            assert(climbs(m, p, k) && emitted(p, k, end, 0));
        }
    }
    assert(linked(edges) =~= climb(m));
}

/// The graph of the map: a node for each place, numbered in reading order
/// and weighted with its number, and an edge from each place to each
/// neighbour that lies one higher. With the graph come the numbers of the
/// places at height 0 and of those at height 9, each in reading order.
pub fn build_graph(matrix: Vec<Vec<i32>>) -> (built: (
    Graph<usize, u32, Directed, u32>,
    Vec<usize>,
    Vec<usize>,
))
    requires
        wf(heights(matrix@)),
        matrix.len() * width(heights(matrix@)) * 4 < u32::MAX,
    ensures
        graph_nodes(built.0).len() == matrix.len() * width(heights(matrix@)),
        linked(graph_edges(built.0)) == climb(heights(matrix@)),
        graph_edges(built.0).no_duplicates(),
        as_ints(built.1@) == ids_at(heights(matrix@), 0, matrix.len() as int),
        as_ints(built.2@) == ids_at(heights(matrix@), 9, matrix.len() as int),
        forall|i: int|
            0 <= i < built.1.len() ==> is_height(heights(matrix@), #[trigger] built.1[i] as int, 0),
        forall|i: int|
            0 <= i < built.2.len() ==> is_height(heights(matrix@), #[trigger] built.2[i] as int, 9),
{
    let ghost m = heights(matrix@);
    proof {
        assert(m[0] == matrix[0]@);
    }
    let m_len = matrix.len();
    let m_wid = matrix[0].len();
    let ghost w = m_wid as int;
    let ghost h = m_len as int;
    let mut graph = new_graph();
    let mut trailheads: Vec<usize> = Vec::new();
    let mut trailends: Vec<usize> = Vec::new();
    let mut g_ids: Vec<Vec<(i32, usize)>> = Vec::new();
    let mut y: usize = 0;
    proof {
        assert(as_ints(trailheads@) =~= ids_at(m, 0, 0));
        assert(as_ints(trailends@) =~= ids_at(m, 9, 0));
        assert(0 * w == 0) by (nonlinear_arith);
    }
    while y < m_len
        invariant
            m == heights(matrix@),
            wf(m),
            h == m.len(),
            w == width(m),
            m_len == h,
            m_wid == w,
            h * w * 4 < u32::MAX,
            y <= m_len,
            graph_nodes(graph).len() == y * w,
            graph_edges(graph).len() == 0,
            g_ids.len() == y,
            forall|r: int| 0 <= r < y ==> (#[trigger] g_ids[r]).len() == w,
            forall|r: int, c: int|
                0 <= r < y && 0 <= c < w ==> (#[trigger] g_ids[r][c]) == (
                    m[r][c],
                    cell_id(w, (r, c)) as usize,
                ),
            as_ints(trailheads@) == ids_at(m, 0, y as int),
            as_ints(trailends@) == ids_at(m, 9, y as int),
            forall|i: int| 0 <= i < trailheads.len() ==> is_height(m, #[trigger] trailheads[i] as int, 0),
            forall|i: int| 0 <= i < trailends.len() ==> is_height(m, #[trigger] trailends[i] as int, 9),
        decreases m_len - y,
    {
        let row = &matrix[y];
        proof {
            assert(m[y as int] == matrix[y as int]@);
        }
        let mut g_id_row: Vec<(i32, usize)> = Vec::new();
        let mut x: usize = 0;
        proof {
            assert(as_ints(trailheads@) + Seq::<int>::empty() =~= as_ints(trailheads@));
            assert(as_ints(trailends@) + Seq::<int>::empty() =~= as_ints(trailends@));
        }
        while x < row.len()
            invariant
                m == heights(matrix@),
                wf(m),
                h == m.len(),
                w == width(m),
                m_len == h,
                m_wid == w,
                h * w * 4 < u32::MAX,
                y < m_len,
                row@ == m[y as int],
                x <= row.len(),
                forall|i: int|
                    0 <= i < trailheads.len() ==> is_height(m, #[trigger] trailheads[i] as int, 0),
                forall|i: int|
                    0 <= i < trailends.len() ==> is_height(m, #[trigger] trailends[i] as int, 9),
                graph_nodes(graph).len() == y * w + x,
                graph_edges(graph).len() == 0,
                g_id_row.len() == x,
                forall|c: int|
                    0 <= c < x ==> (#[trigger] g_id_row[c]) == (
                        m[y as int][c],
                        cell_id(w, (y as int, c)) as usize,
                    ),
                as_ints(trailheads@) == ids_at(m, 0, y as int) + row_ids(m, 0, y as int, x as int),
                as_ints(trailends@) == ids_at(m, 9, y as int) + row_ids(m, 9, y as int, x as int),
            decreases row.len() - x,
        {
            let val = row[x];
            proof {
                lemma_cell_id_bound(h, w, (y as int, x as int));
                assert(h * w <= h * w * 4) by (nonlinear_arith)
                    requires
                        h * w >= 0,
                ;
            }
            let m_id = y * m_wid + x;
            let ghost heads_before = as_ints(trailheads@);
            let ghost ends_before = as_ints(trailends@);
            let graph_id = add_node(&mut graph, m_id);
            let ghost old_heads = trailheads@;
            let ghost old_ends = trailends@;
            if val == 0 {
                trailheads.push(graph_id);
                proof {
                    assert(as_ints(trailheads@) =~= heads_before.push(graph_id as int));
                    assert(spot_of(m, (y as int, x as int), graph_id as int, 0));
                    assert forall|i: int| 0 <= i < trailheads.len() implies is_height(
                        m,
                        #[trigger] trailheads[i] as int,
                        0,
                    ) by {
                        if i < old_heads.len() {
                            assert(trailheads[i] == old_heads[i]);
                        }
                    }
                }
            } else if val == 9 {
                trailends.push(graph_id);
                proof {
                    assert(as_ints(trailends@) =~= ends_before.push(graph_id as int));
                    assert(spot_of(m, (y as int, x as int), graph_id as int, 9));
                    assert forall|i: int| 0 <= i < trailends.len() implies is_height(
                        m,
                        #[trigger] trailends[i] as int,
                        9,
                    ) by {
                        if i < old_ends.len() {
                            assert(trailends[i] == old_ends[i]);
                        }
                    }
                }
            }
            proof {
                let id = cell_id(w, (y as int, x as int));
                assert(row_ids(m, 0, y as int, x + 1) == if val == 0 {
                    row_ids(m, 0, y as int, x as int).push(id)
                } else {
                    row_ids(m, 0, y as int, x as int)
                });
                assert(row_ids(m, 9, y as int, x + 1) == if val == 9 {
                    row_ids(m, 9, y as int, x as int).push(id)
                } else {
                    row_ids(m, 9, y as int, x as int)
                });
                assert(as_ints(trailheads@) =~= ids_at(m, 0, y as int) + row_ids(
                    m,
                    0,
                    y as int,
                    x + 1,
                ));
                assert(as_ints(trailends@) =~= ids_at(m, 9, y as int) + row_ids(
                    m,
                    9,
                    y as int,
                    x + 1,
                ));
            }
            g_id_row.push((val, graph_id));
            x += 1;
        }
        proof {
            assert((y + 1) * w == y * w + w) by (nonlinear_arith);
        }
        g_ids.push(g_id_row);
        y += 1;
    }
    let mut y: usize = 0;
    proof {
        assert(graph_edges(graph) =~= Seq::<(int, int)>::empty());
        assert(0 * w == 0) by (nonlinear_arith);
    }
    while y < m_len
        invariant
            wf(m),
            h == m.len(),
            w == width(m),
            m_len == h,
            m_wid == w,
            h * w * 4 < u32::MAX,
            y <= m_len,
            graph_nodes(graph).len() == h * w,
            g_ids.len() == h,
            forall|r: int| 0 <= r < h ==> (#[trigger] g_ids[r]).len() == w,
            forall|r: int, c: int|
                0 <= r < h && 0 <= c < w ==> (#[trigger] g_ids[r][c]) == (
                    m[r][c],
                    cell_id(w, (r, c)) as usize,
                ),
            edges_upto(m, graph_edges(graph), (y as int, 0), 0),
            graph_edges(graph).len() <= 4 * (y * w),
        decreases m_len - y,
    {
        let mut x: usize = 0;
        while x < m_wid
            invariant
                wf(m),
                h == m.len(),
                w == width(m),
                m_len == h,
                m_wid == w,
                h * w * 4 < u32::MAX,
                y < m_len,
                x <= m_wid,
                graph_nodes(graph).len() == h * w,
                g_ids.len() == h,
                forall|r: int| 0 <= r < h ==> (#[trigger] g_ids[r]).len() == w,
                forall|r: int, c: int|
                    0 <= r < h && 0 <= c < w ==> (#[trigger] g_ids[r][c]) == (
                        m[r][c],
                        cell_id(w, (r, c)) as usize,
                    ),
                x < m_wid ==> edges_upto(m, graph_edges(graph), (y as int, x as int), 0),
                x == m_wid ==> edges_upto(m, graph_edges(graph), (y + 1, 0), 0),
                graph_edges(graph).len() <= 4 * (y * w + x),
            decreases m_wid - x,
        {
            let (val, g_id) = g_ids[y][x];
            let ghost cur = (y as int, x as int);
            proof {
                lemma_cell_id_bound(h, w, cur);
                assert(4 * (y * w + x) + 4 <= h * w * 4) by (nonlinear_arith)
                    requires
                        y * w + x < h * w,
                ;
                assert(m[y as int].len() == w);
            }
            let ghost e0 = graph_edges(graph);
            if x + 1 < m_wid {
                let (next_val, next_id) = g_ids[y][x + 1];
                proof {
                    lemma_cell_id_bound(h, w, (y as int, x + 1));
                }
                let weight: i64 = next_val as i64 - val as i64;
                if weight == 1 {
                    add_edge(&mut graph, g_id, next_id, 1);
                }
            }
            let ghost e1 = graph_edges(graph);
            proof {
                assert(toward(cur, 0) == (y as int, x + 1));
                lemma_edges_step(m, e0, e1, cur, 0);
            }
            if y + 1 < m_len {
                let (next_val, next_id) = g_ids[y + 1][x];
                proof {
                    lemma_cell_id_bound(h, w, (y + 1, x as int));
                    assert(m[y + 1].len() == w);
                }
                let weight: i64 = next_val as i64 - val as i64;
                if weight == 1 {
                    add_edge(&mut graph, g_id, next_id, 1);
                }
            }
            let ghost e2 = graph_edges(graph);
            proof {
                assert(toward(cur, 1) == (y + 1, x as int));
                lemma_edges_step(m, e1, e2, cur, 1);
            }
            if x > 0 {
                let (next_val, next_id) = g_ids[y][x - 1];
                proof {
                    lemma_cell_id_bound(h, w, (y as int, x - 1));
                }
                let weight: i64 = next_val as i64 - val as i64;
                if weight == 1 {
                    add_edge(&mut graph, g_id, next_id, 1);
                }
            }
            let ghost e3 = graph_edges(graph);
            proof {
                assert(toward(cur, 2) == (y as int, x - 1));
                lemma_edges_step(m, e2, e3, cur, 2);
            }
            if y > 0 {
                let (next_val, next_id) = g_ids[y - 1][x];
                proof {
                    lemma_cell_id_bound(h, w, (y - 1, x as int));
                    assert(m[y - 1].len() == w);
                }
                let weight: i64 = next_val as i64 - val as i64;
                if weight == 1 {
                    add_edge(&mut graph, g_id, next_id, 1);
                }
            }
            proof {
                assert(toward(cur, 3) == (y - 1, x as int));
                lemma_edges_step(m, e3, graph_edges(graph), cur, 3);
                if x + 1 < m_wid {
                    lemma_edges_next(m, graph_edges(graph), cur, (y as int, x + 1));
                } else {
                    lemma_edges_next(m, graph_edges(graph), cur, (y + 1, 0int));
                }
            }
            x += 1;
        }
        proof {
            assert((y + 1) * w == y * w + w) by (nonlinear_arith);
            if m_wid == 0 {
                lemma_edges_empty_row(m, graph_edges(graph), y as int);
            }
        }
        y += 1;
    }
    proof {
        lemma_edges_all(m, graph_edges(graph));
    }
    (graph, trailheads, trailends)
}

/// On a map without columns, what has been added before a row has been
/// added before the next.
proof fn lemma_edges_empty_row(m: Seq<Seq<i32>>, edges: Seq<(int, int)>, y: int)
    requires
        width(m) == 0,
        edges_upto(m, edges, (y, 0), 0),
    ensures
        edges_upto(m, edges, (y + 1, 0), 0),
{
    assert forall|i: int| 0 <= i < edges.len() implies justified(m, #[trigger] edges[i], (y + 1, 0), 0) by {
        assert(justified(m, edges[i], (y, 0), 0));
        let (p, k) = choose|p: (int, int), k: int|
            #[trigger] step_of(m, p, k, edges[i].0, edges[i].1) && emitted(p, k, (y, 0), 0);
        assert(step_of(m, p, k, edges[i].0, edges[i].1) && emitted(p, k, (y + 1, 0), 0));
    }
}

/// The scores that `judge` gives to the trailhead `head` with each of
/// `ends`, added up.
pub open spec fn head_score(judge: spec_fn(int, int) -> nat, head: int, ends: Seq<int>) -> nat
    decreases ends.len(),
{
    if ends.len() == 0 {
        0
    } else {
        head_score(judge, head, ends.drop_last()) + judge(head, ends.last())
    }
}

/// The scores that `judge` gives to each of `heads` with each of `ends`,
/// added up.
pub open spec fn score_sum(judge: spec_fn(int, int) -> nat, heads: Seq<int>, ends: Seq<int>) -> nat
    decreases heads.len(),
{
    if heads.len() == 0 {
        0
    } else {
        score_sum(judge, heads.drop_last(), ends) + head_score(judge, heads.last(), ends)
    }
}

/// The scores of a part of the ends are no more than those of all.
proof fn lemma_head_score_prefix(judge: spec_fn(int, int) -> nat, head: int, ends: Seq<int>, n: int)
    requires
        0 <= n <= ends.len(),
    ensures
        head_score(judge, head, ends.take(n)) <= head_score(judge, head, ends),
    decreases ends.len() - n,
{
    if n < ends.len() {
        lemma_head_score_prefix(judge, head, ends, n + 1);
        assert(ends.take(n + 1).drop_last() =~= ends.take(n));
    } else {
        assert(ends.take(n) =~= ends);
    }
}

/// The scores of a part of the heads are no more than those of all.
proof fn lemma_score_sum_prefix(
    judge: spec_fn(int, int) -> nat,
    heads: Seq<int>,
    ends: Seq<int>,
    n: int,
)
    requires
        0 <= n <= heads.len(),
    ensures
        score_sum(judge, heads.take(n), ends) <= score_sum(judge, heads, ends),
    decreases heads.len() - n,
{
    if n < heads.len() {
        lemma_score_sum_prefix(judge, heads, ends, n + 1);
        assert(heads.take(n + 1).drop_last() =~= heads.take(n));
    } else {
        assert(heads.take(n) =~= heads);
    }
}

/// Two judges that agree on the heads and ends give the same scores.
proof fn lemma_head_score_same(
    a: spec_fn(int, int) -> nat,
    b: spec_fn(int, int) -> nat,
    head: int,
    ends: Seq<int>,
)
    requires
        forall|j: int| 0 <= j < ends.len() ==> a(head, #[trigger] ends[j]) == b(head, ends[j]),
    ensures
        head_score(a, head, ends) == head_score(b, head, ends),
    decreases ends.len(),
{
    if ends.len() > 0 {
        lemma_head_score_same(a, b, head, ends.drop_last());
        assert(a(head, ends[ends.len() - 1]) == b(head, ends[ends.len() - 1]));
    }
}

/// Two judges that agree on the heads and ends give the same total.
proof fn lemma_score_sum_same(
    a: spec_fn(int, int) -> nat,
    b: spec_fn(int, int) -> nat,
    heads: Seq<int>,
    ends: Seq<int>,
)
    requires
        forall|i: int, j: int|
            0 <= i < heads.len() && 0 <= j < ends.len() ==> a(#[trigger] heads[i], #[trigger] ends[j])
                == b(heads[i], ends[j]),
    ensures
        score_sum(a, heads, ends) == score_sum(b, heads, ends),
    decreases heads.len(),
{
    if heads.len() > 0 {
        lemma_score_sum_same(a, b, heads.drop_last(), ends);
        let head = heads[heads.len() - 1];
        assert forall|j: int| 0 <= j < ends.len() implies a(head, #[trigger] ends[j]) == b(
            head,
            ends[j],
        ) by {
            assert(a(heads[heads.len() - 1], ends[j]) == b(heads[heads.len() - 1], ends[j]));
        }
        lemma_head_score_same(a, b, head, ends);
    }
}

/// Whatever `score_fn` answers for a head and an end on `graph` is what
/// `judge` says.
pub open spec fn answers<F: Fn(&Graph<usize, u32, Directed, u32>, &usize, &usize) -> usize>(
    score_fn: F,
    graph: &Graph<usize, u32, Directed, u32>,
    judge: spec_fn(int, int) -> nat,
) -> bool {
    forall|head: usize, end: usize, score: usize|
        #[trigger] call_ensures(score_fn, (graph, &head, &end), score) ==> score == judge(
            head as int,
            end as int,
        )
}

/// The scores that `score_fn` gives on `graph` to each of `trailheads`
/// with each of `trailends`, added up.
pub fn count_scores<F: Fn(&Graph<usize, u32, Directed, u32>, &usize, &usize) -> usize>(
    trailheads: &[usize],
    trailends: &[usize],
    graph: &Graph<usize, u32, Directed, u32>,
    score_fn: F,
) -> (total: usize)
    requires
        forall|i: int, j: int|
            0 <= i < trailheads.len() && 0 <= j < trailends.len() ==> call_requires(
                score_fn,
                (graph, &#[trigger] trailheads[i], &#[trigger] trailends[j]),
            ),
        exists|judge: spec_fn(int, int) -> nat| #[trigger]
            answers(score_fn, graph, judge) && score_sum(
                judge,
                as_ints(trailheads@),
                as_ints(trailends@),
            ) <= usize::MAX,
    ensures
        forall|judge: spec_fn(int, int) -> nat| #[trigger]
            answers(score_fn, graph, judge) ==> total == score_sum(
                judge,
                as_ints(trailheads@),
                as_ints(trailends@),
            ),
{
    let ghost heads = as_ints(trailheads@);
    let ghost ends = as_ints(trailends@);
    let ghost known = choose|judge: spec_fn(int, int) -> nat| #[trigger]
        answers(score_fn, graph, judge) && score_sum(judge, heads, ends) <= usize::MAX;
    let mut total: usize = 0;
    let mut i: usize = 0;
    proof {
        assert(heads.take(0) =~= Seq::<int>::empty());
    }
    while i < trailheads.len()
        invariant
            heads == as_ints(trailheads@),
            ends == as_ints(trailends@),
            answers(score_fn, graph, known),
            score_sum(known, heads, ends) <= usize::MAX,
            forall|i: int, j: int|
                0 <= i < trailheads.len() && 0 <= j < trailends.len() ==> call_requires(
                    score_fn,
                    (graph, &#[trigger] trailheads[i], &#[trigger] trailends[j]),
                ),
            i <= trailheads.len(),
            total == score_sum(known, heads.take(i as int), ends),
            forall|judge: spec_fn(int, int) -> nat| #[trigger]
                answers(score_fn, graph, judge) ==> agree(known, judge, heads, ends, i as int, 0),
        decreases trailheads.len() - i,
    {
        let head_idx = &trailheads[i];
        let mut sum: usize = 0;
        let mut j: usize = 0;
        proof {
            assert(ends.take(0) =~= Seq::<int>::empty());
            lemma_score_sum_prefix(known, heads, ends, i + 1);
            assert(heads.take(i + 1).drop_last() =~= heads.take(i as int));
            assert(heads.take(i + 1).last() == *head_idx as int);
        }
        while j < trailends.len()
            invariant
                heads == as_ints(trailheads@),
                ends == as_ints(trailends@),
                answers(score_fn, graph, known),
                forall|i: int, j: int|
                    0 <= i < trailheads.len() && 0 <= j < trailends.len() ==> call_requires(
                        score_fn,
                        (graph, &#[trigger] trailheads[i], &#[trigger] trailends[j]),
                    ),
                i < trailheads.len(),
                *head_idx == trailheads[i as int],
                j <= trailends.len(),
                total + head_score(known, *head_idx as int, ends) <= usize::MAX,
                sum == head_score(known, *head_idx as int, ends.take(j as int)),
                forall|judge: spec_fn(int, int) -> nat| #[trigger]
                    answers(score_fn, graph, judge) ==> agree(
                        known,
                        judge,
                        heads,
                        ends,
                        i as int,
                        j as int,
                    ),
            decreases trailends.len() - j,
        {
            let end_idx = &trailends[j];
            proof {
                lemma_head_score_prefix(known, *head_idx as int, ends, j + 1);
                assert(ends.take(j + 1).drop_last() =~= ends.take(j as int));
                assert(ends.take(j + 1).last() == *end_idx as int);
            }
            let score = score_fn(graph, head_idx, end_idx);
            proof {
                assert(call_ensures(score_fn, (graph, &*head_idx, &*end_idx), score));
                assert forall|judge: spec_fn(int, int) -> nat| #[trigger]
                    answers(score_fn, graph, judge) implies agree(
                    known,
                    judge,
                    heads,
                    ends,
                    i as int,
                    j + 1,
                ) by {
                    assert(agree(known, judge, heads, ends, i as int, j as int));
                    assert(score == judge(*head_idx as int, *end_idx as int));
                    assert(score == known(*head_idx as int, *end_idx as int));
                }
            }
            sum = sum + score;
            j += 1;
        }
        proof {
            assert(ends.take(j as int) =~= ends);
            assert forall|judge: spec_fn(int, int) -> nat| #[trigger]
                answers(score_fn, graph, judge) implies agree(known, judge, heads, ends, i + 1, 0) by {
                assert(agree(known, judge, heads, ends, i as int, j as int));
            }
        }
        total = total + sum;
        i += 1;
    }
    proof {
        assert(heads.take(i as int) =~= heads);
        assert forall|judge: spec_fn(int, int) -> nat| #[trigger]
            answers(score_fn, graph, judge) implies total == score_sum(judge, heads, ends) by {
            assert(agree(known, judge, heads, ends, i as int, 0));
            lemma_score_sum_same(known, judge, heads, ends);
        }
    }
    total
}

/// The judges `a` and `b` agree on the pairs of a head and an end that
/// come before the pair `i`, `j`.
pub open spec fn agree(
    a: spec_fn(int, int) -> nat,
    b: spec_fn(int, int) -> nat,
    heads: Seq<int>,
    ends: Seq<int>,
    i: int,
    j: int,
) -> bool {
    forall|x: int, y: int|
        0 <= x < heads.len() && 0 <= y < ends.len() && (x < i || (x == i && y < j)) ==> a(
            #[trigger] heads[x],
            #[trigger] ends[y],
        ) == b(heads[x], ends[y])
}

/// The heights that the digits of the lines `ls` write.
pub open spec fn heights_of(ls: Seq<Seq<char>>) -> Seq<Seq<i32>> {
    Seq::new(
        ls.len(),
        |r: int| Seq::new(ls[r].len(), |c: int| (ls[r][c] as u32 - '0' as u32) as i32),
    )
}

/// Every character of the lines is a digit.
pub open spec fn is_map(ls: Seq<Seq<char>>) -> bool {
    forall|r: int, c: int| 0 <= r < ls.len() && 0 <= c < ls[r].len() ==> is_digit(#[trigger] ls[r][c])
}

/// The heights that `input` writes, a digit for each place and a line for
/// each row.
pub fn parse_to_matrix(input: &str) -> (matrix: Vec<Vec<i32>>)
    requires
        is_map(lines(input@)),
    ensures
        heights(matrix@) == heights_of(lines(input@)),
{
    let rows = lines_of(input);
    let ghost ls = lines(input@);
    proof {
        assert(texts(rows@).len() == rows.len());
        assert forall|r: int| 0 <= r < ls.len() implies (#[trigger] rows[r])@ == ls[r] by {
            assert(texts(rows@)[r] == rows[r]@);
        }
    }
    let mut matrix: Vec<Vec<i32>> = Vec::new();
    let mut y: usize = 0;
    while y < rows.len()
        invariant
            is_map(ls),
            rows.len() == ls.len(),
            forall|r: int| 0 <= r < ls.len() ==> (#[trigger] rows[r])@ == ls[r],
            y <= rows.len(),
            matrix.len() == y,
            forall|r: int| 0 <= r < y ==> (#[trigger] matrix[r])@ == heights_of(ls)[r],
        decreases rows.len() - y,
    {
        let line = &rows[y];
        let mut row: Vec<i32> = Vec::new();
        let mut x: usize = 0;
        while x < line.len()
            invariant
                is_map(ls),
                y < ls.len(),
                line@ == ls[y as int],
                x <= line.len(),
                row.len() == x,
                forall|c: int| 0 <= c < x ==> #[trigger] row[c] == heights_of(ls)[y as int][c],
            decreases line.len() - x,
        {
            let c = line[x];
            proof {
                assert(is_digit(ls[y as int][x as int]));
            }
            row.push((c as u32 - '0' as u32) as i32);
            x += 1;
        }
        proof {
            assert(row@ =~= heights_of(ls)[y as int]);
        }
        matrix.push(row);
        y += 1;
    }
    proof {
        assert(heights(matrix@) =~= heights_of(ls));
    }
    matrix
}

/// The judge that gives 1 where a trail leads from the one place to the
/// other, 0 elsewhere.
pub open spec fn by_reach(m: Seq<Seq<i32>>) -> spec_fn(int, int) -> nat {
    |head: int, end: int| ind(reach(climb(m), head, end))
}

/// The judge that gives the number of trails from the one place to the
/// other.
pub open spec fn by_trails(m: Seq<Seq<i32>>) -> spec_fn(int, int) -> nat {
    |head: int, end: int| simple_paths(climb(m), head, end).len()
}

/// The map is in shape and small enough for a graph whose nodes and edges
/// are numbered in 32 bits.
pub open spec fn fits_graph(m: Seq<Seq<i32>>) -> bool {
    wf(m) && m.len() * width(m) * 4 < u32::MAX
}

/// The numbers of the places at height `v` are numbers of places.
proof fn lemma_height_ids(m: Seq<Seq<i32>>, ids: Seq<usize>, v: i32)
    requires
        wf(m),
        forall|i: int| 0 <= i < ids.len() ==> is_height(m, #[trigger] ids[i] as int, v),
    ensures
        forall|i: int| 0 <= i < ids.len() ==> 0 <= #[trigger] ids[i] < m.len() * width(m),
{
    assert forall|i: int| 0 <= i < ids.len() implies 0 <= #[trigger] ids[i] < m.len() * width(m) by {
        assert(is_height(m, ids[i] as int, v));
        let p = choose|p: (int, int)| #[trigger] spot_of(m, p, ids[i] as int, v);
        lemma_cell_id_bound(m.len() as int, width(m), p);
    }
}

/// The sum, over the places at height 0, of the number of places at height
/// 9 to which a trail leads from there.
pub fn part1(input: &str) -> (total: usize)
    requires
        is_map(lines(input@)),
        fits_graph(heights_of(lines(input@))),
        score_sum(
            by_reach(heights_of(lines(input@))),
            ids_at(heights_of(lines(input@)), 0, lines(input@).len() as int),
            ids_at(heights_of(lines(input@)), 9, lines(input@).len() as int),
        ) <= usize::MAX,
    ensures
        total == score_sum(
            by_reach(heights_of(lines(input@))),
            ids_at(heights_of(lines(input@)), 0, lines(input@).len() as int),
            ids_at(heights_of(lines(input@)), 9, lines(input@).len() as int),
        ),
{
    let matrix = parse_to_matrix(input);
    let ghost m = heights_of(lines(input@));
    let (graph, trailheads, trailends) = build_graph(matrix);
    let score_fn = |graph: &Graph<usize, u32, Directed, u32>, head_idx: &usize, end_idx: &usize| -> (score: usize)
        requires
            *head_idx < graph_nodes(*graph).len(),
            *end_idx < graph_nodes(*graph).len(),
        ensures
            score == ind(reach(linked(graph_edges(*graph)), *head_idx as int, *end_idx as int)),
        {
            if has_path(graph, *head_idx, *end_idx) {
                1
            } else {
                0
            }
        };
    proof {
        lemma_height_ids(m, trailheads@, 0);
        lemma_height_ids(m, trailends@, 9);
        assert(answers(score_fn, &graph, by_reach(m)));
    }
    count_scores(trailheads.as_slice(), trailends.as_slice(), &graph, score_fn)
}

/// Machine words can count the trails from each place at height 0 to each
/// place at height 9, and their sum.
pub open spec fn can_rate(m: Seq<Seq<i32>>) -> bool {
    &&& score_sum(by_trails(m), ids_at(m, 0, m.len() as int), ids_at(m, 9, m.len() as int))
        <= usize::MAX
    &&& forall|head: int, end: int| #[trigger] simple_paths(climb(m), head, end).len() <= usize::MAX
}

/// The sum, over the places at height 0, of the number of trails that lead
/// from there to a place at height 9.
pub fn part2(input: &str) -> (total: usize)
    requires
        is_map(lines(input@)),
        fits_graph(heights_of(lines(input@))),
        can_rate(heights_of(lines(input@))),
    ensures
        total == score_sum(
            by_trails(heights_of(lines(input@))),
            ids_at(heights_of(lines(input@)), 0, lines(input@).len() as int),
            ids_at(heights_of(lines(input@)), 9, lines(input@).len() as int),
        ),
{
    let matrix = parse_to_matrix(input);
    let ghost m = heights_of(lines(input@));
    let (graph, trailheads, trailends) = build_graph(matrix);
    let score_fn = |graph: &Graph<usize, u32, Directed, u32>, head_idx: &usize, end_idx: &usize| -> (score: usize)
        requires
            *head_idx != *end_idx,
            *head_idx < graph_nodes(*graph).len(),
            *end_idx < graph_nodes(*graph).len(),
            graph_edges(*graph).no_duplicates(),
            simple_paths(linked(graph_edges(*graph)), *head_idx as int, *end_idx as int).len()
                <= usize::MAX,
        ensures
            score == simple_paths(
                linked(graph_edges(*graph)),
                *head_idx as int,
                *end_idx as int,
            ).len(),
        {
            count_paths(graph, *head_idx, *end_idx)
        };
    proof {
        lemma_height_ids(m, trailheads@, 0);
        lemma_height_ids(m, trailends@, 9);
        assert forall|i: int, j: int|
            0 <= i < trailheads.len() && 0 <= j < trailends.len() implies #[trigger] trailheads[i]
            != #[trigger] trailends[j] by {
            assert(is_height(m, trailheads[i] as int, 0));
            assert(is_height(m, trailends[j] as int, 9));
            let p = choose|p: (int, int)| #[trigger] spot_of(m, p, trailheads[i] as int, 0);
            let q = choose|q: (int, int)| #[trigger] spot_of(m, q, trailends[j] as int, 9);
            if trailheads[i] == trailends[j] {
                lemma_cell_id(width(m), p, q);
            }
        }
        assert forall|i: int, j: int|
            0 <= i < trailheads.len() && 0 <= j < trailends.len() implies simple_paths(
            climb(m),
            #[trigger] trailheads[i] as int,
            #[trigger] trailends[j] as int,
        ).len() <= usize::MAX by {}
        assert(answers(score_fn, &graph, by_trails(m)));
    }
    count_scores(trailheads.as_slice(), trailends.as_slice(), &graph, score_fn)
}

} // verus!
