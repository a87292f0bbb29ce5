//! Antennas on a map: every two antennas of one frequency cast nodes on the
//! line through them, either one on each side or all along the line.

use crate::tally::{ind, lemma_partial_le_total, sum_row, sum_rows};
use crate::text::{lines, lines_of, texts};
use vstd::prelude::*;

verus! {

/// A place of the map of antennas: free, or an antenna with its frequency.
#[derive(Debug)]
pub enum AntSpace {
    Empty,
    Antena(char),
}

/// A place of the map of nodes.
#[derive(Debug)]
pub enum NodeSpace {
    Empty,
    Node,
}

/// How far two antennas cast their nodes: once, as far beyond each as they
/// are apart, or again and again, beginning on the antennas themselves.
#[derive(Clone, Copy, Debug)]
pub enum Insert {
    Once,
    Repeated,
}

/// The place `k` times the way from `q` to `p` beyond `p`.
pub open spec fn echo(p: (int, int), q: (int, int), k: int) -> (int, int) {
    (p.0 + k * (p.0 - q.0), p.1 + k * (p.1 - q.1))
}

/// The antennas at `p` and `q` cast a node on `t`, beyond `p`.
pub open spec fn hits(insert: Insert, p: (int, int), q: (int, int), t: (int, int)) -> bool {
    match insert {
        Insert::Once => t == echo(p, q, 1),
        Insert::Repeated => exists|k: int| k >= 0 && t == #[trigger] echo(p, q, k),
    }
}

/// The map has a place and every row is as long as the first.
pub open spec fn wf<T>(m: Seq<Vec<T>>) -> bool {
    &&& m.len() > 0
    &&& forall|r: int| 0 <= r < m.len() ==> (#[trigger] m[r]).len() == m[0].len()
}

/// `t` is a place of the map.
pub open spec fn on_map<T>(m: Seq<Vec<T>>, t: (int, int)) -> bool {
    0 <= t.0 < m.len() && 0 <= t.1 < m[0].len()
}

/// The place `t` of the map holds a node.
pub open spec fn node_at(m: Seq<Vec<NodeSpace>>, t: (int, int)) -> bool {
    m[t.0][t.1] is Node
}

/// Two maps have the same numbers of rows and columns.
pub open spec fn same_size<A, B>(a: Seq<Vec<A>>, b: Seq<Vec<B>>) -> bool {
    a.len() == b.len() && (a.len() > 0 ==> a[0].len() == b[0].len())
}

/// The place `k` steps of (`dy`, `dx`) from (`y`, `x`).
pub open spec fn along(y: int, x: int, dy: int, dx: int, k: int) -> (int, int) {
    (y + k * dy, x + k * dx)
}

/// The first `k` steps from (`y`, `x`), and the start itself, stay on the
/// map.
pub open spec fn stays<T>(m: Seq<Vec<T>>, y: int, x: int, dy: int, dx: int, k: int) -> bool {
    forall|j: int| 0 <= j <= k ==> on_map(m, #[trigger] along(y, x, dy, dx, j))
}

/// Puts a node on the place `offsety` rows and `offsetx` columns from row
/// `starty`, column `startx`, if that is a place of the map.
pub fn insert_nodes_in_direction(
    matrix: &mut Vec<Vec<NodeSpace>>,
    starty: isize,
    startx: isize,
    offsety: isize,
    offsetx: isize,
)
    requires
        wf(old(matrix)@),
        old(matrix).len() <= isize::MAX,
        old(matrix)[0].len() <= isize::MAX,
        isize::MIN <= starty + offsety <= isize::MAX,
        isize::MIN <= startx + offsetx <= isize::MAX,
    ensures
        wf(final(matrix)@),
        same_size(final(matrix)@, old(matrix)@),
        forall|r: int, c: int|
            on_map(old(matrix)@, (r, c)) ==> (node_at(final(matrix)@, (r, c)) <==> node_at(
                old(matrix)@,
                (r, c),
            ) || (r, c) == #[trigger] along(starty as int, startx as int, offsety as int, offsetx as int, 1)),
{
    let m_len = matrix.len();
    let m_wid = matrix[0].len();

    let y = starty + offsety;
    let x = startx + offsetx;
    if y < 0 || x < 0 || y >= m_len as isize || x >= m_wid as isize {
        return;
    }
    matrix[y as usize][x as usize] = NodeSpace::Node;
}

/// Puts a node on row `starty`, column `startx` and on every further place
/// `offsety` rows and `offsetx` columns on, until the map ends.
pub fn insert_res_nodes_in_direction(
    matrix: &mut Vec<Vec<NodeSpace>>,
    starty: isize,
    startx: isize,
    offsety: isize,
    offsetx: isize,
)
    requires
        wf(old(matrix)@),
        offsety != 0 || offsetx != 0,
        old(matrix).len() + offsety <= isize::MAX,
        old(matrix)[0].len() + offsetx <= isize::MAX,
        old(matrix).len() <= isize::MAX,
        old(matrix)[0].len() <= isize::MAX,
        isize::MIN <= offsety,
        isize::MIN <= offsetx,
    ensures
        wf(final(matrix)@),
        same_size(final(matrix)@, old(matrix)@),
        forall|r: int, c: int|
            on_map(old(matrix)@, (r, c)) ==> (#[trigger] node_at(final(matrix)@, (r, c)) <==> node_at(
                old(matrix)@,
                (r, c),
            ) || reached(old(matrix)@, starty as int, startx as int, offsety as int, offsetx as int, (r, c))),
{
    let m_len = matrix.len();
    let m_wid = matrix[0].len();

    let mut y = starty;
    let mut x = startx;
    let ghost mut k: int = 0;
    let ghost m0 = matrix@;
    let ghost (sy, sx, dy, dx) = (starty as int, startx as int, offsety as int, offsetx as int);
    proof {
        assert(along(sy, sx, dy, dx, 0) == (sy, sx));
    }
    while !(y < 0 || x < 0 || y >= m_len as isize || x >= m_wid as isize)
        invariant
            wf(matrix@),
            wf(m0),
            same_size(matrix@, m0),
            m_len == m0.len(),
            m_wid == m0[0].len(),
            m_len <= isize::MAX,
            m_wid <= isize::MAX,
            m_len + offsety <= isize::MAX,
            m_wid + offsetx <= isize::MAX,
            (sy, sx, dy, dx) == (starty as int, startx as int, offsety as int, offsetx as int),
            offsety != 0 || offsetx != 0,
            k >= 0,
            (y as int, x as int) == along(sy, sx, dy, dx, k),
            forall|j: int| 0 <= j < k ==> on_map(m0, #[trigger] along(sy, sx, dy, dx, j)),
            forall|r: int, c: int|
                on_map(m0, (r, c)) ==> (#[trigger] node_at(matrix@, (r, c)) <==> node_at(m0, (r, c))
                    || exists|j: int| 0 <= j < k && (r, c) == #[trigger] along(sy, sx, dy, dx, j)),
        decreases room_left(m_len as int, m_wid as int, y as int, x as int, offsety as int, offsetx as int),
    {
        let ghost before = matrix@;
        matrix[y as usize][x as usize] = NodeSpace::Node;
        proof {
            assert(along(sy, sx, dy, dx, k + 1) == (y + dy, x + dx)) by (nonlinear_arith)
                requires
                    (y as int, x as int) == along(sy, sx, dy, dx, k),
            ;
            assert forall|r: int, c: int| on_map(m0, (r, c)) implies (#[trigger] node_at(
                matrix@,
                (r, c),
            ) <==> node_at(m0, (r, c)) || exists|j: int|
                0 <= j < k + 1 && (r, c) == #[trigger] along(sy, sx, dy, dx, j)) by {
                if (r, c) == (y as int, x as int) {
                    assert((r, c) == along(sy, sx, dy, dx, k));
                } else {
                    assert(node_at(matrix@, (r, c)) == node_at(before, (r, c)));
                    if exists|j: int| 0 <= j < k + 1 && (r, c) == #[trigger] along(sy, sx, dy, dx, j) {
                        let j = choose|j: int|
                            0 <= j < k + 1 && (r, c) == #[trigger] along(sy, sx, dy, dx, j);
                        assert(j < k);
                    }
                }
            }
            k = k + 1;
        }
        y += offsety;
        x += offsetx;
    }
    proof {
        assert forall|r: int, c: int| on_map(m0, (r, c)) implies (#[trigger] node_at(
            matrix@,
            (r, c),
        ) <==> node_at(m0, (r, c)) || reached(m0, sy, sx, dy, dx, (r, c))) by {
            if reached(m0, sy, sx, dy, dx, (r, c)) {
                let j = choose|j: int|
                    j >= 0 && (r, c) == along(sy, sx, dy, dx, j) && #[trigger] stays(
                        m0,
                        sy,
                        sx,
                        dy,
                        dx,
                        j,
                    );
                if j >= k {
                    assert(on_map(m0, along(sy, sx, dy, dx, k)));
                }
            }
            if exists|j: int| 0 <= j < k && (r, c) == #[trigger] along(sy, sx, dy, dx, j) {
                let j = choose|j: int| 0 <= j < k && (r, c) == #[trigger] along(sy, sx, dy, dx, j);
                assert(stays(m0, sy, sx, dy, dx, j));
            }
        }
    }
}

/// A bound on the steps of (`dy`, `dx`) that can still be taken from
/// (`y`, `x`) on a map of `h` rows and `w` columns.
pub open spec fn room_left(h: int, w: int, y: int, x: int, dy: int, dx: int) -> int {
    let left = if dy > 0 {
        h - y
    } else if dy < 0 {
        y + 1
    } else if dx > 0 {
        w - x
    } else {
        x + 1
    };
    if left > 0 {
        left
    } else {
        0
    }
}

/// The place `t` is reached from (`y`, `x`) in steps of (`dy`, `dx`)
/// without leaving the map on the way.
pub open spec fn reached<T>(m: Seq<Vec<T>>, y: int, x: int, dy: int, dx: int, t: (int, int)) -> bool {
    exists|j: int| j >= 0 && t == along(y, x, dy, dx, j) && #[trigger] stays(m, y, x, dy, dx, j)
}

/// The place that a pair of indices names.
pub open spec fn pos(a: (usize, usize)) -> (int, int) {
    (a.0 as int, a.1 as int)
}

/// The antennas number `a` and `b` of `ants` cast a node on `t`, beyond
/// the first of them.
pub open spec fn cast(insert: Insert, ants: Seq<(usize, usize)>, a: int, b: int, t: (int, int)) -> bool {
    0 <= a < ants.len() && 0 <= b < ants.len() && a != b && hits(insert, pos(ants[a]), pos(ants[b]), t)
}

/// The pair of antennas number `a` and `b` comes before the pair `i`, `j`
/// in the order in which `generate_nodes` takes the pairs.
pub open spec fn done(i: int, j: int, a: int, b: int) -> bool {
    let low = if a < b {
        a
    } else {
        b
    };
    let high = if a < b {
        b
    } else {
        a
    };
    low < i || (low == i && high < j)
}

/// Two antennas of `ants` whose pair comes before the pair `i`, `j` cast a
/// node on `t`.
pub open spec fn struck_upto(
    insert: Insert,
    ants: Seq<(usize, usize)>,
    i: int,
    j: int,
    t: (int, int),
) -> bool {
    exists|a: int, b: int| #[trigger] cast(insert, ants, a, b, t) && done(i, j, a, b)
}

/// Two antennas of `ants` cast a node on `t`.
pub open spec fn struck(insert: Insert, ants: Seq<(usize, usize)>, t: (int, int)) -> bool {
    exists|a: int, b: int| #[trigger] cast(insert, ants, a, b, t)
}

/// Every antenna of `ants` stands on the map.
pub open spec fn all_on_map<T>(m: Seq<Vec<T>>, ants: Seq<(usize, usize)>) -> bool {
    forall|a: int| 0 <= a < ants.len() ==> on_map(m, pos(#[trigger] ants[a]))
}

/// No two antennas of `ants` stand on one place.
pub open spec fn apart(ants: Seq<(usize, usize)>) -> bool {
    forall|a: int, b: int|
        0 <= a < ants.len() && 0 <= b < ants.len() && a != b ==> #[trigger] ants[a] != #[trigger] ants[b]
}

/// A walk in a straight line that begins and ends on the map stays on it.
pub proof fn lemma_stays<T>(m: Seq<Vec<T>>, y: int, x: int, dy: int, dx: int, k: int)
    requires
        k >= 0,
        on_map(m, (y, x)),
        on_map(m, along(y, x, dy, dx, k)),
    ensures
        stays(m, y, x, dy, dx, k),
{
    assert forall|j: int| 0 <= j <= k implies on_map(m, #[trigger] along(y, x, dy, dx, j)) by {
        assert((dy >= 0 ==> 0 <= j * dy <= k * dy) && (dy <= 0 ==> 0 >= j * dy >= k * dy))
            by (nonlinear_arith)
            requires
                0 <= j <= k,
        ;
        assert((dx >= 0 ==> 0 <= j * dx <= k * dx) && (dx <= 0 ==> 0 >= j * dx >= k * dx))
            by (nonlinear_arith)
            requires
                0 <= j <= k,
        ;
    }
}

/// What the two insert functions add for the antennas at `p` and `q`, in
/// terms of `hits`.
pub proof fn lemma_reached_hits<T>(m: Seq<Vec<T>>, p: (int, int), q: (int, int), t: (int, int))
    requires
        on_map(m, p),
        on_map(m, t),
    ensures
        reached(m, p.0, p.1, p.0 - q.0, p.1 - q.1, t) <==> hits(Insert::Repeated, p, q, t),
        t == along(p.0, p.1, p.0 - q.0, p.1 - q.1, 1) <==> hits(Insert::Once, p, q, t),
{
    let (dy, dx) = (p.0 - q.0, p.1 - q.1);
    if reached(m, p.0, p.1, dy, dx, t) {
        let j = choose|j: int|
            j >= 0 && t == along(p.0, p.1, dy, dx, j) && #[trigger] stays(m, p.0, p.1, dy, dx, j);
        assert(t == echo(p, q, j));
    }
    if hits(Insert::Repeated, p, q, t) {
        let k = choose|k: int| k >= 0 && t == #[trigger] echo(p, q, k);
        assert(t == along(p.0, p.1, dy, dx, k));
        lemma_stays(m, p.0, p.1, dy, dx, k);
    }
}

/// Puts on the map the nodes that every two of the antennas `antenas`
/// cast.
pub fn generate_nodes(matrix: &mut Vec<Vec<NodeSpace>>, antenas: &[(usize, usize)], insert: Insert)
    requires
        wf(old(matrix)@),
        old(matrix).len() * 2 <= isize::MAX,
        old(matrix)[0].len() * 2 <= isize::MAX,
        all_on_map(old(matrix)@, antenas@),
        insert is Repeated ==> apart(antenas@),
    ensures
        wf(final(matrix)@),
        same_size(final(matrix)@, old(matrix)@),
        forall|r: int, c: int|
            on_map(old(matrix)@, (r, c)) ==> (#[trigger] node_at(final(matrix)@, (r, c)) <==> node_at(
                old(matrix)@,
                (r, c),
            ) || struck(insert, antenas@, (r, c))),
{
    let ghost m0 = matrix@;
    let ghost ants = antenas@;
    if antenas.len() < 2 {
        proof {
            assert forall|r: int, c: int| !struck(insert, ants, (r, c)) by {
                if struck(insert, ants, (r, c)) {
                    let (a, b) = choose|a: int, b: int| #[trigger] cast(insert, ants, a, b, (r, c));
                }
            }
        }
        return;
    }
    let mut i: usize = 0;
    while i < antenas.len()
        invariant
            ants == antenas@,
            wf(m0),
            wf(matrix@),
            same_size(matrix@, m0),
            m0.len() * 2 <= isize::MAX,
            m0[0].len() * 2 <= isize::MAX,
            all_on_map(m0, ants),
            insert is Repeated ==> apart(ants),
            i <= antenas.len(),
            forall|r: int, c: int|
                on_map(m0, (r, c)) ==> (#[trigger] node_at(matrix@, (r, c)) <==> node_at(m0, (r, c))
                    || struck_upto(insert, ants, i as int, i + 1, (r, c))),
        decreases antenas.len() - i,
    {
        let mut j: usize = i + 1;
        while j < antenas.len()
            invariant
                ants == antenas@,
                wf(m0),
                wf(matrix@),
                same_size(matrix@, m0),
                m0.len() * 2 <= isize::MAX,
                m0[0].len() * 2 <= isize::MAX,
                all_on_map(m0, ants),
                insert is Repeated ==> apart(ants),
                i < antenas.len(),
                i < j <= antenas.len(),
                forall|r: int, c: int|
                    on_map(m0, (r, c)) ==> (#[trigger] node_at(matrix@, (r, c)) <==> node_at(
                        m0,
                        (r, c),
                    ) || struck_upto(insert, ants, i as int, j as int, (r, c))),
            decreases antenas.len() - j,
        {
            let ant1 = antenas[i];
            let ant2 = antenas[j];
            proof {
                assert(on_map(m0, pos(ants[i as int])));
                assert(on_map(m0, pos(ants[j as int])));
                if insert is Repeated {
                    assert(ants[i as int] != ants[j as int]);
                }
            }
            let ant1y = ant1.0 as isize;
            let ant1x = ant1.1 as isize;
            let ant2y = ant2.0 as isize;
            let ant2x = ant2.1 as isize;
            let diffy = ant1y - ant2y;
            let diffx = ant1x - ant2x;
            let ghost before = matrix@;
            match insert {
                Insert::Once => {
                    insert_nodes_in_direction(matrix, ant1y, ant1x, diffy, diffx);
                },
                Insert::Repeated => {
                    insert_res_nodes_in_direction(matrix, ant1y, ant1x, diffy, diffx);
                },
            }
            let ghost between = matrix@;
            match insert {
                Insert::Once => {
                    insert_nodes_in_direction(matrix, ant2y, ant2x, -diffy, -diffx);
                },
                Insert::Repeated => {
                    insert_res_nodes_in_direction(matrix, ant2y, ant2x, -diffy, -diffx);
                },
            }
            proof {
                let p = pos(ants[i as int]);
                let q = pos(ants[j as int]);
                assert forall|r: int, c: int| on_map(m0, (r, c)) implies (#[trigger] node_at(
                    matrix@,
                    (r, c),
                ) <==> node_at(m0, (r, c)) || struck_upto(insert, ants, i as int, j + 1, (r, c))) by {
                    let t = (r, c);
                    lemma_reached_hits(before, p, q, t);
                    lemma_reached_hits(between, q, p, t);
                    assert(node_at(between, t) <==> node_at(before, t) || hits(insert, p, q, t)) by {
                        assert(on_map(before, t));
                        assert(t == along(p.0, p.1, p.0 - q.0, p.1 - q.1, 1) <==> hits(
                            Insert::Once,
                            p,
                            q,
                            t,
                        ));
                    }
                    assert(node_at(matrix@, t) <==> node_at(between, t) || hits(insert, q, p, t)) by {
                        assert(on_map(between, t));
                        assert(t == along(q.0, q.1, q.0 - p.0, q.1 - p.1, 1) <==> hits(
                            Insert::Once,
                            q,
                            p,
                            t,
                        ));
                    }
                    if struck_upto(insert, ants, i as int, j as int, t) {
                        let (a, b) = choose|a: int, b: int| #[trigger]
                            cast(insert, ants, a, b, t) && done(i as int, j as int, a, b);
                        assert(cast(insert, ants, a, b, t) && done(i as int, j + 1, a, b));
                    }
                    if hits(insert, p, q, t) {
                        assert(cast(insert, ants, i as int, j as int, t) && done(
                            i as int,
                            j + 1,
                            i as int,
                            j as int,
                        ));
                    }
                    if hits(insert, q, p, t) {
                        assert(cast(insert, ants, j as int, i as int, t) && done(
                            i as int,
                            j + 1,
                            j as int,
                            i as int,
                        ));
                    }
                    if struck_upto(insert, ants, i as int, j + 1, t) {
                        let (a, b) = choose|a: int, b: int| #[trigger]
                            cast(insert, ants, a, b, t) && done(i as int, j + 1, a, b);
                        if done(i as int, j as int, a, b) {
                            assert(struck_upto(insert, ants, i as int, j as int, t));
                        } else if a == i {
                            assert(b == j);
                        } else {
                            assert(a == j && b == i);
                        }
                    }
                }
            }
            j += 1;
        }
        proof {
            assert forall|r: int, c: int| on_map(m0, (r, c)) implies (#[trigger] node_at(
                matrix@,
                (r, c),
            ) <==> node_at(m0, (r, c)) || struck_upto(insert, ants, i + 1, i + 2, (r, c))) by {
                let t = (r, c);
                if struck_upto(insert, ants, i as int, j as int, t) {
                    let (a, b) = choose|a: int, b: int| #[trigger]
                        cast(insert, ants, a, b, t) && done(i as int, j as int, a, b);
                    assert(cast(insert, ants, a, b, t) && done(i + 1, i + 2, a, b));
                }
                if struck_upto(insert, ants, i + 1, i + 2, t) {
                    let (a, b) = choose|a: int, b: int| #[trigger]
                        cast(insert, ants, a, b, t) && done(i + 1, i + 2, a, b);
                    assert(cast(insert, ants, a, b, t) && done(i as int, j as int, a, b));
                }
            }
        }
        i += 1;
    }
    proof {
        assert forall|r: int, c: int| on_map(m0, (r, c)) implies (#[trigger] node_at(
            matrix@,
            (r, c),
        ) <==> node_at(m0, (r, c)) || struck(insert, ants, (r, c))) by {
            let t = (r, c);
            if struck_upto(insert, ants, i as int, i + 1, t) {
                let (a, b) = choose|a: int, b: int| #[trigger]
                    cast(insert, ants, a, b, t) && done(i as int, i + 1, a, b);
                assert(cast(insert, ants, a, b, t));
            }
            if struck(insert, ants, t) {
                let (a, b) = choose|a: int, b: int| #[trigger] cast(insert, ants, a, b, t);
                assert(cast(insert, ants, a, b, t) && done(i as int, i + 1, a, b));
            }
        }
    }
}

/// The place `p` of the map `ants` holds an antenna of frequency `freq`.
pub open spec fn antenna_at(ants: Seq<Vec<AntSpace>>, p: (int, int), freq: char) -> bool {
    0 <= p.0 < ants.len() && 0 <= p.1 < ants[p.0].len() && ants[p.0][p.1] == AntSpace::Antena(freq)
}

/// `a` comes before `b` in reading order.
pub open spec fn earlier(a: (int, int), b: (int, int)) -> bool {
    a.0 < b.0 || (a.0 == b.0 && a.1 < b.1)
}

/// `groups` lists the antennas of the map that come before `upto` in
/// reading order: each under its frequency, no frequency twice, no antenna
/// twice.
pub open spec fn grouped(
    ants: Seq<Vec<AntSpace>>,
    groups: Seq<(char, Vec<(usize, usize)>)>,
    upto: (int, int),
) -> bool {
    &&& forall|g: int, i: int|
        0 <= g < groups.len() && 0 <= i < groups[g].1.len() ==> antenna_at(
            ants,
            pos(#[trigger] groups[g].1[i]),
            groups[g].0,
        ) && earlier(pos(groups[g].1[i]), upto)
    &&& forall|r: int, c: int, freq: char|
        #[trigger] antenna_at(ants, (r, c), freq) && earlier((r, c), upto) ==> listed(
            groups,
            (r, c),
            freq,
        )
    &&& forall|g: int, k: int|
        0 <= g < groups.len() && 0 <= k < groups.len() && g != k ==> (#[trigger] groups[g]).0 != (
        #[trigger] groups[k]).0
    &&& forall|g: int| 0 <= g < groups.len() ==> apart((#[trigger] groups[g]).1@)
}

/// Every group holds an antenna, the antennas of each group stand in
/// reading order, and so do the first antennas of the groups.
pub open spec fn in_reading_order(groups: Seq<(char, Vec<(usize, usize)>)>) -> bool {
    &&& forall|g: int| 0 <= g < groups.len() ==> (#[trigger] groups[g]).1.len() > 0
    &&& forall|g: int, i: int, j: int|
        0 <= g < groups.len() && 0 <= i < j < groups[g].1.len() ==> earlier(
            pos(#[trigger] groups[g].1[i]),
            pos(#[trigger] groups[g].1[j]),
        )
    &&& forall|g: int, k: int|
        0 <= g < k < groups.len() ==> earlier(
            pos((#[trigger] groups[g]).1[0]),
            pos((#[trigger] groups[k]).1[0]),
        )
}

/// The antenna at `p` is listed in `groups` under the frequency `freq`.
pub open spec fn listed(groups: Seq<(char, Vec<(usize, usize)>)>, p: (int, int), freq: char) -> bool {
    exists|g: int, i: int|
        0 <= g < groups.len() && 0 <= i < groups[g].1.len() && groups[g].0 == freq && pos(
            #[trigger] groups[g].1[i],
        ) == p
}

/// The antennas of the map, each frequency with the places of its
/// antennas in reading order, the frequencies in the order in which the map
/// first shows them.
pub fn map_ants(matrix: &Vec<Vec<AntSpace>>) -> (groups: Vec<(char, Vec<(usize, usize)>)>)
    ensures
        grouped(matrix@, groups@, (matrix.len() as int, 0)),
        in_reading_order(groups@),
{
    let mut map: Vec<(char, Vec<(usize, usize)>)> = Vec::new();
    let mut y: usize = 0;
    while y < matrix.len()
        invariant
            y <= matrix.len(),
            grouped(matrix@, map@, (y as int, 0)),
            in_reading_order(map@),
        decreases matrix.len() - y,
    {
        let row = &matrix[y];
        let mut x: usize = 0;
        while x < row.len()
            invariant
                y < matrix.len(),
                row == matrix[y as int],
                x <= row.len(),
                grouped(matrix@, map@, (y as int, x as int)),
                in_reading_order(map@),
            decreases row.len() - x,
        {
            let ghost before = map@;
            let ghost here = (y as int, x as int);
            let ghost next = (y as int, x + 1);
            if let AntSpace::Antena(freq) = row[x] {
                let freq = freq;
                let mut g: usize = 0;
                while g < map.len() && map[g].0 != freq
                    invariant
                        g <= map.len(),
                        forall|k: int| 0 <= k < g ==> (#[trigger] map[k]).0 != freq,
                    decreases map.len() - g,
                {
                    g += 1;
                }
                if g < map.len() {
                    let (name, mut places) = map.remove(g);
                    let ghost old_places = places@;
                    places.push((y, x));
                    map.insert(g, (name, places));
                    proof {
                        assert(map@.len() == before.len());
                        assert forall|k: int| 0 <= k < map@.len() && k != g implies #[trigger] map@[k]
                            == before[k] by {}
                        assert(map@[g as int].0 == freq);
                        assert(map@[g as int].1@ == before[g as int].1@.push((y, x)));
                        lemma_grouped_more(matrix@, before, map@, here, (y, x), g as int, freq);
                        lemma_order_kept(matrix@, before, map@, here, (y, x), g as int);
                    }
                } else {
                    let mut places: Vec<(usize, usize)> = Vec::new();
                    places.push((y, x));
                    map.push((freq, places));
                    proof {
                        assert forall|k: int| 0 <= k < before.len() implies #[trigger] map@[k]
                            == before[k] by {}
                        assert(map@[g as int].1@ == Seq::<(usize, usize)>::empty().push((y, x)));
                        lemma_grouped_new(matrix@, before, map@, here, (y, x), freq);
                        lemma_order_kept(matrix@, before, map@, here, (y, x), g as int);
                    }
                }
            } else {
                proof {
                    lemma_grouped_skip(matrix@, before, here);
                }
            }
            x += 1;
        }
        proof {
            lemma_grouped_row(matrix@, map@, y as int);
        }
        y += 1;
    }
    map
}

/// An antenna that comes after all that are listed keeps the groups in
/// reading order, whether it joins the group `g` or begins it.
proof fn lemma_order_kept(
    ants: Seq<Vec<AntSpace>>,
    before: Seq<(char, Vec<(usize, usize)>)>,
    after: Seq<(char, Vec<(usize, usize)>)>,
    here: (int, int),
    spot: (usize, usize),
    g: int,
)
    requires
        here == pos(spot),
        grouped(ants, before, here),
        in_reading_order(before),
        0 <= g <= before.len(),
        g < before.len() ==> after.len() == before.len() && after[g].1@ == before[g].1@.push(spot),
        g == before.len() ==> after.len() == before.len() + 1 && after[g].1@ == Seq::<
            (usize, usize),
        >::empty().push(spot),
        forall|k: int| 0 <= k < before.len() && k != g ==> #[trigger] after[k] == before[k],
    ensures
        in_reading_order(after),
{
    assert forall|k: int| 0 <= k < after.len() implies (#[trigger] after[k]).1.len() > 0 by {
        if k != g {
            assert(before[k].1.len() > 0);
        }
    }
    assert forall|k: int, i: int, j: int|
        0 <= k < after.len() && 0 <= i < j < after[k].1.len() implies earlier(
        pos(#[trigger] after[k].1[i]),
        pos(#[trigger] after[k].1[j]),
    ) by {
        if k != g {
            assert(earlier(pos(before[k].1[i]), pos(before[k].1[j])));
        } else if j < before[g].1.len() {
            assert(after[g].1[i] == before[g].1[i]);
            assert(after[g].1[j] == before[g].1[j]);
            assert(earlier(pos(before[g].1[i]), pos(before[g].1[j])));
        } else {
            assert(after[g].1[i] == before[g].1[i]);
            assert(antenna_at(ants, pos(before[g].1[i]), before[g].0) && earlier(
                pos(before[g].1[i]),
                here,
            ));
        }
    }
    assert forall|k: int, l: int| 0 <= k < l < after.len() implies earlier(
        pos((#[trigger] after[k]).1[0]),
        pos((#[trigger] after[l]).1[0]),
    ) by {
        if l < before.len() {
            assert(before[k].1.len() > 0 && before[l].1.len() > 0);
            assert(after[k].1[0] == before[k].1[0]);
            assert(after[l].1[0] == before[l].1[0]);
            assert(earlier(pos(before[k].1[0]), pos(before[l].1[0])));
        } else {
            assert(before[k].1.len() > 0);
            assert(after[k].1[0] == before[k].1[0]);
            assert(antenna_at(ants, pos(before[k].1[0]), before[k].0) && earlier(
                pos(before[k].1[0]),
                here,
            ));
        }
    }
}

/// A place without antenna adds nothing to the groups.
proof fn lemma_grouped_skip(
    ants: Seq<Vec<AntSpace>>,
    groups: Seq<(char, Vec<(usize, usize)>)>,
    here: (int, int),
)
    requires
        grouped(ants, groups, here),
        0 <= here.0 < ants.len(),
        0 <= here.1 < ants[here.0].len(),
        ants[here.0][here.1] is Empty,
    ensures
        grouped(ants, groups, (here.0, here.1 + 1)),
{
    let next = (here.0, here.1 + 1);
    assert forall|r: int, c: int, freq: char| #[trigger]
        antenna_at(ants, (r, c), freq) && earlier((r, c), next) implies listed(
        groups,
        (r, c),
        freq,
    ) by {
        assert(earlier((r, c), here));
    }
}

/// The groups that hold the antennas of the rows before row `y` and of row
/// `y` hold those of the rows before row `y + 1`.
proof fn lemma_grouped_row(
    ants: Seq<Vec<AntSpace>>,
    groups: Seq<(char, Vec<(usize, usize)>)>,
    y: int,
)
    requires
        0 <= y < ants.len(),
        grouped(ants, groups, (y, ants[y].len() as int)),
    ensures
        grouped(ants, groups, (y + 1, 0)),
{
    let upto = (y, ants[y].len() as int);
    assert forall|r: int, c: int, freq: char| #[trigger]
        antenna_at(ants, (r, c), freq) && earlier((r, c), (y + 1, 0)) implies listed(
        groups,
        (r, c),
        freq,
    ) by {
        assert(earlier((r, c), upto));
    }
}

/// One more antenna in the group of its frequency keeps the groups in
/// order.
proof fn lemma_grouped_more(
    ants: Seq<Vec<AntSpace>>,
    before: Seq<(char, Vec<(usize, usize)>)>,
    after: Seq<(char, Vec<(usize, usize)>)>,
    here: (int, int),
    spot: (usize, usize),
    g: int,
    freq: char,
)
    requires
        here == pos(spot),
        grouped(ants, before, here),
        antenna_at(ants, here, freq),
        0 <= g < before.len(),
        before[g].0 == freq,
        after.len() == before.len(),
        forall|k: int| 0 <= k < after.len() && k != g ==> #[trigger] after[k] == before[k],
        after[g].0 == freq,
        after[g].1@ == before[g].1@.push(spot),
    ensures
        grouped(ants, after, (here.0, here.1 + 1)),
{
    let next = (here.0, here.1 + 1);
    assert forall|k: int, i: int| 0 <= k < after.len() && 0 <= i < after[k].1.len() implies antenna_at(
        ants,
        pos(#[trigger] after[k].1[i]),
        after[k].0,
    ) && earlier(pos(after[k].1[i]), next) by {
        if k == g && i == before[g].1.len() {
        } else {
            assert(after[k].1[i] == before[k].1[i]);
            assert(earlier(pos(before[k].1[i]), here));
        }
    }
    assert forall|r: int, c: int, f: char| #[trigger]
        antenna_at(ants, (r, c), f) && earlier((r, c), next) implies listed(after, (r, c), f) by {
        if (r, c) == here {
            assert(pos(after[g].1[before[g].1.len() as int]) == here);
        } else {
            assert(earlier((r, c), here));
            assert(listed(before, (r, c), f));
            let (k, i) = choose|k: int, i: int|
                0 <= k < before.len() && 0 <= i < before[k].1.len() && before[k].0 == f && pos(
                    #[trigger] before[k].1[i],
                ) == (r, c);
            assert(pos(after[k].1[i]) == (r, c));
        }
    }
    assert forall|k: int, l: int|
        0 <= k < after.len() && 0 <= l < after.len() && k != l implies (#[trigger] after[k]).0 != (
    #[trigger] after[l]).0 by {
        assert(before[k].0 != before[l].0);
    }
    assert forall|k: int| 0 <= k < after.len() implies apart((#[trigger] after[k]).1@) by {
        assert(apart(before[k].1@));
        if k == g {
            let places = after[g].1@;
            assert forall|a: int, b: int|
                0 <= a < places.len() && 0 <= b < places.len() && a != b implies #[trigger] places[a]
                != #[trigger] places[b] by {
                if a < before[g].1.len() && b < before[g].1.len() {
                    assert(before[g].1@[a] != before[g].1@[b]);
                } else if a < before[g].1.len() {
                    assert(earlier(pos(before[g].1[a]), here));
                } else {
                    assert(earlier(pos(before[g].1[b]), here));
                }
            }
        }
    }
}

/// An antenna of a new frequency in a new group keeps the groups in order.
proof fn lemma_grouped_new(
    ants: Seq<Vec<AntSpace>>,
    before: Seq<(char, Vec<(usize, usize)>)>,
    after: Seq<(char, Vec<(usize, usize)>)>,
    here: (int, int),
    spot: (usize, usize),
    freq: char,
)
    requires
        here == pos(spot),
        grouped(ants, before, here),
        antenna_at(ants, here, freq),
        forall|k: int| 0 <= k < before.len() ==> (#[trigger] before[k]).0 != freq,
        after.len() == before.len() + 1,
        forall|k: int| 0 <= k < before.len() ==> #[trigger] after[k] == before[k],
        after[before.len() as int].0 == freq,
        after[before.len() as int].1@ == Seq::<(usize, usize)>::empty().push(spot),
    ensures
        grouped(ants, after, (here.0, here.1 + 1)),
{
    let next = (here.0, here.1 + 1);
    let g = before.len() as int;
    assert forall|k: int, i: int| 0 <= k < after.len() && 0 <= i < after[k].1.len() implies antenna_at(
        ants,
        pos(#[trigger] after[k].1[i]),
        after[k].0,
    ) && earlier(pos(after[k].1[i]), next) by {
        if k < g {
            assert(after[k].1[i] == before[k].1[i]);
            assert(earlier(pos(before[k].1[i]), here));
        }
    }
    assert forall|r: int, c: int, f: char| #[trigger]
        antenna_at(ants, (r, c), f) && earlier((r, c), next) implies listed(after, (r, c), f) by {
        if (r, c) == here {
            assert(pos(after[g].1[0]) == here);
        } else {
            assert(earlier((r, c), here));
            assert(listed(before, (r, c), f));
            let (k, i) = choose|k: int, i: int|
                0 <= k < before.len() && 0 <= i < before[k].1.len() && before[k].0 == f && pos(
                    #[trigger] before[k].1[i],
                ) == (r, c);
            assert(pos(after[k].1[i]) == (r, c));
        }
    }
    assert forall|k: int, l: int|
        0 <= k < after.len() && 0 <= l < after.len() && k != l implies (#[trigger] after[k]).0 != (
    #[trigger] after[l]).0 by {
        if k < g && l < g {
            assert(before[k].0 != before[l].0);
        }
    }
    assert forall|k: int| 0 <= k < after.len() implies apart((#[trigger] after[k]).1@) by {
        if k < g {
            assert(apart(before[k].1@));
        }
    }
}

/// What the character `c` of a map stands for: a dot is a free place, any
/// other character an antenna of that frequency.
pub open spec fn ant_of(c: char) -> AntSpace {
    if c == '.' {
        AntSpace::Empty
    } else {
        AntSpace::Antena(c)
    }
}

/// What the character `c` of a map stands for.
pub fn read_space(c: char) -> (space: AntSpace)
    ensures
        space == ant_of(c),
{
    match c {
        '.' => AntSpace::Empty,
        _ => AntSpace::Antena(c),
    }
}

/// The map of antennas that `input` draws, one line for each row, and a
/// map of the same size without any node.
pub fn parse(input: &str) -> (maps: (Vec<Vec<AntSpace>>, Vec<Vec<NodeSpace>>))
    ensures
        maps.0.len() == lines(input@).len(),
        maps.1.len() == lines(input@).len(),
        forall|r: int|
            0 <= r < lines(input@).len() ==> (#[trigger] maps.0[r]).len() == lines(input@)[r].len(),
        forall|r: int|
            0 <= r < lines(input@).len() ==> (#[trigger] maps.1[r]).len() == lines(input@)[r].len(),
        forall|r: int, c: int|
            0 <= r < lines(input@).len() && 0 <= c < lines(input@)[r].len() ==> (
            #[trigger] maps.0[r][c]) == ant_of(lines(input@)[r][c]),
        forall|r: int, c: int|
            0 <= r < lines(input@).len() && 0 <= c < lines(input@)[r].len() ==> (
            #[trigger] maps.1[r][c]) is Empty,
{
    let rows = lines_of(input);
    let ghost ls = lines(input@);
    proof {
        assert(texts(rows@).len() == rows.len());
        assert forall|r: int| 0 <= r < ls.len() implies (#[trigger] rows[r])@ == ls[r] by {
            assert(texts(rows@)[r] == rows[r]@);
        }
    }
    let mut ant_matrix: Vec<Vec<AntSpace>> = Vec::new();
    let mut node_matrix: Vec<Vec<NodeSpace>> = Vec::new();
    let mut y: usize = 0;
    while y < rows.len()
        invariant
            rows.len() == ls.len(),
            forall|r: int| 0 <= r < ls.len() ==> (#[trigger] rows[r])@ == ls[r],
            y <= rows.len(),
            ant_matrix.len() == y,
            node_matrix.len() == y,
            forall|r: int| 0 <= r < y ==> (#[trigger] ant_matrix[r]).len() == ls[r].len(),
            forall|r: int| 0 <= r < y ==> (#[trigger] node_matrix[r]).len() == ls[r].len(),
            forall|r: int, c: int|
                0 <= r < y && 0 <= c < ls[r].len() ==> (#[trigger] ant_matrix[r][c]) == ant_of(
                    ls[r][c],
                ),
            forall|r: int, c: int|
                0 <= r < y && 0 <= c < ls[r].len() ==> (#[trigger] node_matrix[r][c]) is Empty,
        decreases rows.len() - y,
    {
        let line = &rows[y];
        let mut ant_row: Vec<AntSpace> = Vec::new();
        let mut node_row: Vec<NodeSpace> = Vec::new();
        let mut x: usize = 0;
        while x < line.len()
            invariant
                y < ls.len(),
                line@ == ls[y as int],
                x <= line.len(),
                ant_row.len() == x,
                node_row.len() == x,
                forall|c: int| 0 <= c < x ==> #[trigger] ant_row[c] == ant_of(ls[y as int][c]),
                forall|c: int| 0 <= c < x ==> (#[trigger] node_row[c]) is Empty,
            decreases line.len() - x,
        {
            let c = line[x];
            ant_row.push(read_space(c));
            node_row.push(NodeSpace::Empty);
            x += 1;
        }
        ant_matrix.push(ant_row);
        node_matrix.push(node_row);
        y += 1;
    }
    (ant_matrix, node_matrix)
}

/// 1 on the places that hold a node.
pub open spec fn node_weight(m: Seq<Vec<NodeSpace>>) -> spec_fn(int, int) -> nat {
    |r: int, c: int| ind(node_at(m, (r, c)))
}

/// The number of places of the map that hold a node.
pub fn count_nodes(matrix: &Vec<Vec<NodeSpace>>) -> (count: usize)
    requires
        wf(matrix@),
        sum_rows(node_weight(matrix@), matrix[0].len() as int, matrix.len() as int) <= usize::MAX,
    ensures
        count == sum_rows(node_weight(matrix@), matrix[0].len() as int, matrix.len() as int),
{
    let ghost f = node_weight(matrix@);
    let ghost w = matrix[0].len() as int;
    let ghost h = matrix.len() as int;
    let mut count: usize = 0;
    let mut y: usize = 0;
    while y < matrix.len()
        invariant
            wf(matrix@),
            f == node_weight(matrix@),
            w == matrix[0].len(),
            h == matrix.len(),
            sum_rows(f, w, h) <= usize::MAX,
            y <= matrix.len(),
            count == sum_rows(f, w, y as int),
        decreases matrix.len() - y,
    {
        let line = &matrix[y];
        let mut x: usize = 0;
        while x < line.len()
            invariant
                wf(matrix@),
                f == node_weight(matrix@),
                w == matrix[0].len(),
                h == matrix.len(),
                sum_rows(f, w, h) <= usize::MAX,
                y < matrix.len(),
                line == matrix[y as int],
                x <= line.len(),
                count == sum_rows(f, w, y as int) + sum_row(f, y as int, x as int),
            decreases line.len() - x,
        {
            proof {
                lemma_partial_le_total(f, w, h, y as int, x + 1);
            }
            match line[x] {
                NodeSpace::Empty => {},
                NodeSpace::Node => {
                    count += 1;
                },
            }
            x += 1;
        }
        y += 1;
    }
    count
}

/// Two antennas of one frequency, on different places of the map that
/// `ls` draws, cast a node on `t`.
pub open spec fn antinode(ls: Seq<Seq<char>>, insert: Insert, t: (int, int)) -> bool {
    exists|p: (int, int), q: (int, int)| #[trigger] pair_casts(ls, insert, p, q, t)
}

/// The places `p` and `q` of the map that `ls` draws hold different
/// antennas of one frequency, and these cast a node on `t`.
pub open spec fn pair_casts(
    ls: Seq<Seq<char>>,
    insert: Insert,
    p: (int, int),
    q: (int, int),
    t: (int, int),
) -> bool {
    &&& 0 <= p.0 < ls.len() && 0 <= p.1 < ls[p.0].len()
    &&& 0 <= q.0 < ls.len() && 0 <= q.1 < ls[q.0].len()
    &&& p != q
    &&& ls[p.0][p.1] != '.'
    &&& ls[p.0][p.1] == ls[q.0][q.1]
    &&& hits(insert, p, q, t)
}

/// 1 on the places on which antennas cast a node.
pub open spec fn antinode_weight(ls: Seq<Seq<char>>, insert: Insert) -> spec_fn(int, int) -> nat {
    |r: int, c: int| ind(antinode(ls, insert, (r, c)))
}

/// The lines draw a map: there is a line, every line is as long as the
/// first, and twice the height and twice the width fit in a signed machine
/// word.
pub open spec fn is_map(ls: Seq<Seq<char>>) -> bool {
    &&& ls.len() > 0
    &&& forall|r: int| 0 <= r < ls.len() ==> (#[trigger] ls[r]).len() == ls[0].len()
    &&& ls.len() * 2 <= isize::MAX
    &&& ls[0].len() * 2 <= isize::MAX
}

/// The number of places of the map that `input` draws on which antennas
/// cast a node.
pub fn count_antinodes(input: &str, insert: Insert) -> (count: usize)
    requires
        is_map(lines(input@)),
        sum_rows(
            antinode_weight(lines(input@), insert),
            lines(input@)[0].len() as int,
            lines(input@).len() as int,
        ) <= usize::MAX,
    ensures
        count == sum_rows(
            antinode_weight(lines(input@), insert),
            lines(input@)[0].len() as int,
            lines(input@).len() as int,
        ),
{
    let ghost ls = lines(input@);
    let (ant_matrix, mut node_matrix) = parse(input);
    let ant_map = map_ants(&ant_matrix);
    let ghost groups = ant_map@;
    let ghost m0 = node_matrix@;
    let ghost w = ls[0].len() as int;
    let ghost h = ls.len() as int;
    let mut g: usize = 0;
    while g < ant_map.len()
        invariant
            groups == ant_map@,
            grouped(ant_matrix@, groups, (ant_matrix.len() as int, 0)),
            is_map(ls),
            w == ls[0].len(),
            h == ls.len(),
            ant_matrix.len() == h,
            forall|r: int| 0 <= r < h ==> (#[trigger] ant_matrix[r]).len() == w,
            forall|r: int, c: int|
                0 <= r < h && 0 <= c < w ==> (#[trigger] ant_matrix[r][c]) == ant_of(ls[r][c]),
            wf(node_matrix@),
            node_matrix.len() == h,
            node_matrix[0].len() == w,
            g <= ant_map.len(),
            forall|r: int, c: int|
                0 <= r < h && 0 <= c < w ==> (#[trigger] node_at(node_matrix@, (r, c))
                    <==> struck_in(insert, groups, g as int, (r, c))),
        decreases ant_map.len() - g,
    {
        let ghost before = node_matrix@;
        proof {
            assert(apart(groups[g as int].1@));
            assert forall|a: int| 0 <= a < groups[g as int].1.len() implies on_map(
                before,
                pos(#[trigger] groups[g as int].1@[a]),
            ) by {
                assert(antenna_at(ant_matrix@, pos(groups[g as int].1[a]), groups[g as int].0));
            }
        }
        generate_nodes(&mut node_matrix, ant_map[g].1.as_slice(), insert);
        proof {
            assert forall|r: int, c: int| 0 <= r < h && 0 <= c < w implies (#[trigger] node_at(
                node_matrix@,
                (r, c),
            ) <==> struck_in(insert, groups, g + 1, (r, c))) by {
                let t = (r, c);
                assert(on_map(before, t));
                assert(node_at(node_matrix@, t) <==> node_at(before, t) || struck(
                    insert,
                    groups[g as int].1@,
                    t,
                ));
                if struck_in(insert, groups, g as int, t) {
                    let k = choose|k: int| 0 <= k < g && #[trigger] struck(insert, groups[k].1@, t);
                    assert(0 <= k < g + 1 && struck(insert, groups[k].1@, t));
                }
                if struck_in(insert, groups, g + 1, t) {
                    let k = choose|k: int|
                        0 <= k < g + 1 && #[trigger] struck(insert, groups[k].1@, t);
                    if k < g {
                        assert(struck_in(insert, groups, g as int, t));
                    }
                }
            }
        }
        g += 1;
    }
    proof {
        let f = node_weight(node_matrix@);
        let goal = antinode_weight(ls, insert);
        assert forall|r: int, c: int| 0 <= r < h && 0 <= c < w implies #[trigger] f(r, c) == goal(
            r,
            c,
        ) by {
            lemma_antinode(ls, ant_matrix@, groups, insert, (r, c));
        }
        crate::tally::lemma_sum_rows_eq(f, goal, w, h);
    }
    count_nodes(&node_matrix)
}

/// Two antennas of one of the first `n` groups cast a node on `t`.
pub open spec fn struck_in(
    insert: Insert,
    groups: Seq<(char, Vec<(usize, usize)>)>,
    n: int,
    t: (int, int),
) -> bool {
    exists|k: int| 0 <= k < n && #[trigger] struck(insert, groups[k].1@, t)
}

/// Two antennas of one group cast a node on a place exactly when two
/// antennas of one frequency do.
proof fn lemma_antinode(
    ls: Seq<Seq<char>>,
    ants: Seq<Vec<AntSpace>>,
    groups: Seq<(char, Vec<(usize, usize)>)>,
    insert: Insert,
    t: (int, int),
)
    requires
        ants.len() == ls.len(),
        forall|r: int| 0 <= r < ls.len() ==> (#[trigger] ants[r]).len() == ls[r].len(),
        forall|r: int, c: int|
            0 <= r < ls.len() && 0 <= c < ls[r].len() ==> (#[trigger] ants[r][c]) == ant_of(ls[r][c]),
        grouped(ants, groups, (ants.len() as int, 0)),
    ensures
        struck_in(insert, groups, groups.len() as int, t) <==> antinode(ls, insert, t),
{
    let upto = (ants.len() as int, 0int);
    if struck_in(insert, groups, groups.len() as int, t) {
        let k = choose|k: int| 0 <= k < groups.len() && #[trigger] struck(insert, groups[k].1@, t);
        let places = groups[k].1@;
        let (a, b) = choose|a: int, b: int| #[trigger] cast(insert, places, a, b, t);
        let p = pos(places[a]);
        let q = pos(places[b]);
        assert(antenna_at(ants, pos(groups[k].1[a]), groups[k].0));
        assert(antenna_at(ants, pos(groups[k].1[b]), groups[k].0));
        assert(apart(places));
        assert(places[a] != places[b]);
        assert(ants[p.0][p.1] == ant_of(ls[p.0][p.1]));
        assert(ants[q.0][q.1] == ant_of(ls[q.0][q.1]));
        assert(pair_casts(ls, insert, p, q, t));
    }
    if antinode(ls, insert, t) {
        let (p, q) = choose|p: (int, int), q: (int, int)| #[trigger] pair_casts(ls, insert, p, q, t);
        let freq = ls[p.0][p.1];
        assert(ants[p.0][p.1] == ant_of(ls[p.0][p.1]));
        assert(ants[q.0][q.1] == ant_of(ls[q.0][q.1]));
        assert(antenna_at(ants, (p.0, p.1), freq) && earlier((p.0, p.1), upto));
        assert(antenna_at(ants, (q.0, q.1), freq) && earlier((q.0, q.1), upto));
        assert(listed(groups, (p.0, p.1), freq));
        assert(listed(groups, (q.0, q.1), freq));
        let (g1, i1) = choose|g: int, i: int|
            0 <= g < groups.len() && 0 <= i < groups[g].1.len() && groups[g].0 == freq && pos(
                #[trigger] groups[g].1[i],
            ) == (p.0, p.1);
        let (g2, i2) = choose|g: int, i: int|
            0 <= g < groups.len() && 0 <= i < groups[g].1.len() && groups[g].0 == freq && pos(
                #[trigger] groups[g].1[i],
            ) == (q.0, q.1);
        if g1 != g2 {
            assert(groups[g1].0 != groups[g2].0);
        }
        assert(cast(insert, groups[g1].1@, i1, i2, t));
        assert(struck(insert, groups[g1].1@, t));
    }
}

/// The number of places of the map that `input` draws on which two
/// antennas of one frequency cast a node, each pair casting one node on
/// each side, as far from the nearer antenna as the antennas are apart.
pub fn part1(input: &str) -> (count: usize)
    requires
        is_map(lines(input@)),
        sum_rows(
            antinode_weight(lines(input@), Insert::Once),
            lines(input@)[0].len() as int,
            lines(input@).len() as int,
        ) <= usize::MAX,
    ensures
        count == sum_rows(
            antinode_weight(lines(input@), Insert::Once),
            lines(input@)[0].len() as int,
            lines(input@).len() as int,
        ),
{
    count_antinodes(input, Insert::Once)
}

/// The number of places of the map that `input` draws on which two
/// antennas of one frequency cast a node, each pair casting nodes on both
/// antennas and at every step of their distance beyond.
pub fn part2(input: &str) -> (count: usize)
    requires
        is_map(lines(input@)),
        sum_rows(
            antinode_weight(lines(input@), Insert::Repeated),
            lines(input@)[0].len() as int,
            lines(input@).len() as int,
        ) <= usize::MAX,
    ensures
        count == sum_rows(
            antinode_weight(lines(input@), Insert::Repeated),
            lines(input@)[0].len() as int,
            lines(input@).len() as int,
        ),
{
    count_antinodes(input, Insert::Repeated)
}

} // verus!
