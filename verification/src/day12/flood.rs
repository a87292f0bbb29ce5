//! What the flood fill keeps track of, and the facts it needs about it.

use crate::day12::connect::lemma_connected_refl;
use crate::day12::model::{
    before, connected, height, in_grid, is_root, num_regions, rectangular, root_weight,
    roots_before, step, symbol, width,
};
use crate::day12::{plot_matches, unfenced, Crop};
use crate::tally::{
    cell_set, lemma_cell_set_finite, lemma_sum_row_flat, lemma_sum_rows_flat, lemma_sum_rows_le,
    lemma_sum_rows_ones,
};
use crate::text::total_len;
use vstd::prelude::*;

verus! {

/// The cell that a pair of indices names.
pub open spec fn pos(c: (usize, usize)) -> (int, int) {
    (c.0 as int, c.1 as int)
}

/// Cell `p` waits in the queue `q`.
pub open spec fn queued(q: Seq<(usize, usize)>, p: (int, int)) -> bool {
    exists|i: int| 0 <= i < q.len() && pos(#[trigger] q[i]) == p
}

/// Every step from `p` ends on a marked cell.
pub open spec fn closed_at(g: Seq<Seq<char>>, visited: Seq<Vec<bool>>, p: (int, int)) -> bool {
    forall|q: (int, int)| #[trigger] step(g, p, q) ==> visited[q.0][q.1]
}

/// The cells of `g` that `visited` does not mark.
pub open spec fn unmarked(g: Seq<Seq<char>>, visited: Seq<Vec<bool>>) -> Set<(int, int)> {
    Set::new(|p: (int, int)| in_grid(g, p) && !visited[p.0][p.1])
}

/// A queue holds the cell pushed at its front and what it held before.
pub proof fn lemma_queued_push_front(q: Seq<(usize, usize)>, n: (usize, usize))
    ensures
        forall|p: (int, int)| #[trigger] queued(seq![n] + q, p) <==> (queued(q, p) || p == pos(n)),
{
    let q2 = seq![n] + q;
    assert forall|p: (int, int)| #[trigger] queued(q2, p) <==> (queued(q, p) || p == pos(n)) by {
        if queued(q2, p) {
            let i = choose|i: int| 0 <= i < q2.len() && pos(#[trigger] q2[i]) == p;
            if i > 0 {
                assert(pos(q[i - 1]) == p);
            }
        }
        if queued(q, p) {
            let i = choose|i: int| 0 <= i < q.len() && pos(#[trigger] q[i]) == p;
            assert(pos(q2[i + 1]) == p);
        }
        if p == pos(n) {
            assert(pos(q2[0]) == p);
        }
    }
}

/// A queue held the cell taken from its back and what it holds now.
pub proof fn lemma_queued_drop_last(q: Seq<(usize, usize)>)
    requires
        q.len() > 0,
    ensures
        forall|p: (int, int)| #[trigger]
            queued(q, p) <==> (queued(q.subrange(0, q.len() - 1), p) || p == pos(q.last())),
{
    let q2 = q.subrange(0, q.len() - 1);
    assert forall|p: (int, int)| #[trigger] queued(q, p) <==> (queued(q2, p) || p == pos(q.last())) by {
        if queued(q, p) {
            let i = choose|i: int| 0 <= i < q.len() && pos(#[trigger] q[i]) == p;
            if i < q.len() - 1 {
                assert(pos(q2[i]) == p);
            }
        }
        if queued(q2, p) {
            let i = choose|i: int| 0 <= i < q2.len() && pos(#[trigger] q2[i]) == p;
            assert(pos(q[i]) == p);
        }
        if p == pos(q.last()) {
            assert(pos(q[q.len() - 1]) == p);
        }
    }
}

/// The unmarked cells are finitely many.
pub proof fn lemma_unmarked_finite(g: Seq<Seq<char>>, visited: Seq<Vec<bool>>)
    ensures
        unmarked(g, visited).finite(),
{
    lemma_cell_set_finite(height(g), width(g));
    vstd::set_lib::lemma_len_subset(unmarked(g, visited), cell_set(height(g), width(g)));
}

/// Marking one more cell leaves one unmarked cell fewer.
pub proof fn lemma_unmarked_shrinks(
    g: Seq<Seq<char>>,
    before_marks: Seq<Vec<bool>>,
    after_marks: Seq<Vec<bool>>,
    p: (int, int),
)
    requires
        in_grid(g, p),
        !before_marks[p.0][p.1],
        forall|r: int, c: int|
            0 <= r < height(g) && 0 <= c < width(g) ==> #[trigger] after_marks[r][c] == (
            before_marks[r][c] || (r == p.0 && c == p.1)),
    ensures
        unmarked(g, after_marks).len() + 1 == unmarked(g, before_marks).len(),
{
    lemma_unmarked_finite(g, before_marks);
    assert(unmarked(g, after_marks) =~= unmarked(g, before_marks).remove(p));
}

/// A rectangular grid holds height times width symbols.
pub proof fn lemma_grid_cells(g: Seq<Seq<char>>)
    requires
        rectangular(g),
    ensures
        total_len(g) == height(g) * width(g),
    decreases g.len(),
{
    if g.len() == 0 {
        assert(height(g) * width(g) == 0) by (nonlinear_arith)
            requires
                height(g) == 0,
        ;
    } else {
        let rest = g.drop_first();
        if rest.len() == 0 {
            assert(total_len(rest) == 0);
            assert(height(g) * width(g) == width(g)) by (nonlinear_arith)
                requires
                    height(g) == 1,
            ;
        } else {
            assert(rest[0] == g[1]);
            assert forall|r: int| 0 <= r < rest.len() implies (#[trigger] rest[r]).len()
                == rest[0].len() by {
                assert(rest[r] == g[r + 1]);
            }
            lemma_grid_cells(rest);
            assert(width(rest) == width(g));
            assert(height(g) * width(g) == width(g) + height(rest) * width(g))
                by (nonlinear_arith)
                requires
                    height(g) == height(rest) + 1,
            ;
        }
    }
}

/// A grid has no more regions than cells.
pub proof fn lemma_num_regions_le_cells(g: Seq<Seq<char>>)
    ensures
        num_regions(g) <= height(g) * width(g),
{
    let one = |r: int, c: int| 1nat;
    lemma_sum_rows_le(root_weight(g), one, width(g), height(g));
    lemma_sum_rows_ones(one, width(g), height(g));
}

/// Where no region begins between two positions, as many begin before the
/// one as before the other.
pub proof fn lemma_roots_before_flat(g: Seq<Seq<char>>, a: (int, int), b: (int, int))
    requires
        0 <= a.0 <= b.0,
        0 <= a.1 <= width(g),
        0 <= b.1 <= width(g),
        !before(b, a),
        forall|r: int, c: int|
            0 <= c < width(g) && !before((r, c), a) && before((r, c), b) ==> !#[trigger] is_root(
                g,
                (r, c),
            ),
    ensures
        roots_before(g, a) == roots_before(g, b),
{
    let f = root_weight(g);
    let w = width(g);
    if a.0 == b.0 {
        assert forall|c: int| a.1 <= c < b.1 implies #[trigger] f(a.0, c) == 0 by {
            assert(!is_root(g, (a.0, c)));
        }
        lemma_sum_row_flat(f, a.0, a.1, b.1);
    } else {
        assert forall|c: int| a.1 <= c < w implies #[trigger] f(a.0, c) == 0 by {
            assert(!is_root(g, (a.0, c)));
        }
        lemma_sum_row_flat(f, a.0, a.1, w);
        assert forall|r: int, c: int| a.0 + 1 <= r < b.0 && 0 <= c < w implies #[trigger] f(r, c)
            == 0 by {
            assert(!is_root(g, (r, c)));
        }
        lemma_sum_rows_flat(f, w, a.0 + 1, b.0);
        assert forall|c: int| 0 <= c < b.1 implies #[trigger] f(b.0, c) == 0 by {
            assert(!is_root(g, (b.0, c)));
        }
        lemma_sum_row_flat(f, b.0, 0, b.1);
    }
}

/// Every cell that `base` marks, `visited` marks too.
pub open spec fn grown(g: Seq<Seq<char>>, base: Seq<Vec<bool>>, visited: Seq<Vec<bool>>) -> bool {
    forall|r: int, c: int|
        0 <= r < height(g) && 0 <= c < width(g) && #[trigger] base[r][c] ==> visited[r][c]
}

/// The cells of `g` that `visited` marks.
pub open spec fn marked(g: Seq<Seq<char>>, visited: Seq<Vec<bool>>) -> Set<(int, int)> {
    Set::new(|p: (int, int)| in_grid(g, p) && visited[p.0][p.1])
}

/// The flood fill's progress: the cells of `fin` are finished, which is to
/// say marked, matching the grid, and with every equal neighbour marked; the
/// others are as they were planted.
#[verifier::opaque]
pub open spec fn settled(
    g: Seq<Seq<char>>,
    garden: Seq<Vec<Crop>>,
    visited: Seq<Vec<bool>>,
    fin: Set<(int, int)>,
) -> bool {
    forall|r: int, c: int|
        #![trigger garden[r][c]]
        #![trigger fin.contains((r, c))]
        0 <= r < height(g) && 0 <= c < width(g) ==> if fin.contains((r, c)) {
            &&& plot_matches(g, garden[r][c], (r, c))
            &&& visited[r][c]
            &&& closed_at(g, visited, (r, c))
        } else {
            garden[r][c] == unfenced(symbol(g, (r, c)))
        }
}

/// Between two floods: every marked cell is finished, every other cell is as
/// it was planted.
pub open spec fn rested(g: Seq<Seq<char>>, garden: Seq<Vec<Crop>>, visited: Seq<Vec<bool>>) -> bool {
    settled(g, garden, visited, marked(g, visited))
}

/// The flood fill's frontier: the queue holds marked cells of the region of
/// `s`, and every marked cell is either finished or in the queue.
#[verifier::opaque]
pub open spec fn wave(
    g: Seq<Seq<char>>,
    visited: Seq<Vec<bool>>,
    queue: Seq<(usize, usize)>,
    fin: Set<(int, int)>,
    s: (int, int),
) -> bool {
    &&& forall|q: (int, int)| #[trigger]
        queued(queue, q) ==> in_grid(g, q) && visited[q.0][q.1] && connected(g, s, q)
    &&& forall|r: int, c: int|
        0 <= r < height(g) && 0 <= c < width(g) && #[trigger] visited[r][c] && !fin.contains(
            (r, c),
        ) ==> queued(queue, (r, c))
}

/// What the flood from `s` has finished so far: all that was marked before
/// it began, and beyond that only cells of the region of `s`.
#[verifier::opaque]
pub open spec fn gained(
    g: Seq<Seq<char>>,
    vis0: Seq<Vec<bool>>,
    fin: Set<(int, int)>,
    s: (int, int),
) -> bool {
    &&& forall|r: int, c: int|
        0 <= r < height(g) && 0 <= c < width(g) && #[trigger] vis0[r][c] ==> fin.contains((r, c))
    &&& forall|r: int, c: int|
        0 <= r < height(g) && 0 <= c < width(g) && #[trigger] fin.contains((r, c)) && !vis0[r][c]
            ==> connected(g, s, (r, c))
}

/// What `settled` says of one cell.
pub proof fn lemma_settled_at(
    g: Seq<Seq<char>>,
    garden: Seq<Vec<Crop>>,
    visited: Seq<Vec<bool>>,
    fin: Set<(int, int)>,
    p: (int, int),
)
    requires
        settled(g, garden, visited, fin),
        in_grid(g, p),
    ensures
        fin.contains(p) ==> plot_matches(g, garden[p.0][p.1], p) && visited[p.0][p.1] && closed_at(
            g,
            visited,
            p,
        ),
        !fin.contains(p) ==> garden[p.0][p.1] == unfenced(symbol(g, p)),
        garden[p.0][p.1].crop == symbol(g, p),
{
    reveal(settled);
    assert(fin.contains((p.0, p.1)) == fin.contains(p));
}

/// A garden as planted, with nothing marked, is at rest.
pub proof fn lemma_rested_planted(g: Seq<Seq<char>>, garden: Seq<Vec<Crop>>, visited: Seq<Vec<bool>>)
    requires
        forall|r: int, c: int|
            0 <= r < height(g) && 0 <= c < width(g) ==> (#[trigger] garden[r][c]) == unfenced(
                symbol(g, (r, c)),
            ),
        forall|r: int, c: int| 0 <= r < height(g) && 0 <= c < width(g) ==> !#[trigger] visited[r][c],
    ensures
        rested(g, garden, visited),
{
    reveal(settled);
}

/// More marks leave what was settled settled.
pub proof fn lemma_settled_grown(
    g: Seq<Seq<char>>,
    garden: Seq<Vec<Crop>>,
    base: Seq<Vec<bool>>,
    visited: Seq<Vec<bool>>,
    fin: Set<(int, int)>,
)
    requires
        settled(g, garden, base, fin),
        grown(g, base, visited),
    ensures
        settled(g, garden, visited, fin),
{
    reveal(settled);
    assert forall|r: int, c: int|
        #![trigger garden[r][c]]
        #![trigger fin.contains((r, c))]
        0 <= r < height(g) && 0 <= c < width(g) && fin.contains((r, c)) implies closed_at(
        g,
        visited,
        (r, c),
    ) by {
        assert(closed_at(g, base, (r, c)));
        assert(base[r][c]);
    }
}

/// Finishing one more cell `p` keeps the garden settled.
pub proof fn lemma_settle(
    g: Seq<Seq<char>>,
    garden0: Seq<Vec<Crop>>,
    garden: Seq<Vec<Crop>>,
    marks0: Seq<Vec<bool>>,
    visited: Seq<Vec<bool>>,
    fin0: Set<(int, int)>,
    p: (int, int),
)
    requires
        settled(g, garden0, marks0, fin0),
        grown(g, marks0, visited),
        in_grid(g, p),
        forall|r: int, c: int|
            0 <= r < height(g) && 0 <= c < width(g) && (r, c) != p ==> (#[trigger] garden[r][c])
                == garden0[r][c],
        plot_matches(g, garden[p.0][p.1], p),
        visited[p.0][p.1],
        closed_at(g, visited, p),
    ensures
        settled(g, garden, visited, fin0.insert(p)),
{
    lemma_settled_grown(g, garden0, marks0, visited, fin0);
    reveal(settled);
    let fin = fin0.insert(p);
    assert forall|r: int, c: int|
        #![trigger garden[r][c]]
        #![trigger fin.contains((r, c))]
        0 <= r < height(g) && 0 <= c < width(g) implies if fin.contains((r, c)) {
        &&& plot_matches(g, garden[r][c], (r, c))
        &&& visited[r][c]
        &&& closed_at(g, visited, (r, c))
    } else {
        garden[r][c] == unfenced(symbol(g, (r, c)))
    } by {
        if (r, c) != p {
            assert(garden[r][c] == garden0[r][c]);
            assert(fin.contains((r, c)) == fin0.contains((r, c)));
        }
    }
}

/// The flood begins: the seed `s` is marked and alone in the queue.
pub proof fn lemma_wave_start(
    g: Seq<Seq<char>>,
    vis0: Seq<Vec<bool>>,
    visited: Seq<Vec<bool>>,
    queue: Seq<(usize, usize)>,
    s: (int, int),
)
    requires
        in_grid(g, s),
        queue.len() == 1,
        pos(queue[0]) == s,
        forall|r: int, c: int|
            0 <= r < height(g) && 0 <= c < width(g) ==> #[trigger] visited[r][c] == (vis0[r][c] || (
            r == s.0 && c == s.1)),
    ensures
        wave(g, visited, queue, marked(g, vis0), s),
        gained(g, vis0, marked(g, vis0), s),
        grown(g, vis0, visited),
{
    reveal(wave);
    reveal(gained);
    lemma_connected_refl(g, s);
    assert forall|r: int, c: int|
        0 <= r < height(g) && 0 <= c < width(g) && #[trigger] visited[r][c] && !marked(
            g,
            vis0,
        ).contains((r, c)) implies queued(queue, (r, c)) by {
        assert(pos(queue[0]) == (r, c));
    }
}

/// Taking the last cell `p` from the queue and counting it as finished keeps
/// the frontier in order.
pub proof fn lemma_wave_pop(
    g: Seq<Seq<char>>,
    visited: Seq<Vec<bool>>,
    queue: Seq<(usize, usize)>,
    fin: Set<(int, int)>,
    vis0: Seq<Vec<bool>>,
    s: (int, int),
)
    requires
        wave(g, visited, queue, fin, s),
        gained(g, vis0, fin, s),
        queue.len() > 0,
    ensures
        wave(g, visited, queue.subrange(0, queue.len() - 1), fin.insert(pos(queue.last())), s),
        gained(g, vis0, fin.insert(pos(queue.last())), s),
        in_grid(g, pos(queue.last())),
        visited[queue.last().0 as int][queue.last().1 as int],
        connected(g, s, pos(queue.last())),
{
    reveal(wave);
    reveal(gained);
    lemma_queued_drop_last(queue);
    let p = pos(queue.last());
    assert(pos(queue[queue.len() - 1]) == p);
    assert(queued(queue, p));
    let fin1 = fin.insert(p);
    let rest = queue.subrange(0, queue.len() - 1);
    assert forall|q: (int, int)| #[trigger] queued(rest, q) implies in_grid(g, q) && visited[q.0][q.1]
        && connected(g, s, q) by {
        assert(queued(queue, q));
    }
    assert forall|r: int, c: int|
        0 <= r < height(g) && 0 <= c < width(g) && #[trigger] visited[r][c] && !fin1.contains(
            (r, c),
        ) implies queued(rest, (r, c)) by {
        assert(queued(queue, (r, c)));
    }
    assert forall|r: int, c: int|
        0 <= r < height(g) && 0 <= c < width(g) && #[trigger] fin1.contains((r, c)) && !vis0[r][c] implies connected(
        g,
        s,
        (r, c),
    ) by {
        if (r, c) != p {
            assert(fin.contains((r, c)));
        }
    }
}

/// With the queue empty, the flood is over and the garden at rest.
pub proof fn lemma_wave_done(
    g: Seq<Seq<char>>,
    garden: Seq<Vec<Crop>>,
    visited: Seq<Vec<bool>>,
    queue: Seq<(usize, usize)>,
    fin: Set<(int, int)>,
    vis0: Seq<Vec<bool>>,
    s: (int, int),
)
    requires
        settled(g, garden, visited, fin),
        wave(g, visited, queue, fin, s),
        gained(g, vis0, fin, s),
        queue.len() == 0,
    ensures
        rested(g, garden, visited),
        forall|r: int, c: int|
            0 <= r < height(g) && 0 <= c < width(g) && #[trigger] visited[r][c] && !vis0[r][c]
                ==> connected(g, s, (r, c)),
{
    reveal(settled);
    reveal(wave);
    reveal(gained);
    let m = marked(g, visited);
    assert forall|r: int, c: int| 0 <= r < height(g) && 0 <= c < width(g) implies fin.contains(
        (r, c),
    ) == #[trigger] m.contains((r, c)) by {
        if visited[r][c] && !fin.contains((r, c)) {
            assert(queued(queue, (r, c)));
        }
    }
    assert forall|r: int, c: int|
        #![trigger garden[r][c]]
        #![trigger m.contains((r, c))]
        0 <= r < height(g) && 0 <= c < width(g) implies if m.contains((r, c)) {
        &&& plot_matches(g, garden[r][c], (r, c))
        &&& visited[r][c]
        &&& closed_at(g, visited, (r, c))
    } else {
        garden[r][c] == unfenced(symbol(g, (r, c)))
    } by {
        assert(fin.contains((r, c)) == m.contains((r, c)));
    }
    assert forall|r: int, c: int|
        0 <= r < height(g) && 0 <= c < width(g) && #[trigger] visited[r][c] && !vis0[r][c] implies connected(
        g,
        s,
        (r, c),
    ) by {
        assert(m.contains((r, c)));
        assert(fin.contains((r, c)));
    }
}

} // verus!
