//! Sums of a natural-number weight over the cells of a rectangle, row by row
//! and column by column, with the algebra that the puzzle proofs lean on, and
//! the cells of a rectangle as a finite set.

use vstd::prelude::*;

verus! {

/// 1 when `b` holds, 0 otherwise.
pub open spec fn ind(b: bool) -> nat {
    if b {
        1
    } else {
        0
    }
}

/// `f(r, 0) + ... + f(r, n - 1)`.
pub open spec fn sum_row(f: spec_fn(int, int) -> nat, r: int, n: int) -> nat
    decreases n,
{
    if n <= 0 {
        0
    } else {
        sum_row(f, r, n - 1) + f(r, n - 1)
    }
}

/// The sum of `f` over rows `0..m`, each of width `w`.
pub open spec fn sum_rows(f: spec_fn(int, int) -> nat, w: int, m: int) -> nat
    decreases m,
{
    if m <= 0 {
        0
    } else {
        sum_rows(f, w, m - 1) + sum_row(f, m - 1, w)
    }
}

/// `f(0, c) + ... + f(m - 1, c)`.
pub open spec fn sum_col(f: spec_fn(int, int) -> nat, c: int, m: int) -> nat
    decreases m,
{
    if m <= 0 {
        0
    } else {
        sum_col(f, c, m - 1) + f(m - 1, c)
    }
}

/// The sum of `f` over columns `0..n`, each of height `h`.
pub open spec fn sum_cols(f: spec_fn(int, int) -> nat, h: int, n: int) -> nat
    decreases n,
{
    if n <= 0 {
        0
    } else {
        sum_cols(f, h, n - 1) + sum_col(f, n - 1, h)
    }
}

/// `f(0) + ... + f(n - 1)`.
pub open spec fn sum_to(f: spec_fn(int) -> nat, n: int) -> nat
    decreases n,
{
    if n <= 0 {
        0
    } else {
        sum_to(f, n - 1) + f(n - 1)
    }
}

/// A row's prefix sums grow with the prefix.
pub proof fn lemma_sum_row_mono(f: spec_fn(int, int) -> nat, r: int, a: int, b: int)
    requires
        a <= b,
    ensures
        sum_row(f, r, a) <= sum_row(f, r, b),
    decreases b - a,
{
    if a < b {
        lemma_sum_row_mono(f, r, a, b - 1);
    }
}

/// The sum over the first rows grows with the number of rows.
pub proof fn lemma_sum_rows_mono(f: spec_fn(int, int) -> nat, w: int, a: int, b: int)
    requires
        a <= b,
    ensures
        sum_rows(f, w, a) <= sum_rows(f, w, b),
    decreases b - a,
{
    if a < b {
        lemma_sum_rows_mono(f, w, a, b - 1);
    }
}

/// Whole rows `0..r` and the first `c` cells of row `r` weigh no more than the
/// whole rectangle.
pub proof fn lemma_partial_le_total(f: spec_fn(int, int) -> nat, w: int, h: int, r: int, c: int)
    requires
        0 <= r < h,
        c <= w,
    ensures
        sum_rows(f, w, r) + sum_row(f, r, c) <= sum_rows(f, w, h),
{
    lemma_sum_row_mono(f, r, c, w);
    lemma_sum_rows_mono(f, w, r + 1, h);
}

/// Two weights that agree on a row have equal row sums.
pub proof fn lemma_sum_row_eq(f: spec_fn(int, int) -> nat, g: spec_fn(int, int) -> nat, r: int, n: int)
    requires
        forall|c: int| 0 <= c < n ==> #[trigger] f(r, c) == g(r, c),
    ensures
        sum_row(f, r, n) == sum_row(g, r, n),
    decreases n,
{
    if n > 0 {
        lemma_sum_row_eq(f, g, r, n - 1);
    }
}

/// Two weights that agree on the rectangle have equal sums.
pub proof fn lemma_sum_rows_eq(
    f: spec_fn(int, int) -> nat,
    g: spec_fn(int, int) -> nat,
    w: int,
    m: int,
)
    requires
        forall|r: int, c: int| 0 <= r < m && 0 <= c < w ==> #[trigger] f(r, c) == g(r, c),
    ensures
        sum_rows(f, w, m) == sum_rows(g, w, m),
    decreases m,
{
    if m > 0 {
        lemma_sum_rows_eq(f, g, w, m - 1);
        lemma_sum_row_eq(f, g, m - 1, w);
    }
}

/// A weight that is pointwise below another has the smaller row sum.
pub proof fn lemma_sum_row_le(f: spec_fn(int, int) -> nat, g: spec_fn(int, int) -> nat, r: int, n: int)
    requires
        forall|c: int| 0 <= c < n ==> #[trigger] f(r, c) <= g(r, c),
    ensures
        sum_row(f, r, n) <= sum_row(g, r, n),
    decreases n,
{
    if n > 0 {
        lemma_sum_row_le(f, g, r, n - 1);
    }
}

/// A weight that is pointwise below another has the smaller sum.
pub proof fn lemma_sum_rows_le(
    f: spec_fn(int, int) -> nat,
    g: spec_fn(int, int) -> nat,
    w: int,
    m: int,
)
    requires
        forall|r: int, c: int| 0 <= r < m && 0 <= c < w ==> #[trigger] f(r, c) <= g(r, c),
    ensures
        sum_rows(f, w, m) <= sum_rows(g, w, m),
    decreases m,
{
    if m > 0 {
        lemma_sum_rows_le(f, g, w, m - 1);
        lemma_sum_row_le(f, g, m - 1, w);
    }
}

/// Row sums add up when the weights do.
pub proof fn lemma_sum_row_add(
    f: spec_fn(int, int) -> nat,
    g: spec_fn(int, int) -> nat,
    s: spec_fn(int, int) -> nat,
    r: int,
    n: int,
)
    requires
        forall|c: int| 0 <= c < n ==> #[trigger] s(r, c) == f(r, c) + g(r, c),
    ensures
        sum_row(s, r, n) == sum_row(f, r, n) + sum_row(g, r, n),
    decreases n,
{
    if n > 0 {
        lemma_sum_row_add(f, g, s, r, n - 1);
    }
}

/// Sums add up when the weights do.
pub proof fn lemma_sum_rows_add(
    f: spec_fn(int, int) -> nat,
    g: spec_fn(int, int) -> nat,
    s: spec_fn(int, int) -> nat,
    w: int,
    m: int,
)
    requires
        forall|r: int, c: int| 0 <= r < m && 0 <= c < w ==> #[trigger] s(r, c) == f(r, c) + g(r, c),
    ensures
        sum_rows(s, w, m) == sum_rows(f, w, m) + sum_rows(g, w, m),
    decreases m,
{
    if m > 0 {
        lemma_sum_rows_add(f, g, s, w, m - 1);
        lemma_sum_row_add(f, g, s, m - 1, w);
    }
}

/// A weight that is 1 on every cell sums to the number of cells.
pub proof fn lemma_sum_rows_ones(f: spec_fn(int, int) -> nat, w: int, m: int)
    requires
        0 <= w,
        0 <= m,
        forall|r: int, c: int| 0 <= r < m && 0 <= c < w ==> #[trigger] f(r, c) == 1,
    ensures
        sum_rows(f, w, m) == m * w,
    decreases m,
{
    if m > 0 {
        lemma_sum_rows_ones(f, w, m - 1);
        lemma_sum_row_ones(f, m - 1, w);
        assert((m - 1) * w + w == m * w) by (nonlinear_arith);
    } else {
        assert(0 * w == 0);
    }
}

/// A weight that is 1 along a row sums to the row's length.
pub proof fn lemma_sum_row_ones(f: spec_fn(int, int) -> nat, r: int, n: int)
    requires
        0 <= n,
        forall|c: int| 0 <= c < n ==> #[trigger] f(r, c) == 1,
    ensures
        sum_row(f, r, n) == n,
    decreases n,
{
    if n > 0 {
        lemma_sum_row_ones(f, r, n - 1);
    }
}

/// A weight that vanishes along a stretch of a row adds nothing there.
pub proof fn lemma_sum_row_flat(f: spec_fn(int, int) -> nat, r: int, a: int, b: int)
    requires
        0 <= a <= b,
        forall|c: int| a <= c < b ==> #[trigger] f(r, c) == 0,
    ensures
        sum_row(f, r, a) == sum_row(f, r, b),
    decreases b - a,
{
    if a < b {
        lemma_sum_row_flat(f, r, a, b - 1);
    }
}

/// A weight that vanishes on whole rows `a..b` adds nothing there.
pub proof fn lemma_sum_rows_flat(f: spec_fn(int, int) -> nat, w: int, a: int, b: int)
    requires
        0 <= a <= b,
        forall|r: int, c: int| a <= r < b && 0 <= c < w ==> #[trigger] f(r, c) == 0,
    ensures
        sum_rows(f, w, a) == sum_rows(f, w, b),
    decreases b - a,
{
    if a < b {
        lemma_sum_rows_flat(f, w, a, b - 1);
        if w > 0 {
            lemma_sum_row_flat(f, b - 1, 0, w);
        }
    }
}

/// A column's prefix sums grow with the prefix.
pub proof fn lemma_sum_col_mono(f: spec_fn(int, int) -> nat, c: int, a: int, b: int)
    requires
        a <= b,
    ensures
        sum_col(f, c, a) <= sum_col(f, c, b),
    decreases b - a,
{
    if a < b {
        lemma_sum_col_mono(f, c, a, b - 1);
    }
}

/// The sum over the first columns grows with the number of columns.
pub proof fn lemma_sum_cols_mono(f: spec_fn(int, int) -> nat, h: int, a: int, b: int)
    requires
        a <= b,
    ensures
        sum_cols(f, h, a) <= sum_cols(f, h, b),
    decreases b - a,
{
    if a < b {
        lemma_sum_cols_mono(f, h, a, b - 1);
    }
}

/// Whole columns `0..c` and the first `r` cells of column `c` weigh no more
/// than the whole rectangle.
pub proof fn lemma_partial_cols_le_total(f: spec_fn(int, int) -> nat, w: int, h: int, r: int, c: int)
    requires
        0 <= c < w,
        r <= h,
    ensures
        sum_cols(f, h, c) + sum_col(f, c, r) <= sum_rows(f, w, h),
{
    lemma_sum_col_mono(f, c, r, h);
    lemma_sum_cols_mono(f, h, c + 1, w);
    lemma_sum_cols_is_sum_rows(f, w, h);
}

/// One term of a sum is no more than the sum.
pub proof fn lemma_sum_to_term(f: spec_fn(int) -> nat, n: int, k: int)
    requires
        0 <= k < n,
    ensures
        f(k) <= sum_to(f, n),
    decreases n,
{
    if k < n - 1 {
        lemma_sum_to_term(f, n - 1, k);
    }
}

/// A sum's prefixes grow with the prefix.
pub proof fn lemma_sum_to_mono(f: spec_fn(int) -> nat, a: int, b: int)
    requires
        a <= b,
    ensures
        sum_to(f, a) <= sum_to(f, b),
    decreases b - a,
{
    if a < b {
        lemma_sum_to_mono(f, a, b - 1);
    }
}

/// Terms that vanish add nothing to a sum.
pub proof fn lemma_sum_to_flat(f: spec_fn(int) -> nat, a: int, b: int)
    requires
        0 <= a <= b,
        forall|k: int| a <= k < b ==> #[trigger] f(k) == 0,
    ensures
        sum_to(f, a) == sum_to(f, b),
    decreases b - a,
{
    if a < b {
        lemma_sum_to_flat(f, a, b - 1);
    }
}

/// `v` on cell `p`, 0 elsewhere.
pub open spec fn point_weight(p: (int, int), v: nat) -> spec_fn(int, int) -> nat {
    |r: int, c: int|
        if r == p.0 && c == p.1 {
            v
        } else {
            0
        }
}

/// `f` with cell `p` set to 0.
pub open spec fn without(f: spec_fn(int, int) -> nat, p: (int, int)) -> spec_fn(int, int) -> nat {
    |r: int, c: int|
        if r == p.0 && c == p.1 {
            0
        } else {
            f(r, c)
        }
}

/// A weight that sits on one cell of the rectangle sums to its value there.
pub proof fn lemma_sum_rows_point(w: int, h: int, p: (int, int), v: nat)
    requires
        0 <= p.0 < h,
        0 <= p.1 < w,
    ensures
        sum_rows(point_weight(p, v), w, h) == v,
{
    let d = point_weight(p, v);
    assert forall|r: int, c: int| 0 <= r < p.0 && 0 <= c < w implies #[trigger] d(r, c) == 0 by {}
    lemma_sum_rows_flat(d, w, 0, p.0);
    assert forall|c: int| 0 <= c < p.1 implies #[trigger] d(p.0, c) == 0 by {}
    lemma_sum_row_flat(d, p.0, 0, p.1);
    assert(sum_row(d, p.0, p.1 + 1) == sum_row(d, p.0, p.1) + d(p.0, p.1));
    assert forall|c: int| p.1 + 1 <= c < w implies #[trigger] d(p.0, c) == 0 by {}
    lemma_sum_row_flat(d, p.0, p.1 + 1, w);
    assert(sum_rows(d, w, p.0 + 1) == sum_rows(d, w, p.0) + sum_row(d, p.0, w));
    assert forall|r: int, c: int| p.0 + 1 <= r < h && 0 <= c < w implies #[trigger] d(r, c)
        == 0 by {}
    lemma_sum_rows_flat(d, w, p.0 + 1, h);
}

/// A sum is the weight of one cell plus the sum over the others.
pub proof fn lemma_sum_rows_split(f: spec_fn(int, int) -> nat, w: int, h: int, p: (int, int))
    requires
        0 <= p.0 < h,
        0 <= p.1 < w,
    ensures
        sum_rows(f, w, h) == f(p.0, p.1) + sum_rows(without(f, p), w, h),
{
    let d = point_weight(p, f(p.0, p.1));
    let rest = without(f, p);
    assert forall|r: int, c: int| 0 <= r < h && 0 <= c < w implies #[trigger] f(r, c) == d(r, c)
        + rest(r, c) by {}
    lemma_sum_rows_add(d, rest, f, w, h);
    lemma_sum_rows_point(w, h, p, f(p.0, p.1));
}

/// A sum that is not 0 has a cell whose weight is not 0.
pub proof fn lemma_sum_rows_witness(f: spec_fn(int, int) -> nat, w: int, h: int) -> (p: (int, int))
    requires
        sum_rows(f, w, h) > 0,
    ensures
        0 <= p.0 < h,
        0 <= p.1 < w,
        f(p.0, p.1) > 0,
{
    if forall|r: int, c: int| 0 <= r < h && 0 <= c < w ==> #[trigger] f(r, c) == 0 {
        if h >= 0 {
            lemma_sum_rows_flat(f, w, 0, h);
        }
        (0, 0)
    } else {
        let (r, c) = choose|r: int, c: int| 0 <= r < h && 0 <= c < w && #[trigger] f(r, c) != 0;
        (r, c)
    }
}

/// A term-by-term smaller sum is smaller.
pub proof fn lemma_sum_to_le(f: spec_fn(int) -> nat, g: spec_fn(int) -> nat, n: int)
    requires
        forall|k: int| 0 <= k < n ==> #[trigger] f(k) <= g(k),
    ensures
        sum_to(f, n) <= sum_to(g, n),
    decreases n,
{
    if n > 0 {
        lemma_sum_to_le(f, g, n - 1);
        assert(f(n - 1) <= g(n - 1));
    }
}

/// `c` times each term of `f`.
pub open spec fn scaled(f: spec_fn(int) -> nat, c: nat) -> spec_fn(int) -> nat {
    |k: int| c * f(k)
}

/// The sum of `c` times each term is `c` times the sum.
pub proof fn lemma_sum_to_scaled(f: spec_fn(int) -> nat, c: nat, n: int)
    ensures
        sum_to(scaled(f, c), n) == c * sum_to(f, n),
    decreases n,
{
    if n > 0 {
        lemma_sum_to_scaled(f, c, n - 1);
        assert(c * (sum_to(f, n - 1) + f(n - 1)) == c * sum_to(f, n - 1) + c * f(n - 1))
            by (nonlinear_arith);
    } else {
        assert(c * 0 == 0) by (nonlinear_arith);
    }
}

/// Column sums over a rectangle one row taller: the new row is added once.
proof fn lemma_sum_cols_step(f: spec_fn(int, int) -> nat, m: int, n: int)
    requires
        0 < m,
    ensures
        sum_cols(f, m, n) == sum_cols(f, m - 1, n) + sum_row(f, m - 1, n),
    decreases n,
{
    if n > 0 {
        lemma_sum_cols_step(f, m, n - 1);
    }
}

/// Summing by columns and summing by rows give the same total.
pub proof fn lemma_sum_cols_is_sum_rows(f: spec_fn(int, int) -> nat, w: int, h: int)
    ensures
        sum_cols(f, h, w) == sum_rows(f, w, h),
    decreases h,
{
    if h > 0 {
        lemma_sum_cols_step(f, h, w);
        lemma_sum_cols_is_sum_rows(f, w, h - 1);
    } else {
        lemma_sum_cols_zero(f, h, w);
    }
}

/// Columns of no height sum to nothing.
proof fn lemma_sum_cols_zero(f: spec_fn(int, int) -> nat, h: int, n: int)
    requires
        h <= 0,
    ensures
        sum_cols(f, h, n) == 0,
    decreases n,
{
    if n > 0 {
        lemma_sum_cols_zero(f, h, n - 1);
    }
}

/// The cells of an `h` by `w` grid.
pub open spec fn cell_set(h: int, w: int) -> Set<(int, int)> {
    Set::new(|p: (int, int)| 0 <= p.0 < h && 0 <= p.1 < w)
}

/// The cells of row `r` in columns `0..w`.
pub open spec fn row_set(r: int, w: int) -> Set<(int, int)> {
    Set::new(|p: (int, int)| p.0 == r && 0 <= p.1 < w)
}

/// A row has finitely many cells.
pub proof fn lemma_row_set_finite(r: int, w: int)
    ensures
        row_set(r, w).finite(),
    decreases w,
{
    if w <= 0 {
        assert(row_set(r, w) =~= Set::<(int, int)>::empty());
    } else {
        lemma_row_set_finite(r, w - 1);
        assert(row_set(r, w) =~= row_set(r, w - 1).insert((r, w - 1)));
    }
}

/// A grid has finitely many cells.
pub proof fn lemma_cell_set_finite(h: int, w: int)
    ensures
        cell_set(h, w).finite(),
    decreases h,
{
    if h <= 0 {
        assert(cell_set(h, w) =~= Set::<(int, int)>::empty());
    } else {
        lemma_cell_set_finite(h - 1, w);
        lemma_row_set_finite(h - 1, w);
        assert(cell_set(h, w) =~= cell_set(h - 1, w).union(row_set(h - 1, w)));
    }
}

} // verus!
