//! Index arithmetic of row-major tables.
use vstd::prelude::*;

use crate::scalar::Scalar;

verus! {

/// Index of entry `(i, j)` of a table whose rows have length `n`.
pub open spec fn pair(i: int, n: int, j: int) -> int {
    i * n + j
}

/// Index of entry `(a, f, m)` of a table of shape `(_, n, s)`.
pub open spec fn cell(a: int, n: int, f: int, s: int, m: int) -> int {
    pair(pair(a, n, f), s, m)
}

/// An entry of a table of `rows` rows of length `n` has an index below
/// `rows * n`.
pub proof fn lemma_pair_in_range(i: int, rows: int, n: int, j: int)
    requires
        0 <= i < rows,
        0 <= j < n,
    ensures
        0 <= i * n,
        0 <= pair(i, n, j) < rows * n,
        pair(i, n, j) >= j,
{
    assert(0 <= i * n && i * n + j < rows * n) by (nonlinear_arith)
        requires
            0 <= i < rows,
            0 <= j < n,
    ;
}

/// Different entries have different indices, in the order of rows, then columns.
pub proof fn lemma_pair_order(i: int, j: int, k: int, l: int, n: int)
    requires
        0 <= j < n,
        0 <= l < n,
    ensures
        pair(i, n, j) == pair(k, n, l) <==> i == k && j == l,
        pair(i, n, j) < pair(k, n, l) <==> i < k || (i == k && j < l),
{
    if i < k {
        assert(i * n + n <= k * n) by (nonlinear_arith)
            requires
                i < k,
                n > 0,
        ;
    } else if k < i {
        assert(k * n + n <= i * n) by (nonlinear_arith)
            requires
                k < i,
                n > 0,
        ;
    }
}

/// An entry of a table of shape `(na, n, s)` has an index below `na * n * s`.
pub proof fn lemma_cell_in_range(a: int, na: int, n: int, f: int, s: int, m: int)
    requires
        0 <= a < na,
        0 <= f < n,
        0 <= m < s,
    ensures
        0 <= a * n,
        0 <= pair(a, n, f) < na * n,
        pair(a, n, f) * s >= pair(a, n, f),
        0 <= cell(a, n, f, s, m) < na * n * s,
        pair(a, n, f) * s <= cell(a, n, f, s, m),
{
    lemma_pair_in_range(a, na, n, f);
    lemma_pair_in_range(pair(a, n, f), na * n, s, m);
    let r = pair(a, n, f);
    assert(r * s >= r) by (nonlinear_arith)
        requires
            r >= 0,
            s >= 1,
    ;
}

/// Different entries of a table of shape `(_, n, s)` have different indices.
pub proof fn lemma_cell_distinct(
    a: int,
    f: int,
    m: int,
    b: int,
    g: int,
    k: int,
    n: int,
    s: int,
)
    requires
        0 <= f < n,
        0 <= g < n,
        0 <= m < s,
        0 <= k < s,
    ensures
        cell(a, n, f, s, m) == cell(b, n, g, s, k) <==> a == b && f == g && m == k,
{
    lemma_pair_order(pair(a, n, f), m, pair(b, n, g), k, s);
    lemma_pair_order(a, f, b, g, n);
}

/// Index of entry `(a, b, c, d)` of a table of shape `(_, nb, nc, nd)`.
pub open spec fn quad(a: int, nb: int, b: int, nc: int, c: int, nd: int, d: int) -> int {
    pair(pair(pair(a, nb, b), nc, c), nd, d)
}

/// An entry of a table of shape `(na, nb, nc, nd)` has an index below
/// `na * nb * nc * nd`.
pub proof fn lemma_quad_in_range(
    a: int,
    na: int,
    b: int,
    nb: int,
    c: int,
    nc: int,
    d: int,
    nd: int,
)
    requires
        0 <= a < na,
        0 <= b < nb,
        0 <= c < nc,
        0 <= d < nd,
    ensures
        0 <= a * nb,
        0 <= pair(a, nb, b) < na * nb,
        0 <= pair(a, nb, b) * nc,
        0 <= pair(pair(a, nb, b), nc, c) < na * nb * nc,
        0 <= pair(pair(a, nb, b), nc, c) * nd,
        0 <= quad(a, nb, b, nc, c, nd, d) < na * nb * nc * nd,
        pair(a, nb, b) <= pair(a, nb, b) * nc,
        pair(pair(a, nb, b), nc, c) <= pair(pair(a, nb, b), nc, c) * nd,
{
    lemma_pair_in_range(a, na, nb, b);
    lemma_pair_in_range(pair(a, nb, b), na * nb, nc, c);
    lemma_pair_in_range(pair(pair(a, nb, b), nc, c), na * nb * nc, nd, d);
    let (p, q) = (pair(a, nb, b), pair(pair(a, nb, b), nc, c));
    assert(p <= p * nc) by (nonlinear_arith)
        requires
            0 <= p,
            1 <= nc,
    ;
    assert(q <= q * nd) by (nonlinear_arith)
        requires
            0 <= q,
            1 <= nd,
    ;
}

/// Different entries of a table of shape `(_, nb, nc, nd)` have different indices,
/// in the order of their coordinates.
pub proof fn lemma_quad_order(
    a: int,
    b: int,
    c: int,
    d: int,
    e: int,
    f: int,
    g: int,
    h: int,
    nb: int,
    nc: int,
    nd: int,
)
    requires
        0 <= b < nb,
        0 <= f < nb,
        0 <= c < nc,
        0 <= g < nc,
        0 <= d < nd,
        0 <= h < nd,
    ensures
        quad(a, nb, b, nc, c, nd, d) == quad(e, nb, f, nc, g, nd, h) <==> a == e && b == f && c == g
            && d == h,
        quad(a, nb, b, nc, c, nd, d) < quad(e, nb, f, nc, g, nd, h) <==> a < e || (a == e && (b < f
            || (b == f && (c < g || (c == g && d < h))))),
{
    lemma_pair_order(a, b, e, f, nb);
    lemma_pair_order(pair(a, nb, b), c, pair(e, nb, f), g, nc);
    lemma_pair_order(pair(pair(a, nb, b), nc, c), d, pair(pair(e, nb, f), nc, g), h, nd);
}

/// Row and column of an index.
pub proof fn lemma_pair_parts(i: int, n: int, j: int)
    requires
        0 <= i,
        0 <= j < n,
    ensures
        pair(i, n, j) / n == i,
        pair(i, n, j) % n == j,
{
    vstd::arithmetic::div_mod::lemma_fundamental_div_mod_converse(pair(i, n, j), n, i, j);
}

/// Every index of a table of `rows` rows of length `n` has a row and a column.
pub proof fn lemma_index_parts(k: int, rows: int, n: int)
    requires
        0 <= k < rows * n,
        0 <= rows,
        0 <= n,
    ensures
        0 <= k / n < rows,
        0 <= k % n < n,
        pair(k / n, n, k % n) == k,
{
    assert(n > 0) by (nonlinear_arith)
        requires
            0 <= k < rows * n,
            0 <= n,
    ;
    vstd::arithmetic::div_mod::lemma_fundamental_div_mod(k, n);
    let (q, r) = (k / n, k % n);
    assert(n * q == q * n) by (nonlinear_arith);
    assert(q < rows) by (nonlinear_arith)
        requires
            q * n <= k < rows * n,
            n > 0,
    ;
    assert(0 <= q) by (nonlinear_arith)
        requires
            k == q * n + r,
            r < n,
            0 <= k,
            n > 0,
    ;
}

/// `old` with `g(k)` added to entry `k`, for every `k` below `n`.
pub open spec fn added<T: Scalar>(old: Seq<T>, n: int, g: spec_fn(int) -> T) -> Seq<T> {
    Seq::new(
        old.len(),
        |k: int|
            if k < n {
                T::sum(old[k], g(k))
            } else {
                old[k]
            },
    )
}

/// Nothing is added below zero, and one more entry is added by one update.
pub proof fn lemma_added_step<T: Scalar>(old: Seq<T>, n: int, g: spec_fn(int) -> T)
    requires
        0 <= n < old.len(),
    ensures
        added(old, n, g).update(n, T::sum(added(old, n, g)[n], g(n))) == added(old, n + 1, g),
{
    assert(added(old, n, g).update(n, T::sum(added(old, n, g)[n], g(n))) =~= added(
        old,
        n + 1,
        g,
    ));
}

/// `old` with entry `k` replaced by `g(k)`, for every `k` below `n`.
pub open spec fn assigned<T>(old: Seq<T>, n: int, g: spec_fn(int) -> T) -> Seq<T> {
    Seq::new(
        old.len(),
        |k: int|
            if k < n {
                g(k)
            } else {
                old[k]
            },
    )
}

/// One more entry is replaced by one update.
pub proof fn lemma_assigned_step<T>(old: Seq<T>, n: int, g: spec_fn(int) -> T)
    requires
        0 <= n < old.len(),
    ensures
        assigned(old, n, g).update(n, g(n)) == assigned(old, n + 1, g),
{
    assert(assigned(old, n, g).update(n, g(n)) =~= assigned(old, n + 1, g));
}

/// The coordinates of entry `k` of a table of shape `(_, nb, nc, nd)`.
pub open spec fn quad_parts(k: int, nb: int, nc: int, nd: int) -> (int, int, int, int) {
    (k / nd / nc / nb, k / nd / nc % nb, k / nd % nc, k % nd)
}

/// The coordinates of the entry `(a, b, c, d)`.
pub proof fn lemma_quad_parts(a: int, nb: int, b: int, nc: int, c: int, nd: int, d: int)
    requires
        0 <= a,
        0 <= b < nb,
        0 <= c < nc,
        0 <= d < nd,
    ensures
        quad_parts(quad(a, nb, b, nc, c, nd, d), nb, nc, nd) == (a, b, c, d),
{
    lemma_pair_in_range(a, a + 1, nb, b);
    lemma_pair_in_range(pair(a, nb, b), pair(a, nb, b) + 1, nc, c);
    lemma_pair_parts(pair(pair(a, nb, b), nc, c), nd, d);
    lemma_pair_parts(pair(a, nb, b), nc, c);
    lemma_pair_parts(a, nb, b);
}

/// Every index of a table of shape `(na, nb, nc, nd)` has coordinates.
pub proof fn lemma_quad_index(k: int, na: int, nb: int, nc: int, nd: int)
    requires
        0 <= k < na * nb * nc * nd,
        0 <= na,
        0 <= nb,
        0 <= nc,
        0 <= nd,
    ensures
        0 <= quad_parts(k, nb, nc, nd).0 < na,
        0 <= quad_parts(k, nb, nc, nd).1 < nb,
        0 <= quad_parts(k, nb, nc, nd).2 < nc,
        0 <= quad_parts(k, nb, nc, nd).3 < nd,
        quad(
            quad_parts(k, nb, nc, nd).0,
            nb,
            quad_parts(k, nb, nc, nd).1,
            nc,
            quad_parts(k, nb, nc, nd).2,
            nd,
            quad_parts(k, nb, nc, nd).3,
        ) == k,
{
    assert(0 <= na * nb && 0 <= na * nb * nc) by (nonlinear_arith)
        requires
            0 <= na,
            0 <= nb,
            0 <= nc,
    ;
    lemma_index_parts(k, na * nb * nc, nd);
    lemma_index_parts(k / nd, na * nb, nc);
    lemma_index_parts(k / nd / nc, na, nb);
}

} // verus!
