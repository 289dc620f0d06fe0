//! Matrices of which the integrals of two primitives are those in the other order, up to a
//! factor.
//!
//! Contraction and the change to spherical functions treat bra and ket alike, so without
//! rounding the matrix inherits what holds of the primitives.
use vstd::prelude::*;

use crate::engine::os::{block_size, lemma_block_bounds, lemma_pair_at, pair_at};
use crate::engine::os_eri::MAX_L;
use crate::exact::{
    is_ring, lemma_ring_commute, lemma_ring_factors, lemma_ring_sums, lemma_same_sum,
    lemma_sum_of_sums, lemma_zero_sum, sum_before,
};
use crate::flat::{added, cell, lemma_pair_in_range, lemma_pair_parts, pair};
use crate::math::am::{cart_count, component_at, is_component, Powers};
use crate::one_electron::{contracted_pair, pair_entries, PairStep};
use crate::pair_values::{adds_values, entries_of, PairValue};
use crate::scalar::{Real, Scalar};
use crate::shell::{function_counts, Shell};
use crate::spherical::{contracted_axis, function_block2, row_sum, shell_matrix};
use crate::tensor::{is_function, At};

verus! {

/// A sum of multiples.
pub proof fn lemma_scaled_sum<T: Scalar>(s: T, f: spec_fn(int) -> T, g: spec_fn(int) -> T, n: int)
    requires
        is_ring::<T>(),
        forall|c: int| 0 <= c < n ==> #[trigger] g(c) == T::prod(s, f(c)),
    ensures
        sum_before(g, n) == T::prod(s, sum_before(f, n)),
    decreases n,
{
    if n > 0 {
        lemma_scaled_sum(s, f, g, n - 1);
        assert(g(n - 1) == T::prod(s, f(n - 1)));
        lemma_ring_factors(s, sum_before(f, n - 1), f(n - 1));
    } else {
        lemma_ring_sums(s, s, s);
    }
}

/// The order of two sums does not matter.
pub proof fn lemma_sums_exchanged<T: Scalar>(
    f: spec_fn(int, int) -> T,
    rows: spec_fn(int) -> T,
    columns: spec_fn(int) -> T,
    m: int,
    n: int,
)
    requires
        is_ring::<T>(),
        forall|i: int| 0 <= i < m ==> #[trigger] rows(i) == sum_before(|j: int| f(i, j), n),
        forall|j: int| 0 <= j < n ==> #[trigger] columns(j) == sum_before(|i: int| f(i, j), m),
    ensures
        sum_before(rows, m) == sum_before(columns, n),
    decreases m,
{
    lemma_ring_sums(T::count(0), T::count(0), T::count(0));
    if m > 0 {
        let before = |j: int| sum_before(|i: int| f(i, j), m - 1);
        lemma_sums_exchanged(f, rows, before, m - 1, n);
        let last = |j: int| f(m - 1, j);
        assert(rows(m - 1) == sum_before(last, n));
        assert forall|j: int| 0 <= j < n implies #[trigger] columns(j) == T::sum(
            before(j),
            last(j),
        ) by {
            assert(columns(j) == sum_before(|i: int| f(i, j), m));
        }
        lemma_sum_of_sums(before, last, columns, n);
    } else {
        let none = |j: int| T::count(0);
        assert forall|j: int| 0 <= j < n implies #[trigger] columns(j) == none(j) by {
            assert(columns(j) == sum_before(|i: int| f(i, j), m));
        }
        lemma_same_sum(none, columns, n);
        lemma_zero_sum(none, n);
    }
}

/// What a pair of primitives adds to an entry of a block.
spec fn summand<T: Real>(
    value: PairValue<T>,
    a: Shell<T>,
    b: Shell<T>,
    ca: Powers,
    cb: Powers,
    i: int,
    j: int,
) -> T {
    T::prod(
        T::prod(a.effective(i), b.effective(j)),
        value(a.primitive(i), b.primitive(j), ca, cb),
    )
}

/// The summands of one primitive of the bra.
spec fn row_total<T: Real>(
    value: PairValue<T>,
    a: Shell<T>,
    b: Shell<T>,
    ca: Powers,
    cb: Powers,
    i: int,
) -> T {
    sum_before(|j: int| summand(value, a, b, ca, cb, i, j), b.exponents@.len() as int)
}

/// The entries of a contracted block are double sums.
proof fn lemma_block_sum<T: Real>(
    step: PairStep<T>,
    value: PairValue<T>,
    a: Shell<T>,
    b: Shell<T>,
    i: int,
    j: int,
    e: int,
)
    requires
        is_ring::<T>(),
        adds_values(step, value),
        0 <= i,
        0 <= j <= b.exponents@.len(),
        0 <= e < block_size(a.l as int, b.l as int),
    ensures
        ({
            let (ca, cb) = pair_at(a.l as int, b.l as int, e);
            let block = contracted_pair(step, a, b, i, j);
            block.len() == block_size(a.l as int, b.l as int) && block[e] == T::sum(
                sum_before(|i: int| row_total(value, a, b, ca, cb, i), i),
                sum_before(|k: int| summand(value, a, b, ca, cb, i, k), j),
            )
        }),
    decreases i, j,
{
    let (ca, cb) = pair_at(a.l as int, b.l as int, e);
    let size = block_size(a.l as int, b.l as int);
    let rows = |i: int| row_total(value, a, b, ca, cb, i);
    let row = |k: int| summand(value, a, b, ca, cb, i, k);
    let zero = T::count(0);
    lemma_ring_sums(zero, zero, zero);
    if j > 0 {
        lemma_block_sum(step, value, a, b, i, j - 1, e);
        let old = contracted_pair(step, a, b, i, j - 1);
        let (pa, pb) = (a.primitive(i), b.primitive(j - 1));
        let w = T::prod(a.effective(i), b.effective(j - 1));
        assert(step(old, pa, pb, w) == added(old, size, entries_of(value, pa, pb, w)));
        assert(entries_of(value, pa, pb, w)(e) == row(j - 1));
        lemma_ring_sums(sum_before(rows, i), sum_before(row, j - 1), row(j - 1));
    } else if i > 0 {
        let n = b.exponents@.len() as int;
        lemma_block_sum(step, value, a, b, i - 1, n, e);
        let last = |k: int| summand(value, a, b, ca, cb, i - 1, k);
        assert(rows(i - 1) == sum_before(last, n));
        let total = sum_before(rows, i);
        lemma_ring_sums(total, total, total);
    }
}

/// Whether the integrals of two shells are `s` times those in the other order.
pub open spec fn exchanges<T: Real>(value: PairValue<T>, s: T, a: Shell<T>, b: Shell<T>) -> bool {
    forall|i: int, j: int, ca: Powers, cb: Powers|
        0 <= i < a.exponents@.len() && 0 <= j < b.exponents@.len() && is_component(ca, a.l as int)
            && is_component(cb, b.l as int) ==> #[trigger] value(
            a.primitive(i),
            b.primitive(j),
            ca,
            cb,
        ) == T::prod(s, value(b.primitive(j), a.primitive(i), cb, ca))
}

/// The Cartesian entries in the other order.
proof fn lemma_block_transposed<T: Real>(
    step: PairStep<T>,
    value: PairValue<T>,
    s: T,
    a: Shell<T>,
    b: Shell<T>,
    ia: int,
    ib: int,
)
    requires
        is_ring::<T>(),
        adds_values(step, value),
        exchanges(value, s, a, b),
        a.l <= MAX_L,
        b.l <= MAX_L,
        0 <= ia < cart_count(a.l as int),
        0 <= ib < cart_count(b.l as int),
    ensures
        contracted_pair(step, a, b, a.exponents@.len() as int, 0)[pair(
            ia,
            cart_count(b.l as int),
            ib,
        )] == T::prod(
            s,
            contracted_pair(step, b, a, b.exponents@.len() as int, 0)[pair(
                ib,
                cart_count(a.l as int),
                ia,
            )],
        ),
{
    let (la, lb) = (a.l as int, b.l as int);
    let (m, n) = (a.exponents@.len() as int, b.exponents@.len() as int);
    let (ca, cb) = (component_at(la, ia), component_at(lb, ib));
    crate::math::am::law_every_position_is_taken(la, ia);
    crate::math::am::law_every_position_is_taken(lb, ib);
    lemma_pair_in_range(ia, cart_count(la), cart_count(lb), ib);
    lemma_pair_in_range(ib, cart_count(lb), cart_count(la), ia);
    lemma_pair_at(la, lb, ia, ib);
    lemma_pair_at(lb, la, ib, ia);
    lemma_block_sum(step, value, a, b, m, 0, pair(ia, cart_count(lb), ib));
    lemma_block_sum(step, value, b, a, n, 0, pair(ib, cart_count(la), ia));
    let here = |i: int| row_total(value, a, b, ca, cb, i);
    let there = |j: int| row_total(value, b, a, cb, ca, j);
    let f = |i: int, j: int| summand(value, a, b, ca, cb, i, j);
    let columns = |j: int| sum_before(|i: int| f(i, j), m);
    assert forall|i: int| 0 <= i < m implies #[trigger] here(i) == sum_before(
        |j: int| f(i, j),
        n,
    ) by {
        lemma_same_sum(
            |j: int| summand(value, a, b, ca, cb, i, j),
            |j: int| f(i, j),
            n,
        );
    }
    lemma_sums_exchanged(f, here, columns, m, n);
    assert forall|j: int| 0 <= j < n implies #[trigger] columns(j) == T::prod(s, there(j)) by {
        let g = |i: int| summand(value, b, a, cb, ca, j, i);
        let h = |i: int| f(i, j);
        assert forall|i: int| 0 <= i < m implies #[trigger] h(i) == T::prod(s, g(i)) by {
            let v = value(b.primitive(j), a.primitive(i), cb, ca);
            let w = T::prod(b.effective(j), a.effective(i));
            assert(value(a.primitive(i), b.primitive(j), ca, cb) == T::prod(s, v));
            lemma_ring_commute(a.effective(i), b.effective(j));
            lemma_ring_factors(s, w, v);
        }
        lemma_scaled_sum(s, g, h, m);
        assert(there(j) == sum_before(g, m));
    }
    lemma_scaled_sum(s, there, columns, n);
    let (u, v) = (sum_before(here, m), sum_before(there, n));
    lemma_ring_sums(u, u, u);
    lemma_ring_sums(v, v, v);
}

/// Row `r` of a matrix times a vector of `n` entries; entry `r` if there is no matrix.
pub open spec fn taken<T: Scalar>(m: Option<Seq<T>>, n: int, f: spec_fn(int) -> T, r: int) -> T {
    match m {
        None => f(r),
        Some(m) => sum_before(|c: int| T::prod(m[pair(r, n, c)], f(c)), n),
    }
}

/// A sum along a row of a matrix.
pub proof fn lemma_row_sum<T: Scalar>(
    m: Seq<T>,
    block: Seq<T>,
    n: int,
    inner: int,
    o: int,
    r: int,
    i: int,
    g: spec_fn(int) -> T,
    c: int,
)
    requires
        c <= n,
        forall|x: int|
            0 <= x < n ==> #[trigger] g(x) == T::prod(
                m[pair(r, n, x)],
                block[cell(o, n, x, inner, i)],
            ),
    ensures
        row_sum(m, block, n, inner, o, r, i, c) == sum_before(g, c),
    decreases c,
{
    if c > 0 {
        lemma_row_sum(m, block, n, inner, o, r, i, g, c - 1);
        assert(g(c - 1) == T::prod(m[pair(r, n, c - 1)], block[cell(o, n, c - 1, inner, i)]));
    }
}

/// The entries of a block brought to its functions, bra first.
proof fn lemma_function_entry<T: Real>(a: Shell<T>, b: Shell<T>, block: Seq<T>, x: int, y: int)
    requires
        a.valid(),
        b.valid(),
        0 <= x < a.functions(),
        0 <= y < b.functions(),
    ensures
        ({
            let (na, nb) = (cart_count(a.l as int), cart_count(b.l as int));
            let (ma, mb) = (
                shell_matrix::<T>(a.kind, a.l as int),
                shell_matrix::<T>(b.kind, b.l as int),
            );
            function_block2(a, b, block)[pair(x, b.functions(), y)] == taken(
                mb,
                nb,
                |ib: int| taken(ma, na, |ia: int| block[pair(ia, nb, ib)], x),
                y,
            )
        }),
{
    let (na, nb) = (cart_count(a.l as int), cart_count(b.l as int));
    let (fa, fb) = (a.functions(), b.functions());
    let (ma, mb) = (
        shell_matrix::<T>(a.kind, a.l as int),
        shell_matrix::<T>(b.kind, b.l as int),
    );
    lemma_block_bounds(a.l as int, b.l as int);
    let b1 = contracted_axis(ma, fa, block, 1, na, nb);
    let inside = |ib: int| taken(ma, na, |ia: int| block[pair(ia, nb, ib)], x);
    assert forall|ib: int| 0 <= ib < nb implies b1[pair(x, nb, ib)] == #[trigger] inside(ib) by {
        if let Some(m) = ma {
            lemma_pair_in_range(x, fa, nb, ib);
            lemma_pair_parts(x, nb, ib);
            lemma_pair_parts(0, fa, x);
            assert(pair(0, fa, x) == x);
            assert(1 * fa * nb == fa * nb);
            let f = |ia: int| block[pair(ia, nb, ib)];
            let g = |c: int| T::prod(m[pair(x, na, c)], f(c));
            assert forall|c: int| 0 <= c < na implies #[trigger] g(c) == T::prod(
                m[pair(x, na, c)],
                block[cell(0, na, c, nb, ib)],
            ) by {
                assert(pair(0, na, c) == c);
            }
            lemma_row_sum(m, block, na, nb, 0, x, ib, g, na);
        }
    }
    let at = pair(x, fb, y);
    lemma_pair_in_range(x, fa, fb, y);
    lemma_pair_parts(x, fb, y);
    if let Some(m) = mb {
        assert(fa * fb * 1 == fa * fb);
        assert(at / 1 == at && at % 1 == 0);
        let g = |c: int| T::prod(m[pair(y, nb, c)], inside(c));
        assert forall|c: int| 0 <= c < nb implies #[trigger] g(c) == T::prod(
            m[pair(y, nb, c)],
            b1[cell(x, nb, c, 1, 0)],
        ) by {
            assert(b1[pair(x, nb, c)] == inside(c));
            assert(cell(x, nb, c, 1, 0) == pair(x, nb, c));
        }
        lemma_row_sum(m, b1, nb, 1, x, y, 0, g, nb);
    } else {
        assert(fb == nb);
        assert(b1[pair(x, nb, y)] == inside(y));
    }
}

/// Equal vectors give equal entries, and multiples give multiples.
proof fn lemma_taken_scaled<T: Scalar>(
    m: Option<Seq<T>>,
    n: int,
    s: T,
    f: spec_fn(int) -> T,
    g: spec_fn(int) -> T,
    r: int,
)
    requires
        is_ring::<T>(),
        m is None ==> 0 <= r < n,
        forall|c: int| 0 <= c < n ==> #[trigger] g(c) == T::prod(s, f(c)),
    ensures
        taken(m, n, g, r) == T::prod(s, taken(m, n, f, r)),
{
    if let Some(t) = m {
        let u = |c: int| T::prod(t[pair(r, n, c)], f(c));
        let v = |c: int| T::prod(t[pair(r, n, c)], g(c));
        assert forall|c: int| 0 <= c < n implies #[trigger] v(c) == T::prod(s, u(c)) by {
            assert(g(c) == T::prod(s, f(c)));
            lemma_ring_factors(s, t[pair(r, n, c)], f(c));
        }
        lemma_scaled_sum(s, u, v, n);
    }
}

/// Two matrices may be applied in either order.
pub proof fn lemma_taken_exchanged<T: Scalar>(
    p: Option<Seq<T>>,
    m: int,
    x: int,
    q: Option<Seq<T>>,
    n: int,
    y: int,
    f: spec_fn(int, int) -> T,
)
    requires
        is_ring::<T>(),
        p is None ==> 0 <= x < m,
        q is None ==> 0 <= y < n,
    ensures
        taken(q, n, |j: int| taken(p, m, |i: int| f(i, j), x), y) == taken(
            p,
            m,
            |i: int| taken(q, n, |j: int| f(i, j), y),
            x,
        ),
{
    let columns = |j: int| taken(p, m, |i: int| f(i, j), x);
    let rows = |i: int| taken(q, n, |j: int| f(i, j), y);
    match (p, q) {
        (None, None) => {
            assert(columns(y) == f(x, y) && rows(x) == f(x, y));
        },
        (None, Some(t)) => {
            let u = |j: int| T::prod(t[pair(y, n, j)], columns(j));
            let g = |j: int| f(x, j);
            let v = |j: int| T::prod(t[pair(y, n, j)], g(j));
            lemma_same_sum(v, u, n);
            assert(rows(x) == sum_before(v, n));
        },
        (Some(t), None) => {
            let u = |i: int| T::prod(t[pair(x, m, i)], rows(i));
            let g = |i: int| f(i, y);
            let v = |i: int| T::prod(t[pair(x, m, i)], g(i));
            lemma_same_sum(v, u, m);
            assert(columns(y) == sum_before(v, m));
        },
        (Some(tp), Some(tq)) => {
            let h = |i: int, j: int|
                T::prod(tp[pair(x, m, i)], T::prod(tq[pair(y, n, j)], f(i, j)));
            let u = |i: int| T::prod(tp[pair(x, m, i)], rows(i));
            let v = |j: int| T::prod(tq[pair(y, n, j)], columns(j));
            assert forall|i: int| 0 <= i < m implies #[trigger] u(i) == sum_before(
                |j: int| h(i, j),
                n,
            ) by {
                let g = |j: int| f(i, j);
                let w = |j: int| T::prod(tq[pair(y, n, j)], g(j));
                assert(rows(i) == sum_before(w, n));
                lemma_scaled_sum(tp[pair(x, m, i)], w, |j: int| h(i, j), n);
            }
            assert forall|j: int| 0 <= j < n implies #[trigger] v(j) == sum_before(
                |i: int| h(i, j),
                m,
            ) by {
                let g = |i: int| f(i, j);
                let w = |i: int| T::prod(tp[pair(x, m, i)], g(i));
                assert(columns(j) == sum_before(w, m));
                let z = |i: int| h(i, j);
                assert forall|i: int| 0 <= i < m implies #[trigger] z(i) == T::prod(
                    tq[pair(y, n, j)],
                    w(i),
                ) by {
                    lemma_ring_factors(tq[pair(y, n, j)], tp[pair(x, m, i)], f(i, j));
                }
                lemma_scaled_sum(tq[pair(y, n, j)], w, z, m);
            }
            lemma_sums_exchanged(h, u, v, m, n);
        },
    }
}

/// An entry of the matrix is `s` times the one across the diagonal.
pub proof fn lemma_entries_transposed<T: Real>(
    step: PairStep<T>,
    value: PairValue<T>,
    s: T,
    shells: Seq<Shell<T>>,
    x: At,
    y: At,
)
    requires
        is_ring::<T>(),
        adds_values(step, value),
        is_function(function_counts(shells), x),
        is_function(function_counts(shells), y),
        shells[x.0].valid(),
        shells[y.0].valid(),
        exchanges(value, s, shells[x.0], shells[y.0]),
    ensures
        pair_entries(step, shells)(x, y) == T::prod(s, pair_entries(step, shells)(y, x)),
{
    let (a, b) = (shells[x.0], shells[y.0]);
    let (na, nb) = (cart_count(a.l as int), cart_count(b.l as int));
    let (ma, mb) = (
        shell_matrix::<T>(a.kind, a.l as int),
        shell_matrix::<T>(b.kind, b.l as int),
    );
    let here = contracted_pair(step, a, b, a.exponents@.len() as int, 0);
    let there = contracted_pair(step, b, a, b.exponents@.len() as int, 0);
    lemma_function_entry(a, b, here, x.1, y.1);
    lemma_function_entry(b, a, there, y.1, x.1);
    let f = |ib: int| taken(ma, na, |ia: int| there[pair(ib, na, ia)], x.1);
    let g = |ib: int| taken(ma, na, |ia: int| here[pair(ia, nb, ib)], x.1);
    assert forall|ib: int| 0 <= ib < nb implies #[trigger] g(ib) == T::prod(s, f(ib)) by {
        let u = |ia: int| there[pair(ib, na, ia)];
        let v = |ia: int| here[pair(ia, nb, ib)];
        assert forall|ia: int| 0 <= ia < na implies #[trigger] v(ia) == T::prod(s, u(ia)) by {
            lemma_block_transposed(step, value, s, a, b, ia, ib);
        }
        lemma_taken_scaled(ma, na, s, u, v, x.1);
    }
    lemma_taken_scaled(mb, nb, s, f, g, y.1);
    let h = |ia: int, ib: int| there[pair(ib, na, ia)];
    lemma_taken_exchanged(ma, na, x.1, mb, nb, y.1, h);
    let f2 = |ib: int| taken(ma, na, |ia: int| h(ia, ib), x.1);
    assert forall|ib: int| 0 <= ib < nb implies #[trigger] f2(ib) == f(ib) by {
        assert((|ia: int| h(ia, ib)) =~= (|ia: int| there[pair(ib, na, ia)]));
    }
    let k = |ia: int| taken(mb, nb, |ib: int| there[pair(ib, na, ia)], y.1);
    let k2 = |ia: int| taken(mb, nb, |ib: int| h(ia, ib), y.1);
    assert(f2 =~= f) by {
        assert forall|ib: int| #[trigger] f2(ib) == f(ib) by {
            assert((|ia: int| h(ia, ib)) =~= (|ia: int| there[pair(ib, na, ia)]));
        }
    }
    assert(k2 =~= k) by {
        assert forall|ia: int| #[trigger] k2(ia) == k(ia) by {
            assert((|ib: int| h(ia, ib)) =~= (|ib: int| there[pair(ib, na, ia)]));
        }
    }
}

} // verus!
