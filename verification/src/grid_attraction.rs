//! The matrices of a grid and the attraction to a charge.
//!
//! A point of a grid is a unit charge without the sign of an attraction. The matrices
//! of a grid are built in another order of operations than the attraction; without
//! rounding one is the negative of the other.
use vstd::prelude::*;

use crate::engine::grid_pair::{
    coefficients, combination, expanded, grid_prim, point_entries, point_input, point_ladder,
    point_sums,
};
use crate::engine::hrr::transferred;
use crate::engine::nuclear::{
    attracted, attraction, attraction_value, attractions, charge_entries, charge_input,
    charge_ladder, ChargeInput,
};
use crate::engine::os::{block_size, lemma_block_bounds, lemma_pair_at, pair_at, product_of};
use crate::engine::os_eri::MAX_L;
use crate::engine::pairs::{difference, Vec3};
use crate::engine::triples::{
    address, first_axis, is_triple, law_addresses_are_distinct, law_every_address_is_taken, power,
    shifted, tetrahedron, triple_at,
};
use crate::exact::{
    is_ring, lemma_ring_commute, lemma_ring_difference, lemma_ring_factors, lemma_ring_negatives,
    lemma_ring_sums,
};
use crate::flat::{added, cell, lemma_cell_in_range, lemma_index_parts, lemma_pair_in_range, pair};
use crate::grid::{grid_entry, grid_prims, weighted_pairs};
use crate::math::am::{cart_count, degree, Powers};
use crate::one_electron::{contracted_pair, nuclear_step, pair_entries};
use crate::scalar::{Real, Scalar};
use crate::shell::{function_counts, Shell};
use crate::spherical::{contracted_axis, row_sum, shell_matrix};
use crate::tensor::{is_function, ordered, At};

verus! {

/// Whether a factor of the dividend may be moved out of a quotient.
pub open spec fn divides_factors<T: Scalar>() -> bool {
    forall|s: T, a: T, b: T| #[trigger]
        T::quot(T::prod(s, a), b) == T::prod(s, T::quot(a, b))
}

/// A coefficient that was raised adds its share to a combination.
proof fn lemma_raised_coefficient<T: Scalar>(
    acc: Seq<Option<T>>,
    theta: Seq<T>,
    e: int,
    coef: T,
    n: int,
)
    requires
        is_ring::<T>(),
        0 <= e < acc.len(),
        n <= acc.len(),
    ensures
        ({
            let v = match acc[e] {
                Some(v) => v,
                None => T::count(0),
            };
            combination(acc.update(e, Some(T::sum(v, coef))), theta, n) == (if e < n {
                T::sum(combination(acc, theta, n), T::prod(coef, theta[e]))
            } else {
                combination(acc, theta, n)
            })
        }),
    decreases n,
{
    let v = match acc[e] {
        Some(v) => v,
        None => T::count(0),
    };
    let new = acc.update(e, Some(T::sum(v, coef)));
    if n > 0 {
        lemma_raised_coefficient(acc, theta, e, coef, n - 1);
        let head = combination(acc, theta, n - 1);
        let share = T::prod(coef, theta[e]);
        if e == n - 1 {
            let t = theta[e];
            assert(new[n - 1] == Some(T::sum(v, coef)));
            lemma_ring_factors(t, v, coef);
            lemma_ring_commute(t, T::sum(v, coef));
            lemma_ring_commute(t, v);
            lemma_ring_commute(t, coef);
            if acc[e] is Some {
                lemma_ring_sums(head, T::prod(v, t), T::prod(coef, t));
            } else {
                lemma_ring_sums(coef, coef, coef);
            }
        } else {
            assert(new[n - 1] == acc[n - 1]);
            if let Some(c) = acc[n - 1] {
                lemma_ring_sums(head, share, T::prod(c, theta[n - 1]));
            }
        }
    }
}

/// The expanded recurrence adds a transferred value.
proof fn lemma_expanded<T: Scalar>(
    a: Powers,
    b: Powers,
    coef: T,
    ab: Vec3<T>,
    acc: Seq<Option<T>>,
    theta: Seq<T>,
    lt: int,
)
    requires
        is_ring::<T>(),
        0 <= lt <= 12,
        is_triple(a, lt),
        is_triple(b, lt),
        degree(a) + degree(b) <= lt,
        acc.len() == tetrahedron(lt + 1),
    ensures
        expanded(a, b, coef, ab, acc).len() == acc.len(),
        combination(expanded(a, b, coef, ab, acc), theta, tetrahedron(lt + 1)) == T::sum(
            combination(acc, theta, tetrahedron(lt + 1)),
            T::prod(coef, transferred(theta, ab, a, b)),
        ),
    decreases degree(b),
{
    let n = tetrahedron(lt + 1);
    if degree(b) <= 0 {
        law_addresses_are_distinct(a, a, lt);
        lemma_raised_coefficient(acc, theta, address(a), coef, n);
    } else {
        let j = first_axis(b);
        let low = shifted(b, j, -1);
        let up = shifted(a, j, 1);
        let mid = expanded(up, low, coef, ab, acc);
        lemma_expanded(up, low, coef, ab, acc, theta, lt);
        lemma_expanded(a, low, T::prod(coef, ab[j]), ab, mid, theta, lt);
        let (u, w) = (transferred(theta, ab, up, low), transferred(theta, ab, a, low));
        lemma_ring_factors(coef, ab[j], w);
        lemma_ring_factors(coef, u, T::prod(ab[j], w));
        lemma_ring_sums(
            combination(acc, theta, n),
            T::prod(coef, u),
            T::prod(coef, T::prod(ab[j], w)),
        );
    }
}

/// No coefficients combine to zero.
proof fn lemma_no_coefficients<T: Scalar>(acc: Seq<Option<T>>, theta: Seq<T>, n: int)
    requires
        n <= acc.len(),
        forall|k: int| 0 <= k < acc.len() ==> #[trigger] acc[k] is None,
    ensures
        combination(acc, theta, n) == T::count(0),
    decreases n,
{
    if n > 0 {
        lemma_no_coefficients(acc, theta, n - 1);
        assert(acc[n - 1] is None);
    }
}

/// The combination of a component pair is its transferred value.
proof fn lemma_combination<T: Scalar>(a: Powers, b: Powers, ab: Vec3<T>, theta: Seq<T>, lt: int)
    requires
        is_ring::<T>(),
        0 <= lt <= 12,
        is_triple(a, lt),
        is_triple(b, lt),
        degree(a) + degree(b) <= lt,
    ensures
        combination(coefficients(a, b, ab, lt), theta, tetrahedron(lt + 1)) == transferred(
            theta,
            ab,
            a,
            b,
        ),
{
    let none = Seq::new(tetrahedron(lt + 1) as nat, |n: int| None::<T>);
    crate::engine::triples::lemma_small_degree(lt);
    lemma_expanded(a, b, T::count(1), ab, none, theta, lt);
    lemma_no_coefficients(none, theta, tetrahedron(lt + 1));
    let v = transferred(theta, ab, a, b);
    lemma_ring_sums(v, v, v);
}

/// Transferring is linear.
pub proof fn lemma_transferred_linear<T: Scalar>(
    u: Seq<T>,
    v: Seq<T>,
    s: T,
    w: Seq<T>,
    ab: Vec3<T>,
    a: Powers,
    b: Powers,
    lt: int,
)
    requires
        is_ring::<T>(),
        0 <= lt <= 12,
        is_triple(a, lt),
        is_triple(b, lt),
        degree(a) + degree(b) <= lt,
        forall|e: int|
            0 <= e < tetrahedron(lt + 1) ==> #[trigger] w[e] == T::sum(u[e], T::prod(s, v[e])),
    ensures
        transferred(w, ab, a, b) == T::sum(
            transferred(u, ab, a, b),
            T::prod(s, transferred(v, ab, a, b)),
        ),
    decreases degree(b),
{
    if degree(b) <= 0 {
        law_addresses_are_distinct(a, a, lt);
    } else {
        let j = first_axis(b);
        let low = shifted(b, j, -1);
        let up = shifted(a, j, 1);
        lemma_transferred_linear(u, v, s, w, ab, up, low, lt);
        lemma_transferred_linear(u, v, s, w, ab, a, low, lt);
        let (u1, v1) = (transferred(u, ab, up, low), transferred(v, ab, up, low));
        let (u2, v2) = (transferred(u, ab, a, low), transferred(v, ab, a, low));
        let d = ab[j];
        let (p, q) = (T::prod(d, u2), T::prod(d, v2));
        lemma_ring_factors(d, u2, T::prod(s, v2));
        lemma_ring_factors(s, d, v2);
        lemma_ring_factors(s, v1, q);
        lemma_ring_sums(u1, T::prod(s, v1), T::sum(p, T::prod(s, q)));
        lemma_ring_sums(T::prod(s, v1), p, T::prod(s, q));
        lemma_ring_sums(p, T::prod(s, v1), T::prod(s, q));
        lemma_ring_sums(u1, p, T::sum(T::prod(s, v1), T::prod(s, q)));
    }
}

/// The vertical recurrence is linear in the ladder.
proof fn lemma_attraction_scales<T: Scalar>(
    x: ChargeInput<T>,
    base: Seq<T>,
    scaled: Seq<T>,
    s: T,
    t: Powers,
    m: int,
    lt: int,
)
    requires
        is_ring::<T>(),
        is_triple(t, lt),
        0 <= m,
        m + degree(t) <= lt,
        forall|k: int| 0 <= k <= lt ==> #[trigger] scaled[k] == T::prod(s, base[k]),
    ensures
        attraction(x, scaled, t, m) == T::prod(s, attraction(x, base, t, m)),
    decreases degree(t),
{
    if degree(t) > 0 {
        let i = first_axis(t);
        let a = shifted(t, i, -1);
        lemma_attraction_scales(x, base, scaled, s, a, m, lt);
        lemma_attraction_scales(x, base, scaled, s, a, m + 1, lt);
        let (u, v) = (attraction(x, base, a, m), attraction(x, base, a, m + 1));
        let (p, q) = (T::prod(x.pa[i], u), T::prod(x.pc[i], v));
        lemma_ring_factors(s, x.pa[i], u);
        lemma_ring_factors(s, x.pc[i], v);
        lemma_ring_difference(s, p, q);
        if power(a, i) > 0 {
            let aa = shifted(a, i, -1);
            lemma_attraction_scales(x, base, scaled, s, aa, m, lt);
            lemma_attraction_scales(x, base, scaled, s, aa, m + 1, lt);
            let (y, z) = (attraction(x, base, aa, m), attraction(x, base, aa, m + 1));
            let c = T::prod(T::count(power(a, i) as u64), x.h);
            lemma_ring_difference(s, y, z);
            lemma_ring_factors(s, c, T::diff(y, z));
            lemma_ring_factors(s, T::diff(p, q), T::prod(c, T::diff(y, z)));
        }
    }
}

/// What one more primitive pair adds to the transferred sums.
proof fn lemma_next_pair<T: Real>(
    a: Shell<T>,
    b: Shell<T>,
    c: Vec3<T>,
    ca: Powers,
    cb: Powers,
    i: int,
    j: int,
)
    requires
        is_ring::<T>(),
        divides_factors::<T>(),
        a.valid(),
        b.valid(),
        is_triple(ca, a.l + b.l),
        is_triple(cb, a.l + b.l),
        degree(ca) + degree(cb) <= a.l + b.l,
        0 <= i < a.exponents@.len(),
        0 <= j < b.exponents@.len(),
    ensures
        ({
            let lt = a.l + b.l;
            let ab = difference(a.center, b.center);
            let prims = grid_prims(a, b);
            let n = pair(i, b.exponents@.len() as int, j);
            transferred(point_sums(prims, c, None, lt, n + 1), ab, ca, cb) == T::sum(
                transferred(point_sums(prims, c, None, lt, n), ab, ca, cb),
                T::prod(
                    T::prod(a.effective(i), b.effective(j)),
                    attraction_value(a.primitive(i), b.primitive(j), c, ca, cb),
                ),
            )
        }),
{
    let lt = a.l + b.l;
    let nb = b.exponents@.len() as int;
    let n = pair(i, nb, j);
    let prims = grid_prims(a, b);
    let (pa, pb) = (a.primitive(i), b.primitive(j));
    let scale = T::prod(a.effective(i), b.effective(j));
    lemma_pair_in_range(i, a.exponents@.len() as int, nb, j);
    crate::flat::lemma_pair_parts(i, nb, j);
    assert(weighted_pairs(a, b)[n] == (pa.exp, pb.exp, scale));
    let q = grid_prim(a.center, b.center, (pa.exp, pb.exp, scale));
    assert(prims[n] == q);
    let x = charge_input(pa, pb, c);
    assert(point_input(q, c) == x);
    let base = charge_ladder(pa, pb, c, lt);
    let scaled = point_ladder(q, c, None, lt);
    let pr = product_of(pa.exp, a.center, pb.exp, b.center);
    let two = T::prod(T::count(2), T::circle());
    let k = T::expo(T::prod(T::neg(pr.mu), pr.ab2));
    let per = T::quot(two, pr.p);
    lemma_ring_factors(scale, T::count(2), T::circle());
    assert(T::quot(T::prod(scale, two), pr.p) == T::prod(scale, per));
    lemma_ring_factors(scale, per, k);
    assert(q.pref == T::prod(scale, T::prod(per, k)));
    assert forall|m: int| 0 <= m <= lt implies #[trigger] scaled[m] == T::prod(scale, base[m]) by {
        let u = T::prod(pr.p, crate::engine::pairs::square(difference(pr.p_center, c)));
        lemma_ring_factors(
            scale,
            T::prod(per, k),
            crate::math::boys::ladder(lt, u, m),
        );
    }
    let before = point_sums(prims, c, None, lt, n);
    let after = point_sums(prims, c, None, lt, n + 1);
    let own = attractions(x, base, lt);
    assert forall|e: int| 0 <= e < tetrahedron(lt + 1) implies #[trigger] after[e] == T::sum(
        before[e],
        T::prod(scale, own[e]),
    ) by {
        law_every_address_is_taken(lt, e);
        lemma_attraction_scales(x, base, scaled, scale, triple_at(lt, e), 0, lt);
    }
    lemma_transferred_linear(
        before,
        own,
        scale,
        after,
        difference(a.center, b.center),
        ca,
        cb,
        lt,
    );
}

/// Transferring zeros gives zero.
proof fn lemma_transferred_zeros<T: Scalar>(w: Seq<T>, ab: Vec3<T>, a: Powers, b: Powers, lt: int)
    requires
        is_ring::<T>(),
        0 <= lt <= 12,
        is_triple(a, lt),
        is_triple(b, lt),
        degree(a) + degree(b) <= lt,
        forall|e: int| 0 <= e < tetrahedron(lt + 1) ==> #[trigger] w[e] == T::count(0),
    ensures
        transferred(w, ab, a, b) == T::count(0),
    decreases degree(b),
{
    if degree(b) <= 0 {
        law_addresses_are_distinct(a, a, lt);
    } else {
        let j = first_axis(b);
        let low = shifted(b, j, -1);
        lemma_transferred_zeros(w, ab, shifted(a, j, 1), low, lt);
        lemma_transferred_zeros(w, ab, a, low, lt);
        lemma_ring_sums(ab[j], ab[j], ab[j]);
        lemma_ring_sums(T::count(0), T::count(0), T::count(0));
    }
}

/// The components of an index of a block.
proof fn lemma_components(la: int, lb: int, k: int)
    requires
        0 <= la <= MAX_L,
        0 <= lb <= MAX_L,
        0 <= k < block_size(la, lb),
    ensures
        is_triple(pair_at(la, lb, k).0, la + lb),
        is_triple(pair_at(la, lb, k).1, la + lb),
        degree(pair_at(la, lb, k).0) + degree(pair_at(la, lb, k).1) <= la + lb,
{
    lemma_block_bounds(la, lb);
    lemma_index_parts(k, cart_count(la), cart_count(lb));
    lemma_pair_at(la, lb, k / cart_count(lb), k % cart_count(lb));
}

/// The Cartesian block of the attraction, entry by entry.
proof fn lemma_cartesian_entry<T: Real>(
    a: Shell<T>,
    b: Shell<T>,
    c: Vec3<T>,
    k: int,
    i: int,
    j: int,
)
    requires
        is_ring::<T>(),
        divides_factors::<T>(),
        a.valid(),
        b.valid(),
        0 <= k < block_size(a.l as int, b.l as int),
        0 <= i,
        0 <= j <= b.exponents@.len(),
        i < a.exponents@.len() || i == a.exponents@.len() && j == 0,
    ensures
        ({
            let step = nuclear_step(seq![(c, T::count(1))]);
            let (ca, cb) = pair_at(a.l as int, b.l as int, k);
            let n = pair(i, b.exponents@.len() as int, j);
            &&& contracted_pair(step, a, b, i, j).len() == block_size(a.l as int, b.l as int)
            &&& T::neg(contracted_pair(step, a, b, i, j)[k]) == transferred(
                point_sums(grid_prims(a, b), c, None, a.l + b.l, n),
                difference(a.center, b.center),
                ca,
                cb,
            )
        }),
    decreases i, j,
{
    let charges = seq![(c, T::count(1))];
    let step = nuclear_step(charges);
    let lt = a.l + b.l;
    let (ca, cb) = pair_at(a.l as int, b.l as int, k);
    let nb = b.exponents@.len() as int;
    let size = block_size(a.l as int, b.l as int);
    lemma_block_bounds(a.l as int, b.l as int);
    lemma_components(a.l as int, b.l as int, k);
    if j > 0 {
        lemma_cartesian_entry(a, b, c, k, i, j - 1);
        lemma_next_pair(a, b, c, ca, cb, i, j - 1);
        let old = contracted_pair(step, a, b, i, j - 1);
        let (pa, pb) = (a.primitive(i), b.primitive(j - 1));
        let scale = T::prod(a.effective(i), b.effective(j - 1));
        let new = contracted_pair(step, a, b, i, j);
        reveal_with_fuel(attracted, 2);
        assert(new == added(old, size, charge_entries(pa, pb, charges[0], scale)));
        let value = attraction_value(pa, pb, c, ca, cb);
        let one = T::count(1);
        let share = T::prod(T::prod(scale, T::neg(one)), value);
        assert(new[k] == T::sum(old[k], share));
        lemma_ring_negatives(scale, one);
        lemma_ring_commute(scale, one);
        lemma_ring_sums(scale, scale, scale);
        assert(share == T::prod(T::neg(scale), value));
        lemma_ring_commute(T::neg(scale), value);
        lemma_ring_negatives(value, scale);
        lemma_ring_commute(value, scale);
        assert(share == T::neg(T::prod(scale, value)));
        lemma_ring_negatives(T::prod(scale, value), scale);
        lemma_ring_negatives(old[k], share);
    } else if i > 0 {
        lemma_cartesian_entry(a, b, c, k, i - 1, nb);
        assert(pair(i - 1, nb, nb) == pair(i, nb, 0)) by (nonlinear_arith)
            requires
                pair(i - 1, nb, nb) == (i - 1) * nb + nb,
                pair(i, nb, 0) == i * nb + 0,
        ;
    } else {
        let w = point_sums(grid_prims(a, b), c, None, lt, 0);
        assert(pair(0, nb, 0) == 0) by (nonlinear_arith)
            requires
                pair(0, nb, 0) == 0 * nb + 0,
        ;
        lemma_transferred_zeros(w, difference(a.center, b.center), ca, cb, lt);
        lemma_ring_negatives(T::count(0), T::count(0));
    }
}

/// A row of negatives sums to the negative.
proof fn lemma_negative_row<T: Scalar>(
    m: Seq<T>,
    block: Seq<T>,
    minus: Seq<T>,
    n: int,
    inner: int,
    o: int,
    r: int,
    i: int,
    c: int,
)
    requires
        is_ring::<T>(),
        c <= n,
        forall|x: int|
            0 <= x < n ==> #[trigger] minus[cell(o, n, x, inner, i)] == T::neg(
                block[cell(o, n, x, inner, i)],
            ),
    ensures
        row_sum(m, minus, n, inner, o, r, i, c) == T::neg(row_sum(m, block, n, inner, o, r, i, c)),
    decreases c,
{
    if c > 0 {
        lemma_negative_row(m, block, minus, n, inner, o, r, i, c - 1);
        let at = cell(o, n, c - 1, inner, i);
        assert(minus[at] == T::neg(block[at]));
        let f = m[pair(r, n, c - 1)];
        lemma_ring_negatives(f, block[at]);
        lemma_ring_negatives(row_sum(m, block, n, inner, o, r, i, c - 1), T::prod(f, block[at]));
    } else {
        lemma_ring_negatives(T::count(0), T::count(0));
    }
}

/// Contracting an axis keeps negatives.
pub proof fn lemma_negative_axis<T: Scalar>(
    m: Option<Seq<T>>,
    rows: int,
    block: Seq<T>,
    minus: Seq<T>,
    outer: int,
    n: int,
    inner: int,
)
    requires
        is_ring::<T>(),
        0 <= outer,
        1 <= rows,
        1 <= n,
        1 <= inner,
        block.len() == outer * n * inner,
        minus.len() == block.len(),
        m is None ==> rows == n,
        forall|x: int| 0 <= x < block.len() ==> #[trigger] minus[x] == T::neg(block[x]),
    ensures
        contracted_axis(m, rows, block, outer, n, inner).len() == outer * rows * inner,
        contracted_axis(m, rows, minus, outer, n, inner).len() == outer * rows * inner,
        forall|k: int|
            0 <= k < outer * rows * inner ==> #[trigger] contracted_axis(
                m,
                rows,
                minus,
                outer,
                n,
                inner,
            )[k] == T::neg(contracted_axis(m, rows, block, outer, n, inner)[k]),
{
    if let Some(t) = m {
        assert(0 <= outer * rows && 0 <= outer * rows * inner) by (nonlinear_arith)
            requires
                0 <= outer,
                1 <= rows,
                1 <= inner,
        ;
        assert forall|k: int| 0 <= k < outer * rows * inner implies #[trigger] contracted_axis(
            m,
            rows,
            minus,
            outer,
            n,
            inner,
        )[k] == T::neg(contracted_axis(m, rows, block, outer, n, inner)[k]) by {
            lemma_index_parts(k, outer * rows, inner);
            lemma_index_parts(k / inner, outer, rows);
            let (o, r, i) = (k / inner / rows, k / inner % rows, k % inner);
            assert forall|x: int| 0 <= x < n implies #[trigger] minus[cell(o, n, x, inner, i)]
                == T::neg(block[cell(o, n, x, inner, i)]) by {
                lemma_cell_in_range(o, outer, n, x, inner, i);
            }
            lemma_negative_row(t, block, minus, n, inner, o, r, i, n);
        }
    }
}

/// At every point the entry of two functions is the negative of their attraction to a
/// unit charge there, taken of the later shell and the earlier one, in any commutative
/// ring in which factors may be moved out of quotients.
pub proof fn law_grid_is_the_negated_attraction<T: Real>(
    shells: Seq<Shell<T>>,
    c: Vec3<T>,
    x: At,
    y: At,
)
    requires
        is_ring::<T>(),
        divides_factors::<T>(),
        is_function(function_counts(shells), x),
        is_function(function_counts(shells), y),
        shells[x.0].valid(),
        shells[y.0].valid(),
    ensures
        grid_entry(shells, c, None, x, y) == T::neg(
            pair_entries(nuclear_step(seq![(c, T::count(1))]), shells)(
                ordered(x, y).0,
                ordered(x, y).1,
            ),
        ),
{
    let (p, q) = ordered(x, y);
    let (a, b) = (shells[p.0], shells[q.0]);
    let (na, nb) = (cart_count(a.l as int), cart_count(b.l as int));
    let (fa, fb) = (a.functions(), b.functions());
    let (ma, mb) = (
        shell_matrix::<T>(a.kind, a.l as int),
        shell_matrix::<T>(b.kind, b.l as int),
    );
    let (la, lb) = (a.l as int, b.l as int);
    let size = block_size(la, lb);
    let step = nuclear_step(seq![(c, T::count(1))]);
    let prims = grid_prims(a, b);
    let ab = difference(a.center, b.center);
    let entries = point_entries(la, lb, ab, prims, c, None);
    let minus = Seq::new(size as nat, entries);
    let block = contracted_pair(step, a, b, a.exponents@.len() as int, 0);
    lemma_block_bounds(la, lb);
    lemma_cartesian_entry(a, b, c, 0, a.exponents@.len() as int, 0);
    assert forall|k: int| 0 <= k < size implies #[trigger] minus[k] == T::neg(block[k]) by {
        lemma_cartesian_entry(a, b, c, k, a.exponents@.len() as int, 0);
        lemma_components(la, lb, k);
        let (ca, cb) = pair_at(la, lb, k);
        assert(prims.len() == pair(
            a.exponents@.len() as int,
            b.exponents@.len() as int,
            0,
        ));
        lemma_combination(
            ca,
            cb,
            ab,
            point_sums(prims, c, None, la + lb, prims.len() as int),
            la + lb,
        );
    }
    assert(1 * na * nb == na * nb);
    assert(1 * fa * nb == fa * nb);
    assert(fa * nb * 1 == fa * nb);
    assert(fa * fb * 1 == fa * fb);
    lemma_negative_axis(ma, fa, block, minus, 1, na, nb);
    lemma_negative_axis(
        mb,
        fb,
        contracted_axis(ma, fa, block, 1, na, nb),
        contracted_axis(ma, fa, minus, 1, na, nb),
        fa,
        nb,
        1,
    );
    lemma_pair_in_range(p.1, fa, fb, q.1);
}

} // verus!
