//! Position and momentum do not commute.
//!
//! What a factor of an operator makes of a Gaussian is fixed by what it makes of the values
//! that any linear function takes on Gaussians. Of these values the commutator of position
//! and momentum along one axis leaves the one of the Gaussian itself, times the imaginary
//! unit; this fixes the sign of the momentum.
use vstd::prelude::*;

use crate::engine::operator::{
    applied, expansion, factor_terms, momenta, overlaps_added, phase_of, terms_value, Factor,
    Monomial, TermView,
};
use crate::engine::os::{overlap_value, Prim};
use crate::engine::os_eri::MAX_L;
use crate::engine::pairs::{difference, Vec3};
use crate::engine::triples::{power, shifted};
use crate::exact::{
    counts_exactly, is_ring, lemma_negative_factor, lemma_ring_commute, lemma_ring_difference,
    lemma_ring_factors, lemma_ring_negatives, lemma_ring_sums,
};
use crate::math::am::Powers;
use crate::momentum_symmetry::lemma_operator_adds;
use crate::one_electron::pair_entries;
use crate::operator::operator_step;
use crate::operator_laws::lemma_ket_overlap;
use crate::pair_values::{value_step, PairValue};
use crate::scalar::{Real, Scalar};
use crate::shell::Shell;
use crate::tensor::At;

verus! {

/// The values of a linear function on Gaussians.
pub type Reading<T> = spec_fn(Powers) -> T;

/// The value of a linear function on the first `n` Gaussians of a sum.
pub open spec fn read<T: Scalar>(list: Seq<Monomial<T>>, v: Reading<T>, n: int) -> T
    decreases n,
{
    if n <= 0 {
        T::count(0)
    } else {
        T::sum(read(list, v, n - 1), T::prod(list[n - 1].1, v(list[n - 1].0)))
    }
}

/// The values on what a factor makes of Gaussians of exponent `beta`.
pub open spec fn behind<T: Scalar>(f: Factor, beta: T, bo: Vec3<T>, v: Reading<T>) -> Reading<T> {
    |m: Powers|
        match f {
            Factor::R(ax) => T::sum(
                v(shifted(m, ax as int, 1)),
                T::prod(bo[ax as int], v(m)),
            ),
            Factor::P(ax) => {
                let up = T::prod(T::prod(T::count(2), beta), v(shifted(m, ax as int, 1)));
                if power(m, ax as int) >= 1 {
                    T::diff(
                        up,
                        T::prod(
                            T::count(power(m, ax as int) as u64),
                            v(shifted(m, ax as int, -1)),
                        ),
                    )
                } else {
                    up
                }
            },
        }
}

/// What a factor makes of one Gaussian.
proof fn lemma_behind_one<T: Scalar>(f: Factor, beta: T, bo: Vec3<T>, v: Reading<T>, m: Monomial<T>)
    requires
        is_ring::<T>(),
    ensures
        ({
            let list = factor_terms(f, beta, bo, m);
            read(list, v, list.len() as int) == T::prod(m.1, behind(f, beta, bo, v)(m.0))
        }),
{
    let list = factor_terms(f, beta, bo, m);
    let c = m.1;
    reveal_with_fuel(read, 3);
    match f {
        Factor::R(ax) => {
            let (up, at) = (v(shifted(m.0, ax as int, 1)), v(m.0));
            let d = bo[ax as int];
            let first = T::prod(c, up);
            lemma_ring_sums(first, first, first);
            lemma_ring_factors(c, d, at);
            lemma_ring_factors(c, up, T::prod(d, at));
        },
        Factor::P(ax) => {
            let up = v(shifted(m.0, ax as int, 1));
            let two = T::prod(T::count(2), beta);
            let first = T::prod(T::prod(T::prod(c, T::count(2)), beta), up);
            lemma_ring_sums(first, first, first);
            lemma_ring_factors(c, T::count(2), beta);
            lemma_ring_factors(c, two, up);
            assert(first == T::prod(c, T::prod(two, up)));
            if power(m.0, ax as int) >= 1 {
                let n = T::count(power(m.0, ax as int) as u64);
                let down = v(shifted(m.0, ax as int, -1));
                let last = T::prod(T::prod(T::neg(c), n), down);
                lemma_negative_factor(c, n);
                lemma_negative_factor(T::prod(c, n), down);
                lemma_ring_factors(c, n, down);
                assert(last == T::neg(T::prod(c, T::prod(n, down))));
                lemma_ring_negatives(first, T::prod(c, T::prod(n, down)));
                lemma_ring_difference(c, T::prod(two, up), T::prod(n, down));
            }
        },
    }
}

/// The value on two sums is the sum of the values.
proof fn lemma_read_joined<T: Scalar>(
    p: Seq<Monomial<T>>,
    q: Seq<Monomial<T>>,
    v: Reading<T>,
    n: int,
)
    requires
        is_ring::<T>(),
        0 <= n <= q.len(),
    ensures
        read(p + q, v, p.len() + n) == T::sum(read(p, v, p.len() as int), read(q, v, n)),
    decreases n,
{
    let all = read(p, v, p.len() as int);
    if n == 0 {
        lemma_read_prefix(p, q, v, p.len() as int);
        lemma_ring_sums(all, all, all);
    } else {
        lemma_read_joined(p, q, v, n - 1);
        assert((p + q)[p.len() + n - 1] == q[n - 1]);
        lemma_ring_sums(all, read(q, v, n - 1), T::prod(q[n - 1].1, v(q[n - 1].0)));
    }
}

proof fn lemma_read_prefix<T: Scalar>(
    p: Seq<Monomial<T>>,
    q: Seq<Monomial<T>>,
    v: Reading<T>,
    n: int,
)
    requires
        0 <= n <= p.len(),
    ensures
        read(p + q, v, n) == read(p, v, n),
    decreases n,
{
    if n > 0 {
        lemma_read_prefix(p, q, v, n - 1);
        assert((p + q)[n - 1] == p[n - 1]);
    }
}

/// The value on what a factor makes of a sum.
pub proof fn lemma_behind<T: Scalar>(
    f: Factor,
    beta: T,
    bo: Vec3<T>,
    v: Reading<T>,
    src: Seq<Monomial<T>>,
    n: int,
)
    requires
        is_ring::<T>(),
        0 <= n <= src.len(),
    ensures
        ({
            let list = applied(f, beta, bo, src, n);
            read(list, v, list.len() as int) == read(src, behind(f, beta, bo, v), n)
        }),
    decreases n,
{
    if n > 0 {
        lemma_behind(f, beta, bo, v, src, n - 1);
        let (p, q) = (applied(f, beta, bo, src, n - 1), factor_terms(f, beta, bo, src[n - 1]));
        lemma_read_joined(p, q, v, q.len() as int);
        lemma_behind_one(f, beta, bo, v, src[n - 1]);
    }
}

/// The value on what two factors make of a Gaussian.
proof fn lemma_two_factors<T: Scalar>(
    f: Factor,
    g: Factor,
    beta: T,
    bo: Vec3<T>,
    v: Reading<T>,
    m: Powers,
)
    requires
        is_ring::<T>(),
    ensures
        ({
            let list = expansion(seq![f, g], beta, bo, m, 0);
            read(list, v, list.len() as int) == behind(g, beta, bo, behind(f, beta, bo, v))(m)
        }),
{
    let fs = seq![f, g];
    let one = expansion(fs, beta, bo, m, 2);
    let src = expansion(fs, beta, bo, m, 1);
    assert(one == seq![(m, T::count(1))]);
    assert(src == applied(g, beta, bo, one, 1));
    let w = behind(f, beta, bo, v);
    lemma_behind(f, beta, bo, v, src, src.len() as int);
    lemma_behind(g, beta, bo, w, one, 1);
    reveal_with_fuel(read, 2);
    let u = behind(g, beta, bo, w)(m);
    lemma_ring_sums(u, u, u);
}

/// Position after momentum and momentum after position along one axis differ by the
/// value itself.
proof fn lemma_one_axis<T: Scalar>(a: T, d: T, n: T, more: T, x: T, y: T, z: T, w: T)
    requires
        is_ring::<T>(),
        more == T::sum(n, T::count(1)),
    ensures
        ({
            let rp = T::diff(
                T::prod(a, T::sum(x, T::prod(d, y))),
                T::prod(n, T::sum(z, T::prod(d, w))),
            );
            let pr = T::sum(
                T::diff(T::prod(a, x), T::prod(more, z)),
                T::prod(d, T::diff(T::prod(a, y), T::prod(n, w))),
            );
            T::diff(rp, pr) == z
        }),
{
    let (ax, ay, nz, nw) = (T::prod(a, x), T::prod(a, y), T::prod(n, z), T::prod(n, w));
    let (p, q) = (T::prod(d, ay), T::prod(d, nw));
    lemma_ring_factors(a, x, T::prod(d, y));
    lemma_ring_factors(d, a, y);
    lemma_ring_factors(n, z, T::prod(d, w));
    lemma_ring_factors(d, n, w);
    assert(T::prod(a, T::prod(d, y)) == p && T::prod(n, T::prod(d, w)) == q);
    lemma_ring_commute(more, z);
    lemma_ring_factors(z, n, T::count(1));
    lemma_ring_commute(z, n);
    lemma_ring_commute(z, T::count(1));
    lemma_ring_sums(z, z, z);
    assert(T::prod(more, z) == T::sum(nz, z));
    lemma_ring_difference(d, ay, nw);
    let rp = T::diff(T::sum(ax, p), T::sum(nz, q));
    let left = T::diff(ax, T::sum(nz, z));
    let right = T::diff(p, q);
    let pr = T::sum(left, right);
    let (mz, mn, mq) = (T::neg(z), T::neg(nz), T::neg(q));
    lemma_ring_negatives(T::sum(ax, p), T::sum(nz, q));
    lemma_ring_negatives(nz, q);
    lemma_ring_negatives(nz, z);
    lemma_ring_negatives(ax, T::sum(nz, z));
    lemma_ring_negatives(p, q);
    // rp is (ax + p) + (mn + mq), and pr is (ax + (mn + mz)) + (p + mq).
    let base = T::sum(T::sum(ax, mn), T::sum(p, mq));
    lemma_ring_sums(ax, p, T::sum(mn, mq));
    lemma_ring_sums(p, mn, mq);
    lemma_ring_sums(mn, p, mq);
    lemma_ring_sums(ax, mn, T::sum(p, mq));
    assert(rp == base);
    lemma_ring_sums(ax, mn, mz);
    lemma_ring_sums(T::sum(ax, mn), mz, T::sum(p, mq));
    assert(pr == T::sum(base, mz));
    lemma_ring_negatives(rp, pr);
    lemma_ring_negatives(base, mz);
    lemma_ring_negatives(z, z);
    lemma_ring_sums(base, T::neg(base), z);
    lemma_ring_sums(z, z, z);
    assert(T::neg(pr) == T::sum(T::neg(base), z));
}

/// The values of the commutator of position and momentum.
proof fn lemma_commutator<T: Scalar>(i: int, j: int, beta: T, bo: Vec3<T>, v: Reading<T>, m: Powers)
    requires
        is_ring::<T>(),
        counts_exactly::<T>(),
        0 <= i < 3,
        0 <= j < 3,
        0 <= power(m, j) < u64::MAX,
    ensures
        ({
            let (r, p) = (Factor::R(i as usize), Factor::P(j as usize));
            let rp = behind(p, beta, bo, behind(r, beta, bo, v))(m);
            let pr = behind(r, beta, bo, behind(p, beta, bo, v))(m);
            T::diff(rp, pr) == (if i == j {
                v(m)
            } else {
                T::count(0)
            })
        }),
{
    let (r, p) = (Factor::R(i as usize), Factor::P(j as usize));
    let (w, u) = (behind(r, beta, bo, v), behind(p, beta, bo, v));
    let rp = behind(p, beta, bo, w)(m);
    let pr = behind(r, beta, bo, u)(m);
    let a = T::prod(T::count(2), beta);
    let d = bo[i];
    let n = power(m, j);
    let num = T::count(n as u64);
    let up = shifted(m, i, 1);
    if i == j {
        let (x, y, z) = (v(shifted(up, i, 1)), v(up), v(m));
        let low = shifted(m, i, -1);
        let more = T::count((n as u64 + 1) as u64);
        assert(shifted(up, i, -1) == m);
        assert(shifted(low, i, 1) == m);
        assert(power(up, i) == n + 1);
        if n >= 1 {
            lemma_one_axis(a, d, num, more, x, y, z, v(low));
        } else {
            // The value below does not enter: its count is zero.
            lemma_one_axis(a, d, num, more, x, y, z, T::count(0));
            let t = T::sum(z, T::prod(d, T::count(0)));
            lemma_ring_sums(t, t, t);
            lemma_ring_commute(num, t);
            lemma_ring_sums(num, num, num);
            lemma_minus_nothing(T::prod(a, T::sum(x, T::prod(d, y))));
            lemma_minus_nothing(T::prod(a, y));
        }
    } else {
        let down = shifted(m, j, -1);
        let both = shifted(shifted(m, j, 1), i, 1);
        assert(shifted(up, j, 1) == both);
        assert(shifted(up, j, -1) == shifted(down, i, 1));
        assert(power(up, j) == n);
        let (x, y) = (v(both), v(shifted(m, j, 1)));
        lemma_ring_factors(a, x, T::prod(d, y));
        lemma_ring_factors(d, a, y);
        if n >= 1 {
            let (z, t) = (v(shifted(down, i, 1)), v(down));
            lemma_ring_factors(num, z, T::prod(d, t));
            lemma_ring_factors(d, num, t);
            lemma_ring_difference(d, T::prod(a, y), T::prod(num, t));
            lemma_two_differences(
                T::prod(a, x),
                T::prod(d, T::prod(a, y)),
                T::prod(num, z),
                T::prod(d, T::prod(num, t)),
            );
        }
        assert(rp == pr);
        lemma_ring_negatives(rp, rp);
    }
}

proof fn lemma_minus_nothing<T: Scalar>(a: T)
    requires
        is_ring::<T>(),
    ensures
        T::diff(a, T::count(0)) == a,
{
    lemma_ring_negatives(a, T::count(0));
    lemma_ring_sums(a, a, a);
}

proof fn lemma_two_differences<T: Scalar>(a: T, b: T, c: T, d: T)
    requires
        is_ring::<T>(),
    ensures
        T::diff(T::sum(a, b), T::sum(c, d)) == T::sum(T::diff(a, c), T::diff(b, d)),
{
    let (mc, md) = (T::neg(c), T::neg(d));
    lemma_ring_negatives(T::sum(a, b), T::sum(c, d));
    lemma_ring_negatives(c, d);
    lemma_ring_negatives(a, c);
    lemma_ring_negatives(b, d);
    lemma_ring_sums(a, b, T::sum(mc, md));
    lemma_ring_sums(b, mc, md);
    lemma_ring_sums(mc, b, md);
    lemma_ring_sums(a, mc, T::sum(b, md));
}

/// The overlaps that are added to an entry, as the value of a linear function.
pub proof fn lemma_overlaps_read<T: Real>(
    start: T,
    w: T,
    a: Prim<T>,
    b: Prim<T>,
    ca: Powers,
    list: Seq<Monomial<T>>,
    n: int,
)
    requires
        is_ring::<T>(),
        0 <= n <= list.len(),
    ensures
        overlaps_added(start, w, a, b, ca, list, n) == T::sum(
            start,
            T::prod(w, read(list, |m: Powers| overlap_value(a, b, ca, m), n)),
        ),
    decreases n,
{
    let v = |m: Powers| overlap_value(a, b, ca, m);
    if n <= 0 {
        lemma_ring_sums(w, w, w);
        lemma_ring_sums(start, start, start);
    } else {
        lemma_overlaps_read(start, w, a, b, ca, list, n - 1);
        let (m, c) = list[n - 1];
        lemma_ket_overlap(a, b, ca, m);
        let before = read(list, v, n - 1);
        let last = T::prod(c, v(m));
        lemma_ring_factors(w, c, v(m));
        lemma_ring_factors(w, before, last);
        lemma_ring_sums(start, T::prod(w, before), T::prod(w, last));
    }
}

/// The terms of the commutator of the position along `i` and the momentum along `j`.
pub open spec fn commutator_terms<T: Scalar>(i: int, j: int) -> Seq<TermView<T>> {
    seq![
        (T::count(1), seq![Factor::R(i as usize), Factor::P(j as usize)]),
        (T::neg(T::count(1)), seq![Factor::P(j as usize), Factor::R(i as usize)]),
    ]
}

/// The overlap along one axis of the commutator, and nothing along two.
pub open spec fn commuted<T: Real>(i: int, j: int) -> PairValue<T> {
    |a: Prim<T>, b: Prim<T>, ca: Powers, cb: Powers|
        if i == j {
            overlap_value(a, b, ca, cb)
        } else {
            T::count(0)
        }
}

proof fn lemma_commutator_entry<T: Real>(
    start: T,
    o: Vec3<T>,
    a: Prim<T>,
    b: Prim<T>,
    scale: T,
    ca: Powers,
    cb: Powers,
    i: int,
    j: int,
)
    requires
        is_ring::<T>(),
        counts_exactly::<T>(),
        0 <= i < 3,
        0 <= j < 3,
        0 <= power(cb, j) < u64::MAX,
    ensures
        terms_value(start, commutator_terms::<T>(i, j), o, a, b, scale, true, ca, cb, 2) == T::sum(
            start,
            T::prod(scale, commuted::<T>(i, j)(a, b, ca, cb)),
        ),
{
    let terms = commutator_terms::<T>(i, j);
    let (r, p) = (Factor::R(i as usize), Factor::P(j as usize));
    let (one, minus) = (T::count(1), T::neg(T::count(1)));
    let bo = difference(b.center, o);
    let v = |m: Powers| overlap_value(a, b, ca, m);
    let (rp, pr) = (seq![r, p], seq![p, r]);
    reveal_with_fuel(terms_value, 3);
    reveal_with_fuel(momenta, 3);
    assert(momenta(rp, 2) == 1 && momenta(pr, 2) == 1);
    assert(phase_of(1) == (true, false));
    let (lrp, lpr) = (expansion(rp, b.exp, bo, cb, 0), expansion(pr, b.exp, bo, cb, 0));
    let s1 = T::prod(T::prod(scale, one), one);
    let s2 = T::prod(T::prod(scale, one), minus);
    lemma_overlaps_read(start, s1, a, b, ca, lrp, lrp.len() as int);
    let mid = terms_value(start, terms, o, a, b, scale, true, ca, cb, 1);
    lemma_overlaps_read(mid, s2, a, b, ca, lpr, lpr.len() as int);
    let (x, y) = (read(lrp, v, lrp.len() as int), read(lpr, v, lpr.len() as int));
    lemma_two_factors(r, p, b.exp, bo, v, cb);
    lemma_two_factors(p, r, b.exp, bo, v, cb);
    lemma_commutator(i, j, b.exp, bo, v, cb);
    assert(T::diff(x, y) == commuted::<T>(i, j)(a, b, ca, cb));
    lemma_ring_commute(scale, one);
    lemma_ring_sums(scale, scale, scale);
    assert(s1 == scale);
    lemma_ring_negatives(scale, one);
    assert(s2 == T::neg(scale));
    lemma_negative_factor(scale, y);
    lemma_ring_sums(start, T::prod(scale, x), T::neg(T::prod(scale, y)));
    lemma_ring_negatives(T::prod(scale, x), T::prod(scale, y));
    lemma_ring_difference(scale, x, y);
}

/// The matrix of the commutator of position and momentum, `[r_i, p_j]`, is the imaginary
/// unit times the overlap along one axis and zero along two, in any commutative ring in
/// which counts add up.
pub proof fn law_position_and_momentum_do_not_commute<T: Real>(
    o: Vec3<T>,
    i: int,
    j: int,
    shells: Seq<Shell<T>>,
    x: At,
    y: At,
)
    requires
        is_ring::<T>(),
        counts_exactly::<T>(),
        0 <= i < 3,
        0 <= j < 3,
        0 <= x.0 < shells.len(),
        0 <= y.0 < shells.len(),
        shells[x.0].valid(),
        shells[y.0].valid(),
    ensures
        pair_entries(operator_step(commutator_terms::<T>(i, j), o, true), shells)(x, y)
            == pair_entries(value_step(commuted::<T>(i, j)), shells)(x, y),
{
    let terms = commutator_terms::<T>(i, j);
    let value = commuted::<T>(i, j);
    assert forall|start: T, a: Prim<T>, b: Prim<T>, scale: T, ca: Powers, cb: Powers|
        0 <= ca.0 <= MAX_L && 0 <= ca.1 <= MAX_L && 0 <= ca.2 <= MAX_L && 0 <= cb.0 <= MAX_L && 0
            <= cb.1 <= MAX_L && 0 <= cb.2 <= MAX_L implies #[trigger] terms_value(
        start,
        terms,
        o,
        a,
        b,
        scale,
        true,
        ca,
        cb,
        terms.len() as int,
    ) == T::sum(start, T::prod(scale, value(a, b, ca, cb))) by {
        lemma_commutator_entry(start, o, a, b, scale, ca, cb, i, j);
    }
    lemma_operator_adds(terms, o, true, value, shells, x, y);
}

} // verus!
