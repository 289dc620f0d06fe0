//! Quadratures as towers: over the powers of a root a tower is the product of the factors
//! along the axes.
use vstd::prelude::*;

use crate::engine::os::Prim;
use crate::engine::rys::{
    axis_factor, axis_input, bra_factor, combined_factor, geometry_of, root_value, AxisInput,
    Geometry,
};
use crate::engine::tower::{
    act, copies, lemma_tower_of_multiple, lemma_tower_of_sum, nothing, plus, times, tower,
    AxisSteps, Ladder, Step,
};
use crate::engine::tower_contracted::Components;
use crate::engine::tower_quartet::{divides, double, lemma_displacement, lemma_doubles};
use crate::engine::tower_raise::weighs;
use crate::engine::tower_space::{along, is_whole, space, Steps};
use crate::exact::{
    is_ring, lemma_negative_factor, lemma_ring_commute, lemma_ring_difference,
    lemma_ring_factors, lemma_ring_negatives, lemma_ring_sums,
};
use crate::scalar::{Real, Scalar};

verus! {

/// The value of a step over the powers of a root.
pub open spec fn evaluated<T: Scalar>(s: Step<T>, root: T) -> T {
    T::sum(s.own, T::prod(s.next, root))
}

/// Whether the recurrences along an axis are those of the steps over the powers of a root.
pub open spec fn evaluates<T: Scalar>(x: AxisSteps<T>, y: AxisInput<T>, root: T) -> bool {
    &&& y.c00 == evaluated(x.bra, root)
    &&& y.cp0 == evaluated(x.ket, root)
    &&& y.b10 == evaluated(x.bra_low, root)
    &&& y.b01 == evaluated(x.ket_low, root)
    &&& y.b00 == evaluated(x.cross, root)
    &&& y.ab == x.ab
    &&& y.cd == x.cd
}

/// Whether every order of a ladder is a root times the one before.
pub open spec fn is_geometric<T: Scalar>(u: Ladder<T>, root: T) -> bool {
    forall|m: int| 0 <= m ==> #[trigger] u(m + 1) == T::prod(root, u(m))
}

/// A step of a multiple of the powers of a root.
proof fn lemma_evaluated<T: Scalar>(s: Step<T>, t: Ladder<T>, v: T, u: T, root: T, m: int)
    requires
        is_ring::<T>(),
        t(m) == T::prod(v, u),
        t(m + 1) == T::prod(v, T::prod(root, u)),
    ensures
        act(s, t)(m) == T::prod(T::prod(evaluated(s, root), v), u),
{
    let w = T::prod(v, u);
    let e = evaluated(s, root);
    lemma_ring_factors(root, v, u);
    lemma_ring_factors(s.next, root, w);
    lemma_ring_commute(e, w);
    lemma_ring_factors(w, s.own, T::prod(s.next, root));
    lemma_ring_commute(w, s.own);
    lemma_ring_commute(w, T::prod(s.next, root));
    lemma_ring_factors(e, v, u);
}

/// No copies.
proof fn lemma_no_copies<T: Scalar>(t: Ladder<T>, m: int)
    requires
        is_ring::<T>(),
    ensures
        copies(0, t)(m) == T::count(0),
{
    lemma_ring_commute(T::count(0), t(m));
    lemma_ring_sums(t(m), t(m), t(m));
}

/// Copies of a step.
proof fn lemma_copied<T: Scalar>(c: T, e: T, v: T, u: T)
    requires
        is_ring::<T>(),
    ensures
        T::prod(c, T::prod(T::prod(e, v), u)) == T::prod(T::prod(T::prod(c, e), v), u),
{
    lemma_ring_factors(c, e, v);
    lemma_ring_factors(c, T::prod(e, v), u);
}

/// Multiples of one number add up.
proof fn lemma_gathered<T: Scalar>(a: T, b: T, u: T)
    requires
        is_ring::<T>(),
    ensures
        T::sum(T::prod(a, u), T::prod(b, u)) == T::prod(T::sum(a, b), u),
{
    lemma_ring_commute(a, u);
    lemma_ring_commute(b, u);
    lemma_ring_commute(T::sum(a, b), u);
    lemma_ring_factors(u, a, b);
}

/// Over the powers of a root a tower is a multiple of them.
#[verifier::spinoff_prover]
#[verifier::rlimit(40)]
proof fn lemma_root_tower<T: Scalar>(
    x: AxisSteps<T>,
    y: AxisInput<T>,
    root: T,
    u: Ladder<T>,
    a: int,
    b: int,
    c: int,
    d: int,
    m: int,
)
    requires
        is_ring::<T>(),
        evaluates(x, y, root),
        is_geometric(u, root),
        0 <= a,
        0 <= b,
        0 <= c,
        0 <= d,
        0 <= m,
    ensures
        tower(x, u, a, b, c, d)(m) == T::prod(axis_factor(y, a, b, c, d), u(m)),
    decreases d, b, c, a,
{
    let v = u(m);
    if d > 0 {
        lemma_root_tower(x, y, root, u, a, b, c + 1, d - 1, m);
        lemma_root_tower(x, y, root, u, a, b, c, d - 1, m);
        let f = axis_factor(y, a, b, c, d - 1);
        lemma_ring_factors(x.cd, f, v);
        lemma_gathered(axis_factor(y, a, b, c + 1, d - 1), T::prod(x.cd, f), v);
    } else if b > 0 {
        lemma_root_tower(x, y, root, u, a + 1, b - 1, c, 0, m);
        lemma_root_tower(x, y, root, u, a, b - 1, c, 0, m);
        let f = bra_factor(y, a, b - 1, c);
        assert(axis_factor(y, a, b - 1, c, 0) == f);
        assert(axis_factor(y, a + 1, b - 1, c, 0) == bra_factor(y, a + 1, b - 1, c));
        lemma_ring_factors(x.ab, f, v);
        lemma_gathered(bra_factor(y, a + 1, b - 1, c), T::prod(x.ab, f), v);
    } else if c > 0 {
        let f = |a: int, c: int| combined_factor(y, a, c);
        assert(u(m + 1) == T::prod(root, v));
        let t1 = tower(x, u, a, 0, c - 1, 0);
        lemma_root_tower(x, y, root, u, a, 0, c - 1, 0, m);
        lemma_root_tower(x, y, root, u, a, 0, c - 1, 0, m + 1);
        assert(axis_factor(y, a, 0, c - 1, 0) == f(a, c - 1));
        lemma_evaluated(x.ket, t1, f(a, c - 1), v, root, m);
        let first = T::prod(y.cp0, f(a, c - 1));
        let t2 = tower(x, u, a, 0, c - 2, 0);
        let n = T::count((c - 1) as u64);
        let second = T::prod(T::prod(n, y.b01), f(a, c - 2));
        lemma_ring_sums(T::prod(first, v), v, v);
        if c >= 2 {
            lemma_root_tower(x, y, root, u, a, 0, c - 2, 0, m);
            lemma_root_tower(x, y, root, u, a, 0, c - 2, 0, m + 1);
            assert(axis_factor(y, a, 0, c - 2, 0) == f(a, c - 2));
            lemma_evaluated(x.ket_low, t2, f(a, c - 2), v, root, m);
            lemma_copied(n, y.b01, f(a, c - 2), v);
            lemma_gathered(first, second, v);
        } else {
            lemma_no_copies(act(x.ket_low, t2), m);
        }
        let sum = if c >= 2 {
            T::sum(first, second)
        } else {
            first
        };
        let t3 = tower(x, u, a - 1, 0, c - 1, 0);
        let k = T::count(a as u64);
        let third = T::prod(T::prod(k, y.b00), f(a - 1, c - 1));
        lemma_ring_sums(T::prod(sum, v), v, v);
        if a >= 1 {
            lemma_root_tower(x, y, root, u, a - 1, 0, c - 1, 0, m);
            lemma_root_tower(x, y, root, u, a - 1, 0, c - 1, 0, m + 1);
            assert(axis_factor(y, a - 1, 0, c - 1, 0) == f(a - 1, c - 1));
            lemma_evaluated(x.cross, t3, f(a - 1, c - 1), v, root, m);
            lemma_copied(k, y.b00, f(a - 1, c - 1), v);
            lemma_gathered(sum, third, v);
        } else {
            lemma_no_copies(act(x.cross, t3), m);
        }
        assert(axis_factor(y, a, 0, c, 0) == f(a, c));
    } else if a > 0 {
        let f = |a: int| combined_factor(y, a, 0);
        assert(u(m + 1) == T::prod(root, v));
        let t1 = tower(x, u, a - 1, 0, 0, 0);
        lemma_root_tower(x, y, root, u, a - 1, 0, 0, 0, m);
        lemma_root_tower(x, y, root, u, a - 1, 0, 0, 0, m + 1);
        assert(axis_factor(y, a - 1, 0, 0, 0) == f(a - 1));
        lemma_evaluated(x.bra, t1, f(a - 1), v, root, m);
        let first = T::prod(y.c00, f(a - 1));
        let t2 = tower(x, u, a - 2, 0, 0, 0);
        let n = T::count((a - 1) as u64);
        lemma_ring_sums(T::prod(first, v), v, v);
        if a >= 2 {
            lemma_root_tower(x, y, root, u, a - 2, 0, 0, 0, m);
            lemma_root_tower(x, y, root, u, a - 2, 0, 0, 0, m + 1);
            assert(axis_factor(y, a - 2, 0, 0, 0) == f(a - 2));
            lemma_evaluated(x.bra_low, t2, f(a - 2), v, root, m);
            lemma_copied(n, y.b10, f(a - 2), v);
            lemma_gathered(first, T::prod(T::prod(n, y.b10), f(a - 2)), v);
        } else {
            lemma_no_copies(act(x.bra_low, t2), m);
            lemma_ring_commute(y.c00, T::count(1));
            lemma_ring_sums(y.c00, y.c00, y.c00);
        }
        assert(axis_factor(y, a, 0, 0, 0) == f(a));
    } else {
        assert(axis_factor(y, 0, 0, 0, 0) == T::count(1));
        lemma_ring_sums(v, v, v);
    }
}

/// Over the powers of a root the towers along the three axes are the product of the
/// factors.
pub proof fn lemma_root_space<T: Scalar>(
    x: Steps<T>,
    g: Geometry<T>,
    root: T,
    u: Ladder<T>,
    n: Components,
)
    requires
        is_ring::<T>(),
        evaluates(x(0), axis_input(g, root, 0), root),
        evaluates(x(1), axis_input(g, root, 1), root),
        evaluates(x(2), axis_input(g, root, 2), root),
        is_geometric(u, root),
        is_whole(n.0) && is_whole(n.1) && is_whole(n.2) && is_whole(n.3),
    ensures
        space(x, u, n.0, n.1, n.2, n.3)(0) == T::prod(
            root_value(g, root, n.0, n.1, n.2, n.3),
            u(0),
        ),
{
    let (a, b, c, d) = n;
    let f0 = axis_factor(axis_input(g, root, 0), a.0, b.0, c.0, d.0);
    let f1 = axis_factor(axis_input(g, root, 1), a.1, b.1, c.1, d.1);
    let f2 = axis_factor(axis_input(g, root, 2), a.2, b.2, c.2, d.2);
    let u2 = along(x, u, a, b, c, d, 2);
    let u1 = along(x, u2, a, b, c, d, 1);
    assert forall|m: int| 0 <= m implies #[trigger] u2(m) == T::prod(f2, u(m)) by {
        lemma_root_tower(x(2), axis_input(g, root, 2), root, u, a.2, b.2, c.2, d.2, m);
    }
    assert forall|m: int| 0 <= m implies #[trigger] u2(m + 1) == T::prod(root, u2(m)) by {
        assert(u(m + 1) == T::prod(root, u(m)));
        assert(u2(m) == T::prod(f2, u(m)));
        lemma_ring_factors(root, f2, u(m));
    }
    assert forall|m: int| 0 <= m implies #[trigger] u1(m) == T::prod(f1, u2(m)) by {
        lemma_root_tower(x(1), axis_input(g, root, 1), root, u2, a.1, b.1, c.1, d.1, m);
    }
    assert forall|m: int| 0 <= m implies #[trigger] u1(m + 1) == T::prod(root, u1(m)) by {
        assert(u2(m + 1) == T::prod(root, u2(m)));
        assert(u1(m) == T::prod(f1, u2(m)));
        lemma_ring_factors(root, f1, u2(m));
    }
    lemma_root_tower(x(0), axis_input(g, root, 0), root, u1, a.0, b.0, c.0, d.0, 0);
    lemma_ring_factors(f1, f2, u(0));
    lemma_ring_factors(f0, f1, f2);
    lemma_ring_factors(f0, T::prod(f1, f2), u(0));
}

/// The powers of a root.
pub open spec fn root_power<T: Scalar>(root: T, m: int) -> T
    decreases m,
{
    if m <= 0 {
        T::count(1)
    } else {
        T::prod(root, root_power(root, m - 1))
    }
}

/// The moments of the first `n` of a list of roots with their weights.
pub open spec fn moments<T: Scalar>(
    root: spec_fn(int) -> T,
    weight: spec_fn(int) -> T,
    n: int,
) -> Ladder<T>
    decreases n,
{
    if n <= 0 {
        nothing()
    } else {
        plus(
            moments(root, weight, n - 1),
            times(weight(n - 1), |m: int| root_power(root(n - 1), m)),
        )
    }
}

/// The sum over the first `n` roots of their values, each times its weight.
pub open spec fn quadrature<T: Scalar>(
    g: Geometry<T>,
    root: spec_fn(int) -> T,
    weight: spec_fn(int) -> T,
    c: Components,
    n: int,
) -> T
    decreases n,
{
    if n <= 0 {
        T::count(0)
    } else {
        T::sum(
            quadrature(g, root, weight, c, n - 1),
            T::prod(weight(n - 1), root_value(g, root(n - 1), c.0, c.1, c.2, c.3)),
        )
    }
}

/// The towers over a sum of ladders.
proof fn lemma_space_of_sum<T: Scalar>(x: Steps<T>, u: Ladder<T>, s: T, v: Ladder<T>, n: Components)
    requires
        is_ring::<T>(),
    ensures
        space(x, plus(u, times(s, v)), n.0, n.1, n.2, n.3) == plus(
            space(x, u, n.0, n.1, n.2, n.3),
            times(s, space(x, v, n.0, n.1, n.2, n.3)),
        ),
{
    let (a, b, c, d) = n;
    let (u2, v2) = (along(x, u, a, b, c, d, 2), along(x, v, a, b, c, d, 2));
    let (u1, v1) = (along(x, u2, a, b, c, d, 1), along(x, v2, a, b, c, d, 1));
    lemma_tower_of_sum(x(2), u, times(s, v), a.2, b.2, c.2, d.2);
    lemma_tower_of_multiple(x(2), s, v, a.2, b.2, c.2, d.2);
    lemma_tower_of_sum(x(1), u2, times(s, v2), a.1, b.1, c.1, d.1);
    lemma_tower_of_multiple(x(1), s, v2, a.1, b.1, c.1, d.1);
    lemma_tower_of_sum(x(0), u1, times(s, v1), a.0, b.0, c.0, d.0);
    lemma_tower_of_multiple(x(0), s, v1, a.0, b.0, c.0, d.0);
}

/// The towers over no ladder.
proof fn lemma_space_of_nothing<T: Scalar>(x: Steps<T>, n: Components)
    requires
        is_ring::<T>(),
    ensures
        space(x, nothing::<T>(), n.0, n.1, n.2, n.3)(0) == T::count(0),
{
    let z = T::count(0);
    let o = nothing::<T>();
    assert(times(z, o) =~= o) by {
        assert forall|m: int| #[trigger] times(z, o)(m) == o(m) by {
            lemma_ring_sums::<T>(z, z, z);
        }
    }
    let (a, b, c, d) = n;
    lemma_tower_of_multiple(x(2), z, o, a.2, b.2, c.2, d.2);
    let u2 = along(x, o, a, b, c, d, 2);
    lemma_tower_of_multiple(x(1), z, u2, a.1, b.1, c.1, d.1);
    let u1 = along(x, u2, a, b, c, d, 1);
    lemma_tower_of_multiple(x(0), z, u1, a.0, b.0, c.0, d.0);
    let t = space(x, o, a, b, c, d);
    assert(t == times(z, t));
    lemma_ring_commute(z, t(0));
    lemma_ring_sums(t(0), t(0), t(0));
}

/// A quadrature is a tower over the moments of its roots.
pub proof fn lemma_quadrature<T: Scalar>(
    x: Steps<T>,
    g: Geometry<T>,
    root: spec_fn(int) -> T,
    weight: spec_fn(int) -> T,
    c: Components,
    n: int,
)
    requires
        is_ring::<T>(),
        forall|r: int, k: int|
            0 <= r < n && 0 <= k < 3 ==> #[trigger] evaluates(
                x(k),
                axis_input(g, root(r), k),
                root(r),
            ),
        is_whole(c.0) && is_whole(c.1) && is_whole(c.2) && is_whole(c.3),
    ensures
        quadrature(g, root, weight, c, n) == space(
            x,
            moments(root, weight, n),
            c.0,
            c.1,
            c.2,
            c.3,
        )(0),
    decreases n,
{
    if n <= 0 {
        lemma_space_of_nothing(x, c);
    } else {
        lemma_quadrature(x, g, root, weight, c, n - 1);
        let t = root(n - 1);
        let p = |m: int| root_power(t, m);
        assert(is_geometric(p, t));
        assert(evaluates(x(0), axis_input(g, t, 0), t));
        assert(evaluates(x(1), axis_input(g, t, 1), t));
        assert(evaluates(x(2), axis_input(g, t, 2), t));
        lemma_root_space(x, g, t, p, c);
        lemma_space_of_sum(x, moments(root, weight, n - 1), weight(n - 1), p, c);
        let v = root_value(g, t, c.0, c.1, c.2, c.3);
        lemma_ring_commute(v, T::count(1));
        lemma_ring_sums(v, v, v);
    }
}

/// The steps of the quadrature of four primitives.
pub open spec fn root_steps<T: Scalar>(g: Geometry<T>) -> Steps<T> {
    let (rp, rq) = (T::quot(g.p, g.pq), T::quot(g.q, g.pq));
    let (hp, hq) = (T::quot(T::count(1), double(g.p)), T::quot(T::count(1), double(g.q)));
    |k: int|
        AxisSteps {
            bra: Step { own: g.pa[k], next: T::neg(T::prod(rq, g.pq_vec[k])) },
            ket: Step { own: g.qc[k], next: T::prod(rp, g.pq_vec[k]) },
            bra_low: Step { own: hp, next: T::neg(T::prod(hp, rq)) },
            ket_low: Step { own: hq, next: T::neg(T::prod(hq, rp)) },
            cross: Step {
                own: T::count(0),
                next: T::quot(T::count(1), double(g.pq)),
            },
            ab: g.ab[k],
            cd: g.cd[k],
        }
}

/// Whether the sums of exponents of a quartet, and twice these, can be divided by.
pub open spec fn has_quotients<T: Scalar>(g: Geometry<T>) -> bool {
    &&& divides(g.p) && divides(g.q) && divides(g.pq)
    &&& divides(double(g.p)) && divides(double(g.q)) && divides(double(g.pq))
}

/// A quotient is a multiple of the reciprocal.
pub proof fn lemma_quotient<T: Scalar>(z: T, s: T)
    requires
        is_ring::<T>(),
        divides(s),
    ensures
        T::quot(z, s) == T::prod(T::quot(T::count(1), s), z),
        T::prod(T::quot(T::count(1), s), s) == T::count(1),
{
    let (i, w) = (T::quot(T::count(1), s), T::quot(z, s));
    assert(T::prod(s, i) == T::count(1));
    assert(T::prod(s, w) == z);
    lemma_ring_commute(s, i);
    lemma_ring_factors(i, s, w);
    lemma_ring_sums(w, w, w);
}

/// A root times a number, divided.
proof fn lemma_root_ratio<T: Scalar>(root: T, q: T, s: T)
    requires
        is_ring::<T>(),
        divides(s),
    ensures
        T::quot(T::prod(root, q), s) == T::prod(root, T::quot(q, s)),
{
    let i = T::quot(T::count(1), s);
    lemma_quotient(T::prod(root, q), s);
    lemma_quotient(q, s);
    lemma_ring_factors(root, i, q);
}

/// A weight of the second neighbour.
proof fn lemma_low_weight<T: Scalar>(root: T, r: T, s: T)
    requires
        is_ring::<T>(),
        divides(s),
    ensures
        T::quot(T::diff(T::count(1), T::prod(root, r)), s) == T::sum(
            T::quot(T::count(1), s),
            T::prod(T::neg(T::prod(T::quot(T::count(1), s), r)), root),
        ),
{
    let i = T::quot(T::count(1), s);
    let one = T::count(1);
    let z = T::prod(root, r);
    lemma_quotient(T::diff(one, z), s);
    lemma_ring_difference(i, one, z);
    lemma_ring_commute(i, one);
    lemma_ring_sums(i, i, i);
    lemma_ring_negatives(i, T::prod(i, z));
    lemma_ring_factors(root, i, r);
    lemma_negative_factor(T::prod(i, r), root);
    lemma_ring_commute(T::prod(i, r), root);
}

/// The recurrences of a root are the steps over its powers.
pub proof fn lemma_evaluates<T: Scalar>(g: Geometry<T>, root: T, k: int)
    requires
        is_ring::<T>(),
        has_quotients(g),
    ensures
        evaluates(root_steps(g)(k), axis_input(g, root, k), root),
{
    let (rp, rq) = (T::quot(g.p, g.pq), T::quot(g.q, g.pq));
    let v = g.pq_vec[k];
    lemma_root_ratio(root, g.q, g.pq);
    lemma_root_ratio(root, g.p, g.pq);
    lemma_ring_factors(root, rq, v);
    lemma_ring_factors(root, rp, v);
    lemma_ring_negatives(g.pa[k], T::prod(root, T::prod(rq, v)));
    lemma_negative_factor(T::prod(rq, v), root);
    lemma_ring_commute(T::prod(rq, v), root);
    lemma_ring_commute(T::prod(rp, v), root);
    lemma_low_weight(root, rq, double(g.p));
    lemma_low_weight(root, rp, double(g.q));
    let h = T::quot(T::count(1), double(g.pq));
    lemma_quotient(root, double(g.pq));
    let b = T::prod(h, root);
    lemma_ring_sums(b, b, b);
}

/// The coupling of bra and ket, weighted.
proof fn lemma_coupled<T: Scalar>(p: T, q: T, s: T)
    requires
        is_ring::<T>(),
        divides(s),
        divides(double(p)),
        divides(double(s)),
    ensures
        T::sum(
            T::prod(
                double(p),
                T::neg(T::prod(T::quot(T::count(1), double(p)), T::quot(q, s))),
            ),
            T::prod(double(q), T::quot(T::count(1), double(s))),
        ) == T::count(0),
{
    let (one, two) = (T::count(1), T::count(2));
    let (h, r) = (T::quot(one, double(p)), T::quot(q, s));
    let j = T::quot(one, double(s));
    assert(T::prod(double(p), h) == one);
    assert(T::prod(double(s), j) == one);
    lemma_ring_negatives(double(p), T::prod(h, r));
    lemma_ring_factors(double(p), h, r);
    lemma_ring_sums(r, r, r);
    let w = T::prod(double(q), j);
    // s w == q
    lemma_ring_factors(two, q, j);
    lemma_ring_factors(two, s, j);
    lemma_ring_factors(two, s, T::prod(q, j));
    lemma_ring_factors(q, s, j);
    lemma_ring_factors(q, two, T::prod(s, j));
    lemma_ring_commute(q, one);
    lemma_ring_sums(q, q, q);
    assert(T::prod(s, w) == q);
    lemma_quotient(q, s);
    let i = T::quot(one, s);
    lemma_ring_factors(i, s, w);
    lemma_ring_sums(w, w, w);
    assert(w == r);
    lemma_ring_negatives(r, r);
    lemma_ring_sums(T::neg(r), r, r);
}

/// The steps of the quadrature of four primitives weigh by twice their exponents.
pub proof fn lemma_root_weighs<T: Real>(
    a: Prim<T>,
    b: Prim<T>,
    c: Prim<T>,
    d: Prim<T>,
    k: int,
)
    requires
        is_ring::<T>(),
        has_quotients(geometry_of(a, b, c, d)),
        0 <= k < 3,
    ensures
        weighs(
            root_steps(geometry_of(a, b, c, d))(k),
            double(a.exp),
            double(b.exp),
            double(c.exp),
            double(d.exp),
        ),
{
    let g = geometry_of(a, b, c, d);
    let (p, q, s) = (g.p, g.q, g.pq);
    lemma_doubles(a.exp, b.exp);
    lemma_doubles(c.exp, d.exp);
    lemma_displacement(a.exp, a.center[k], b.exp, b.center[k], p);
    lemma_displacement(c.exp, c.center[k], d.exp, d.center[k], q);
    lemma_coupled(p, q, s);
    lemma_coupled(q, p, s);
    let one = T::count(1);
    assert(T::prod(double(p), T::quot(one, double(p))) == one);
    assert(T::prod(double(q), T::quot(one, double(q))) == one);
    let (v, i) = (g.pq_vec[k], T::quot(one, s));
    let two = T::count(2);
    lemma_quotient(q, s);
    lemma_quotient(p, s);
    lemma_ring_factors(i, q, v);
    lemma_ring_factors(i, p, v);
    let (x, y) = (T::prod(i, T::prod(q, v)), T::prod(i, T::prod(p, v)));
    lemma_ring_negatives(double(p), x);
    lemma_ring_factors(two, p, x);
    lemma_ring_factors(two, q, y);
    lemma_ring_factors(i, p, T::prod(q, v));
    lemma_ring_factors(i, q, T::prod(p, v));
    lemma_ring_factors(q, p, v);
    let z = T::prod(double(p), x);
    lemma_ring_negatives(z, z);
    lemma_ring_sums(T::neg(z), z, z);
}

} // verus!
