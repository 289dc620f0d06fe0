//! Integrals as towers along the three axes.
use vstd::prelude::*;

use crate::engine::hrr::transferred;
use crate::engine::nuclear::{attraction, ChargeInput};
use crate::engine::pairs::Vec3;
use crate::engine::tower::{act, copies, lemma_towers_commute, tower, AxisSteps, Ladder, Step};
use crate::engine::triples::{address, first_axis, is_triple, power, shifted};
use crate::engine::vrr::{element, VrrInput};
use crate::exact::{
    is_ring, lemma_ring_commute, lemma_ring_factors, lemma_ring_negatives, lemma_ring_sums,
};
use crate::math::am::{degree, Powers};
use crate::scalar::Scalar;

verus! {

/// The steps along the three axes.
pub type Steps<T> = spec_fn(int) -> AxisSteps<T>;

/// No powers.
pub open spec fn origin() -> Powers {
    (0, 0, 0)
}

/// Whether no power is negative.
pub open spec fn is_whole(c: Powers) -> bool {
    c.0 >= 0 && c.1 >= 0 && c.2 >= 0
}

/// The tower along axis `k` over a ladder.
pub open spec fn along<T: Scalar>(
    x: Steps<T>,
    u: Ladder<T>,
    a: Powers,
    b: Powers,
    c: Powers,
    d: Powers,
    k: int,
) -> Ladder<T> {
    tower(x(k), u, power(a, k), power(b, k), power(c, k), power(d, k))
}

/// The towers along the three axes.
pub open spec fn space<T: Scalar>(
    x: Steps<T>,
    u: Ladder<T>,
    a: Powers,
    b: Powers,
    c: Powers,
    d: Powers,
) -> Ladder<T> {
    along(x, along(x, along(x, u, a, b, c, d, 2), a, b, c, d, 1), a, b, c, d, 0)
}

/// The towers along the axes other than `k`.
pub open spec fn across<T: Scalar>(
    x: Steps<T>,
    u: Ladder<T>,
    a: Powers,
    b: Powers,
    c: Powers,
    d: Powers,
    k: int,
) -> Ladder<T> {
    if k == 0 {
        along(x, along(x, u, a, b, c, d, 2), a, b, c, d, 1)
    } else if k == 1 {
        along(x, along(x, u, a, b, c, d, 2), a, b, c, d, 0)
    } else {
        along(x, along(x, u, a, b, c, d, 1), a, b, c, d, 0)
    }
}

/// Any axis may come last.
pub proof fn lemma_outermost<T: Scalar>(
    x: Steps<T>,
    u: Ladder<T>,
    a: Powers,
    b: Powers,
    c: Powers,
    d: Powers,
    k: int,
)
    requires
        is_ring::<T>(),
        0 <= k < 3,
    ensures
        space(x, u, a, b, c, d) == along(x, across(x, u, a, b, c, d, k), a, b, c, d, k),
{
    let w = along(x, u, a, b, c, d, 2);
    if k == 1 {
        lemma_towers_commute(x(0), x(1), w, (a.0, b.0, c.0, d.0), a.1, b.1, c.1, d.1);
    } else if k == 2 {
        let v = along(x, u, a, b, c, d, 1);
        lemma_towers_commute(x(1), x(2), u, (a.1, b.1, c.1, d.1), a.2, b.2, c.2, d.2);
        lemma_towers_commute(x(0), x(2), v, (a.0, b.0, c.0, d.0), a.2, b.2, c.2, d.2);
    }
}

/// The steps of a quartet.
pub open spec fn quartet_steps<T: Scalar>(x: VrrInput<T>, ab: Vec3<T>, cd: Vec3<T>) -> Steps<T> {
    |k: int|
        AxisSteps {
            bra: Step { own: x.pa[k], next: x.hdr.wp[k] },
            ket: Step { own: x.qc[k], next: x.hdr.wq[k] },
            bra_low: Step {
                own: x.inv_2p,
                next: T::neg(T::prod(x.inv_2p, x.hdr.q_over_pq)),
            },
            ket_low: Step {
                own: x.inv_2q,
                next: T::neg(T::prod(x.inv_2q, x.hdr.p_over_pq)),
            },
            cross: Step { own: T::count(0), next: x.hdr.inv_2pq },
            ab: ab[k],
            cd: cd[k],
        }
}

/// A lowering step, written as the recurrence does.
proof fn lemma_low_term<T: Scalar>(n: T, h: T, r: T, c: T, d: T)
    requires
        is_ring::<T>(),
    ensures
        T::prod(T::prod(n, h), T::diff(c, T::prod(r, d))) == T::prod(
            n,
            T::sum(T::prod(h, c), T::prod(T::neg(T::prod(h, r)), d)),
        ),
{
    let rd = T::prod(r, d);
    lemma_ring_factors(n, h, T::diff(c, rd));
    lemma_ring_negatives(c, rd);
    lemma_ring_factors(h, c, T::neg(rd));
    lemma_ring_negatives(h, rd);
    lemma_ring_factors(h, r, d);
    lemma_ring_commute(T::neg(T::prod(h, r)), d);
    lemma_ring_negatives(d, T::prod(h, r));
    lemma_ring_commute(d, T::prod(h, r));
}

/// A cross step, written as the recurrence does.
proof fn lemma_cross_term<T: Scalar>(n: T, h: T, f: T, g: T)
    requires
        is_ring::<T>(),
    ensures
        T::prod(T::prod(n, h), g) == T::prod(
            n,
            T::sum(T::prod(T::count(0), f), T::prod(h, g)),
        ),
{
    lemma_ring_factors(n, h, g);
    lemma_ring_commute(T::count(0), f);
    lemma_ring_sums(f, f, f);
    let v = T::prod(h, g);
    lemma_ring_sums(v, v, v);
}

/// Copies of none.
proof fn lemma_no_copies<T: Scalar>(v: T, w: T)
    requires
        is_ring::<T>(),
    ensures
        T::sum(w, T::prod(T::count(0), v)) == w,
{
    lemma_ring_commute(T::count(0), v);
    lemma_ring_sums(v, v, v);
    lemma_ring_sums(w, w, w);
}

/// The base of the recurrence of a quartet.
pub open spec fn quartet_base<T: Scalar>(x: VrrInput<T>, fm: Seq<T>) -> Ladder<T> {
    |m: int| T::prod(x.hdr.pref, fm[m])
}

/// An element of the recurrence is a tower.
pub proof fn lemma_element<T: Scalar>(
    x: VrrInput<T>,
    fm: Seq<T>,
    ab: Vec3<T>,
    cd: Vec3<T>,
    e: Powers,
    f: Powers,
    m: int,
)
    requires
        is_ring::<T>(),
        is_whole(e),
        is_whole(f),
    ensures
        element(x, fm, e, f, m) == space(
            quartet_steps(x, ab, cd),
            quartet_base(x, fm),
            e,
            origin(),
            f,
            origin(),
        )(m),
    decreases degree(f), degree(e),
{
    let (s, u, o) = (quartet_steps(x, ab, cd), quartet_base(x, fm), origin());
    let v = |e: Powers, f: Powers| space(s, u, e, o, f, o);
    if degree(f) > 0 {
        let j = first_axis(f);
        let (f1, f2) = (shifted(f, j, -1), shifted(f, j, -2));
        let e1 = shifted(e, j, -1);
        let (n, k) = (power(f, j), power(e, j));
        lemma_element(x, fm, ab, cd, e, f1, m);
        lemma_element(x, fm, ab, cd, e, f1, m + 1);
        lemma_outermost(s, u, e, o, f, o, j);
        lemma_outermost(s, u, e, o, f1, o, j);
        let w = across(s, u, e, o, f, o, j);
        let t = |a: int, c: int| tower(s(j), w, a, 0, c, 0);
        assert(v(e, f) == t(k, n));
        assert(v(e, f1) == t(k, n - 1));
        let (g2, g3) = (t(k, n - 2), t(k - 1, n - 1));
        let (cn, ck) = (T::count((n - 1) as u64), T::count(k as u64));
        if n >= 2 {
            lemma_element(x, fm, ab, cd, e, f2, m);
            lemma_element(x, fm, ab, cd, e, f2, m + 1);
            lemma_outermost(s, u, e, o, f2, o, j);
            assert(v(e, f2) == g2);
        }
        if k >= 1 {
            lemma_element(x, fm, ab, cd, e1, f1, m + 1);
            lemma_outermost(s, u, e1, o, f1, o, j);
            assert(v(e1, f1) == g3);
        }
        let first = act(s(j).ket, t(k, n - 1))(m);
        let second = T::sum(first, copies(n - 1, act(s(j).ket_low, g2))(m));
        lemma_low_term(cn, x.inv_2q, x.hdr.p_over_pq, g2(m), g2(m + 1));
        lemma_no_copies(act(s(j).ket_low, g2)(m), first);
        lemma_cross_term(ck, x.hdr.inv_2pq, g3(m), g3(m + 1));
        lemma_no_copies(act(s(j).cross, g3)(m), second);
        assert(t(k, n)(m) == T::sum(second, copies(k, act(s(j).cross, g3))(m)));
    } else if degree(e) > 0 {
        let i = first_axis(e);
        let (e1, e2) = (shifted(e, i, -1), shifted(e, i, -2));
        let n = power(e, i);
        lemma_element(x, fm, ab, cd, e1, f, m);
        lemma_element(x, fm, ab, cd, e1, f, m + 1);
        lemma_outermost(s, u, e, o, f, o, i);
        lemma_outermost(s, u, e1, o, f, o, i);
        let w = across(s, u, e, o, f, o, i);
        let t = |a: int| tower(s(i), w, a, 0, 0, 0);
        assert(v(e, f) == t(n));
        assert(v(e1, f) == t(n - 1));
        let g2 = t(n - 2);
        if n >= 2 {
            lemma_element(x, fm, ab, cd, e2, f, m);
            lemma_element(x, fm, ab, cd, e2, f, m + 1);
            lemma_outermost(s, u, e2, o, f, o, i);
            assert(v(e2, f) == g2);
        }
        let first = act(s(i).bra, t(n - 1))(m);
        lemma_low_term(
            T::count((n - 1) as u64),
            x.inv_2p,
            x.hdr.q_over_pq,
            g2(m),
            g2(m + 1),
        );
        lemma_no_copies(act(s(i).bra_low, g2)(m), first);
        assert(t(n)(m) == T::sum(first, copies(n - 1, act(s(i).bra_low, g2))(m)));
    }
}

/// Powers that are transferred on the bra.
pub proof fn lemma_bra_space<T: Scalar>(
    x: Steps<T>,
    u: Ladder<T>,
    base: Seq<T>,
    ab: Vec3<T>,
    l: int,
    a: Powers,
    b: Powers,
    c: Powers,
)
    requires
        is_ring::<T>(),
        forall|k: int| 0 <= k < 3 ==> (#[trigger] x(k)).ab == ab[k],
        forall|e: Powers|
            is_triple(e, l) ==> base[#[trigger] address(e)] == space(
                x,
                u,
                e,
                origin(),
                c,
                origin(),
            )(0),
        is_whole(c),
        is_triple(a, l),
        is_triple(b, l),
        degree(a) + degree(b) <= l,
    ensures
        transferred(base, ab, a, b) == space(x, u, a, b, c, origin())(0),
    decreases degree(b),
{
    let o = origin();
    if degree(b) > 0 {
        let i = first_axis(b);
        let b1 = shifted(b, i, -1);
        let a1 = shifted(a, i, 1);
        lemma_bra_space(x, u, base, ab, l, a1, b1, c);
        lemma_bra_space(x, u, base, ab, l, a, b1, c);
        lemma_outermost(x, u, a, b, c, o, i);
        lemma_outermost(x, u, a1, b1, c, o, i);
        lemma_outermost(x, u, a, b1, c, o, i);
        assert(x(i).ab == ab[i]);
    } else {
        assert(b == o);
        assert(base[address(a)] == space(x, u, a, o, c, o)(0));
    }
}

/// Powers that are transferred on the ket.
pub proof fn lemma_ket_space<T: Scalar>(
    x: Steps<T>,
    u: Ladder<T>,
    base: Seq<T>,
    cd: Vec3<T>,
    l: int,
    a: Powers,
    b: Powers,
    c: Powers,
    d: Powers,
)
    requires
        is_ring::<T>(),
        forall|k: int| 0 <= k < 3 ==> (#[trigger] x(k)).cd == cd[k],
        forall|f: Powers|
            is_triple(f, l) ==> base[#[trigger] address(f)] == space(x, u, a, b, f, origin())(0),
        is_whole(a),
        is_whole(b),
        is_triple(c, l),
        is_triple(d, l),
        degree(c) + degree(d) <= l,
    ensures
        transferred(base, cd, c, d) == space(x, u, a, b, c, d)(0),
    decreases degree(d),
{
    if degree(d) > 0 {
        let i = first_axis(d);
        let d1 = shifted(d, i, -1);
        let c1 = shifted(c, i, 1);
        lemma_ket_space(x, u, base, cd, l, a, b, c1, d1);
        lemma_ket_space(x, u, base, cd, l, a, b, c, d1);
        lemma_outermost(x, u, a, b, c, d, i);
        lemma_outermost(x, u, a, b, c1, d1, i);
        lemma_outermost(x, u, a, b, c, d1, i);
        assert(x(i).cd == cd[i]);
    } else {
        assert(d == origin());
        assert(base[address(c)] == space(x, u, a, b, c, d)(0));
    }
}

/// The steps of a pair of primitives in the field of a charge.
pub open spec fn charge_steps<T: Scalar>(x: ChargeInput<T>, ab: Vec3<T>) -> Steps<T> {
    |k: int|
        AxisSteps {
            bra: Step { own: x.pa[k], next: T::neg(x.pc[k]) },
            ket: Step { own: T::count(0), next: T::count(0) },
            bra_low: Step { own: x.h, next: T::neg(x.h) },
            ket_low: Step { own: T::count(0), next: T::count(0) },
            cross: Step { own: T::count(0), next: T::count(0) },
            ab: ab[k],
            cd: T::count(0),
        }
}

/// An attraction is a tower.
pub proof fn lemma_attraction_tower<T: Scalar>(
    x: ChargeInput<T>,
    base: Seq<T>,
    ab: Vec3<T>,
    t: Powers,
    m: int,
)
    requires
        is_ring::<T>(),
        is_whole(t),
    ensures
        attraction(x, base, t, m) == space(
            charge_steps(x, ab),
            |m: int| base[m],
            t,
            origin(),
            origin(),
            origin(),
        )(m),
    decreases degree(t),
{
    let (s, o) = (charge_steps(x, ab), origin());
    let u = |m: int| base[m];
    if degree(t) > 0 {
        let i = first_axis(t);
        let (a, aa) = (shifted(t, i, -1), shifted(shifted(t, i, -1), i, -1));
        let n = power(t, i);
        lemma_attraction_tower(x, base, ab, a, m);
        lemma_attraction_tower(x, base, ab, a, m + 1);
        lemma_outermost(s, u, t, o, o, o, i);
        lemma_outermost(s, u, a, o, o, o, i);
        let w = across(s, u, t, o, o, o, i);
        let g = |a: int| tower(s(i), w, a, 0, 0, 0);
        assert(space(s, u, t, o, o, o) == g(n));
        assert(space(s, u, a, o, o, o) == g(n - 1));
        let g2 = g(n - 2);
        if n >= 2 {
            lemma_attraction_tower(x, base, ab, aa, m);
            lemma_attraction_tower(x, base, ab, aa, m + 1);
            lemma_outermost(s, u, aa, o, o, o, i);
            assert(space(s, u, aa, o, o, o) == g2);
        }
        let (p, q) = (g(n - 1)(m), g(n - 1)(m + 1));
        let cn = T::count((n - 1) as u64);
        lemma_ring_negatives(T::prod(x.pa[i], p), T::prod(x.pc[i], q));
        lemma_ring_commute(T::neg(x.pc[i]), q);
        lemma_ring_negatives(q, x.pc[i]);
        lemma_ring_commute(q, x.pc[i]);
        let first = act(s(i).bra, g(n - 1))(m);
        // The lowering step takes the same of both orders.
        let one = T::count(1);
        lemma_low_term(cn, x.h, one, g2(m), g2(m + 1));
        lemma_ring_sums(g2(m + 1), g2(m + 1), g2(m + 1));
        lemma_ring_commute(x.h, one);
        lemma_ring_sums(x.h, x.h, x.h);
        lemma_no_copies(act(s(i).bra_low, g2)(m), first);
        assert(g(n)(m) == T::sum(first, copies(n - 1, act(s(i).bra_low, g2))(m)));
    }
}

/// A tower reads no more orders than its powers.
proof fn lemma_tower_reads<T: Scalar>(
    x: AxisSteps<T>,
    u: Ladder<T>,
    v: Ladder<T>,
    a: int,
    b: int,
    c: int,
    d: int,
    m: int,
    n: int,
)
    requires
        forall|i: int| m <= i <= n ==> #[trigger] u(i) == v(i),
        m + a + b + c + d <= n,
    ensures
        tower(x, u, a, b, c, d)(m) == tower(x, v, a, b, c, d)(m),
    decreases d + 2, b + 2, c + 2, a + 2,
{
    if a < 0 || b < 0 || c < 0 || d < 0 {
    } else if d > 0 {
        lemma_tower_reads(x, u, v, a, b, c + 1, d - 1, m, n);
        lemma_tower_reads(x, u, v, a, b, c, d - 1, m, n);
    } else if b > 0 {
        lemma_tower_reads(x, u, v, a + 1, b - 1, c, 0, m, n);
        lemma_tower_reads(x, u, v, a, b - 1, c, 0, m, n);
    } else if c > 0 {
        lemma_tower_reads(x, u, v, a, 0, c - 1, 0, m, n);
        lemma_tower_reads(x, u, v, a, 0, c - 1, 0, m + 1, n);
        lemma_tower_reads(x, u, v, a, 0, c - 2, 0, m, n);
        lemma_tower_reads(x, u, v, a, 0, c - 2, 0, m + 1, n);
        lemma_tower_reads(x, u, v, a - 1, 0, c - 1, 0, m, n);
        lemma_tower_reads(x, u, v, a - 1, 0, c - 1, 0, m + 1, n);
    } else if a > 0 {
        lemma_tower_reads(x, u, v, a - 1, 0, 0, 0, m, n);
        lemma_tower_reads(x, u, v, a - 1, 0, 0, 0, m + 1, n);
        lemma_tower_reads(x, u, v, a - 2, 0, 0, 0, m, n);
        lemma_tower_reads(x, u, v, a - 2, 0, 0, 0, m + 1, n);
    } else {
        assert(u(m) == v(m));
    }
}

/// Ladders that agree up to the powers of an integral give the same integral.
pub proof fn lemma_space_reads<T: Scalar>(
    x: Steps<T>,
    u: Ladder<T>,
    v: Ladder<T>,
    a: Powers,
    b: Powers,
    c: Powers,
    d: Powers,
    n: int,
)
    requires
        is_whole(a),
        is_whole(b),
        is_whole(c),
        is_whole(d),
        forall|i: int| 0 <= i <= n ==> #[trigger] u(i) == v(i),
        degree(a) + degree(b) + degree(c) + degree(d) <= n,
    ensures
        space(x, u, a, b, c, d)(0) == space(x, v, a, b, c, d)(0),
{
    let n2 = a.2 + b.2 + c.2 + d.2;
    let n1 = a.1 + b.1 + c.1 + d.1;
    let n0 = a.0 + b.0 + c.0 + d.0;
    let (u2, v2) = (along(x, u, a, b, c, d, 2), along(x, v, a, b, c, d, 2));
    let (u1, v1) = (along(x, u2, a, b, c, d, 1), along(x, v2, a, b, c, d, 1));
    assert forall|i: int| 0 <= i <= n - n2 implies #[trigger] u2(i) == v2(i) by {
        lemma_tower_reads(x(2), u, v, a.2, b.2, c.2, d.2, i, n);
    }
    assert forall|i: int| 0 <= i <= n - n2 - n1 implies #[trigger] u1(i) == v1(i) by {
        lemma_tower_reads(x(1), u2, v2, a.1, b.1, c.1, d.1, i, n - n2);
    }
    lemma_tower_reads(x(0), u1, v1, a.0, b.0, c.0, d.0, 0, n - n2 - n1);
}

} // verus!
