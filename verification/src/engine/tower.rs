//! The recurrences of the repulsion and of the attraction along one axis.
//!
//! An integral is raised from its neighbours at two orders of a ladder. A raising step
//! along one axis is an operator on ladders, and without rounding such operators commute.
//! So an integral is a tower of steps for each axis over the base ladder, whatever the
//! order in which the powers were raised.
use vstd::prelude::*;

use crate::exact::{
    counts_exactly, is_ring, lemma_ring_commute, lemma_ring_factors, lemma_ring_sums,
};
use crate::engine::invariance::lemma_interchange;
use crate::scalar::Scalar;

verus! {

/// A value for every order.
pub type Ladder<T> = spec_fn(int) -> T;

/// A step that takes `own` of a value and `next` of the one an order higher.
pub struct Step<T> {
    pub own: T,
    pub next: T,
}

/// A step of a ladder.
pub open spec fn act<T: Scalar>(x: Step<T>, u: Ladder<T>) -> Ladder<T> {
    |m: int| T::sum(T::prod(x.own, u(m)), T::prod(x.next, u(m + 1)))
}

/// The sum of two ladders.
pub open spec fn plus<T: Scalar>(u: Ladder<T>, v: Ladder<T>) -> Ladder<T> {
    |m: int| T::sum(u(m), v(m))
}

/// A multiple of a ladder.
pub open spec fn times<T: Scalar>(c: T, u: Ladder<T>) -> Ladder<T> {
    |m: int| T::prod(c, u(m))
}

/// The ladder of zeros.
pub open spec fn nothing<T: Scalar>() -> Ladder<T> {
    |m: int| T::count(0)
}

/// A number of copies of a ladder.
pub open spec fn copies<T: Scalar>(n: int, u: Ladder<T>) -> Ladder<T> {
    times(T::count(n as u64), u)
}

/// Two steps may change places.
pub proof fn lemma_steps_commute<T: Scalar>(x: Step<T>, y: Step<T>, u: Ladder<T>)
    requires
        is_ring::<T>(),
    ensures
        act(x, act(y, u)) == act(y, act(x, u)),
{
    let (l, r) = (act(x, act(y, u)), act(y, act(x, u)));
    assert forall|m: int| #[trigger] l(m) == r(m) by {
        let (a, b, c) = (u(m), u(m + 1), u(m + 2));
        let (p, q) = (T::prod(y.own, a), T::prod(y.next, b));
        let (s, t) = (T::prod(y.own, b), T::prod(y.next, c));
        lemma_ring_factors(x.own, p, q);
        lemma_ring_factors(x.next, s, t);
        let (f, g) = (T::prod(x.own, a), T::prod(x.next, b));
        let (h, k) = (T::prod(x.own, b), T::prod(x.next, c));
        lemma_ring_factors(y.own, f, g);
        lemma_ring_factors(y.next, h, k);
        lemma_ring_factors(x.own, y.own, a);
        lemma_ring_factors(x.own, y.next, b);
        lemma_ring_factors(x.next, y.own, b);
        lemma_ring_factors(x.next, y.next, c);
        lemma_interchange(
            T::prod(x.own, p),
            T::prod(x.own, q),
            T::prod(x.next, s),
            T::prod(x.next, t),
        );
        assert(u(m + 1 + 1) == c);
    }
    assert(l =~= r);
}

/// A step of a sum is the sum of the steps.
pub proof fn lemma_step_of_sum<T: Scalar>(x: Step<T>, u: Ladder<T>, v: Ladder<T>)
    requires
        is_ring::<T>(),
    ensures
        act(x, plus(u, v)) == plus(act(x, u), act(x, v)),
{
    let (l, r) = (act(x, plus(u, v)), plus(act(x, u), act(x, v)));
    assert forall|m: int| #[trigger] l(m) == r(m) by {
        lemma_ring_factors(x.own, u(m), v(m));
        lemma_ring_factors(x.next, u(m + 1), v(m + 1));
        lemma_interchange(
            T::prod(x.own, u(m)),
            T::prod(x.own, v(m)),
            T::prod(x.next, u(m + 1)),
            T::prod(x.next, v(m + 1)),
        );
    }
    assert(l =~= r);
}

/// A step of a multiple is the multiple of the step.
pub proof fn lemma_step_of_multiple<T: Scalar>(x: Step<T>, c: T, u: Ladder<T>)
    requires
        is_ring::<T>(),
    ensures
        act(x, times(c, u)) == times(c, act(x, u)),
{
    let (l, r) = (act(x, times(c, u)), times(c, act(x, u)));
    assert forall|m: int| #[trigger] l(m) == r(m) by {
        lemma_ring_factors(c, x.own, u(m));
        lemma_ring_factors(c, x.next, u(m + 1));
        lemma_ring_factors(c, T::prod(x.own, u(m)), T::prod(x.next, u(m + 1)));
    }
    assert(l =~= r);
}

/// Sums of ladders may be taken in any order.
pub proof fn lemma_ladder_sums<T: Scalar>(u: Ladder<T>, v: Ladder<T>, w: Ladder<T>)
    requires
        is_ring::<T>(),
    ensures
        plus(u, v) == plus(v, u),
        plus(plus(u, v), w) == plus(u, plus(v, w)),
        plus(plus(u, v), w) == plus(plus(u, w), v),
        plus(u, nothing()) == u,
        plus(nothing(), u) == u,
{
    assert forall|m: int|
        T::sum(u(m), v(m)) == T::sum(v(m), u(m)) && T::sum(T::sum(u(m), v(m)), w(m)) == T::sum(
            u(m),
            T::sum(v(m), w(m)),
        ) && T::sum(T::sum(u(m), v(m)), w(m)) == T::sum(T::sum(u(m), w(m)), v(m)) && T::sum(
            u(m),
            T::count(0),
        ) == #[trigger] u(m) && T::sum(T::count(0), u(m)) == u(m) by {
        lemma_ring_sums(u(m), v(m), w(m));
    }
    assert(plus(u, v) =~= plus(v, u)) by {
        assert forall|m: int| #[trigger] plus(u, v)(m) == plus(v, u)(m) by {
            assert(u(m) == u(m));
        }
    }
    assert(plus(plus(u, v), w) =~= plus(u, plus(v, w))) by {
        assert forall|m: int| #[trigger] plus(plus(u, v), w)(m) == plus(u, plus(v, w))(m) by {
            assert(u(m) == u(m));
        }
    }
    assert(plus(plus(u, v), w) =~= plus(plus(u, w), v)) by {
        assert forall|m: int| #[trigger] plus(plus(u, v), w)(m) == plus(plus(u, w), v)(m) by {
            assert(u(m) == u(m));
        }
    }
    assert(plus(u, nothing()) =~= u) by {
        assert forall|m: int| #[trigger] plus(u, nothing())(m) == u(m) by {}
    }
    assert(plus(nothing(), u) =~= u) by {
        assert forall|m: int| #[trigger] plus(nothing(), u)(m) == u(m) by {}
    }
}

/// The inner two of four ladders may change places.
pub proof fn lemma_ladder_interchange<T: Scalar>(
    u: Ladder<T>,
    v: Ladder<T>,
    w: Ladder<T>,
    x: Ladder<T>,
)
    requires
        is_ring::<T>(),
    ensures
        plus(plus(u, v), plus(w, x)) == plus(plus(u, w), plus(v, x)),
{
    let (l, r) = (plus(plus(u, v), plus(w, x)), plus(plus(u, w), plus(v, x)));
    assert forall|m: int| #[trigger] l(m) == r(m) by {
        lemma_interchange(u(m), v(m), w(m), x(m));
    }
    assert(l =~= r);
}

/// Multiples of ladders.
pub proof fn lemma_multiples<T: Scalar>(c: T, d: T, u: Ladder<T>, v: Ladder<T>)
    requires
        is_ring::<T>(),
    ensures
        times(c, plus(u, v)) == plus(times(c, u), times(c, v)),
        times(c, times(d, u)) == times(d, times(c, u)),
        times(c, times(d, u)) == times(T::prod(c, d), u),
        times(T::sum(c, d), u) == plus(times(c, u), times(d, u)),
        times(c, nothing()) == nothing::<T>(),
        times(T::count(0), u) == nothing::<T>(),
        times(T::count(1), u) == u,
{
    assert forall|m: int|
        T::prod(c, T::sum(u(m), v(m))) == T::sum(T::prod(c, u(m)), T::prod(c, v(m))) && T::prod(
            c,
            T::prod(d, u(m)),
        ) == T::prod(d, T::prod(c, u(m))) && T::prod(c, T::prod(d, u(m))) == T::prod(
            T::prod(c, d),
            u(m),
        ) && T::prod(T::sum(c, d), u(m)) == T::sum(T::prod(c, u(m)), T::prod(d, u(m))) && T::prod(
            T::count(0),
            u(m),
        ) == T::count(0) && T::prod(T::count(1), u(m)) == #[trigger] u(m) by {
        lemma_ring_factors(c, u(m), v(m));
        lemma_ring_factors(d, c, u(m));
        lemma_ring_factors(c, d, u(m));
        lemma_ring_commute(T::sum(c, d), u(m));
        lemma_ring_commute(c, u(m));
        lemma_ring_commute(d, u(m));
        lemma_ring_factors(u(m), c, d);
        lemma_ring_commute(T::count(0), u(m));
        lemma_ring_sums(u(m), u(m), u(m));
    }
    lemma_ring_sums(c, c, c);
    assert(times(c, plus(u, v)) =~= plus(times(c, u), times(c, v))) by {
        assert forall|m: int| #[trigger] times(c, plus(u, v))(m) == plus(times(c, u), times(c, v))(
            m,
        ) by {
            assert(u(m) == u(m));
        }
    }
    assert(times(c, times(d, u)) =~= times(d, times(c, u))) by {
        assert forall|m: int| #[trigger] times(c, times(d, u))(m) == times(d, times(c, u))(m) by {
            assert(u(m) == u(m));
        }
    }
    assert(times(c, times(d, u)) =~= times(T::prod(c, d), u)) by {
        assert forall|m: int| #[trigger] times(c, times(d, u))(m) == times(T::prod(c, d), u)(
            m,
        ) by {
            assert(u(m) == u(m));
        }
    }
    assert(times(T::sum(c, d), u) =~= plus(times(c, u), times(d, u))) by {
        assert forall|m: int| #[trigger] times(T::sum(c, d), u)(m) == plus(
            times(c, u),
            times(d, u),
        )(m) by {
            assert(u(m) == u(m));
        }
    }
    assert(times(c, nothing()) =~= nothing::<T>());
    assert(times(T::count(0), u) =~= nothing::<T>()) by {
        assert forall|m: int| #[trigger] times(T::count(0), u)(m) == nothing::<T>()(m) by {
            assert(u(m) == u(m));
        }
    }
    assert(times(T::count(1), u) =~= u) by {
        assert forall|m: int| #[trigger] times(T::count(1), u)(m) == u(m) by {}
    }
}

/// A step of nothing.
pub proof fn lemma_step_of_nothing<T: Scalar>(x: Step<T>)
    requires
        is_ring::<T>(),
    ensures
        act(x, nothing()) == nothing::<T>(),
{
    lemma_ring_sums(x.own, x.own, x.own);
    lemma_ring_sums(x.next, x.next, x.next);
    lemma_ring_sums(T::count(0), T::count(0), T::count(0));
    assert(act(x, nothing()) =~= nothing::<T>());
}

/// One copy more.
pub proof fn lemma_one_more<T: Scalar>(n: int, u: Ladder<T>)
    requires
        is_ring::<T>(),
        counts_exactly::<T>(),
        0 <= n < u64::MAX,
    ensures
        copies(n + 1, u) == plus(copies(n, u), u),
        copies(0, u) == nothing::<T>(),
{
    let c = n as u64;
    assert(T::count((c + 1) as u64) == T::sum(T::count(c), T::count(1)));
    lemma_multiples(T::count(c), T::count(1), u, u);
}

/// The steps along one axis: those that raise the bra and the ket, those that come with a
/// lowered bra and a lowered ket in the same pair, the one that comes with the other pair,
/// and the distances of the two centers of bra and ket.
pub struct AxisSteps<T> {
    pub bra: Step<T>,
    pub ket: Step<T>,
    pub bra_low: Step<T>,
    pub ket_low: Step<T>,
    pub cross: Step<T>,
    pub ab: T,
    pub cd: T,
}

/// The tower of the powers `a`, `b`, `c` and `d` on the four centers over a ladder. The
/// powers of the first centers of bra and ket are raised, those of the second transferred
/// from them.
pub open spec fn tower<T: Scalar>(
    x: AxisSteps<T>,
    u: Ladder<T>,
    a: int,
    b: int,
    c: int,
    d: int,
) -> Ladder<T>
    decreases d + 2, b + 2, c + 2, a + 2,
{
    if a < 0 || b < 0 || c < 0 || d < 0 {
        nothing()
    } else if d > 0 {
        plus(tower(x, u, a, b, c + 1, d - 1), times(x.cd, tower(x, u, a, b, c, d - 1)))
    } else if b > 0 {
        plus(tower(x, u, a + 1, b - 1, c, 0), times(x.ab, tower(x, u, a, b - 1, c, 0)))
    } else if c > 0 {
        plus(
            plus(
                act(x.ket, tower(x, u, a, 0, c - 1, 0)),
                copies(c - 1, act(x.ket_low, tower(x, u, a, 0, c - 2, 0))),
            ),
            copies(a, act(x.cross, tower(x, u, a - 1, 0, c - 1, 0))),
        )
    } else if a > 0 {
        plus(
            act(x.bra, tower(x, u, a - 1, 0, 0, 0)),
            copies(a - 1, act(x.bra_low, tower(x, u, a - 2, 0, 0, 0))),
        )
    } else {
        u
    }
}

/// A tower over a step is the step of the tower.
pub proof fn lemma_tower_of_step<T: Scalar>(
    x: AxisSteps<T>,
    y: Step<T>,
    u: Ladder<T>,
    a: int,
    b: int,
    c: int,
    d: int,
)
    requires
        is_ring::<T>(),
    ensures
        tower(x, act(y, u), a, b, c, d) == act(y, tower(x, u, a, b, c, d)),
    decreases d + 2, b + 2, c + 2, a + 2,
{
    let t = |a: int, b: int, c: int, d: int| tower(x, u, a, b, c, d);
    if a < 0 || b < 0 || c < 0 || d < 0 {
        lemma_step_of_nothing(y);
    } else if d > 0 {
        lemma_tower_of_step(x, y, u, a, b, c + 1, d - 1);
        lemma_tower_of_step(x, y, u, a, b, c, d - 1);
        lemma_step_of_multiple(y, x.cd, t(a, b, c, d - 1));
        lemma_step_of_sum(y, t(a, b, c + 1, d - 1), times(x.cd, t(a, b, c, d - 1)));
    } else if b > 0 {
        lemma_tower_of_step(x, y, u, a + 1, b - 1, c, 0);
        lemma_tower_of_step(x, y, u, a, b - 1, c, 0);
        lemma_step_of_multiple(y, x.ab, t(a, b - 1, c, 0));
        lemma_step_of_sum(y, t(a + 1, b - 1, c, 0), times(x.ab, t(a, b - 1, c, 0)));
    } else if c > 0 {
        let (p, q, r) = (t(a, 0, c - 1, 0), t(a, 0, c - 2, 0), t(a - 1, 0, c - 1, 0));
        lemma_tower_of_step(x, y, u, a, 0, c - 1, 0);
        lemma_tower_of_step(x, y, u, a, 0, c - 2, 0);
        lemma_tower_of_step(x, y, u, a - 1, 0, c - 1, 0);
        lemma_steps_commute(x.ket, y, p);
        lemma_steps_commute(x.ket_low, y, q);
        lemma_steps_commute(x.cross, y, r);
        let (cq, cr) = (copies(c - 1, act(x.ket_low, q)), copies(a, act(x.cross, r)));
        lemma_step_of_multiple(y, T::count((c - 1) as u64), act(x.ket_low, q));
        lemma_step_of_multiple(y, T::count(a as u64), act(x.cross, r));
        lemma_step_of_sum(y, act(x.ket, p), cq);
        lemma_step_of_sum(y, plus(act(x.ket, p), cq), cr);
    } else if a > 0 {
        let (p, q) = (t(a - 1, 0, 0, 0), t(a - 2, 0, 0, 0));
        lemma_tower_of_step(x, y, u, a - 1, 0, 0, 0);
        lemma_tower_of_step(x, y, u, a - 2, 0, 0, 0);
        lemma_steps_commute(x.bra, y, p);
        lemma_steps_commute(x.bra_low, y, q);
        lemma_step_of_multiple(y, T::count((a - 1) as u64), act(x.bra_low, q));
        lemma_step_of_sum(y, act(x.bra, p), copies(a - 1, act(x.bra_low, q)));
    }
}

/// A tower over a multiple is the multiple of the tower.
pub proof fn lemma_tower_of_multiple<T: Scalar>(
    x: AxisSteps<T>,
    s: T,
    u: Ladder<T>,
    a: int,
    b: int,
    c: int,
    d: int,
)
    requires
        is_ring::<T>(),
    ensures
        tower(x, times(s, u), a, b, c, d) == times(s, tower(x, u, a, b, c, d)),
{
    let y = Step { own: s, next: T::count(0) };
    lemma_step_as_multiple(s, u);
    lemma_step_as_multiple(s, tower(x, u, a, b, c, d));
    lemma_tower_of_step(x, y, u, a, b, c, d);
}

/// A multiple is a step that takes nothing of the next order.
proof fn lemma_step_as_multiple<T: Scalar>(s: T, u: Ladder<T>)
    requires
        is_ring::<T>(),
    ensures
        act(Step { own: s, next: T::count(0) }, u) == times(s, u),
{
    let (l, r) = (act(Step { own: s, next: T::count(0) }, u), times(s, u));
    assert forall|m: int| #[trigger] l(m) == r(m) by {
        lemma_ring_commute(T::count(0), u(m + 1));
        lemma_ring_sums(u(m + 1), u(m + 1), u(m + 1));
        lemma_ring_sums(r(m), r(m), r(m));
    }
    assert(l =~= r);
}

/// A tower over a sum is the sum of the towers.
pub proof fn lemma_tower_of_sum<T: Scalar>(
    x: AxisSteps<T>,
    u: Ladder<T>,
    v: Ladder<T>,
    a: int,
    b: int,
    c: int,
    d: int,
)
    requires
        is_ring::<T>(),
    ensures
        tower(x, plus(u, v), a, b, c, d) == plus(
            tower(x, u, a, b, c, d),
            tower(x, v, a, b, c, d),
        ),
    decreases d + 2, b + 2, c + 2, a + 2,
{
    let t = |a: int, b: int, c: int, d: int| tower(x, u, a, b, c, d);
    let s = |a: int, b: int, c: int, d: int| tower(x, v, a, b, c, d);
    if a < 0 || b < 0 || c < 0 || d < 0 {
        lemma_ladder_sums(nothing::<T>(), nothing(), nothing());
    } else if d > 0 {
        lemma_tower_of_sum(x, u, v, a, b, c + 1, d - 1);
        lemma_tower_of_sum(x, u, v, a, b, c, d - 1);
        lemma_multiples(x.cd, x.cd, t(a, b, c, d - 1), s(a, b, c, d - 1));
        lemma_ladder_interchange(
            t(a, b, c + 1, d - 1),
            s(a, b, c + 1, d - 1),
            times(x.cd, t(a, b, c, d - 1)),
            times(x.cd, s(a, b, c, d - 1)),
        );
    } else if b > 0 {
        lemma_tower_of_sum(x, u, v, a + 1, b - 1, c, 0);
        lemma_tower_of_sum(x, u, v, a, b - 1, c, 0);
        lemma_multiples(x.ab, x.ab, t(a, b - 1, c, 0), s(a, b - 1, c, 0));
        lemma_ladder_interchange(
            t(a + 1, b - 1, c, 0),
            s(a + 1, b - 1, c, 0),
            times(x.ab, t(a, b - 1, c, 0)),
            times(x.ab, s(a, b - 1, c, 0)),
        );
    } else if c > 0 {
        lemma_tower_of_sum(x, u, v, a, 0, c - 1, 0);
        lemma_tower_of_sum(x, u, v, a, 0, c - 2, 0);
        lemma_tower_of_sum(x, u, v, a - 1, 0, c - 1, 0);
        let (p, q, r) = (t(a, 0, c - 1, 0), t(a, 0, c - 2, 0), t(a - 1, 0, c - 1, 0));
        let (f, g, h) = (s(a, 0, c - 1, 0), s(a, 0, c - 2, 0), s(a - 1, 0, c - 1, 0));
        lemma_step_of_sum(x.ket, p, f);
        lemma_step_of_sum(x.ket_low, q, g);
        lemma_step_of_sum(x.cross, r, h);
        let (m, n) = (T::count((c - 1) as u64), T::count(a as u64));
        lemma_multiples(m, m, act(x.ket_low, q), act(x.ket_low, g));
        lemma_multiples(n, n, act(x.cross, r), act(x.cross, h));
        let (q2, g2) = (times(m, act(x.ket_low, q)), times(m, act(x.ket_low, g)));
        lemma_ladder_interchange(act(x.ket, p), act(x.ket, f), q2, g2);
        lemma_ladder_interchange(
            plus(act(x.ket, p), q2),
            plus(act(x.ket, f), g2),
            times(n, act(x.cross, r)),
            times(n, act(x.cross, h)),
        );
    } else if a > 0 {
        lemma_tower_of_sum(x, u, v, a - 1, 0, 0, 0);
        lemma_tower_of_sum(x, u, v, a - 2, 0, 0, 0);
        let (p, q) = (t(a - 1, 0, 0, 0), t(a - 2, 0, 0, 0));
        let (f, g) = (s(a - 1, 0, 0, 0), s(a - 2, 0, 0, 0));
        lemma_step_of_sum(x.bra, p, f);
        lemma_step_of_sum(x.bra_low, q, g);
        let m = T::count((a - 1) as u64);
        lemma_multiples(m, m, act(x.bra_low, q), act(x.bra_low, g));
        lemma_ladder_interchange(
            act(x.bra, p),
            act(x.bra, f),
            times(m, act(x.bra_low, q)),
            times(m, act(x.bra_low, g)),
        );
    }
}

/// A tower over nothing.
proof fn lemma_tower_of_nothing<T: Scalar>(x: AxisSteps<T>, a: int, b: int, c: int, d: int)
    requires
        is_ring::<T>(),
    ensures
        tower(x, nothing(), a, b, c, d) == nothing::<T>(),
{
    let n = nothing::<T>();
    let t = tower(x, n, a, b, c, d);
    lemma_multiples(T::count(0), T::count(0), n, n);
    lemma_tower_of_multiple(x, T::count(0), n, a, b, c, d);
    lemma_multiples(T::count(0), T::count(0), t, t);
}

/// The towers of two axes may change places.
pub proof fn lemma_towers_commute<T: Scalar>(
    x: AxisSteps<T>,
    y: AxisSteps<T>,
    u: Ladder<T>,
    p: (int, int, int, int),
    a: int,
    b: int,
    c: int,
    d: int,
)
    requires
        is_ring::<T>(),
    ensures
        tower(x, tower(y, u, a, b, c, d), p.0, p.1, p.2, p.3) == tower(
            y,
            tower(x, u, p.0, p.1, p.2, p.3),
            a,
            b,
            c,
            d,
        ),
    decreases d + 2, b + 2, c + 2, a + 2,
{
    let t = |a: int, b: int, c: int, d: int| tower(y, u, a, b, c, d);
    if a < 0 || b < 0 || c < 0 || d < 0 {
        lemma_tower_of_nothing(x, p.0, p.1, p.2, p.3);
    } else if d > 0 {
        let (f, g) = (t(a, b, c + 1, d - 1), t(a, b, c, d - 1));
        lemma_towers_commute(x, y, u, p, a, b, c + 1, d - 1);
        lemma_towers_commute(x, y, u, p, a, b, c, d - 1);
        lemma_tower_of_multiple(x, y.cd, g, p.0, p.1, p.2, p.3);
        lemma_tower_of_sum(x, f, times(y.cd, g), p.0, p.1, p.2, p.3);
    } else if b > 0 {
        let (f, g) = (t(a + 1, b - 1, c, 0), t(a, b - 1, c, 0));
        lemma_towers_commute(x, y, u, p, a + 1, b - 1, c, 0);
        lemma_towers_commute(x, y, u, p, a, b - 1, c, 0);
        lemma_tower_of_multiple(x, y.ab, g, p.0, p.1, p.2, p.3);
        lemma_tower_of_sum(x, f, times(y.ab, g), p.0, p.1, p.2, p.3);
    } else if c > 0 {
        let (f, g, h) = (t(a, 0, c - 1, 0), t(a, 0, c - 2, 0), t(a - 1, 0, c - 1, 0));
        lemma_towers_commute(x, y, u, p, a, 0, c - 1, 0);
        lemma_towers_commute(x, y, u, p, a, 0, c - 2, 0);
        lemma_towers_commute(x, y, u, p, a - 1, 0, c - 1, 0);
        let (m, n) = (T::count((c - 1) as u64), T::count(a as u64));
        let (g2, h2) = (act(y.ket_low, g), act(y.cross, h));
        lemma_tower_of_step(x, y.ket, f, p.0, p.1, p.2, p.3);
        lemma_tower_of_step(x, y.ket_low, g, p.0, p.1, p.2, p.3);
        lemma_tower_of_step(x, y.cross, h, p.0, p.1, p.2, p.3);
        lemma_tower_of_multiple(x, m, g2, p.0, p.1, p.2, p.3);
        lemma_tower_of_multiple(x, n, h2, p.0, p.1, p.2, p.3);
        lemma_tower_of_sum(x, act(y.ket, f), times(m, g2), p.0, p.1, p.2, p.3);
        lemma_tower_of_sum(
            x,
            plus(act(y.ket, f), times(m, g2)),
            times(n, h2),
            p.0,
            p.1,
            p.2,
            p.3,
        );
    } else if a > 0 {
        let (f, g) = (t(a - 1, 0, 0, 0), t(a - 2, 0, 0, 0));
        lemma_towers_commute(x, y, u, p, a - 1, 0, 0, 0);
        lemma_towers_commute(x, y, u, p, a - 2, 0, 0, 0);
        let m = T::count((a - 1) as u64);
        let g2 = act(y.bra_low, g);
        lemma_tower_of_step(x, y.bra, f, p.0, p.1, p.2, p.3);
        lemma_tower_of_step(x, y.bra_low, g, p.0, p.1, p.2, p.3);
        lemma_tower_of_multiple(x, m, g2, p.0, p.1, p.2, p.3);
        lemma_tower_of_sum(x, act(y.bra, f), times(m, g2), p.0, p.1, p.2, p.3);
    }
}

} // verus!
