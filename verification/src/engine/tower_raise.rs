//! Raising and lowering the powers of a tower.
//!
//! Every power of a tower can be raised by the same rule, whichever powers it has already.
//! The four rules, each weighted with its exponent, add up to the lowered towers: a tower
//! does not change when all its centers move together.
use vstd::prelude::*;

use crate::engine::tower::{
    act, copies, lemma_ladder_interchange, lemma_ladder_sums, lemma_multiples, lemma_one_more,
    lemma_step_of_multiple, lemma_step_of_nothing, lemma_step_of_sum, lemma_steps_commute,
    nothing, plus, times, tower, AxisSteps, Ladder, Step,
};
use crate::engine::invariance::lemma_interchange;
use crate::exact::{
    counts_exactly, is_ring, lemma_ring_commute, lemma_ring_factors, lemma_ring_sums,
};
use crate::scalar::Scalar;

verus! {

/// A step of three summands.
proof fn lemma_step_of_three<T: Scalar>(y: Step<T>, u: Ladder<T>, v: Ladder<T>, w: Ladder<T>)
    requires
        is_ring::<T>(),
    ensures
        act(y, plus(plus(u, v), w)) == plus(plus(act(y, u), act(y, v)), act(y, w)),
{
    lemma_step_of_sum(y, plus(u, v), w);
    lemma_step_of_sum(y, u, v);
}

/// Copies of three summands.
proof fn lemma_copies_of_three<T: Scalar>(n: int, u: Ladder<T>, v: Ladder<T>, w: Ladder<T>)
    requires
        is_ring::<T>(),
    ensures
        copies(n, plus(plus(u, v), w)) == plus(plus(copies(n, u), copies(n, v)), copies(n, w)),
{
    let c = T::count(n as u64);
    lemma_multiples(c, c, plus(u, v), w);
    lemma_multiples(c, c, u, v);
}

/// Six summands, regrouped.
proof fn lemma_six<T: Scalar>(
    p: Ladder<T>,
    q: Ladder<T>,
    r: Ladder<T>,
    s: Ladder<T>,
    t: Ladder<T>,
    u: Ladder<T>,
)
    requires
        is_ring::<T>(),
    ensures
        plus(plus(plus(p, q), r), plus(plus(s, t), u)) == plus(
            plus(plus(p, s), plus(q, t)),
            plus(r, u),
        ),
{
    lemma_ladder_interchange(plus(p, q), r, plus(s, t), u);
    lemma_ladder_interchange(p, q, s, t);
}

/// A step of copies of a step.
proof fn lemma_step_of_copies<T: Scalar>(y: Step<T>, z: Step<T>, n: int, u: Ladder<T>)
    requires
        is_ring::<T>(),
    ensures
        act(y, copies(n, act(z, u))) == copies(n, act(z, act(y, u))),
{
    lemma_step_of_multiple(y, T::count(n as u64), act(z, u));
    lemma_steps_commute(y, z, u);
}

/// Copies of nothing, and of steps of nothing.
proof fn lemma_nothing_copied<T: Scalar>(y: Step<T>, n: int)
    requires
        is_ring::<T>(),
    ensures
        copies(n, act(y, nothing())) == nothing::<T>(),
        act(y, nothing()) == nothing::<T>(),
        plus(nothing::<T>(), nothing()) == nothing::<T>(),
        copies(n, nothing::<T>()) == nothing::<T>(),
{
    let c = T::count(n as u64);
    lemma_step_of_nothing(y);
    lemma_multiples(c, c, nothing::<T>(), nothing());
    lemma_ladder_sums(nothing::<T>(), nothing(), nothing());
}

/// What is raised on the first center of the bra, before any transfer.
spec fn bra_raised<T: Scalar>(x: AxisSteps<T>, u: Ladder<T>, a: int, c: int) -> Ladder<T> {
    plus(
        plus(
            act(x.bra, tower(x, u, a, 0, c, 0)),
            copies(a, act(x.bra_low, tower(x, u, a - 1, 0, c, 0))),
        ),
        copies(c, act(x.cross, tower(x, u, a, 0, c - 1, 0))),
    )
}

/// The last summands of both orders of raising agree.
proof fn lemma_last_summands<T: Scalar>(x: AxisSteps<T>, u: Ladder<T>, a: int, c: int)
    requires
        is_ring::<T>(),
        counts_exactly::<T>(),
        0 <= a < 0xffff,
        1 <= c < 0xffff,
        a >= 1 ==> tower(x, u, a, 0, c - 1, 0) == bra_raised(x, u, a - 1, c - 1),
    ensures
        ({
            let t = |a: int, c: int| tower(x, u, a, 0, c, 0);
            let kq = act(x.cross, t(a, c - 1));
            plus(
                plus(
                    copies(c - 1, act(x.ket, act(x.cross, t(a, c - 2)))),
                    copies(c - 1, act(x.ket_low, copies(c - 2, act(x.cross, t(a, c - 3))))),
                ),
                copies(a + 1, kq),
            ) == plus(
                plus(
                    copies(a, act(x.bra, act(x.cross, t(a - 1, c - 1)))),
                    copies(a, act(x.bra_low, copies(a - 1, act(x.cross, t(a - 2, c - 1))))),
                ),
                copies(c, kq),
            )
        }),
{
    let t = |a: int, c: int| tower(x, u, a, 0, c, 0);
    let k = x.cross;
    let q = t(a, c - 1);
    let kq = act(k, q);
    let (ma, mc) = (T::count(a as u64), T::count((c - 1) as u64));
    let (x2, z) = (t(a, c - 2), t(a, c - 3));
    let (r, v2) = (t(a - 1, c - 1), t(a - 2, c - 1));
    let y2 = t(a - 1, c - 2);
    let w = act(k, act(k, y2));
    // U is the raised ket without its cross term, V the raised bra without its.
    let low_z = copies(c - 2, act(x.ket_low, z));
    let big_u = plus(act(x.ket, x2), low_z);
    let low_v = copies(a - 1, act(x.bra_low, v2));
    let big_v = plus(act(x.bra, r), low_v);
    lemma_steps_commute(x.ket, k, x2);
    lemma_step_of_copies(x.ket_low, k, c - 2, z);
    lemma_step_of_copies(k, x.ket_low, c - 2, z);
    lemma_steps_commute(x.ket_low, k, z);
    lemma_step_of_sum(k, act(x.ket, x2), low_z);
    lemma_multiples(mc, mc, act(k, act(x.ket, x2)), act(k, low_z));
    let left = plus(
        copies(c - 1, act(x.ket, act(k, x2))),
        copies(c - 1, act(x.ket_low, copies(c - 2, act(k, z)))),
    );
    assert(left == copies(c - 1, act(k, big_u)));
    lemma_steps_commute(x.bra, k, r);
    lemma_step_of_copies(x.bra_low, k, a - 1, v2);
    lemma_step_of_copies(k, x.bra_low, a - 1, v2);
    lemma_steps_commute(x.bra_low, k, v2);
    lemma_step_of_sum(k, act(x.bra, r), low_v);
    lemma_multiples(ma, ma, act(k, act(x.bra, r)), act(k, low_v));
    let right = plus(
        copies(a, act(x.bra, act(k, r))),
        copies(a, act(x.bra_low, copies(a - 1, act(k, v2)))),
    );
    assert(right == copies(a, act(k, big_v)));
    // Copies of K Q in terms of U and of V.
    let both = copies(a, copies(c - 1, w));
    lemma_multiples(ma, mc, w, w);
    assert(copies(c - 1, kq) == plus(left, both)) by {
        if c >= 2 {
            assert(q == plus(big_u, copies(a, act(k, y2))));
            lemma_step_of_sum(k, big_u, copies(a, act(k, y2)));
            lemma_step_of_multiple(k, ma, act(k, y2));
            lemma_multiples(mc, mc, act(k, big_u), copies(a, w));
        } else {
            lemma_multiples(mc, mc, kq, act(k, big_u));
            lemma_multiples(mc, mc, act(k, big_u), w);
            lemma_multiples(mc, mc, w, w);
            lemma_nothing_copied(k, a);
        }
    }
    assert(copies(a, kq) == plus(right, both)) by {
        if a >= 1 {
            assert(q == plus(big_v, copies(c - 1, act(k, y2))));
            lemma_step_of_sum(k, big_v, copies(c - 1, act(k, y2)));
            lemma_step_of_multiple(k, mc, act(k, y2));
            lemma_multiples(ma, ma, act(k, big_v), copies(c - 1, w));
        } else {
            lemma_multiples(ma, ma, kq, act(k, big_v));
            lemma_multiples(ma, ma, act(k, big_v), copies(c - 1, w));
            lemma_multiples(ma, ma, copies(c - 1, w), w);
            lemma_nothing_copied(k, a);
        }
    }
    lemma_one_more(a, kq);
    lemma_one_more(c - 1, kq);
    lemma_ladder_sums(left, plus(right, both), kq);
    lemma_ladder_sums(right, plus(left, both), kq);
    lemma_ladder_sums(left, right, both);
    lemma_ladder_sums(right, left, both);
}

/// The first center of the bra is raised by the same rule whatever the ket.
proof fn lemma_bra_raise_base<T: Scalar>(x: AxisSteps<T>, u: Ladder<T>, a: int, c: int)
    requires
        is_ring::<T>(),
        counts_exactly::<T>(),
        0 <= a < 0xffff,
        0 <= c < 0xffff,
    ensures
        tower(x, u, a + 1, 0, c, 0) == bra_raised(x, u, a, c),
    decreases c, a,
{
    let t = |a: int, c: int| tower(x, u, a, 0, c, 0);
    if c == 0 {
        let v = plus(act(x.bra, t(a, 0)), copies(a, act(x.bra_low, t(a - 1, 0))));
        lemma_nothing_copied(x.cross, 0);
        lemma_ladder_sums(v, v, v);
    } else {
        let (q, r) = (t(a, c - 1), t(a - 1, c - 1));
        let (x2, y2, z) = (t(a, c - 2), t(a - 1, c - 2), t(a, c - 3));
        let v2 = t(a - 2, c - 1);
        lemma_bra_raise_base(x, u, a, c - 1);
        if a >= 1 {
            lemma_bra_raise_base(x, u, a - 1, c - 1);
        }
        assert(t(a + 1, c - 2) == bra_raised(x, u, a, c - 2)) by {
            if c >= 2 {
                lemma_bra_raise_base(x, u, a, c - 2);
            } else {
                lemma_nothing_copied(x.bra, 0);
                lemma_nothing_copied(x.bra_low, a);
                lemma_nothing_copied(x.cross, c - 2);
            }
        }
        // The ket raised over the raised bra.
        let (m, g) = (x.ket, x.ket_low);
        let (p1, p2) = (act(m, act(x.bra, q)), act(m, copies(a, act(x.bra_low, r))));
        let p3 = act(m, copies(c - 1, act(x.cross, x2)));
        lemma_step_of_three(
            m,
            act(x.bra, q),
            copies(a, act(x.bra_low, r)),
            copies(c - 1, act(x.cross, x2)),
        );
        assert(act(m, t(a + 1, c - 1)) == plus(plus(p1, p2), p3));
        let (g1, g2) = (act(g, act(x.bra, x2)), act(g, copies(a, act(x.bra_low, y2))));
        let g3 = act(g, copies(c - 2, act(x.cross, z)));
        lemma_step_of_three(
            g,
            act(x.bra, x2),
            copies(a, act(x.bra_low, y2)),
            copies(c - 2, act(x.cross, z)),
        );
        lemma_copies_of_three(c - 1, g1, g2, g3);
        let (q1, q2, q3) = (copies(c - 1, g1), copies(c - 1, g2), copies(c - 1, g3));
        lemma_six(p1, p2, p3, q1, q2, q3);
        // The bra raised over the raised ket.
        let w1 = act(x.bra, copies(a, act(x.cross, r)));
        lemma_step_of_three(
            x.bra,
            act(m, q),
            copies(c - 1, act(g, x2)),
            copies(a, act(x.cross, r)),
        );
        lemma_steps_commute(m, x.bra, q);
        lemma_step_of_copies(x.bra, g, c - 1, x2);
        assert(act(x.bra, t(a, c)) == plus(plus(p1, q1), w1));
        let h = x.bra_low;
        assert(t(a - 1, c) == plus(
            plus(act(m, r), copies(c - 1, act(g, y2))),
            copies(a - 1, act(x.cross, v2)),
        )) by {
            if a == 0 {
                lemma_nothing_copied(m, 0);
                lemma_nothing_copied(g, c - 1);
                lemma_nothing_copied(x.cross, a - 1);
            }
        }
        let (h1, h2) = (act(h, act(m, r)), act(h, copies(c - 1, act(g, y2))));
        let h3 = act(h, copies(a - 1, act(x.cross, v2)));
        lemma_step_of_three(
            h,
            act(m, r),
            copies(c - 1, act(g, y2)),
            copies(a - 1, act(x.cross, v2)),
        );
        lemma_copies_of_three(a, h1, h2, h3);
        let w2 = copies(a, h3);
        lemma_step_of_copies(m, h, a, r);
        lemma_steps_commute(m, h, r);
        assert(p2 == copies(a, h1));
        lemma_step_of_copies(h, g, c - 1, y2);
        lemma_step_of_copies(g, h, a, y2);
        lemma_steps_commute(g, h, y2);
        let (ma, mc) = (T::count(a as u64), T::count((c - 1) as u64));
        lemma_multiples(ma, mc, act(h, act(g, y2)), act(h, act(g, y2)));
        assert(q2 == copies(a, h2));
        lemma_six(p1, q1, w1, p2, q2, w2);
        lemma_ladder_interchange(p1, q1, p2, q2);
        // What is left.
        lemma_last_summands(x, u, a, c);
        lemma_step_of_copies(m, x.cross, c - 1, x2);
        lemma_step_of_multiple(m, mc, act(x.cross, x2));
        lemma_step_of_multiple(x.bra, ma, act(x.cross, r));
        let kq = act(x.cross, q);
        let front = plus(plus(p1, q1), plus(p2, q2));
        lemma_ladder_interchange(p1, p2, q1, q2);
        lemma_ladder_sums(front, plus(p3, q3), copies(a + 1, kq));
        lemma_ladder_sums(front, plus(w1, w2), copies(c, kq));
    }
}

/// The towers lowered on the bra, each as often as its power.
pub open spec fn bra_lowered<T: Scalar>(
    x: AxisSteps<T>,
    u: Ladder<T>,
    a: int,
    b: int,
    c: int,
    d: int,
) -> Ladder<T> {
    plus(copies(a, tower(x, u, a - 1, b, c, d)), copies(b, tower(x, u, a, b - 1, c, d)))
}

/// The towers lowered on the ket, each as often as its power.
pub open spec fn ket_lowered<T: Scalar>(
    x: AxisSteps<T>,
    u: Ladder<T>,
    a: int,
    b: int,
    c: int,
    d: int,
) -> Ladder<T> {
    plus(copies(c, tower(x, u, a, b, c - 1, d)), copies(d, tower(x, u, a, b, c, d - 1)))
}

/// Copies of transferred ladders.
proof fn lemma_copies_transferred<T: Scalar>(
    i: int,
    j: int,
    s: T,
    p: Ladder<T>,
    q: Ladder<T>,
    f: Ladder<T>,
    g: Ladder<T>,
)
    requires
        is_ring::<T>(),
    ensures
        plus(copies(i, plus(p, times(s, q))), copies(j, plus(f, times(s, g)))) == plus(
            plus(copies(i, p), copies(j, f)),
            times(s, plus(copies(i, q), copies(j, g))),
        ),
{
    let (m, n) = (T::count(i as u64), T::count(j as u64));
    lemma_multiples(m, s, p, times(s, q));
    lemma_multiples(n, s, f, times(s, g));
    lemma_multiples(m, s, q, q);
    lemma_multiples(n, s, g, g);
    lemma_multiples(s, s, times(m, q), times(n, g));
    lemma_ladder_interchange(
        times(m, p),
        times(m, times(s, q)),
        times(n, f),
        times(n, times(s, g)),
    );
}

/// Lowering and transferring may change places within a pair.
proof fn lemma_lowered_pair<T: Scalar>(
    i: int,
    j: int,
    s: T,
    v: Ladder<T>,
    p: Ladder<T>,
    q: Ladder<T>,
    r: Ladder<T>,
)
    requires
        is_ring::<T>(),
        counts_exactly::<T>(),
        0 <= i < 0xffff,
        0 <= j < 0xffff,
        j >= 1 ==> v == plus(q, times(s, r)),
    ensures
        plus(copies(i, plus(v, times(s, p))), copies(j + 1, v)) == plus(
            plus(copies(i + 1, v), copies(j, q)),
            times(s, plus(copies(i, p), copies(j, r))),
        ),
{
    let (m, n) = (T::count(i as u64), T::count(j as u64));
    let (ip, jr) = (copies(i, p), copies(j, r));
    lemma_one_more(i, v);
    lemma_one_more(j, v);
    lemma_multiples(m, s, v, times(s, p));
    lemma_multiples(m, s, p, p);
    lemma_multiples(s, s, ip, jr);
    lemma_multiples(n, s, r, r);
    let (sp, sr) = (times(s, ip), times(s, jr));
    assert(copies(j, v) == plus(copies(j, q), sr)) by {
        if j >= 1 {
            lemma_multiples(n, s, q, times(s, r));
        } else {
            lemma_multiples(n, n, v, v);
            lemma_multiples(n, n, q, q);
            lemma_multiples(s, s, r, r);
            lemma_ladder_sums(nothing::<T>(), nothing(), nothing());
        }
    }
    // (iv + sp) + ((jq + sr) + v) == ((iv + v) + jq) + (sp + sr)
    let (iv, jq) = (copies(i, v), copies(j, q));
    lemma_ladder_sums(plus(jq, sr), v, v);
    lemma_ladder_sums(v, jq, sr);
    lemma_ladder_sums(jq, v, v);
    lemma_ladder_interchange(iv, sp, plus(v, jq), sr);
    lemma_ladder_sums(iv, v, jq);
}

/// Transferred on the bra, whatever the ket.
pub proof fn lemma_bra_transfers<T: Scalar>(
    x: AxisSteps<T>,
    u: Ladder<T>,
    a: int,
    b: int,
    c: int,
    d: int,
)
    requires
        is_ring::<T>(),
        0 <= a,
        0 <= b,
        0 <= c,
        0 <= d,
    ensures
        tower(x, u, a, b + 1, c, d) == plus(
            tower(x, u, a + 1, b, c, d),
            times(x.ab, tower(x, u, a, b, c, d)),
        ),
    decreases d,
{
    if d > 0 {
        lemma_bra_transfers(x, u, a, b, c + 1, d - 1);
        lemma_bra_transfers(x, u, a, b, c, d - 1);
        let (p, q) = (tower(x, u, a + 1, b, c + 1, d - 1), tower(x, u, a, b, c + 1, d - 1));
        let (f, g) = (tower(x, u, a + 1, b, c, d - 1), tower(x, u, a, b, c, d - 1));
        lemma_multiples(x.cd, x.ab, f, times(x.ab, g));
        lemma_multiples(x.cd, x.ab, g, g);
        lemma_multiples(x.ab, x.ab, q, times(x.cd, g));
        lemma_ladder_interchange(p, times(x.ab, q), times(x.cd, f), times(x.ab, times(x.cd, g)));
    }
}

/// A rule of three steps for a tower and what is lowered from it.
spec fn rule<T: Scalar>(
    y: Step<T>,
    z: Step<T>,
    k: Step<T>,
    t: Ladder<T>,
    near: Ladder<T>,
    far: Ladder<T>,
) -> Ladder<T> {
    plus(plus(act(y, t), act(z, near)), act(k, far))
}

/// A rule of transferred ladders.
proof fn lemma_rule_transferred<T: Scalar>(
    y: Step<T>,
    z: Step<T>,
    k: Step<T>,
    s: T,
    t: Ladder<T>,
    near: Ladder<T>,
    far: Ladder<T>,
    t1: Ladder<T>,
    near1: Ladder<T>,
    far1: Ladder<T>,
)
    requires
        is_ring::<T>(),
    ensures
        rule(y, z, k, plus(t, times(s, t1)), plus(near, times(s, near1)), plus(far, times(s, far1)))
            == plus(rule(y, z, k, t, near, far), times(s, rule(y, z, k, t1, near1, far1))),
{
    lemma_step_of_sum(y, t, times(s, t1));
    lemma_step_of_sum(z, near, times(s, near1));
    lemma_step_of_sum(k, far, times(s, far1));
    lemma_step_of_multiple(y, s, t1);
    lemma_step_of_multiple(z, s, near1);
    lemma_step_of_multiple(k, s, far1);
    let (p, q, r) = (act(y, t), act(z, near), act(k, far));
    let (p1, q1, r1) = (act(y, t1), act(z, near1), act(k, far1));
    lemma_multiples(s, s, plus(p1, q1), r1);
    lemma_multiples(s, s, p1, q1);
    lemma_ladder_interchange(p, times(s, p1), q, times(s, q1));
    lemma_ladder_interchange(plus(p, q), plus(times(s, p1), times(s, q1)), r, times(s, r1));
}

/// What is lowered on either pair is transferred on the ket as the tower is.
proof fn lemma_ket_transfers_lowered<T: Scalar>(
    x: AxisSteps<T>,
    u: Ladder<T>,
    a: int,
    b: int,
    c: int,
    d: int,
)
    requires
        is_ring::<T>(),
        counts_exactly::<T>(),
        0 <= a < 0xffff,
        0 <= b < 0xffff,
        0 <= c < 0xffff,
        0 <= d < 0xffff,
    ensures
        bra_lowered(x, u, a, b, c, d + 1) == plus(
            bra_lowered(x, u, a, b, c + 1, d),
            times(x.cd, bra_lowered(x, u, a, b, c, d)),
        ),
        ket_lowered(x, u, a, b, c, d + 1) == plus(
            ket_lowered(x, u, a, b, c + 1, d),
            times(x.cd, ket_lowered(x, u, a, b, c, d)),
        ),
{
    let t = |a: int, b: int, c: int, d: int| tower(x, u, a, b, c, d);
    let n = nothing::<T>();
    lemma_multiples(x.cd, x.cd, n, n);
    lemma_ladder_sums(n, n, n);
    lemma_copies_transferred(
        a,
        b,
        x.cd,
        t(a - 1, b, c + 1, d),
        t(a - 1, b, c, d),
        t(a, b - 1, c + 1, d),
        t(a, b - 1, c, d),
    );
    let v = t(a, b, c, d);
    let p = t(a, b, c - 1, d);
    lemma_lowered_pair(c, d, x.cd, v, p, t(a, b, c + 1, d - 1), t(a, b, c, d - 1));
    if c == 0 {
        let z = T::count(0);
        lemma_multiples(z, z, plus(v, times(x.cd, p)), v);
        lemma_multiples(z, z, t(a, b, c - 1, d + 1), v);
    }
}

/// What is lowered on either pair is transferred on the bra as the tower is.
proof fn lemma_bra_transfers_lowered<T: Scalar>(
    x: AxisSteps<T>,
    u: Ladder<T>,
    a: int,
    b: int,
    c: int,
)
    requires
        is_ring::<T>(),
        counts_exactly::<T>(),
        0 <= a < 0xffff,
        0 <= b < 0xffff,
        0 <= c < 0xffff,
    ensures
        bra_lowered(x, u, a, b + 1, c, 0) == plus(
            bra_lowered(x, u, a + 1, b, c, 0),
            times(x.ab, bra_lowered(x, u, a, b, c, 0)),
        ),
        ket_lowered(x, u, a, b + 1, c, 0) == plus(
            ket_lowered(x, u, a + 1, b, c, 0),
            times(x.ab, ket_lowered(x, u, a, b, c, 0)),
        ),
{
    let t = |a: int, b: int, c: int, d: int| tower(x, u, a, b, c, d);
    let n = nothing::<T>();
    lemma_multiples(x.ab, x.ab, n, n);
    lemma_ladder_sums(n, n, n);
    lemma_copies_transferred(
        c,
        0,
        x.ab,
        t(a + 1, b, c - 1, 0),
        t(a, b, c - 1, 0),
        t(a + 1, b, c, -1),
        t(a, b, c, -1),
    );
    let v = t(a, b, c, 0);
    let p = t(a - 1, b, c, 0);
    lemma_lowered_pair(a, b, x.ab, v, p, t(a + 1, b - 1, c, 0), t(a, b - 1, c, 0));
    if a == 0 {
        let z = T::count(0);
        lemma_multiples(z, z, plus(v, times(x.ab, p)), v);
        lemma_multiples(z, z, t(a - 1, b + 1, c, 0), v);
    }
}

/// Every power can be raised on the first center of the bra and on that of the ket.
pub proof fn lemma_raises<T: Scalar>(
    x: AxisSteps<T>,
    u: Ladder<T>,
    a: int,
    b: int,
    c: int,
    d: int,
)
    requires
        is_ring::<T>(),
        counts_exactly::<T>(),
        0 <= a,
        0 <= b,
        0 <= c,
        0 <= d,
        a + b < 0xffff,
        c + d < 0xffff,
    ensures
        tower(x, u, a + 1, b, c, d) == plus(
            plus(
                act(x.bra, tower(x, u, a, b, c, d)),
                act(x.bra_low, bra_lowered(x, u, a, b, c, d)),
            ),
            act(x.cross, ket_lowered(x, u, a, b, c, d)),
        ),
        tower(x, u, a, b, c + 1, d) == plus(
            plus(
                act(x.ket, tower(x, u, a, b, c, d)),
                act(x.ket_low, ket_lowered(x, u, a, b, c, d)),
            ),
            act(x.cross, bra_lowered(x, u, a, b, c, d)),
        ),
    decreases d, b,
{
    let t = |a: int, b: int, c: int, d: int| tower(x, u, a, b, c, d);
    let lb = |a: int, b: int, c: int, d: int| bra_lowered(x, u, a, b, c, d);
    let lk = |a: int, b: int, c: int, d: int| ket_lowered(x, u, a, b, c, d);
    if d > 0 {
        lemma_raises(x, u, a, b, c + 1, d - 1);
        lemma_raises(x, u, a, b, c, d - 1);
        lemma_ket_transfers_lowered(x, u, a, b, c, d - 1);
        lemma_rule_transferred(
            x.bra,
            x.bra_low,
            x.cross,
            x.cd,
            t(a, b, c + 1, d - 1),
            lb(a, b, c + 1, d - 1),
            lk(a, b, c + 1, d - 1),
            t(a, b, c, d - 1),
            lb(a, b, c, d - 1),
            lk(a, b, c, d - 1),
        );
        lemma_rule_transferred(
            x.ket,
            x.ket_low,
            x.cross,
            x.cd,
            t(a, b, c + 1, d - 1),
            lk(a, b, c + 1, d - 1),
            lb(a, b, c + 1, d - 1),
            t(a, b, c, d - 1),
            lk(a, b, c, d - 1),
            lb(a, b, c, d - 1),
        );
    } else if b > 0 {
        lemma_raises(x, u, a + 1, b - 1, c, 0);
        lemma_raises(x, u, a, b - 1, c, 0);
        lemma_bra_transfers_lowered(x, u, a, b - 1, c);
        lemma_rule_transferred(
            x.bra,
            x.bra_low,
            x.cross,
            x.ab,
            t(a + 1, b - 1, c, 0),
            lb(a + 1, b - 1, c, 0),
            lk(a + 1, b - 1, c, 0),
            t(a, b - 1, c, 0),
            lb(a, b - 1, c, 0),
            lk(a, b - 1, c, 0),
        );
        lemma_rule_transferred(
            x.ket,
            x.ket_low,
            x.cross,
            x.ab,
            t(a + 1, b - 1, c, 0),
            lk(a + 1, b - 1, c, 0),
            lb(a + 1, b - 1, c, 0),
            t(a, b - 1, c, 0),
            lk(a, b - 1, c, 0),
            lb(a, b - 1, c, 0),
        );
    } else {
        lemma_bra_raise_base(x, u, a, c);
        let z = T::count(0);
        let (p, q) = (t(a - 1, 0, c, 0), t(a, 0, c - 1, 0));
        lemma_multiples(z, z, t(a, -1, c, 0), t(a, 0, c, -1));
        lemma_multiples(z, z, t(a, 0, c, -1), t(a, 0, c, -1));
        lemma_ladder_sums(copies(a, p), p, p);
        lemma_ladder_sums(copies(c, q), q, q);
        lemma_step_of_multiple(x.bra_low, T::count(a as u64), p);
        lemma_step_of_multiple(x.cross, T::count(a as u64), p);
        lemma_step_of_multiple(x.ket_low, T::count(c as u64), q);
        lemma_step_of_multiple(x.cross, T::count(c as u64), q);
    }
}

/// Whether doubled exponents go with the steps of an axis: they weigh the distances of the
/// centers from those of the products, and their sums divide the lowering steps.
pub open spec fn weighs<T: Scalar>(x: AxisSteps<T>, a: T, b: T, c: T, d: T) -> bool {
    let (p, q) = (T::sum(a, b), T::sum(c, d));
    &&& T::sum(T::prod(p, x.bra.own), T::prod(b, x.ab)) == T::count(0)
    &&& T::sum(T::prod(q, x.ket.own), T::prod(d, x.cd)) == T::count(0)
    &&& T::sum(T::prod(p, x.bra.next), T::prod(q, x.ket.next)) == T::count(0)
    &&& T::prod(p, x.bra_low.own) == T::count(1)
    &&& T::prod(q, x.ket_low.own) == T::count(1)
    &&& x.cross.own == T::count(0)
    &&& T::sum(T::prod(p, x.bra_low.next), T::prod(q, x.cross.next)) == T::count(0)
    &&& T::sum(T::prod(q, x.ket_low.next), T::prod(p, x.cross.next)) == T::count(0)
}

/// A pair raised on both centers, weighted.
proof fn lemma_weighted_pair<T: Scalar>(
    y: Step<T>,
    z: Step<T>,
    k: Step<T>,
    s: T,
    a: T,
    b: T,
    up: T,
    t: T,
    t1: T,
    near: T,
    near1: T,
    far: T,
    far1: T,
)
    requires
        is_ring::<T>(),
        T::sum(T::prod(T::sum(a, b), y.own), T::prod(b, s)) == T::count(0),
        T::prod(T::sum(a, b), z.own) == T::count(1),
        k.own == T::count(0),
        up == T::sum(
            T::sum(
                T::sum(T::prod(y.own, t), T::prod(y.next, t1)),
                T::sum(T::prod(z.own, near), T::prod(z.next, near1)),
            ),
            T::sum(T::prod(k.own, far), T::prod(k.next, far1)),
        ),
    ensures
        ({
            let p = T::sum(a, b);
            T::sum(T::prod(a, up), T::prod(b, T::sum(up, T::prod(s, t)))) == T::sum(
                T::sum(T::prod(T::prod(p, y.next), t1), near),
                T::sum(
                    T::prod(T::prod(p, z.next), near1),
                    T::prod(T::prod(p, k.next), far1),
                ),
            )
        }),
{
    let p = T::sum(a, b);
    let zero = T::count(0);
    let st = T::prod(s, t);
    lemma_ring_factors(b, up, st);
    lemma_ring_sums(T::prod(a, up), T::prod(b, up), T::prod(b, st));
    lemma_ring_commute(p, up);
    lemma_ring_factors(up, a, b);
    lemma_ring_commute(a, up);
    lemma_ring_commute(b, up);
    assert(T::sum(T::prod(a, up), T::prod(b, T::sum(up, st))) == T::sum(
        T::prod(p, up),
        T::prod(b, st),
    ));
    let (y0, y1) = (T::prod(y.own, t), T::prod(y.next, t1));
    let (z0, z1) = (T::prod(z.own, near), T::prod(z.next, near1));
    let (k0, k1) = (T::prod(k.own, far), T::prod(k.next, far1));
    lemma_ring_commute(zero, far);
    lemma_ring_sums(far, far, far);
    lemma_ring_sums(k1, k1, k1);
    assert(T::sum(k0, k1) == k1);
    lemma_ring_factors(p, T::sum(T::sum(y0, y1), T::sum(z0, z1)), k1);
    lemma_ring_factors(p, T::sum(y0, y1), T::sum(z0, z1));
    lemma_ring_factors(p, y0, y1);
    lemma_ring_factors(p, z0, z1);
    lemma_ring_factors(p, y.own, t);
    lemma_ring_factors(p, y.next, t1);
    lemma_ring_factors(p, z.own, near);
    lemma_ring_factors(p, z.next, near1);
    lemma_ring_factors(p, k.next, far1);
    lemma_ring_sums(near, near, near);
    let (py, pn) = (T::prod(T::prod(p, y.own), t), T::prod(T::prod(p, y.next), t1));
    let (pz, pk) = (T::prod(T::prod(p, z.next), near1), T::prod(T::prod(p, k.next), far1));
    assert(T::prod(p, up) == T::sum(T::sum(T::sum(py, pn), T::sum(near, pz)), pk));
    // The distances cancel.
    lemma_ring_factors(b, s, t);
    let bs = T::prod(T::prod(b, s), t);
    lemma_ring_commute(T::prod(p, y.own), t);
    lemma_ring_commute(T::prod(b, s), t);
    lemma_ring_factors(t, T::prod(p, y.own), T::prod(b, s));
    lemma_ring_sums(t, t, t);
    assert(T::sum(py, bs) == zero);
    let tail = T::sum(near, pz);
    lemma_ring_sums(T::sum(T::sum(py, pn), tail), pk, bs);
    lemma_ring_sums(T::sum(py, pn), tail, bs);
    lemma_ring_sums(py, pn, bs);
    lemma_ring_sums(pn, pn, pn);
    assert(T::sum(T::prod(p, up), bs) == T::sum(T::sum(pn, tail), pk));
    lemma_ring_sums(pn, near, pz);
    lemma_ring_sums(T::sum(pn, near), pz, pk);
}

/// The tower raised on its four centers, each weighted by twice the exponent, is the tower
/// lowered on them, each as often as its power.
pub proof fn lemma_tower_invariant<T: Scalar>(
    x: AxisSteps<T>,
    u: Ladder<T>,
    e: (T, T, T, T),
    a: int,
    b: int,
    c: int,
    d: int,
    m: int,
)
    requires
        is_ring::<T>(),
        counts_exactly::<T>(),
        weighs(x, e.0, e.1, e.2, e.3),
        0 <= a,
        0 <= b,
        0 <= c,
        0 <= d,
        a + b < 0xffff,
        c + d < 0xffff,
    ensures
        T::sum(
            T::sum(
                T::prod(e.0, tower(x, u, a + 1, b, c, d)(m)),
                T::prod(e.1, tower(x, u, a, b + 1, c, d)(m)),
            ),
            T::sum(
                T::prod(e.2, tower(x, u, a, b, c + 1, d)(m)),
                T::prod(e.3, tower(x, u, a, b, c, d + 1)(m)),
            ),
        ) == T::sum(bra_lowered(x, u, a, b, c, d)(m), ket_lowered(x, u, a, b, c, d)(m)),
{
    let t = tower(x, u, a, b, c, d);
    let (lb, lk) = (bra_lowered(x, u, a, b, c, d), ket_lowered(x, u, a, b, c, d));
    lemma_raises(x, u, a, b, c, d);
    lemma_bra_transfers(x, u, a, b, c, d);
    let (p, q) = (T::sum(e.0, e.1), T::sum(e.2, e.3));
    lemma_weighted_pair(
        x.bra,
        x.bra_low,
        x.cross,
        x.ab,
        e.0,
        e.1,
        tower(x, u, a + 1, b, c, d)(m),
        t(m),
        t(m + 1),
        lb(m),
        lb(m + 1),
        lk(m),
        lk(m + 1),
    );
    lemma_weighted_pair(
        x.ket,
        x.ket_low,
        x.cross,
        x.cd,
        e.2,
        e.3,
        tower(x, u, a, b, c + 1, d)(m),
        t(m),
        t(m + 1),
        lk(m),
        lk(m + 1),
        lb(m),
        lb(m + 1),
    );
    let (pt, qt) = (
        T::prod(T::prod(p, x.bra.next), t(m + 1)),
        T::prod(T::prod(q, x.ket.next), t(m + 1)),
    );
    let (pb, qb) = (
        T::prod(T::prod(p, x.bra_low.next), lb(m + 1)),
        T::prod(T::prod(q, x.cross.next), lb(m + 1)),
    );
    let (pk, qk) = (
        T::prod(T::prod(p, x.cross.next), lk(m + 1)),
        T::prod(T::prod(q, x.ket_low.next), lk(m + 1)),
    );
    lemma_cancels(T::prod(p, x.bra.next), T::prod(q, x.ket.next), t(m + 1));
    lemma_cancels(T::prod(p, x.bra_low.next), T::prod(q, x.cross.next), lb(m + 1));
    lemma_cancels(T::prod(q, x.ket_low.next), T::prod(p, x.cross.next), lk(m + 1));
    lemma_interchange(T::sum(pt, lb(m)), T::sum(pb, pk), T::sum(qt, lk(m)), T::sum(qk, qb));
    lemma_interchange(pt, lb(m), qt, lk(m));
    lemma_ring_sums(qk, qb, qb);
    lemma_interchange(pb, pk, qb, qk);
    lemma_ring_sums(qk, pk, pk);
    let low = T::sum(lb(m), lk(m));
    lemma_ring_sums(low, low, low);
    lemma_ring_sums(T::count(0), T::count(0), T::count(0));
}

/// Opposite multiples cancel.
proof fn lemma_cancels<T: Scalar>(a: T, b: T, v: T)
    requires
        is_ring::<T>(),
        T::sum(a, b) == T::count(0),
    ensures
        T::sum(T::prod(a, v), T::prod(b, v)) == T::count(0),
{
    lemma_ring_commute(a, v);
    lemma_ring_commute(b, v);
    lemma_ring_factors(v, a, b);
    lemma_ring_sums(v, v, v);
}

/// Whether the steps of one bra are those of the bra with its centers exchanged.
pub open spec fn are_exchanged<T: Scalar>(x: AxisSteps<T>, y: AxisSteps<T>) -> bool {
    &&& x.bra.next == y.bra.next
    &&& x.bra_low == y.bra_low
    &&& x.bra.own == T::sum(y.bra.own, y.ab)
    &&& y.bra.own == T::sum(x.bra.own, x.ab)
}

/// A step that takes more of its own order.
proof fn lemma_wider_step<T: Scalar>(y: Step<T>, s: T, t: Ladder<T>, v: Ladder<T>)
    requires
        is_ring::<T>(),
    ensures
        plus(plus(act(y, t), v), times(s, t)) == plus(
            act(Step { own: T::sum(y.own, s), next: y.next }, t),
            v,
        ),
{
    let w = act(Step { own: T::sum(y.own, s), next: y.next }, t);
    lemma_ladder_sums(act(y, t), v, times(s, t));
    assert(plus(act(y, t), times(s, t)) =~= w) by {
        assert forall|m: int| #[trigger] plus(act(y, t), times(s, t))(m) == w(m) by {
            lemma_ring_commute(T::sum(y.own, s), t(m));
            lemma_ring_factors(t(m), y.own, s);
            lemma_ring_commute(t(m), y.own);
            lemma_ring_commute(t(m), s);
            lemma_ring_sums(
                T::prod(y.own, t(m)),
                T::prod(y.next, t(m + 1)),
                T::prod(s, t(m)),
            );
        }
    }
}

/// A tower of the bra alone is that with its centers exchanged.
pub proof fn lemma_tower_exchanged<T: Scalar>(
    x: AxisSteps<T>,
    y: AxisSteps<T>,
    u: Ladder<T>,
    a: int,
    b: int,
)
    requires
        is_ring::<T>(),
        counts_exactly::<T>(),
        are_exchanged(x, y),
        0 <= a,
        0 <= b,
        a + b < 0xffff,
    ensures
        tower(x, u, a, b, 0, 0) == tower(y, u, b, a, 0, 0),
    decreases a + b, if a == 0 {
        1int
    } else {
        0int
    },
{
    if a > 0 {
        lemma_raises(x, u, a - 1, b, 0, 0);
        lemma_raises(y, u, b, a - 1, 0, 0);
        lemma_tower_exchanged(x, y, u, a - 1, b);
        let t = tower(x, u, a - 1, b, 0, 0);
        let (lx, ly) = (bra_lowered(x, u, a - 1, b, 0, 0), bra_lowered(y, u, b, a - 1, 0, 0));
        let z = T::count(0);
        let (p, q) = (tower(x, u, a - 2, b, 0, 0), tower(x, u, a - 1, b - 1, 0, 0));
        let (f, g) = (tower(y, u, b, a - 2, 0, 0), tower(y, u, b - 1, a - 1, 0, 0));
        if a >= 2 {
            lemma_tower_exchanged(x, y, u, a - 2, b);
        }
        if b >= 1 {
            lemma_tower_exchanged(x, y, u, a - 1, b - 1);
        }
        lemma_ladder_sums(copies(a - 1, p), copies(b, q), q);
        assert(lx == ly);
        // No ket, so no cross term.
        let (kx, ky) = (ket_lowered(x, u, a - 1, b, 0, 0), ket_lowered(y, u, b, a - 1, 0, 0));
        let n = nothing::<T>();
        lemma_multiples(z, z, n, n);
        lemma_ladder_sums(n, n, n);
        assert(kx == n && ky == n);
        lemma_step_of_nothing(x.cross);
        lemma_step_of_nothing(y.cross);
        let low = act(x.bra_low, lx);
        lemma_ladder_sums(plus(act(x.bra, t), low), n, n);
        lemma_ladder_sums(plus(act(y.bra, t), low), n, n);
        lemma_wider_step(y.bra, y.ab, t, low);
        assert(x.bra == Step { own: T::sum(y.bra.own, y.ab), next: y.bra.next });
    } else if b > 0 {
        lemma_tower_exchanged(y, x, u, b, a);
    }
}

} // verus!
