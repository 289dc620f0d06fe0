//! Towers with bra and ket exchanged.
use vstd::prelude::*;

use crate::engine::tower::{
    act, copies, lemma_ladder_sums, lemma_one_more, lemma_step_of_multiple, nothing, plus, tower,
    AxisSteps, Ladder,
};
use crate::engine::tower_contracted::Components;
use crate::engine::tower_raise::{bra_lowered, ket_lowered, lemma_bra_transfers, lemma_raises};
use crate::engine::tower_space::{along, is_whole, space, Steps};
use crate::exact::{counts_exactly, is_ring};
use crate::math::am::degree;
use crate::scalar::Scalar;

verus! {

/// The steps with bra and ket exchanged.
pub open spec fn mirrored<T: Scalar>(x: AxisSteps<T>) -> AxisSteps<T> {
    AxisSteps {
        bra: x.ket,
        ket: x.bra,
        bra_low: x.ket_low,
        ket_low: x.bra_low,
        cross: x.cross,
        ab: x.cd,
        cd: x.ab,
    }
}

/// A tower raised on the first center of the ket alone, with bra and ket exchanged.
proof fn lemma_mirrored_base<T: Scalar>(x: AxisSteps<T>, u: Ladder<T>, a: int, c: int)
    requires
        is_ring::<T>(),
        counts_exactly::<T>(),
        0 <= a < 0xfff,
        0 <= c < 0xfff,
    ensures
        tower(x, u, a, 0, c, 0) == tower(mirrored(x), u, c, 0, a, 0),
    decreases a + c,
{
    let y = mirrored(x);
    if c > 0 && a > 0 {
        lemma_mirrored_base(x, u, a, c - 1);
        lemma_mirrored_base(x, u, a - 1, c - 1);
        let t2 = tower(x, u, a, 0, c - 2, 0);
        if c >= 2 {
            lemma_mirrored_base(x, u, a, c - 2);
        }
        assert(t2 == tower(y, u, c - 2, 0, a, 0));
        let t3 = tower(x, u, a - 1, 0, c - 1, 0);
        lemma_raises(y, u, c - 1, 0, a, 0);
        let (p, q) = (tower(y, u, c - 1, -1, a, 0), tower(y, u, c - 1, 0, a, -1));
        lemma_one_more(0, p);
        lemma_one_more(0, q);
        lemma_ladder_sums(copies(c - 1, t2), nothing(), nothing());
        lemma_ladder_sums(copies(a, t3), nothing(), nothing());
        assert(bra_lowered(y, u, c - 1, 0, a, 0) == copies(c - 1, t2));
        assert(ket_lowered(y, u, c - 1, 0, a, 0) == copies(a, t3));
        lemma_step_of_multiple(x.ket_low, T::count((c - 1) as u64), t2);
        lemma_step_of_multiple(x.cross, T::count(a as u64), t3);
    } else if c > 0 {
        lemma_mirrored_base(x, u, 0, c - 1);
        let t2 = tower(x, u, 0, 0, c - 2, 0);
        if c >= 2 {
            lemma_mirrored_base(x, u, 0, c - 2);
        }
        assert(t2 == tower(y, u, c - 2, 0, 0, 0));
        let rest = act(x.cross, tower(x, u, -1, 0, c - 1, 0));
        lemma_one_more(0, rest);
        let t = plus(
            act(x.ket, tower(x, u, 0, 0, c - 1, 0)),
            copies(c - 1, act(x.ket_low, t2)),
        );
        lemma_ladder_sums(t, nothing(), nothing());
    } else if a > 0 {
        lemma_mirrored_base(x, u, a - 1, 0);
        let t2 = tower(x, u, a - 2, 0, 0, 0);
        if a >= 2 {
            lemma_mirrored_base(x, u, a - 2, 0);
        }
        assert(t2 == tower(y, u, 0, 0, a - 2, 0));
        let rest = act(y.cross, tower(y, u, -1, 0, a - 1, 0));
        lemma_one_more(0, rest);
        let t = plus(
            act(x.bra, tower(x, u, a - 1, 0, 0, 0)),
            copies(a - 1, act(x.bra_low, t2)),
        );
        lemma_ladder_sums(t, nothing(), nothing());
    }
}

/// A tower with bra and ket exchanged.
pub proof fn lemma_tower_mirrored<T: Scalar>(
    x: AxisSteps<T>,
    u: Ladder<T>,
    a: int,
    b: int,
    c: int,
    d: int,
)
    requires
        is_ring::<T>(),
        counts_exactly::<T>(),
        0 <= a,
        0 <= b,
        0 <= c,
        0 <= d,
        a + b < 0xfff,
        c + d < 0xfff,
    ensures
        tower(x, u, a, b, c, d) == tower(mirrored(x), u, c, d, a, b),
    decreases b + d,
{
    let y = mirrored(x);
    if d > 0 {
        lemma_tower_mirrored(x, u, a, b, c + 1, d - 1);
        lemma_tower_mirrored(x, u, a, b, c, d - 1);
        lemma_bra_transfers(y, u, c, d - 1, a, b);
    } else if b > 0 {
        lemma_tower_mirrored(x, u, a + 1, b - 1, c, 0);
        lemma_tower_mirrored(x, u, a, b - 1, c, 0);
    } else {
        lemma_mirrored_base(x, u, a, c);
    }
}

/// Components with bra and ket exchanged.
pub open spec fn exchanged(n: Components) -> Components {
    (n.2, n.3, n.0, n.1)
}

/// The towers along the three axes with bra and ket exchanged.
pub proof fn lemma_space_mirrored<T: Scalar>(
    x: Steps<T>,
    y: Steps<T>,
    u: Ladder<T>,
    n: Components,
)
    requires
        is_ring::<T>(),
        counts_exactly::<T>(),
        y(0) == mirrored(x(0)),
        y(1) == mirrored(x(1)),
        y(2) == mirrored(x(2)),
        is_whole(n.0) && is_whole(n.1) && is_whole(n.2) && is_whole(n.3),
        degree(n.0) + degree(n.1) < 0xfff,
        degree(n.2) + degree(n.3) < 0xfff,
    ensures
        space(x, u, n.0, n.1, n.2, n.3) == space(y, u, n.2, n.3, n.0, n.1),
{
    let (a, b, c, d) = n;
    let u2 = along(x, u, a, b, c, d, 2);
    let u1 = along(x, u2, a, b, c, d, 1);
    lemma_tower_mirrored(x(2), u, a.2, b.2, c.2, d.2);
    lemma_tower_mirrored(x(1), u2, a.1, b.1, c.1, d.1);
    lemma_tower_mirrored(x(0), u1, a.0, b.0, c.0, d.0);
}

} // verus!
