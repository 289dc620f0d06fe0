//! The derivatives of repulsion integrals with respect to the four centers add up to
//! zero, by quadrature.
use vstd::prelude::*;

use crate::engine::os::Prim;
use crate::engine::rys::{
    axis_input, geometry_of, kernel_root, kernel_weight, lemma_repelled_len, quadruple_at,
    quartet_size, repelled, root_count, root_value, Geometry,
};
use crate::engine::tower::Ladder;
use crate::engine::tower_contracted::{lemma_four_more, sum_of_four, Components};
use crate::engine::tower_quartet::{double, lemma_space_invariant, lowered_space, raised_space};
use crate::engine::tower_roots::{
    evaluates, has_quotients, lemma_evaluates, lemma_quadrature, lemma_root_weighs, moments,
    quadrature, root_steps,
};
use crate::engine::tower_space::{is_whole, space};
use crate::engine::triples::power;
use crate::exact::{
    counts_exactly, is_ring, lemma_ring_commute, lemma_ring_factors, lemma_ring_sums,
};
use crate::grad::quartet::{momenta_of, replaced, shift_scale, shifted_momentum, shifted_quadrature};
use crate::grad::repulsion::{
    are_components, at_step, is_complete, is_flat, lemma_lowered_reads, total_momentum,
};
use crate::math::am::degree;
use crate::math::rys::RysTables;
use crate::quartet::{cart_size, primitives_at, Four};
use crate::scalar::{Real, Scalar};
use crate::tensor::nth;

verus! {

/// Four primitives.
pub type Prims<T> = (Prim<T>, Prim<T>, Prim<T>, Prim<T>);

/// What four primitives give the quadrature.
pub open spec fn shape_of<T: Real>(s: Prims<T>) -> Geometry<T> {
    geometry_of(s.0, s.1, s.2, s.3)
}

/// The number of roots for a total angular momentum.
pub open spec fn rule_size(lt: int) -> int {
    lt / 2 + 1
}

/// The roots for a total angular momentum.
pub open spec fn rule_roots<T: Real>(
    rys: RysTables<T>,
    g: Geometry<T>,
    omega: Option<T>,
    lt: int,
) -> spec_fn(int) -> T {
    |r: int| kernel_root(rys, g, omega, rule_size(lt), r)
}

/// The weights for a total angular momentum.
pub open spec fn rule_weights<T: Real>(
    rys: RysTables<T>,
    g: Geometry<T>,
    omega: Option<T>,
    lt: int,
) -> spec_fn(int) -> T {
    |r: int| kernel_weight(rys, g, omega, rule_size(lt), r)
}

/// The moments of the quadrature for a total angular momentum.
pub open spec fn rule_moments<T: Real>(
    rys: RysTables<T>,
    g: Geometry<T>,
    omega: Option<T>,
    lt: int,
) -> Ladder<T> {
    moments(rule_roots(rys, g, omega, lt), rule_weights(rys, g, omega, lt), rule_size(lt))
}

/// The integral of four primitives by quadrature, its coefficients left out.
pub open spec fn quadrature_value<T: Real>(
    rys: RysTables<T>,
    omega: Option<T>,
    s: Prims<T>,
    lt: int,
    n: Components,
) -> T {
    let g = shape_of(s);
    T::prod(
        g.pref,
        quadrature(
            g,
            rule_roots(rys, g, omega, lt),
            rule_weights(rys, g, omega, lt),
            n,
            rule_size(lt),
        ),
    )
}

/// Whether the quadratures for the angular momenta `lt - 1` and `lt + 1` are both exact for
/// the powers below `lt`: their moments agree.
pub open spec fn has_exact_rule<T: Real>(
    rys: RysTables<T>,
    g: Geometry<T>,
    omega: Option<T>,
    lt: int,
) -> bool {
    forall|m: int|
        0 <= m < lt ==> #[trigger] rule_moments(rys, g, omega, lt + 1)(m) == rule_moments(
            rys,
            g,
            omega,
            lt - 1,
        )(m)
}

/// Whether four numbers name primitives of four shells.
pub open spec fn are_primitives<T>(q: Four<T>, i: (int, int, int, int)) -> bool {
    &&& 0 <= i.0 < q.0.1.2.len()
    &&& 0 <= i.1 < q.1.1.2.len()
    &&& 0 <= i.2 < q.2.1.2.len()
    &&& 0 <= i.3 < q.3.1.2.len()
}

/// The primitives of four shells with the given numbers.
pub open spec fn prims_at<T>(q: Four<T>, i: (int, int, int, int)) -> Prims<T> {
    primitives_at(q, i.0, i.1, i.2, i.3)
}

/// Whether the sums of exponents of a quartet can be divided by and its quadratures are
/// exact.
pub open spec fn is_quadrable<T: Real>(
    rys: RysTables<T>,
    omega: Option<T>,
    q: Four<T>,
) -> bool {
    &&& is_complete(q.0) && is_complete(q.1) && is_complete(q.2) && is_complete(q.3)
    &&& forall|i: (int, int, int, int)| #[trigger]
        are_primitives(q, i) ==> has_quotients(shape_of(prims_at(q, i))) && has_exact_rule(
            rys,
            shape_of(prims_at(q, i)),
            omega,
            total_momentum(q),
        )
}

/// A quadrature of four primitives is a tower over its moments.
pub proof fn lemma_value_is_tower<T: Real>(
    rys: RysTables<T>,
    omega: Option<T>,
    s: Prims<T>,
    lt: int,
    n: Components,
)
    requires
        is_ring::<T>(),
        has_quotients(shape_of(s)),
        is_whole(n.0) && is_whole(n.1) && is_whole(n.2) && is_whole(n.3),
    ensures
        quadrature_value(rys, omega, s, lt, n) == T::prod(
            shape_of(s).pref,
            space(
                root_steps(shape_of(s)),
                rule_moments(rys, shape_of(s), omega, lt),
                n.0,
                n.1,
                n.2,
                n.3,
            )(0),
        ),
{
    let g = shape_of(s);
    let (root, weight) = (rule_roots(rys, g, omega, lt), rule_weights(rys, g, omega, lt));
    let x = root_steps(g);
    assert forall|r: int, k: int| 0 <= r < rule_size(lt) && 0 <= k < 3 implies #[trigger] evaluates(
        x(k),
        axis_input(g, root(r), k),
        root(r),
    ) by {
        lemma_evaluates(g, root(r), k);
    }
    lemma_quadrature(x, g, root, weight, n, rule_size(lt));
}

/// A lowered quadrature, as often as its power, is a tower over the moments for a higher
/// angular momentum.
proof fn lemma_lowered_value<T: Real>(
    rys: RysTables<T>,
    omega: Option<T>,
    s: Prims<T>,
    lt: int,
    n: Components,
    pos: int,
    k: int,
)
    requires
        is_ring::<T>(),
        has_quotients(shape_of(s)),
        has_exact_rule(rys, shape_of(s), omega, lt),
        is_whole(n.0) && is_whole(n.1) && is_whole(n.2) && is_whole(n.3),
        degree(n.0) + degree(n.1) + degree(n.2) + degree(n.3) == lt,
        0 <= k < 3,
        0 <= pos < 4,
    ensures
        ({
            let c = T::count(power(nth(n, pos), k) as u64);
            let m = at_step(n, pos, k, -1);
            let u = rule_moments(rys, shape_of(s), omega, lt + 1);
            T::prod(c, quadrature_value(rys, omega, s, lt - 1, m)) == T::prod(
                shape_of(s).pref,
                T::prod(c, space(root_steps(shape_of(s)), u, m.0, m.1, m.2, m.3)(0)),
            )
        }),
{
    let g = shape_of(s);
    let c = T::count(power(nth(n, pos), k) as u64);
    let m = at_step(n, pos, k, -1);
    let (u, v) = (rule_moments(rys, g, omega, lt + 1), rule_moments(rys, g, omega, lt - 1));
    let x = root_steps(g);
    let z = space(x, u, m.0, m.1, m.2, m.3)(0);
    if power(nth(n, pos), k) > 0 {
        lemma_lowered_reads(x, u, v, n, k, pos, lt);
        lemma_value_is_tower(rys, omega, s, lt - 1, m);
        lemma_ring_factors(g.pref, c, space(x, v, m.0, m.1, m.2, m.3)(0));
    } else {
        let y = quadrature_value(rys, omega, s, lt - 1, m);
        lemma_ring_commute(T::count(0), y);
        lemma_ring_sums(y, y, y);
        lemma_ring_commute(T::count(0), z);
        lemma_ring_sums(z, z, z);
        lemma_ring_sums(g.pref, z, z);
    }
}

/// A factor may be moved into a sum of four.
proof fn lemma_times_four<T: Scalar>(s: T, x: (T, T, T, T))
    requires
        is_ring::<T>(),
    ensures
        sum_of_four((T::prod(s, x.0), T::prod(s, x.1), T::prod(s, x.2), T::prod(s, x.3)))
            == T::prod(s, sum_of_four(x)),
{
    lemma_ring_factors(s, x.0, x.1);
    lemma_ring_factors(s, x.2, x.3);
    lemma_ring_factors(s, T::sum(x.0, x.1), T::sum(x.2, x.3));
}

/// The raised quadratures of four primitives, weighted.
spec fn raised_values<T: Real>(
    rys: RysTables<T>,
    omega: Option<T>,
    s: Prims<T>,
    lt: int,
    n: Components,
    k: int,
) -> (T, T, T, T) {
    let v = |pos: int| quadrature_value(rys, omega, s, lt + 1, at_step(n, pos, k, 1));
    (
        T::prod(double(s.0.exp), v(0)),
        T::prod(double(s.1.exp), v(1)),
        T::prod(double(s.2.exp), v(2)),
        T::prod(double(s.3.exp), v(3)),
    )
}

/// The lowered quadratures of four primitives, as often as the powers.
spec fn lowered_values<T: Real>(
    rys: RysTables<T>,
    omega: Option<T>,
    s: Prims<T>,
    lt: int,
    n: Components,
    k: int,
) -> (T, T, T, T) {
    let v = |pos: int| quadrature_value(rys, omega, s, lt - 1, at_step(n, pos, k, -1));
    let c = |pos: int| T::count(power(nth(n, pos), k) as u64);
    (T::prod(c(0), v(0)), T::prod(c(1), v(1)), T::prod(c(2), v(2)), T::prod(c(3), v(3)))
}

/// The raised quadratures of four primitives add up to the lowered ones.
#[verifier::spinoff_prover]
#[verifier::rlimit(40)]
proof fn lemma_values_cancel<T: Real>(
    rys: RysTables<T>,
    omega: Option<T>,
    s: Prims<T>,
    lt: int,
    n: Components,
    k: int,
)
    requires
        is_ring::<T>(),
        counts_exactly::<T>(),
        has_quotients(shape_of(s)),
        has_exact_rule(rys, shape_of(s), omega, lt),
        is_whole(n.0) && is_whole(n.1) && is_whole(n.2) && is_whole(n.3),
        degree(n.0) + degree(n.1) + degree(n.2) + degree(n.3) == lt,
        lt < 0xff,
        0 <= k < 3,
    ensures
        sum_of_four(raised_values(rys, omega, s, lt, n, k)) == sum_of_four(
            lowered_values(rys, omega, s, lt, n, k),
        ),
{
    let g = shape_of(s);
    let x = root_steps(g);
    let u = rule_moments(rys, g, omega, lt + 1);
    let e = (double(s.0.exp), double(s.1.exp), double(s.2.exp), double(s.3.exp));
    lemma_root_weighs(s.0, s.1, s.2, s.3, k);
    lemma_space_invariant(x, u, e, n.0, n.1, n.2, n.3, k);
    let h = |pos: int|
        {
            let m = at_step(n, pos, k, 1);
            space(x, u, m.0, m.1, m.2, m.3)(0)
        };
    let l = |pos: int|
        {
            let m = at_step(n, pos, k, -1);
            T::prod(
                T::count(power(nth(n, pos), k) as u64),
                space(x, u, m.0, m.1, m.2, m.3)(0),
            )
        };
    lemma_value_is_tower(rys, omega, s, lt + 1, at_step(n, 0, k, 1));
    lemma_value_is_tower(rys, omega, s, lt + 1, at_step(n, 1, k, 1));
    lemma_value_is_tower(rys, omega, s, lt + 1, at_step(n, 2, k, 1));
    lemma_value_is_tower(rys, omega, s, lt + 1, at_step(n, 3, k, 1));
    lemma_ring_factors(g.pref, e.0, h(0));
    lemma_ring_factors(g.pref, e.1, h(1));
    lemma_ring_factors(g.pref, e.2, h(2));
    lemma_ring_factors(g.pref, e.3, h(3));
    lemma_times_four(
        g.pref,
        (T::prod(e.0, h(0)), T::prod(e.1, h(1)), T::prod(e.2, h(2)), T::prod(e.3, h(3))),
    );
    assert(raised_space(x, u, e, n.0, n.1, n.2, n.3, k) == sum_of_four(
        (T::prod(e.0, h(0)), T::prod(e.1, h(1)), T::prod(e.2, h(2)), T::prod(e.3, h(3))),
    ));
    lemma_lowered_value(rys, omega, s, lt, n, 0, k);
    lemma_lowered_value(rys, omega, s, lt, n, 1, k);
    lemma_lowered_value(rys, omega, s, lt, n, 2, k);
    lemma_lowered_value(rys, omega, s, lt, n, 3, k);
    lemma_times_four(g.pref, (l(0), l(1), l(2), l(3)));
    assert(lowered_space(x, u, n.0, n.1, n.2, n.3, k) == sum_of_four((l(0), l(1), l(2), l(3))));
}

/// The sum of `g` over the primitive quartets before `(a, b, c, d)`.
pub open spec fn prims_sum<T: Real>(
    q: Four<T>,
    g: spec_fn((int, int, int, int)) -> T,
    a: int,
    b: int,
    c: int,
    d: int,
) -> T
    decreases a, b, c, d,
{
    if d > 0 {
        T::sum(prims_sum(q, g, a, b, c, d - 1), g((a, b, c, d - 1)))
    } else if c > 0 {
        prims_sum(q, g, a, b, c - 1, q.3.1.2.len() as int)
    } else if b > 0 {
        prims_sum(q, g, a, b - 1, q.2.1.2.len() as int, 0)
    } else if a > 0 {
        prims_sum(q, g, a - 1, q.1.1.2.len() as int, 0, 0)
    } else {
        T::count(0)
    }
}

/// The factor of a primitive quartet.
pub open spec fn scale_at<T: Real>(
    q: Four<T>,
    pos: int,
    up: bool,
    i: (int, int, int, int),
) -> T {
    shift_scale(q, pos, up, i.0, i.1, i.2, i.3)
}

/// The total angular momentum of a quartet with one shell raised or lowered.
pub open spec fn moved_momentum<T>(q: Four<T>, up: bool) -> int {
    shifted_momentum(total_momentum(q), up)
}

/// The integral of a quartet with the shell at `pos` shifted, by quadrature.
pub open spec fn quadrature_sum<T: Real>(
    rys: RysTables<T>,
    omega: Option<T>,
    q: Four<T>,
    pos: int,
    up: bool,
    n: Components,
) -> T {
    prims_sum(
        q,
        |i: (int, int, int, int)|
            T::prod(
                scale_at(q, pos, up, i),
                quadrature_value(rys, omega, prims_at(q, i), moved_momentum(q, up), n),
            ),
        q.0.1.2.len() as int,
        0,
        0,
        0,
    )
}

/// An entry of a block after the first `n` roots.
pub proof fn lemma_repelled_entry<T: Real>(
    rys: RysTables<T>,
    old: Seq<T>,
    s: Prims<T>,
    omega: Option<T>,
    scale: T,
    n: int,
    k: int,
)
    requires
        is_ring::<T>(),
        0 <= k < old.len(),
        old.len() == quartet_size(s.0.l as int, s.1.l as int, s.2.l as int, s.3.l as int),
    ensures
        ({
            let lt = s.0.l + s.1.l + s.2.l + s.3.l;
            let g = shape_of(s);
            repelled(rys, old, s, omega, scale, n)[k] == T::sum(
                old[k],
                T::prod(
                    T::prod(scale, g.pref),
                    quadrature(
                        g,
                        rule_roots(rys, g, omega, lt),
                        rule_weights(rys, g, omega, lt),
                        quadruple_at(s.0.l as int, s.1.l as int, s.2.l as int, s.3.l as int, k),
                        n,
                    ),
                ),
            )
        }),
    decreases n,
{
    let lt = s.0.l + s.1.l + s.2.l + s.3.l;
    let g = shape_of(s);
    let sp = T::prod(scale, g.pref);
    let (root, weight) = (rule_roots(rys, g, omega, lt), rule_weights(rys, g, omega, lt));
    let c = quadruple_at(s.0.l as int, s.1.l as int, s.2.l as int, s.3.l as int, k);
    if n > 0 {
        lemma_repelled_entry(rys, old, s, omega, scale, n - 1, k);
        lemma_repelled_len(rys, old, s, omega, scale, n - 1);
        let before = quadrature(g, root, weight, c, n - 1);
        let v = root_value(g, root(n - 1), c.0, c.1, c.2, c.3);
        let w = weight(n - 1);
        lemma_ring_factors(sp, w, v);
        lemma_ring_factors(sp, before, T::prod(w, v));
        lemma_ring_sums(old[k], T::prod(sp, before), T::prod(sp, T::prod(w, v)));
    } else {
        lemma_ring_sums(sp, sp, sp);
        lemma_ring_sums(old[k], old[k], old[k]);
    }
}

/// An entry of a block by quadrature, over the primitive quartets before `(a, b, c, d)`.
proof fn lemma_partial_quadrature<T: Real>(
    rys: RysTables<T>,
    v: Four<T>,
    pos: int,
    up: bool,
    omega: Option<T>,
    k: int,
    a: int,
    b: int,
    c: int,
    d: int,
)
    requires
        is_ring::<T>(),
        0 <= v.0.0 <= 6 && 0 <= v.1.0 <= 6 && 0 <= v.2.0 <= 6 && 0 <= v.3.0 <= 6,
        0 <= k < cart_size(v),
    ensures
        ({
            let n = quadruple_at(v.0.0, v.1.0, v.2.0, v.3.0, k);
            let g = |i: (int, int, int, int)|
                T::prod(
                    scale_at(v, pos, up, i),
                    quadrature_value(rys, omega, prims_at(v, i), total_momentum(v), n),
                );
            &&& shifted_quadrature(rys, v, pos, up, omega, a, b, c, d).len() == cart_size(v)
            &&& shifted_quadrature(rys, v, pos, up, omega, a, b, c, d)[k] == prims_sum(
                v,
                g,
                a,
                b,
                c,
                d,
            )
        }),
    decreases a, b, c, d,
{
    if d > 0 {
        lemma_partial_quadrature(rys, v, pos, up, omega, k, a, b, c, d - 1);
        let s = primitives_at(v, a, b, c, d - 1);
        let scale = shift_scale(v, pos, up, a, b, c, d - 1);
        let old = shifted_quadrature(rys, v, pos, up, omega, a, b, c, d - 1);
        let n = root_count(s.0.l as int, s.1.l as int, s.2.l as int, s.3.l as int);
        lemma_repelled_len(rys, old, s, omega, scale, n);
        lemma_repelled_entry(rys, old, s, omega, scale, n, k);
        let g = shape_of(s);
        let lt = total_momentum(v);
        let z = quadrature(
            g,
            rule_roots(rys, g, omega, lt),
            rule_weights(rys, g, omega, lt),
            quadruple_at(v.0.0, v.1.0, v.2.0, v.3.0, k),
            rule_size(lt),
        );
        lemma_ring_factors(scale, g.pref, z);
        assert(prims_at(v, (a, b, c, d - 1)) == s);
        assert(scale_at(v, pos, up, (a, b, c, d - 1)) == scale);
    } else if c > 0 {
        lemma_partial_quadrature(
            rys,
            v,
            pos,
            up,
            omega,
            k,
            a,
            b,
            c - 1,
            v.3.1.2.len() as int,
        );
    } else if b > 0 {
        lemma_partial_quadrature(
            rys,
            v,
            pos,
            up,
            omega,
            k,
            a,
            b - 1,
            v.2.1.2.len() as int,
            0,
        );
    } else if a > 0 {
        lemma_partial_quadrature(
            rys,
            v,
            pos,
            up,
            omega,
            k,
            a - 1,
            v.1.1.2.len() as int,
            0,
            0,
        );
    }
}

/// The sum over the primitives does not depend on the angular momenta of the shells.
proof fn lemma_same_primitives<T: Real>(
    q: Four<T>,
    v: Four<T>,
    g: spec_fn((int, int, int, int)) -> T,
    h: spec_fn((int, int, int, int)) -> T,
    a: int,
    b: int,
    c: int,
    d: int,
)
    requires
        v.0.1 == q.0.1,
        v.1.1 == q.1.1,
        v.2.1 == q.2.1,
        v.3.1 == q.3.1,
        forall|i: (int, int, int, int)| #[trigger] g(i) == h(i),
    ensures
        prims_sum(v, g, a, b, c, d) == prims_sum(q, h, a, b, c, d),
    decreases a, b, c, d,
{
    if d > 0 {
        lemma_same_primitives(q, v, g, h, a, b, c, d - 1);
        assert(g((a, b, c, d - 1)) == h((a, b, c, d - 1)));
    } else if c > 0 {
        lemma_same_primitives(q, v, g, h, a, b, c - 1, q.3.1.2.len() as int);
    } else if b > 0 {
        lemma_same_primitives(q, v, g, h, a, b - 1, q.2.1.2.len() as int, 0);
    } else if a > 0 {
        lemma_same_primitives(q, v, g, h, a - 1, q.1.1.2.len() as int, 0, 0);
    }
}

/// Four shells with the angular momentum of the one at `pos` raised or lowered.
pub open spec fn lifted<T>(q: Four<T>, pos: int, up: bool) -> Four<T> {
    let s = nth(q, pos);
    replaced(q, pos, (shifted_momentum(s.0, up), s.1))
}

/// An entry of a shifted block by quadrature.
pub proof fn lemma_quadrature_entry<T: Real>(
    rys: RysTables<T>,
    q: Four<T>,
    pos: int,
    up: bool,
    omega: Option<T>,
    k: int,
)
    requires
        is_ring::<T>(),
        is_complete(q.0) && is_complete(q.1) && is_complete(q.2) && is_complete(q.3),
        0 <= pos < 4,
        0 <= nth(lifted(q, pos, up), pos).0,
        0 <= k < cart_size(lifted(q, pos, up)),
    ensures
        ({
            let v = lifted(q, pos, up);
            shifted_quadrature(rys, v, pos, up, omega, v.0.1.2.len() as int, 0, 0, 0)[k]
                == quadrature_sum(
                rys,
                omega,
                q,
                pos,
                up,
                quadruple_at(v.0.0, v.1.0, v.2.0, v.3.0, k),
            )
        }),
{
    let v = lifted(q, pos, up);
    let m = v.0.1.2.len() as int;
    lemma_partial_quadrature(rys, v, pos, up, omega, k, m, 0, 0, 0);
    let n = quadruple_at(v.0.0, v.1.0, v.2.0, v.3.0, k);
    let g = |i: (int, int, int, int)|
        T::prod(
            scale_at(v, pos, up, i),
            quadrature_value(rys, omega, prims_at(v, i), total_momentum(v), n),
        );
    let h = |i: (int, int, int, int)|
        T::prod(
            scale_at(q, pos, up, i),
            quadrature_value(rys, omega, prims_at(q, i), moved_momentum(q, up), n),
        );
    assert forall|i: (int, int, int, int)| #[trigger] g(i) == h(i) by {
        assert(shape_of(prims_at(v, i)) == shape_of(prims_at(q, i)));
    }
    lemma_same_primitives(q, v, g, h, m, 0, 0, 0);
}

/// Whether the primitive quartets before `(a, b, c, d)` are among all.
pub open spec fn is_among<T>(q: Four<T>, a: int, b: int, c: int, d: int) -> bool {
    let (n0, n1) = (q.0.1.2.len(), q.1.1.2.len());
    let (n2, n3) = (q.2.1.2.len(), q.3.1.2.len());
    &&& 0 <= a && 0 <= b <= n1 && 0 <= c <= n2 && 0 <= d <= n3
    &&& a < n0 || a == n0 && b == 0 && c == 0 && d == 0
    &&& b < n1 || c == 0 && d == 0
    &&& c < n2 || d == 0
}

/// The sums of four functions over the primitive quartets before `(a, b, c, d)`.
spec fn four_prims_sums<T: Real>(
    q: Four<T>,
    g: spec_fn((int, int, int, int)) -> (T, T, T, T),
    a: int,
    b: int,
    c: int,
    d: int,
) -> (T, T, T, T) {
    (
        prims_sum(q, |i: (int, int, int, int)| g(i).0, a, b, c, d),
        prims_sum(q, |i: (int, int, int, int)| g(i).1, a, b, c, d),
        prims_sum(q, |i: (int, int, int, int)| g(i).2, a, b, c, d),
        prims_sum(q, |i: (int, int, int, int)| g(i).3, a, b, c, d),
    )
}

/// Sums over primitives whose terms agree.
proof fn lemma_four_prims<T: Real>(
    q: Four<T>,
    g: spec_fn((int, int, int, int)) -> (T, T, T, T),
    h: spec_fn((int, int, int, int)) -> (T, T, T, T),
    a: int,
    b: int,
    c: int,
    d: int,
)
    requires
        is_ring::<T>(),
        is_among(q, a, b, c, d),
        forall|i: (int, int, int, int)| #[trigger]
            are_primitives(q, i) ==> sum_of_four(g(i)) == sum_of_four(h(i)),
    ensures
        sum_of_four(four_prims_sums(q, g, a, b, c, d)) == sum_of_four(
            four_prims_sums(q, h, a, b, c, d),
        ),
    decreases a, b, c, d,
{
    if d > 0 {
        lemma_four_prims(q, g, h, a, b, c, d - 1);
        let i = (a, b, c, d - 1);
        assert(are_primitives(q, i));
        let one = T::count(1);
        let (x, y) = (g(i), h(i));
        lemma_ring_sums(x.0, x.0, x.0);
        lemma_ring_sums(x.1, x.1, x.1);
        lemma_ring_sums(x.2, x.2, x.2);
        lemma_ring_sums(x.3, x.3, x.3);
        lemma_ring_sums(y.0, y.0, y.0);
        lemma_ring_sums(y.1, y.1, y.1);
        lemma_ring_sums(y.2, y.2, y.2);
        lemma_ring_sums(y.3, y.3, y.3);
        lemma_four_more(four_prims_sums(q, g, a, b, c, d - 1), x, one);
        lemma_four_more(four_prims_sums(q, h, a, b, c, d - 1), y, one);
    } else if c > 0 {
        lemma_four_prims(q, g, h, a, b, c - 1, q.3.1.2.len() as int);
    } else if b > 0 {
        lemma_four_prims(q, g, h, a, b - 1, q.2.1.2.len() as int, 0);
    } else if a > 0 {
        lemma_four_prims(q, g, h, a - 1, q.1.1.2.len() as int, 0, 0);
    }
}

/// A factor may be moved into a sum over primitives.
proof fn lemma_times_prims<T: Real>(
    q: Four<T>,
    s: T,
    g: spec_fn((int, int, int, int)) -> T,
    a: int,
    b: int,
    c: int,
    d: int,
)
    requires
        is_ring::<T>(),
    ensures
        T::prod(s, prims_sum(q, g, a, b, c, d)) == prims_sum(
            q,
            |i: (int, int, int, int)| T::prod(s, g(i)),
            a,
            b,
            c,
            d,
        ),
    decreases a, b, c, d,
{
    if d > 0 {
        lemma_times_prims(q, s, g, a, b, c, d - 1);
        lemma_ring_factors(s, prims_sum(q, g, a, b, c, d - 1), g((a, b, c, d - 1)));
    } else if c > 0 {
        lemma_times_prims(q, s, g, a, b, c - 1, q.3.1.2.len() as int);
    } else if b > 0 {
        lemma_times_prims(q, s, g, a, b - 1, q.2.1.2.len() as int, 0);
    } else if a > 0 {
        lemma_times_prims(q, s, g, a - 1, q.1.1.2.len() as int, 0, 0);
    } else {
        lemma_ring_sums(s, s, s);
    }
}

/// Primitive quartets that contribute nothing.
proof fn lemma_no_prims<T: Real>(
    q: Four<T>,
    g: spec_fn((int, int, int, int)) -> T,
    a: int,
    b: int,
    c: int,
    d: int,
)
    requires
        is_ring::<T>(),
        is_among(q, a, b, c, d),
        forall|i: (int, int, int, int)| #[trigger] are_primitives(q, i) ==> g(i) == T::count(0),
    ensures
        prims_sum(q, g, a, b, c, d) == T::count(0),
    decreases a, b, c, d,
{
    if d > 0 {
        lemma_no_prims(q, g, a, b, c, d - 1);
        assert(are_primitives(q, (a, b, c, d - 1)));
        lemma_ring_sums(T::count(0), T::count(0), T::count(0));
    } else if c > 0 {
        lemma_no_prims(q, g, a, b, c - 1, q.3.1.2.len() as int);
    } else if b > 0 {
        lemma_no_prims(q, g, a, b - 1, q.2.1.2.len() as int, 0);
    } else if a > 0 {
        lemma_no_prims(q, g, a - 1, q.1.1.2.len() as int, 0, 0);
    }
}

/// The quadrature raised on a constant shell vanishes.
pub proof fn lemma_flat_quadrature<T: Real>(
    rys: RysTables<T>,
    omega: Option<T>,
    q: Four<T>,
    pos: int,
    n: Components,
)
    requires
        is_ring::<T>(),
        is_complete(q.0) && is_complete(q.1) && is_complete(q.2) && is_complete(q.3),
        is_flat(nth(q, pos)),
        0 <= pos < 4,
    ensures
        quadrature_sum(rys, omega, q, pos, true, n) == T::count(0),
{
    let g = |i: (int, int, int, int)|
        T::prod(
            scale_at(q, pos, true, i),
            quadrature_value(rys, omega, prims_at(q, i), moved_momentum(q, true), n),
        );
    assert forall|i: (int, int, int, int)| #[trigger] are_primitives(q, i) implies g(i)
        == T::count(0) by {
        let e = nth(q, pos).1.1[nth(i, pos)];
        assert(e == T::count(0));
        let base = scale_at(q, pos, false, i);
        let v = quadrature_value(rys, omega, prims_at(q, i), moved_momentum(q, true), n);
        lemma_ring_sums(T::count(2), T::count(2), T::count(2));
        lemma_ring_sums(base, base, base);
        lemma_ring_commute(T::count(0), v);
        lemma_ring_sums(v, v, v);
    }
    lemma_no_prims(q, g, q.0.1.2.len() as int, 0, 0, 0);
}

/// The raised quadratures of a quartet.
pub open spec fn raised_sums<T: Real>(
    rys: RysTables<T>,
    omega: Option<T>,
    q: Four<T>,
    n: Components,
    k: int,
) -> (T, T, T, T) {
    (
        quadrature_sum(rys, omega, q, 0, true, at_step(n, 0, k, 1)),
        quadrature_sum(rys, omega, q, 1, true, at_step(n, 1, k, 1)),
        quadrature_sum(rys, omega, q, 2, true, at_step(n, 2, k, 1)),
        quadrature_sum(rys, omega, q, 3, true, at_step(n, 3, k, 1)),
    )
}

/// The lowered quadratures of a quartet, each as often as the power.
pub open spec fn lowered_sums<T: Real>(
    rys: RysTables<T>,
    omega: Option<T>,
    q: Four<T>,
    n: Components,
    k: int,
) -> (T, T, T, T) {
    let c = |pos: int| T::count(power(nth(n, pos), k) as u64);
    (
        T::prod(c(0), quadrature_sum(rys, omega, q, 0, false, at_step(n, 0, k, -1))),
        T::prod(c(1), quadrature_sum(rys, omega, q, 1, false, at_step(n, 1, k, -1))),
        T::prod(c(2), quadrature_sum(rys, omega, q, 2, false, at_step(n, 2, k, -1))),
        T::prod(c(3), quadrature_sum(rys, omega, q, 3, false, at_step(n, 3, k, -1))),
    )
}

/// A raised term, the weight moved to the integral.
proof fn lemma_raised_scale<T: Real>(
    q: Four<T>,
    pos: int,
    i: (int, int, int, int),
    v: T,
)
    requires
        is_ring::<T>(),
    ensures
        T::prod(scale_at(q, pos, true, i), v) == T::prod(
            scale_at(q, pos, false, i),
            T::prod(double(nth(q, pos).1.1[nth(i, pos)]), v),
        ),
        scale_at(q, pos, false, i) == scale_at(q, 0, false, i),
{
    lemma_ring_factors(
        scale_at(q, pos, false, i),
        double(nth(q, pos).1.1[nth(i, pos)]),
        v,
    );
}

/// The raised quadratures of a quartet add up to the lowered ones.
#[verifier::spinoff_prover]
#[verifier::rlimit(60)]
pub proof fn lemma_quadrature_invariant<T: Real>(
    rys: RysTables<T>,
    omega: Option<T>,
    q: Four<T>,
    n: Components,
    k: int,
)
    requires
        is_ring::<T>(),
        counts_exactly::<T>(),
        is_quadrable(rys, omega, q),
        are_components(momenta_of(q), n),
        0 <= k < 3,
    ensures
        sum_of_four(raised_sums(rys, omega, q, n, k)) == sum_of_four(
            lowered_sums(rys, omega, q, n, k),
        ),
{
    let lt = total_momentum(q);
    let m = q.0.1.2.len() as int;
    let up = |pos: int|
        |i: (int, int, int, int)|
            T::prod(
                scale_at(q, pos, true, i),
                quadrature_value(rys, omega, prims_at(q, i), lt + 1, at_step(n, pos, k, 1)),
            );
    let c = |pos: int| T::count(power(nth(n, pos), k) as u64);
    let down = |pos: int|
        |i: (int, int, int, int)|
            T::prod(
                scale_at(q, pos, false, i),
                quadrature_value(rys, omega, prims_at(q, i), lt - 1, at_step(n, pos, k, -1)),
            );
    let low = |pos: int| |i: (int, int, int, int)| T::prod(c(pos), down(pos)(i));
    let g = |i: (int, int, int, int)| (up(0)(i), up(1)(i), up(2)(i), up(3)(i));
    let h = |i: (int, int, int, int)| (low(0)(i), low(1)(i), low(2)(i), low(3)(i));
    assert forall|i: (int, int, int, int)| #[trigger] are_primitives(q, i) implies sum_of_four(
        g(i),
    ) == sum_of_four(h(i)) by {
        let s = prims_at(q, i);
        lemma_values_cancel(rys, omega, s, lt, n, k);
        let base = scale_at(q, 0, false, i);
        let x = |pos: int| quadrature_value(rys, omega, s, lt + 1, at_step(n, pos, k, 1));
        let y = |pos: int| quadrature_value(rys, omega, s, lt - 1, at_step(n, pos, k, -1));
        lemma_raised_scale(q, 0, i, x(0));
        lemma_raised_scale(q, 1, i, x(1));
        lemma_raised_scale(q, 2, i, x(2));
        lemma_raised_scale(q, 3, i, x(3));
        lemma_times_four(base, raised_values(rys, omega, s, lt, n, k));
        lemma_ring_factors(base, c(0), y(0));
        lemma_ring_factors(base, c(1), y(1));
        lemma_ring_factors(base, c(2), y(2));
        lemma_ring_factors(base, c(3), y(3));
        lemma_times_four(base, lowered_values(rys, omega, s, lt, n, k));
    }
    lemma_four_prims(q, g, h, m, 0, 0, 0);
    lemma_times_prims(q, c(0), down(0), m, 0, 0, 0);
    lemma_times_prims(q, c(1), down(1), m, 0, 0, 0);
    lemma_times_prims(q, c(2), down(2), m, 0, 0, 0);
    lemma_times_prims(q, c(3), down(3), m, 0, 0, 0);
    assert((|i: (int, int, int, int)| g(i).0) =~= up(0));
    assert((|i: (int, int, int, int)| g(i).1) =~= up(1));
    assert((|i: (int, int, int, int)| g(i).2) =~= up(2));
    assert((|i: (int, int, int, int)| g(i).3) =~= up(3));
    assert((|i: (int, int, int, int)| h(i).0) =~= low(0));
    assert((|i: (int, int, int, int)| h(i).1) =~= low(1));
    assert((|i: (int, int, int, int)| h(i).2) =~= low(2));
    assert((|i: (int, int, int, int)| h(i).3) =~= low(3));
}

} // verus!
