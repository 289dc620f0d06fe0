//! The repulsion attenuated by `erf(omega r)`.
//!
//! The kernel `erf(omega r)/r` is `2/sqrt(pi)` times the integral of `exp(-r^2 u^2)` over
//! `u` up to `omega`. The variable `u^2/(rho + u^2)` then runs up to
//! `s = omega^2/(rho + omega^2)` in place of one, which takes `F_m(t)` to
//! `s^(m+1/2) F_m(s t)`. The roots and weights of the quadrature have these moments.
use vstd::prelude::*;

use crate::engine::grid_pair::{point_ladder, GridPrim};
use crate::engine::pairs::{difference, square, Vec3};
use crate::engine::tower::Ladder;
use crate::engine::tower_contracted::Components;
use crate::engine::tower_roots::{has_quotients, moments, root_power, root_steps};
use crate::engine::tower_space::{is_whole, lemma_space_reads, space};
use crate::exact::{is_ring, lemma_ring_commute, lemma_ring_factors, lemma_ring_sums};
use crate::grad::quadrature::{
    lemma_value_is_tower, quadrature_value, rule_moments, rule_roots, rule_size, rule_weights,
    shape_of, Prims,
};
use crate::math::am::degree;
use crate::math::boys::{attenuated_ladder, half_power, ladder};
use crate::math::rys::{rys_root, rys_weight, RysTables};
use crate::scalar::{Real, Scalar};

verus! {

/// The moments of the plain quadrature at `t`, of the size that the total angular momentum
/// `lt` needs.
pub open spec fn plain_moments<T: Real>(rys: RysTables<T>, t: T, lt: int) -> Ladder<T> {
    moments(
        |r: int| rys_root(rys, rule_size(lt), t, r),
        |r: int| rys_weight(rys, rule_size(lt), t, r),
        rule_size(lt),
    )
}

/// The reduced exponent of four primitives, `pq/(p+q)`.
pub open spec fn reduced<T: Real>(s: Prims<T>) -> T {
    let (p, q) = (T::sum(s.0.exp, s.1.exp), T::sum(s.2.exp, s.3.exp));
    T::quot(T::prod(p, q), T::sum(p, q))
}

/// The end of the integral of the attenuated kernel, `omega^2/(rho + omega^2)`.
pub open spec fn reach<T: Real>(s: Prims<T>, omega: T) -> T {
    T::quot(T::prod(omega, omega), T::sum(reduced(s), T::prod(omega, omega)))
}

/// Powers of a product.
proof fn lemma_power_of_product<T: Scalar>(x: T, s: T, m: int)
    requires
        is_ring::<T>(),
    ensures
        root_power(T::prod(x, s), m) == T::prod(root_power(s, m), root_power(x, m)),
    decreases m,
{
    let one = T::count(1);
    if m <= 0 {
        lemma_ring_sums(one, one, one);
    } else {
        lemma_power_of_product(x, s, m - 1);
        let (p, q) = (root_power(s, m - 1), root_power(x, m - 1));
        lemma_ring_commute(x, s);
        lemma_ring_factors(s, x, T::prod(p, q));
        lemma_ring_factors(p, x, q);
        lemma_ring_factors(s, p, T::prod(x, q));
    }
}

/// Moments of roots that are scaled by `s` and weights that are scaled by `c`.
proof fn lemma_scaled_moments<T: Scalar>(
    root: spec_fn(int) -> T,
    weight: spec_fn(int) -> T,
    u: spec_fn(int) -> T,
    v: spec_fn(int) -> T,
    s: T,
    c: T,
    n: int,
    m: int,
)
    requires
        is_ring::<T>(),
        forall|r: int| 0 <= r < n ==> #[trigger] u(r) == T::prod(root(r), s),
        forall|r: int| 0 <= r < n ==> #[trigger] v(r) == T::prod(weight(r), c),
    ensures
        moments(u, v, n)(m) == T::prod(
            T::prod(root_power(s, m), c),
            moments(root, weight, n)(m),
        ),
    decreases n,
{
    let k = T::prod(root_power(s, m), c);
    if n <= 0 {
        lemma_ring_sums(k, k, k);
    } else {
        lemma_scaled_moments(root, weight, u, v, s, c, n - 1, m);
        let (x, w) = (root(n - 1), weight(n - 1));
        assert(u(n - 1) == T::prod(x, s) && v(n - 1) == T::prod(w, c));
        lemma_power_of_product(x, s, m);
        let (p, q) = (root_power(s, m), root_power(x, m));
        lemma_ring_commute(w, c);
        lemma_ring_factors(c, w, T::prod(p, q));
        lemma_ring_factors(p, w, q);
        lemma_ring_factors(p, c, T::prod(w, q));
        lemma_ring_factors(c, p, T::prod(w, q));
        assert(T::prod(v(n - 1), root_power(u(n - 1), m)) == T::prod(k, T::prod(w, q)));
        lemma_ring_factors(k, moments(root, weight, n - 1)(m), T::prod(w, q));
    }
}

/// The moments of the attenuated quadrature are those of the plain one at `s t`, times
/// `s^(m+1/2)`, in any commutative ring.
pub proof fn law_attenuated_moments<T: Real>(
    rys: RysTables<T>,
    prims: Prims<T>,
    omega: T,
    lt: int,
    m: int,
)
    requires
        is_ring::<T>(),
    ensures
        ({
            let s = reach(prims, omega);
            rule_moments(rys, shape_of(prims), Some(omega), lt)(m) == T::prod(
                T::prod(root_power(s, m), T::root(s)),
                plain_moments(rys, T::prod(s, shape_of(prims).t), lt)(m),
            )
        }),
{
    let g = shape_of(prims);
    let s = reach(prims, omega);
    let n = rule_size(lt);
    let st = T::prod(s, g.t);
    lemma_scaled_moments(
        |r: int| rys_root(rys, n, st, r),
        |r: int| rys_weight(rys, n, st, r),
        rule_roots(rys, g, Some(omega), lt),
        rule_weights(rys, g, Some(omega), lt),
        s,
        T::root(s),
        n,
        m,
    );
}

/// The half-integer power is the whole power times the root.
proof fn lemma_half_power<T: Real>(s: T, m: int)
    requires
        is_ring::<T>(),
    ensures
        half_power(s, m) == T::prod(root_power(s, m), T::root(s)),
    decreases m,
{
    let c = T::root(s);
    lemma_ring_sums(c, c, c);
    if m > 0 {
        lemma_half_power(s, m - 1);
        let p = root_power(s, m - 1);
        lemma_ring_commute(T::prod(p, c), s);
        lemma_ring_factors(s, p, c);
    }
}

/// Whether the plain quadrature at `t` reproduces the moments that the total angular
/// momentum `lt` needs.
pub open spec fn has_plain_moments<T: Real>(rys: RysTables<T>, t: T, lt: int) -> bool {
    forall|m: int| 0 <= m <= lt ==> #[trigger] plain_moments(rys, t, lt)(m) == ladder(lt, t, m)
}

/// Where the plain quadrature reproduces the Boys functions at `s t`, the attenuated one
/// reproduces those of the attenuated kernel.
pub proof fn law_attenuated_moments_are_the_attenuated_ladder<T: Real>(
    rys: RysTables<T>,
    prims: Prims<T>,
    omega: T,
    lt: int,
    m: int,
)
    requires
        is_ring::<T>(),
        has_plain_moments(rys, T::prod(reach(prims, omega), shape_of(prims).t), lt),
        0 <= m <= lt,
    ensures
        rule_moments(rys, shape_of(prims), Some(omega), lt)(m) == attenuated_ladder(
            lt,
            shape_of(prims).t,
            reduced(prims),
            omega,
            m,
        ),
{
    let s = reach(prims, omega);
    let st = T::prod(s, shape_of(prims).t);
    law_attenuated_moments(rys, prims, omega, lt, m);
    assert(plain_moments(rys, st, lt)(m) == ladder(lt, st, m));
    lemma_half_power(s, m);
    lemma_ring_commute(half_power(s, m), ladder(lt, st, m));
}

/// The attenuated integral of four primitives is what the recurrences make of the
/// attenuated ladder, where the plain quadrature reproduces the Boys functions.
pub proof fn law_attenuated_integral<T: Real>(
    rys: RysTables<T>,
    prims: Prims<T>,
    omega: T,
    lt: int,
    n: Components,
)
    requires
        is_ring::<T>(),
        has_quotients(shape_of(prims)),
        has_plain_moments(rys, T::prod(reach(prims, omega), shape_of(prims).t), lt),
        is_whole(n.0) && is_whole(n.1) && is_whole(n.2) && is_whole(n.3),
        degree(n.0) + degree(n.1) + degree(n.2) + degree(n.3) == lt,
    ensures
        quadrature_value(rys, Some(omega), prims, lt, n) == T::prod(
            shape_of(prims).pref,
            space(
                root_steps(shape_of(prims)),
                |m: int|
                    attenuated_ladder(lt, shape_of(prims).t, reduced(prims), omega, m),
                n.0,
                n.1,
                n.2,
                n.3,
            )(0),
        ),
{
    let g = shape_of(prims);
    let u = rule_moments(rys, g, Some(omega), lt);
    let v = |m: int| attenuated_ladder(lt, g.t, reduced(prims), omega, m);
    assert forall|m: int| 0 <= m <= lt implies #[trigger] u(m) == v(m) by {
        law_attenuated_moments_are_the_attenuated_ladder(rys, prims, omega, lt, m);
    }
    lemma_space_reads(root_steps(g), u, v, n.0, n.1, n.2, n.3, lt);
    lemma_value_is_tower(rys, Some(omega), prims, lt, n);
}

/// The attenuated potential of a point has the ladder of the plain one at `s u`, times
/// `s^(m+1/2)`, with `s = omega^2/(p + omega^2)` and `u = p |P-C|^2`: that of the repulsion
/// by a charge without extent, for which the reduced exponent is `p`.
pub proof fn law_attenuated_potential<T: Real>(
    q: GridPrim<T>,
    c: Vec3<T>,
    omega: T,
    lt: int,
    m: int,
)
    requires
        is_ring::<T>(),
        0 <= m <= lt,
    ensures
        ({
            let s = T::quot(T::prod(omega, omega), T::sum(q.p, T::prod(omega, omega)));
            let u = T::prod(q.p, square(difference(q.p_center, c)));
            point_ladder(q, c, Some(omega), lt)[m] == T::prod(
                q.pref,
                T::prod(
                    T::prod(root_power(s, m), T::root(s)),
                    ladder(lt, T::prod(s, u), m),
                ),
            )
        }),
{
    let s = T::quot(T::prod(omega, omega), T::sum(q.p, T::prod(omega, omega)));
    let u = T::prod(q.p, square(difference(q.p_center, c)));
    lemma_half_power(s, m);
    lemma_ring_commute(half_power(s, m), ladder(lt, T::prod(s, u), m));
}

} // verus!
