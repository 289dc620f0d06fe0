//! The recurrence engine and the quadrature agree where the moments of the quadrature are
//! the values of the ladder.
use vstd::prelude::*;

use crate::engine::os_eri::MAX_L;
use crate::engine::pairs::{
    difference, header_of, input_of, ladder_of, prim_pair, shell_pairs, PrimPair,
};
use crate::engine::rys::{lemma_quartet_sizes, quadruple_at, root_count, Geometry};
use crate::engine::tower::{lemma_tower_of_multiple, times, Ladder};
use crate::engine::tower_contracted::{
    lemma_contracted_sum, primitive_value, quartet_sum, Components,
};
use crate::engine::tower_quartet::{divides, double};
use crate::engine::tower_roots::{has_quotients, lemma_quotient, root_steps};
use crate::engine::tower_space::{
    along, is_whole, lemma_space_reads, quartet_base, quartet_steps, space, Steps,
};
use crate::exact::{
    halves_exactly, is_ring, lemma_ring_commute, lemma_ring_difference, lemma_ring_factors,
    lemma_ring_negatives, lemma_ring_sums,
};
use crate::flat::{lemma_pair_in_range, lemma_pair_parts, lemma_quad_index, pair, quad_parts};
use crate::grad::quadrature::{
    are_primitives, is_among, lemma_repelled_entry, lemma_value_is_tower, prims_at, prims_sum,
    quadrature_value, rule_moments, rule_roots, rule_size, rule_weights, shape_of, Prims,
};
use crate::grad::repulsion::{are_components, keeps_all, lemma_shell_pairs, pair_of, total_momentum};
use crate::integrals::Engine;
use crate::math::am::{cart_count, degree, law_every_position_is_taken};
use crate::math::boys::ladder;
use crate::math::rys::RysTables;
use crate::quartet::{
    cart_block, cart_size, coefficient_at, lemma_quadrature_len, primitives_at, quadrature,
    quadrature_block, recurrence_entry, Four, ShellView,
};
use crate::scalar::{fraction, Real, Scalar};

verus! {

/// The product of two primitives as a pair.
pub open spec fn joined<T: Real>(s: Prims<T>, ket: bool, c1: T, c2: T) -> PrimPair<T> {
    if ket {
        prim_pair(s.2.center, s.2.exp, c1, s.3.center, s.3.exp, c2)
    } else {
        prim_pair(s.0.center, s.0.exp, c1, s.1.center, s.1.exp, c2)
    }
}

/// The displacement of the weighted center from one of its points.
proof fn lemma_drift<T: Scalar>(p: T, x: T, q: T, y: T, s: T)
    requires
        is_ring::<T>(),
        s == T::sum(p, q),
        divides(s),
    ensures
        ({
            let w = T::quot(T::sum(T::prod(p, x), T::prod(q, y)), s);
            &&& T::diff(w, x) == T::neg(T::prod(T::quot(q, s), T::diff(x, y)))
            &&& T::diff(w, y) == T::prod(T::quot(p, s), T::diff(x, y))
        }),
{
    let z = T::sum(T::prod(p, x), T::prod(q, y));
    let w = T::quot(z, s);
    let i = T::quot(T::count(1), s);
    lemma_quotient(z, s);
    lemma_quotient(q, s);
    lemma_quotient(p, s);
    lemma_ring_sums(p, q, q);
    lemma_ring_sums(T::prod(p, x), T::prod(q, y), q);
    lemma_displaced(p, x, q, y, s, i);
    lemma_displaced(q, y, p, x, s, i);
    let d = T::diff(x, y);
    // The displacements in both directions are opposite.
    lemma_ring_negatives(x, y);
    lemma_ring_negatives(y, x);
    lemma_ring_negatives(x, T::neg(y));
    lemma_ring_sums(T::neg(x), y, y);
    lemma_ring_negatives(T::prod(i, q), d);
    assert(T::diff(y, x) == T::neg(d));
}

/// The center of two weighted points, less the first, by the reciprocal of the weight.
proof fn lemma_displaced<T: Scalar>(p: T, x: T, q: T, y: T, s: T, i: T)
    requires
        is_ring::<T>(),
        s == T::sum(p, q),
        T::prod(i, s) == T::count(1),
    ensures
        T::diff(T::prod(i, T::sum(T::prod(p, x), T::prod(q, y))), x) == T::prod(
            T::prod(i, q),
            T::diff(y, x),
        ),
{
    let (px, qy, qx) = (T::prod(p, x), T::prod(q, y), T::prod(q, x));
    let z = T::sum(px, qy);
    // x == i (p x + q x)
    lemma_ring_factors(i, s, x);
    lemma_ring_sums(x, x, x);
    lemma_ring_commute(s, x);
    lemma_ring_factors(x, p, q);
    lemma_ring_commute(x, p);
    lemma_ring_commute(x, q);
    assert(x == T::prod(i, T::sum(px, qx)));
    lemma_ring_difference(i, z, T::sum(px, qx));
    // (p x + q y) - (p x + q x) == q (y - x)
    let (mp, mq) = (T::neg(px), T::neg(qx));
    lemma_ring_negatives(z, T::sum(px, qx));
    lemma_ring_negatives(px, qx);
    lemma_ring_sums(z, mp, mq);
    lemma_ring_sums(px, qy, mp);
    lemma_ring_sums(qy, qy, qy);
    lemma_ring_negatives(qy, qx);
    lemma_ring_difference(q, y, x);
    lemma_ring_factors(i, q, T::diff(y, x));
}

/// Half of a reciprocal is the reciprocal of the double.
proof fn lemma_halved<T: Scalar>(p: T)
    requires
        is_ring::<T>(),
        halves_exactly::<T>(),
        divides(p),
        divides(double(p)),
    ensures
        T::quot(fraction::<T>(1, 2), p) == T::quot(T::count(1), double(p)),
{
    let half = fraction::<T>(1, 2);
    let two = T::count(2);
    let h = T::quot(half, p);
    assert(T::prod(p, h) == half);
    lemma_ring_factors(two, p, h);
    lemma_ring_commute(two, half);
    assert(T::prod(double(p), h) == T::count(1));
    let i = T::quot(T::count(1), double(p));
    lemma_quotient(h, double(p));
    lemma_ring_factors(i, double(p), h);
    lemma_ring_sums(h, h, h);
    lemma_ring_commute(i, T::count(1));
    lemma_ring_sums(i, i, i);
}

/// Both engines take the same steps.
proof fn lemma_same_steps<T: Real>(s: Prims<T>, bra: PrimPair<T>, ket: PrimPair<T>)
    requires
        is_ring::<T>(),
        halves_exactly::<T>(),
        has_quotients(shape_of(s)),
        bra == joined(s, false, bra.c1, bra.c2),
        ket == joined(s, true, ket.c1, ket.c2),
    ensures
        forall|k: int|
            0 <= k < 3 ==> #[trigger] quartet_steps(
                input_of(bra, ket),
                difference(s.0.center, s.1.center),
                difference(s.2.center, s.3.center),
            )(k) == root_steps(shape_of(s))(k),
{
    let g = shape_of(s);
    lemma_halved(g.p);
    lemma_halved(g.q);
    lemma_halved(g.pq);
    let x = quartet_steps(
        input_of(bra, ket),
        difference(s.0.center, s.1.center),
        difference(s.2.center, s.3.center),
    );
    assert forall|k: int| 0 <= k < 3 implies #[trigger] x(k) == root_steps(g)(k) by {
        lemma_drift(g.p, bra.center[k], g.q, ket.center[k], g.pq);
        let h = header_of(bra, ket);
        assert(g.pq_vec[k] == T::diff(bra.center[k], ket.center[k]));
        assert(x(k).bra == root_steps(g)(k).bra);
        assert(x(k).ket == root_steps(g)(k).ket);
    }
}

/// The towers over a multiple of a ladder.
proof fn lemma_space_of_multiple<T: Scalar>(x: Steps<T>, s: T, v: Ladder<T>, n: Components)
    requires
        is_ring::<T>(),
    ensures
        space(x, times(s, v), n.0, n.1, n.2, n.3) == times(s, space(x, v, n.0, n.1, n.2, n.3)),
{
    let (a, b, c, d) = n;
    let v2 = along(x, v, a, b, c, d, 2);
    let v1 = along(x, v2, a, b, c, d, 1);
    lemma_tower_of_multiple(x(2), s, v, a.2, b.2, c.2, d.2);
    lemma_tower_of_multiple(x(1), s, v2, a.1, b.1, c.1, d.1);
    lemma_tower_of_multiple(x(0), s, v1, a.0, b.0, c.0, d.0);
}

/// Whether the moments of the quadrature of four primitives are the values of the ladder.
pub open spec fn has_ladder_moments<T: Real>(
    rys: RysTables<T>,
    g: Geometry<T>,
    lt: int,
) -> bool {
    forall|m: int|
        0 <= m <= lt ==> #[trigger] rule_moments(rys, g, None, lt)(m) == ladder(lt, g.t, m)
}

/// Both engines give the same integral of four primitives.
proof fn lemma_primitives_agree<T: Real>(
    rys: RysTables<T>,
    s: Prims<T>,
    bra: PrimPair<T>,
    ket: PrimPair<T>,
    lt: int,
    n: Components,
)
    requires
        is_ring::<T>(),
        halves_exactly::<T>(),
        has_quotients(shape_of(s)),
        has_ladder_moments(rys, shape_of(s), lt),
        bra == joined(s, false, bra.c1, bra.c2),
        ket == joined(s, true, ket.c1, ket.c2),
        is_whole(n.0) && is_whole(n.1) && is_whole(n.2) && is_whole(n.3),
        degree(n.0) + degree(n.1) + degree(n.2) + degree(n.3) == lt,
    ensures
        primitive_value(
            bra,
            ket,
            lt,
            difference(s.0.center, s.1.center),
            difference(s.2.center, s.3.center),
            n,
        ) == quadrature_value(rys, None, s, lt, n),
{
    let g = shape_of(s);
    let y = input_of(bra, ket);
    let (ab, cd) = (
        difference(s.0.center, s.1.center),
        difference(s.2.center, s.3.center),
    );
    let x = quartet_steps(y, ab, cd);
    let z = root_steps(g);
    let fm = ladder_of(bra, ket, lt);
    let u = |m: int| fm[m];
    let w = rule_moments(rys, g, None, lt);
    lemma_same_steps(s, bra, ket);
    assert(quartet_base(y, fm) =~= times(g.pref, u));
    assert(x(0) == z(0) && x(1) == z(1) && x(2) == z(2));
    assert(space(x, quartet_base(y, fm), n.0, n.1, n.2, n.3) == space(
        z,
        times(g.pref, u),
        n.0,
        n.1,
        n.2,
        n.3,
    ));
    lemma_space_of_multiple(z, g.pref, u, n);
    assert forall|m: int| 0 <= m <= lt implies #[trigger] u(m) == w(m) by {
        assert(rule_moments(rys, g, None, lt)(m) == ladder(lt, g.t, m));
    }
    lemma_space_reads(z, u, w, n.0, n.1, n.2, n.3, lt);
    lemma_value_is_tower(rys, None, s, lt, n);
}

/// An entry of a block by quadrature, over the primitive quartets before `(a, b, c, d)`.
pub proof fn lemma_block_sum<T: Real>(
    rys: RysTables<T>,
    q: Four<T>,
    omega: Option<T>,
    k: int,
    a: int,
    b: int,
    c: int,
    d: int,
)
    requires
        is_ring::<T>(),
        0 <= q.0.0 <= MAX_L && 0 <= q.1.0 <= MAX_L && 0 <= q.2.0 <= MAX_L && 0 <= q.3.0 <= MAX_L,
        0 <= k < cart_size(q),
    ensures
        ({
            let n = quadruple_at(q.0.0, q.1.0, q.2.0, q.3.0, k);
            let g = |i: (int, int, int, int)|
                T::prod(
                    coefficient_at(q, i.0, i.1, i.2, i.3),
                    quadrature_value(rys, omega, prims_at(q, i), total_momentum(q), n),
                );
            quadrature_block(rys, q, omega, a, b, c, d)[k] == prims_sum(q, g, a, b, c, d)
        }),
    decreases a, b, c, d,
{
    if d > 0 {
        lemma_block_sum(rys, q, omega, k, a, b, c, d - 1);
        let s = primitives_at(q, a, b, c, d - 1);
        let scale = coefficient_at(q, a, b, c, d - 1);
        let old = quadrature_block(rys, q, omega, a, b, c, d - 1);
        let n = root_count(s.0.l as int, s.1.l as int, s.2.l as int, s.3.l as int);
        lemma_quadrature_len(rys, q, omega, a, b, c, d - 1);
        lemma_repelled_entry(rys, old, s, omega, scale, n, k);
        let g = shape_of(s);
        let lt = total_momentum(q);
        let z = crate::engine::tower_roots::quadrature(
            g,
            rule_roots(rys, g, omega, lt),
            rule_weights(rys, g, omega, lt),
            quadruple_at(q.0.0, q.1.0, q.2.0, q.3.0, k),
            rule_size(lt),
        );
        lemma_ring_factors(scale, g.pref, z);
        assert(prims_at(q, (a, b, c, d - 1)) == s);
    } else if c > 0 {
        lemma_block_sum(rys, q, omega, k, a, b, c - 1, q.3.1.2.len() as int);
    } else if b > 0 {
        lemma_block_sum(rys, q, omega, k, a, b - 1, q.2.1.2.len() as int, 0);
    } else if a > 0 {
        lemma_block_sum(rys, q, omega, k, a - 1, q.1.1.2.len() as int, 0, 0);
    }
}

/// Whether a shell has a coefficient for every exponent and a supported angular momentum.
pub open spec fn is_supported<T>(s: ShellView<T>) -> bool {
    0 <= s.0 <= MAX_L && s.1.1.len() == s.1.2.len()
}

/// Whether both engines are exact for a quartet: no primitive pair is dropped, the sums of
/// exponents can be divided by and the moments of the quadrature are the values of the
/// ladder.
pub open spec fn has_both_engines<T: Real>(rys: RysTables<T>, q: Four<T>) -> bool {
    &&& is_supported(q.0) && is_supported(q.1) && is_supported(q.2) && is_supported(q.3)
    &&& keeps_all(q.0.1, q.1.1)
    &&& keeps_all(q.2.1, q.3.1)
    &&& forall|i: (int, int, int, int)| #[trigger]
        are_primitives(q, i) ==> has_quotients(shape_of(prims_at(q, i))) && has_ladder_moments(
            rys,
            shape_of(prims_at(q, i)),
            total_momentum(q),
        )
}

/// The sum over the pairs of primitives is that over the primitives.
#[verifier::spinoff_prover]
#[verifier::rlimit(40)]
proof fn lemma_sums_agree<T: Real>(
    rys: RysTables<T>,
    q: Four<T>,
    n: Components,
    a: int,
    b: int,
    c: int,
    d: int,
)
    requires
        is_ring::<T>(),
        halves_exactly::<T>(),
        has_both_engines(rys, q),
        are_components((q.0.0, q.1.0, q.2.0, q.3.0), n),
        is_among(q, a, b, c, d),
    ensures
        ({
            let (bras, kets) = (shell_pairs(q.0.1, q.1.1), shell_pairs(q.2.1, q.3.1));
            let (ab, cd) = (difference(q.0.1.0, q.1.1.0), difference(q.2.1.0, q.3.1.0));
            let lt = total_momentum(q);
            let g = |i: (int, int, int, int)|
                T::prod(
                    coefficient_at(q, i.0, i.1, i.2, i.3),
                    quadrature_value(rys, None, prims_at(q, i), lt, n),
                );
            quartet_sum(
                bras,
                kets,
                |i: int, j: int| primitive_value(bras[i], kets[j], lt, ab, cd, n),
                pair(a, q.1.1.2.len() as int, b),
                pair(c, q.3.1.2.len() as int, d),
            ) == prims_sum(q, g, a, b, c, d)
        }),
    decreases a, b, c, d,
{
    let (bras, kets) = (shell_pairs(q.0.1, q.1.1), shell_pairs(q.2.1, q.3.1));
    let (ab, cd) = (difference(q.0.1.0, q.1.1.0), difference(q.2.1.0, q.3.1.0));
    let lt = total_momentum(q);
    let f = |i: int, j: int| primitive_value(bras[i], kets[j], lt, ab, cd, n);
    let (n0, n1) = (q.0.1.2.len() as int, q.1.1.2.len() as int);
    let (n2, n3) = (q.2.1.2.len() as int, q.3.1.2.len() as int);
    lemma_shell_pairs(q.0.1, q.1.1);
    lemma_shell_pairs(q.2.1, q.3.1);
    let (ib, ik) = (pair(a, n1, b), pair(c, n3, d));
    assert(0 * n1 == 0 && 0 * n3 == 0) by (nonlinear_arith);
    if d > 0 {
        lemma_sums_agree(rys, q, n, a, b, c, d - 1);
        let i = (a, b, c, d - 1);
        assert(are_primitives(q, i));
        lemma_pair_in_range(a, n0, n1, b);
        lemma_pair_in_range(c, n2, n3, d - 1);
        lemma_pair_parts(a, n1, b);
        lemma_pair_parts(c, n3, d - 1);
        let (bra, ket) = (bras[ib], kets[ik - 1]);
        assert(ik - 1 == pair(c, n3, d - 1));
        assert(bra == pair_of(q.0.1, q.1.1, ib) && ket == pair_of(q.2.1, q.3.1, ik - 1));
        lemma_primitives_agree(rys, prims_at(q, i), bra, ket, lt, n);
    } else if c > 0 {
        lemma_sums_agree(rys, q, n, a, b, c - 1, n3);
        assert(pair(c - 1, n3, n3) == pair(c, n3, 0)) by (nonlinear_arith)
            requires
                pair(c - 1, n3, n3) == (c - 1) * n3 + n3,
                pair(c, n3, 0) == c * n3 + 0,
        ;
    } else if b > 0 {
        lemma_sums_agree(rys, q, n, a, b - 1, n2, 0);
        assert(pair(0, n3, 0) == 0);
        assert(pair(n2, n3, 0) == kets.len());
        assert(pair(a, n1, b - 1) == ib - 1);
        lemma_pair_in_range(a, n0, n1, b - 1);
    } else if a > 0 {
        lemma_sums_agree(rys, q, n, a - 1, n1, 0, 0);
        assert(pair(a - 1, n1, n1) == pair(a, n1, 0)) by (nonlinear_arith)
            requires
                pair(a - 1, n1, n1) == (a - 1) * n1 + n1,
                pair(a, n1, 0) == a * n1 + 0,
        ;
    } else {
        assert(pair(0, n1, 0) == 0);
        assert(pair(0, n3, 0) == 0);
    }
}

/// The block of four shells does not depend on the engine where both are exact, in any
/// commutative ring in which twice a half is one.
pub proof fn law_engines_agree<T: Real>(rys: RysTables<T>, one: Engine, other: Engine, q: Four<T>)
    requires
        is_ring::<T>(),
        halves_exactly::<T>(),
        has_both_engines(rys, q),
    ensures
        cart_block(rys, one, None, q) == cart_block(rys, other, None, q),
{
    let (la, lb, lc, ld) = (q.0.0, q.1.0, q.2.0, q.3.0);
    lemma_quartet_sizes(la, lb, lc, ld);
    let m = q.0.1.2.len() as int;
    let by_ladder = Seq::new(
        cart_size(q) as nat,
        |k: int| T::sum(T::count(0), recurrence_entry(q, k)),
    );
    let by_rule = quadrature(rys, q, None);
    lemma_quadrature_len(rys, q, None, m, 0, 0, 0);
    assert forall|k: int| 0 <= k < cart_size(q) implies #[trigger] by_ladder[k] == by_rule[k] by {
        let n = quadruple_at(la, lb, lc, ld, k);
        lemma_quad_index(k, cart_count(la), cart_count(lb), cart_count(lc), cart_count(ld));
        let p = quad_parts(k, cart_count(lb), cart_count(lc), cart_count(ld));
        law_every_position_is_taken(la, p.0);
        law_every_position_is_taken(lb, p.1);
        law_every_position_is_taken(lc, p.2);
        law_every_position_is_taken(ld, p.3);
        let (bras, kets) = (shell_pairs(q.0.1, q.1.1), shell_pairs(q.2.1, q.3.1));
        lemma_contracted_sum(
            bras,
            kets,
            la + lb,
            lc + ld,
            difference(q.0.1.0, q.1.1.0),
            difference(q.2.1.0, q.3.1.0),
            n,
        );
        lemma_shell_pairs(q.0.1, q.1.1);
        lemma_sums_agree(rys, q, n, m, 0, 0, 0);
        assert(pair(m, q.1.1.2.len() as int, 0) == bras.len());
        assert(pair(0, q.3.1.2.len() as int, 0) == 0);
        lemma_block_sum(rys, q, None, k, m, 0, 0, 0);
        let v = recurrence_entry(q, k);
        lemma_ring_sums(v, v, v);
    }
    assert(by_ladder =~= by_rule);
}

} // verus!
