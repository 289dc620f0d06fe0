//! The derivatives of repulsion integrals with respect to the four centers add up to
//! zero, by the recurrence engine.
use vstd::prelude::*;

use crate::engine::invariance::has_product;
use crate::engine::os_eri::{eri_value, MAX_L};
use crate::engine::pairs::{
    difference, dropped, header_of, input_of, kept_pairs, ladder_of, prim_pair, shell_pairs,
    Contraction, PrimPair,
};
use crate::engine::tower::Ladder;
use crate::engine::tower_contracted::{
    are_reweighted, is_before, is_reweighted, lemma_contracted_sum, lemma_empty_sum,
    lemma_four_sums, lemma_reweighted_sum, lemma_times_sum, primitive_value, quartet_sum,
    sum_of_four, Components,
};
use crate::engine::tower_quartet::{
    double, lemma_quartet_weighs, lemma_space_invariant, lowered_space,
};
use crate::engine::tower_space::{
    is_whole, lemma_space_reads, quartet_base, quartet_steps, space, Steps,
};
use crate::engine::triples::{power, shifted};
use crate::exact::{
    counts_exactly, is_ring, lemma_ring_commute, lemma_ring_factors, lemma_ring_sums,
};
use crate::flat::{lemma_index_parts, lemma_pair_parts, pair};
use crate::grad::quartet::{momenta_of, replaced, shifted_momentum, weighted};
use crate::math::am::{degree, is_component};
use crate::math::boys::ladder;
use crate::quartet::{Four, ShellView};
use crate::scalar::{Real, Scalar};
use crate::tensor::nth;

verus! {

/// Whether no primitive pair of two shells is dropped.
pub open spec fn keeps_all<T: Real>(s1: Contraction<T>, s2: Contraction<T>) -> bool {
    forall|i: int, j: int|
        0 <= i < s1.1.len() && 0 <= j < s2.1.len() ==> !dropped(
            #[trigger] prim_pair(s1.0, s1.1[i], s1.2[i], s2.0, s2.1[j], s2.2[j]),
        )
}

/// A shell with its coefficients times twice the exponents.
pub open spec fn steepened<T: Real>(s: ShellView<T>) -> Contraction<T> {
    (s.1.0, s.1.1, weighted(s))
}

/// Whether a shell is constant in space: all its exponents are zero.
pub open spec fn is_flat<T: Real>(s: ShellView<T>) -> bool {
    forall|i: int| 0 <= i < s.1.1.len() ==> #[trigger] s.1.1[i] == T::count(0)
}

/// Whether all primitive pairs of two shells are kept, also with the one or the other
/// weighted. A constant shell is weighted to nothing, whose pairs may be dropped.
pub open spec fn keeps_weighted<T: Real>(a: ShellView<T>, b: ShellView<T>) -> bool {
    &&& keeps_all(a.1, b.1)
    &&& is_flat(a) || keeps_all(steepened(a), b.1)
    &&& is_flat(b) || keeps_all(a.1, steepened(b))
}

/// Whether the sums of the exponents of four primitives can be divided by.
pub open spec fn have_sums<T: Scalar>(a: T, b: T, c: T, d: T) -> bool {
    has_product(a, b) && has_product(c, d) && has_product(T::sum(a, b), T::sum(c, d))
}

/// Whether the ladder of a primitive quartet does not depend on how far it is built: those
/// up to the orders `lt - 1` and `lt + 1` agree.
pub open spec fn is_steady<T: Real>(bra: PrimPair<T>, ket: PrimPair<T>, lt: int) -> bool {
    forall|m: int|
        0 <= m < lt ==> #[trigger] ladder(lt + 1, header_of(bra, ket).t, m) == ladder(
            lt - 1,
            header_of(bra, ket).t,
            m,
        )
}

/// The angular momentum of a quartet.
pub open spec fn total_momentum<T>(q: Four<T>) -> int {
    q.0.0 + q.1.0 + q.2.0 + q.3.0
}

/// Whether a shell has a coefficient for every exponent, and can be differentiated.
pub open spec fn is_complete<T>(s: ShellView<T>) -> bool {
    0 <= s.0 < MAX_L && s.1.1.len() == s.1.2.len()
}

/// Whether nothing of a quartet is dropped, its exponents can be divided by and its
/// ladders do not depend on how far they are built.
pub open spec fn is_regular<T: Real>(q: Four<T>) -> bool {
    &&& is_complete(q.0) && is_complete(q.1) && is_complete(q.2) && is_complete(q.3)
    &&& keeps_weighted(q.0, q.1)
    &&& keeps_weighted(q.2, q.3)
    &&& forall|i: int, j: int, k: int, l: int|
        0 <= i < q.0.1.1.len() && 0 <= j < q.1.1.1.len() && 0 <= k < q.2.1.1.len() && 0 <= l
            < q.3.1.1.len() ==> #[trigger] have_sums(
            q.0.1.1[i],
            q.1.1.1[j],
            q.2.1.1[k],
            q.3.1.1[l],
        )
    &&& forall|i: int, j: int|
        0 <= i < shell_pairs(q.0.1, q.1.1).len() && 0 <= j < shell_pairs(q.2.1, q.3.1).len()
            ==> #[trigger] is_steady(
            shell_pairs(q.0.1, q.1.1)[i],
            shell_pairs(q.2.1, q.3.1)[j],
            total_momentum(q),
        )
}

/// The pair of two shells with number `n`.
pub open spec fn pair_of<T: Real>(s1: Contraction<T>, s2: Contraction<T>, n: int) -> PrimPair<T> {
    let (i, j) = (n / s2.1.len() as int, n % s2.1.len() as int);
    prim_pair(s1.0, s1.1[i], s1.2[i], s2.0, s2.1[j], s2.2[j])
}

/// Where nothing is dropped all pairs are kept, in order.
proof fn lemma_all_kept<T: Real>(s1: Contraction<T>, s2: Contraction<T>, i: int, j: int)
    requires
        keeps_all(s1, s2),
        s1.1.len() == s1.2.len(),
        s2.1.len() == s2.2.len(),
        is_before(s1.1.len() as int, s2.1.len() as int, i, j),
    ensures
        kept_pairs(s1, s2, i, j).len() == pair(i, s2.1.len() as int, j),
        forall|n: int|
            0 <= n < pair(i, s2.1.len() as int, j) ==> #[trigger] kept_pairs(s1, s2, i, j)[n]
                == pair_of(s1, s2, n),
    decreases i, j,
{
    let w = s2.1.len() as int;
    if j > 0 {
        lemma_all_kept(s1, s2, i, j - 1);
        lemma_pair_parts(i, w, j - 1);
        let p = prim_pair(s1.0, s1.1[i], s1.2[i], s2.0, s2.1[j - 1], s2.2[j - 1]);
        assert(!dropped(p));
        assert(p == pair_of(s1, s2, pair(i, w, j - 1)));
    } else if i > 0 {
        lemma_all_kept(s1, s2, i - 1, w);
        assert(pair(i - 1, w, w) == pair(i, w, 0)) by (nonlinear_arith)
            requires
                pair(i - 1, w, w) == (i - 1) * w + w,
                pair(i, w, 0) == i * w + 0,
        ;
    } else {
        assert(pair(0, w, 0) == 0);
    }
}

/// The pairs of two shells of which none is dropped.
pub proof fn lemma_shell_pairs<T: Real>(s1: Contraction<T>, s2: Contraction<T>)
    requires
        keeps_all(s1, s2),
        s1.1.len() == s1.2.len(),
        s2.1.len() == s2.2.len(),
    ensures
        shell_pairs(s1, s2).len() == s1.1.len() * s2.1.len(),
        forall|n: int|
            0 <= n < s1.1.len() * s2.1.len() ==> #[trigger] shell_pairs(s1, s2)[n] == pair_of(
                s1,
                s2,
                n,
            ),
{
    lemma_all_kept(s1, s2, s1.1.len() as int, 0);
}

/// A pair with the first shell weighted.
proof fn lemma_first_weighted<T: Real>(a: ShellView<T>, b: ShellView<T>, n: int)
    requires
        is_ring::<T>(),
        is_complete(a),
        is_complete(b),
        keeps_all(a.1, b.1),
        keeps_all(steepened(a), b.1),
        0 <= n < shell_pairs(a.1, b.1).len(),
    ensures
        shell_pairs(steepened(a), b.1).len() == shell_pairs(a.1, b.1).len(),
        is_reweighted(
            shell_pairs(a.1, b.1)[n],
            shell_pairs(steepened(a), b.1)[n],
            double(a.1.1[n / b.1.1.len() as int]),
        ),
{
    lemma_shell_pairs(a.1, b.1);
    lemma_shell_pairs(steepened(a), b.1);
    let (na, nb) = (a.1.1.len() as int, b.1.1.len() as int);
    lemma_index_parts(n, na, nb);
    let (i, j) = (n / nb, n % nb);
    let (c, d, e) = (a.1.2[i], b.1.2[j], a.1.1[i]);
    let two = T::count(2);
    lemma_ring_factors(c, two, e);
    lemma_ring_commute(c, T::prod(two, e));
    lemma_ring_factors(T::prod(two, e), c, d);
}

/// A pair with the second shell weighted.
proof fn lemma_second_weighted<T: Real>(a: ShellView<T>, b: ShellView<T>, n: int)
    requires
        is_ring::<T>(),
        is_complete(a),
        is_complete(b),
        keeps_all(a.1, b.1),
        keeps_all(a.1, steepened(b)),
        0 <= n < shell_pairs(a.1, b.1).len(),
    ensures
        shell_pairs(a.1, steepened(b)).len() == shell_pairs(a.1, b.1).len(),
        is_reweighted(
            shell_pairs(a.1, b.1)[n],
            shell_pairs(a.1, steepened(b))[n],
            double(b.1.1[n % b.1.1.len() as int]),
        ),
{
    lemma_shell_pairs(a.1, b.1);
    lemma_shell_pairs(a.1, steepened(b));
    let (na, nb) = (a.1.1.len() as int, b.1.1.len() as int);
    lemma_index_parts(n, na, nb);
    let (i, j) = (n / nb, n % nb);
    let (c, d, e) = (a.1.2[i], b.1.2[j], b.1.1[j]);
    let two = T::count(2);
    lemma_ring_factors(d, two, e);
    lemma_ring_commute(d, T::prod(two, e));
    lemma_ring_factors(T::prod(two, e), c, d);
}

/// The pairs of a constant shell, weighted, have a coefficient of zero.
proof fn lemma_flat_pairs<T: Real>(
    s1: Contraction<T>,
    s2: Contraction<T>,
    first: bool,
    i: int,
    j: int,
)
    requires
        is_ring::<T>(),
        s1.1.len() == s1.2.len(),
        s2.1.len() == s2.2.len(),
        is_before(s1.1.len() as int, s2.1.len() as int, i, j),
        forall|n: int| first && 0 <= n < s1.2.len() ==> #[trigger] s1.2[n] == T::count(0),
        forall|n: int| !first && 0 <= n < s2.2.len() ==> #[trigger] s2.2[n] == T::count(0),
    ensures
        forall|n: int|
            0 <= n < kept_pairs(s1, s2, i, j).len() ==> T::prod(
                (#[trigger] kept_pairs(s1, s2, i, j)[n]).c1,
                kept_pairs(s1, s2, i, j)[n].c2,
            ) == T::count(0),
    decreases i, j,
{
    if j > 0 {
        lemma_flat_pairs(s1, s2, first, i, j - 1);
        let (c, d) = (s1.2[i], s2.2[j - 1]);
        lemma_ring_sums(c, c, c);
        lemma_ring_sums(d, d, d);
        lemma_ring_commute(c, d);
        let old = kept_pairs(s1, s2, i, j - 1);
        let new = kept_pairs(s1, s2, i, j);
        assert forall|n: int| 0 <= n < new.len() implies T::prod(
            (#[trigger] new[n]).c1,
            new[n].c2,
        ) == T::count(0) by {
            if n < old.len() {
                assert(new[n] == old[n]);
            }
        }
    } else if i > 0 {
        lemma_flat_pairs(s1, s2, first, i - 1, s2.1.len() as int);
        assert(kept_pairs(s1, s2, i, j) == kept_pairs(s1, s2, i - 1, s2.1.len() as int));
    } else {
        assert(kept_pairs(s1, s2, i, j).len() == 0);
    }
}

/// The weighted coefficients of a constant shell.
proof fn lemma_flat_weights<T: Real>(s: ShellView<T>)
    requires
        is_ring::<T>(),
        is_complete(s),
        is_flat(s),
    ensures
        forall|n: int| 0 <= n < s.1.2.len() ==> #[trigger] weighted(s)[n] == T::count(0),
{
    assert forall|n: int| 0 <= n < s.1.2.len() implies #[trigger] weighted(s)[n] == T::count(
        0,
    ) by {
        assert(s.1.1[n] == T::count(0));
        let c = T::prod(s.1.2[n], T::count(2));
        lemma_ring_sums(c, c, c);
    }
}

/// The coefficients of a quartet with a pair whose coefficients are zero.
proof fn lemma_no_scale<T: Real>(bra: PrimPair<T>, ket: PrimPair<T>, v: T)
    requires
        is_ring::<T>(),
        T::prod(bra.c1, bra.c2) == T::count(0) || T::prod(ket.c1, ket.c2) == T::count(0),
    ensures
        T::prod(input_of(bra, ket).hdr.scale, v) == T::count(0),
{
    let (c, d) = (T::prod(bra.c1, bra.c2), T::prod(ket.c1, ket.c2));
    lemma_ring_factors(c, ket.c1, ket.c2);
    lemma_ring_commute(c, d);
    lemma_ring_sums(c, c, c);
    lemma_ring_sums(d, d, d);
    lemma_ring_commute(T::count(0), v);
    lemma_ring_sums(v, v, v);
}

/// Components with the one at `pos` shifted along axis `k`.
pub open spec fn at_step(n: Components, pos: int, k: int, by: int) -> Components {
    (
        if pos == 0 {
            shifted(n.0, k, by)
        } else {
            n.0
        },
        if pos == 1 {
            shifted(n.1, k, by)
        } else {
            n.1
        },
        if pos == 2 {
            shifted(n.2, k, by)
        } else {
            n.2
        },
        if pos == 3 {
            shifted(n.3, k, by)
        } else {
            n.3
        },
    )
}

/// Twice the exponent at `pos` of a primitive quartet.
spec fn weight<T: Real>(q: Four<T>, pos: int, i: int, j: int) -> T {
    if pos == 0 {
        double(q.0.1.1[i / q.1.1.1.len() as int])
    } else if pos == 1 {
        double(q.1.1.1[i % q.1.1.1.len() as int])
    } else if pos == 2 {
        double(q.2.1.1[j / q.3.1.1.len() as int])
    } else {
        double(q.3.1.1[j % q.3.1.1.len() as int])
    }
}

/// The integral of the primitive quartet `(i, j)`, from a ladder up to order `lt`.
spec fn value_at<T: Real>(q: Four<T>, lt: int, n: Components, i: int, j: int) -> T {
    primitive_value(
        shell_pairs(q.0.1, q.1.1)[i],
        shell_pairs(q.2.1, q.3.1)[j],
        lt,
        difference(q.0.1.0, q.1.1.0),
        difference(q.2.1.0, q.3.1.0),
        n,
    )
}

/// The integral raised at `pos`, weighted.
spec fn raised_term<T: Real>(q: Four<T>, n: Components, pos: int, k: int, i: int, j: int) -> T {
    T::prod(
        weight(q, pos, i, j),
        value_at(q, total_momentum(q) + 1, at_step(n, pos, k, 1), i, j),
    )
}

/// The integral lowered at `pos`, as often as its power.
spec fn lowered_term<T: Real>(q: Four<T>, n: Components, pos: int, k: int, i: int, j: int) -> T {
    T::prod(
        T::count(power(nth(n, pos), k) as u64),
        value_at(q, total_momentum(q) - 1, at_step(n, pos, k, -1), i, j),
    )
}

/// Whether components are those of four shells.
pub open spec fn are_components(l: (int, int, int, int), n: Components) -> bool {
    is_component(n.0, l.0) && is_component(n.1, l.1) && is_component(n.2, l.2) && is_component(
        n.3,
        l.3,
    )
}

/// Lowered towers over ladders that agree.
pub proof fn lemma_lowered_reads<T: Scalar>(
    x: Steps<T>,
    u: Ladder<T>,
    v: Ladder<T>,
    n: Components,
    k: int,
    pos: int,
    top: int,
)
    requires
        is_ring::<T>(),
        0 <= k < 3,
        0 <= pos < 4,
        is_whole(n.0) && is_whole(n.1) && is_whole(n.2) && is_whole(n.3),
        degree(n.0) + degree(n.1) + degree(n.2) + degree(n.3) == top,
        forall|m: int| 0 <= m < top ==> #[trigger] u(m) == v(m),
    ensures
        ({
            let c = T::count(power(nth(n, pos), k) as u64);
            let s = at_step(n, pos, k, -1);
            T::prod(c, space(x, u, s.0, s.1, s.2, s.3)(0)) == T::prod(
                c,
                space(x, v, s.0, s.1, s.2, s.3)(0),
            )
        }),
{
    let s = at_step(n, pos, k, -1);
    if power(nth(n, pos), k) > 0 {
        lemma_space_reads(x, u, v, s.0, s.1, s.2, s.3, top - 1);
    } else {
        let (y, z) = (space(x, u, s.0, s.1, s.2, s.3)(0), space(x, v, s.0, s.1, s.2, s.3)(0));
        lemma_ring_commute(T::count(0), y);
        lemma_ring_commute(T::count(0), z);
        lemma_ring_sums(y, y, y);
        lemma_ring_sums(z, z, z);
    }
}

/// The raised integrals of a primitive quartet add up to the lowered ones.
#[verifier::spinoff_prover]
#[verifier::rlimit(40)]
proof fn lemma_terms_cancel<T: Real>(q: Four<T>, n: Components, k: int, i: int, j: int)
    requires
        is_ring::<T>(),
        counts_exactly::<T>(),
        is_regular(q),
        are_components(momenta_of(q), n),
        0 <= k < 3,
        0 <= i < shell_pairs(q.0.1, q.1.1).len(),
        0 <= j < shell_pairs(q.2.1, q.3.1).len(),
    ensures
        sum_of_four(
            (
                raised_term(q, n, 0, k, i, j),
                raised_term(q, n, 1, k, i, j),
                raised_term(q, n, 2, k, i, j),
                raised_term(q, n, 3, k, i, j),
            ),
        ) == sum_of_four(
            (
                lowered_term(q, n, 0, k, i, j),
                lowered_term(q, n, 1, k, i, j),
                lowered_term(q, n, 2, k, i, j),
                lowered_term(q, n, 3, k, i, j),
            ),
        ),
{
    let (bras, kets) = (shell_pairs(q.0.1, q.1.1), shell_pairs(q.2.1, q.3.1));
    lemma_shell_pairs(q.0.1, q.1.1);
    lemma_shell_pairs(q.2.1, q.3.1);
    let (n1, n3) = (q.1.1.1.len() as int, q.3.1.1.len() as int);
    lemma_index_parts(i, q.0.1.1.len() as int, n1);
    lemma_index_parts(j, q.2.1.1.len() as int, n3);
    let (bra, ket) = (bras[i], kets[j]);
    let (ia, ib, ic, id) = (i / n1, i % n1, j / n3, j % n3);
    let (ab, cd) = (difference(q.0.1.0, q.1.1.0), difference(q.2.1.0, q.3.1.0));
    let lt = total_momentum(q);
    assert(have_sums(q.0.1.1[ia], q.1.1.1[ib], q.2.1.1[ic], q.3.1.1[id]));
    lemma_quartet_weighs(
        (q.0.1.0, q.0.1.1[ia]),
        (q.1.1.0, q.1.1.1[ib]),
        (q.2.1.0, q.2.1.1[ic]),
        (q.3.1.0, q.3.1.1[id]),
        bra,
        ket,
        k,
    );
    let y = input_of(bra, ket);
    let x = quartet_steps(y, ab, cd);
    let u = quartet_base(y, ladder_of(bra, ket, lt + 1));
    let v = quartet_base(y, ladder_of(bra, ket, lt - 1));
    let e = (weight(q, 0, i, j), weight(q, 1, i, j), weight(q, 2, i, j), weight(q, 3, i, j));
    lemma_space_invariant(x, u, e, n.0, n.1, n.2, n.3, k);
    assert(is_steady(bra, ket, lt));
    assert forall|m: int| 0 <= m < lt implies #[trigger] u(m) == v(m) by {
        assert(ladder(lt + 1, header_of(bra, ket).t, m) == ladder(
            lt - 1,
            header_of(bra, ket).t,
            m,
        ));
    }
    lemma_lowered_reads(x, u, v, n, k, 0, lt);
    lemma_lowered_reads(x, u, v, n, k, 1, lt);
    lemma_lowered_reads(x, u, v, n, k, 2, lt);
    lemma_lowered_reads(x, u, v, n, k, 3, lt);
    assert(lowered_space(x, v, n.0, n.1, n.2, n.3, k) == lowered_space(
        x,
        u,
        n.0,
        n.1,
        n.2,
        n.3,
        k,
    ));
}

/// The integral of four shells by the recurrence engine.
pub open spec fn repulsion<T: Real>(q: Four<T>, n: Components) -> T {
    eri_value(
        shell_pairs(q.0.1, q.1.1),
        shell_pairs(q.2.1, q.3.1),
        q.0.0 + q.1.0,
        q.2.0 + q.3.0,
        difference(q.0.1.0, q.1.1.0),
        difference(q.2.1.0, q.3.1.0),
        n.0,
        n.1,
        n.2,
        n.3,
    )
}

/// Four shells with the one at `pos` raised and weighted, or lowered.
pub open spec fn moved<T: Real>(q: Four<T>, pos: int, up: bool) -> Four<T> {
    let s = nth(q, pos);
    replaced(
        q,
        pos,
        (
            shifted_momentum(s.0, up),
            (
                s.1.0,
                s.1.1,
                if up {
                    weighted(s)
                } else {
                    s.1.2
                },
            ),
        ),
    )
}

/// The integral raised on a constant shell vanishes.
pub proof fn lemma_flat_raised<T: Real>(q: Four<T>, n: Components, pos: int, k: int)
    requires
        is_ring::<T>(),
        is_regular(q),
        is_flat(nth(q, pos)),
        are_components(momenta_of(q), n),
        0 <= k < 3,
        0 <= pos < 4,
    ensures
        repulsion(moved(q, pos, true), at_step(n, pos, k, 1)) == T::count(0),
{
    let v = moved(q, pos, true);
    let (bras, kets) = (shell_pairs(v.0.1, v.1.1), shell_pairs(v.2.1, v.3.1));
    let (ab, cd) = (difference(q.0.1.0, q.1.1.0), difference(q.2.1.0, q.3.1.0));
    let s = at_step(n, pos, k, 1);
    let (ne, nf) = (v.0.0 + v.1.0, v.2.0 + v.3.0);
    let g = |i: int, j: int| primitive_value(bras[i], kets[j], ne + nf, ab, cd, s);
    lemma_contracted_sum(bras, kets, ne, nf, ab, cd, s);
    lemma_flat_weights(nth(q, pos));
    if pos < 2 {
        lemma_flat_pairs(v.0.1, v.1.1, pos == 0, v.0.1.1.len() as int, 0);
    } else {
        lemma_flat_pairs(v.2.1, v.3.1, pos == 2, v.2.1.1.len() as int, 0);
    }
    assert forall|i: int, j: int|
        #![trigger g(i, j)]
        0 <= i < bras.len() && 0 <= j < kets.len() implies T::prod(
        input_of(bras[i], kets[j]).hdr.scale,
        g(i, j),
    ) == T::count(0) by {
        lemma_no_scale(bras[i], kets[j], g(i, j));
    }
    lemma_empty_sum(bras, kets, g, bras.len() as int, 0);
}

/// The raised integral, as a sum over the primitive quartets.
proof fn lemma_raised<T: Real>(q: Four<T>, n: Components, pos: int, k: int)
    requires
        is_ring::<T>(),
        is_regular(q),
        are_components(momenta_of(q), n),
        0 <= k < 3,
        0 <= pos < 4,
    ensures
        repulsion(moved(q, pos, true), at_step(n, pos, k, 1)) == quartet_sum(
            shell_pairs(q.0.1, q.1.1),
            shell_pairs(q.2.1, q.3.1),
            |i: int, j: int| raised_term(q, n, pos, k, i, j),
            shell_pairs(q.0.1, q.1.1).len() as int,
            0,
        ),
{
    let (bras, kets) = (shell_pairs(q.0.1, q.1.1), shell_pairs(q.2.1, q.3.1));
    let s = at_step(n, pos, k, 1);
    let lt = total_momentum(q) + 1;
    let nb = bras.len() as int;
    let w = |i: int, j: int| weight(q, pos, i, j);
    lemma_shell_pairs(q.0.1, q.1.1);
    lemma_shell_pairs(q.2.1, q.3.1);
    if is_flat(nth(q, pos)) {
        let h = |i: int, j: int| raised_term(q, n, pos, k, i, j);
        assert forall|i: int, j: int|
            #![trigger h(i, j)]
            0 <= i < bras.len() && 0 <= j < kets.len() implies T::prod(
            input_of(bras[i], kets[j]).hdr.scale,
            h(i, j),
        ) == T::count(0) by {
            lemma_index_parts(i, q.0.1.1.len() as int, q.1.1.1.len() as int);
            lemma_index_parts(j, q.2.1.1.len() as int, q.3.1.1.len() as int);
            assert(w(i, j) == double(T::count(0)));
            let y = value_at(q, lt, s, i, j);
            let c = input_of(bras[i], kets[j]).hdr.scale;
            lemma_ring_sums(T::count(2), T::count(2), T::count(2));
            lemma_ring_commute(T::count(0), y);
            lemma_ring_sums(y, y, y);
            lemma_ring_sums(c, c, c);
        }
        lemma_empty_sum(bras, kets, h, nb, 0);
        lemma_flat_raised(q, n, pos, k);
    } else {
        lemma_steep_raised(q, n, pos, k);
    }
}

/// The raised integral of a quartet of which all weighted pairs are kept.
proof fn lemma_steep_raised<T: Real>(q: Four<T>, n: Components, pos: int, k: int)
    requires
        is_ring::<T>(),
        is_regular(q),
        !is_flat(nth(q, pos)),
        are_components(momenta_of(q), n),
        0 <= k < 3,
        0 <= pos < 4,
    ensures
        repulsion(moved(q, pos, true), at_step(n, pos, k, 1)) == quartet_sum(
            shell_pairs(q.0.1, q.1.1),
            shell_pairs(q.2.1, q.3.1),
            |i: int, j: int| raised_term(q, n, pos, k, i, j),
            shell_pairs(q.0.1, q.1.1).len() as int,
            0,
        ),
{
    let v = moved(q, pos, true);
    let (bras, kets) = (shell_pairs(q.0.1, q.1.1), shell_pairs(q.2.1, q.3.1));
    let others = (shell_pairs(v.0.1, v.1.1), shell_pairs(v.2.1, v.3.1));
    let (ab, cd) = (difference(q.0.1.0, q.1.1.0), difference(q.2.1.0, q.3.1.0));
    let s = at_step(n, pos, k, 1);
    let lt = total_momentum(q) + 1;
    let nb = bras.len() as int;
    let w = |i: int, j: int| weight(q, pos, i, j);
    lemma_shell_pairs(q.0.1, q.1.1);
    lemma_shell_pairs(q.2.1, q.3.1);
    lemma_shell_pairs(v.0.1, v.1.1);
    lemma_shell_pairs(v.2.1, v.3.1);
    assert(are_reweighted(bras, kets, others, w)) by {
        assert forall|i: int, j: int|
            #![trigger w(i, j)]
            0 <= i < bras.len() && 0 <= j < kets.len() implies {
            ||| others.1[j] == kets[j] && is_reweighted(bras[i], others.0[i], w(i, j))
            ||| others.0[i] == bras[i] && is_reweighted(kets[j], others.1[j], w(i, j))
        } by {
            if pos == 0 {
                lemma_first_weighted(q.0, q.1, i);
            } else if pos == 1 {
                lemma_second_weighted(q.0, q.1, i);
            } else if pos == 2 {
                lemma_first_weighted(q.2, q.3, j);
            } else {
                lemma_second_weighted(q.2, q.3, j);
            }
        }
    }
    lemma_contracted_sum(
        others.0,
        others.1,
        v.0.0 + v.1.0,
        v.2.0 + v.3.0,
        ab,
        cd,
        s,
    );
    lemma_reweighted_sum(bras, kets, others, w, lt, ab, cd, s, nb, 0);
    let g = |i: int, j: int| T::prod(w(i, j), primitive_value(bras[i], kets[j], lt, ab, cd, s));
    assert(g =~= (|i: int, j: int| raised_term(q, n, pos, k, i, j)));
}

/// The lowered integral, as a sum over the primitive quartets.
proof fn lemma_lowered<T: Real>(q: Four<T>, n: Components, pos: int, k: int)
    requires
        is_ring::<T>(),
        is_regular(q),
        are_components(momenta_of(q), n),
        0 <= k < 3,
        0 <= pos < 4,
    ensures
        T::prod(
            T::count(power(nth(n, pos), k) as u64),
            repulsion(moved(q, pos, false), at_step(n, pos, k, -1)),
        ) == quartet_sum(
            shell_pairs(q.0.1, q.1.1),
            shell_pairs(q.2.1, q.3.1),
            |i: int, j: int| lowered_term(q, n, pos, k, i, j),
            shell_pairs(q.0.1, q.1.1).len() as int,
            0,
        ),
{
    let v = moved(q, pos, false);
    let (bras, kets) = (shell_pairs(q.0.1, q.1.1), shell_pairs(q.2.1, q.3.1));
    let (ab, cd) = (difference(q.0.1.0, q.1.1.0), difference(q.2.1.0, q.3.1.0));
    let s = at_step(n, pos, k, -1);
    let lt = total_momentum(q) - 1;
    let nb = bras.len() as int;
    let c = T::count(power(nth(n, pos), k) as u64);
    let g = |i: int, j: int| primitive_value(bras[i], kets[j], lt, ab, cd, s);
    lemma_times_sum(bras, kets, c, g, nb, 0);
    let h = |i: int, j: int| T::prod(c, g(i, j));
    assert(h =~= (|i: int, j: int| lowered_term(q, n, pos, k, i, j)));
    if power(nth(n, pos), k) > 0 {
        lemma_contracted_sum(bras, kets, v.0.0 + v.1.0, v.2.0 + v.3.0, ab, cd, s);
    } else {
        let (y, z) = (repulsion(v, s), quartet_sum(bras, kets, g, nb, 0));
        lemma_ring_commute(T::count(0), y);
        lemma_ring_commute(T::count(0), z);
        lemma_ring_sums(y, y, y);
        lemma_ring_sums(z, z, z);
    }
}

/// The integrals of four shells, raised at each in turn.
pub open spec fn raised_four<T: Real>(q: Four<T>, n: Components, k: int) -> (T, T, T, T) {
    (
        repulsion(moved(q, 0, true), at_step(n, 0, k, 1)),
        repulsion(moved(q, 1, true), at_step(n, 1, k, 1)),
        repulsion(moved(q, 2, true), at_step(n, 2, k, 1)),
        repulsion(moved(q, 3, true), at_step(n, 3, k, 1)),
    )
}

/// The integrals of four shells, lowered at each in turn, as often as the power there.
pub open spec fn lowered_four<T: Real>(q: Four<T>, n: Components, k: int) -> (T, T, T, T) {
    let c = |pos: int| T::count(power(nth(n, pos), k) as u64);
    (
        T::prod(c(0), repulsion(moved(q, 0, false), at_step(n, 0, k, -1))),
        T::prod(c(1), repulsion(moved(q, 1, false), at_step(n, 1, k, -1))),
        T::prod(c(2), repulsion(moved(q, 2, false), at_step(n, 2, k, -1))),
        T::prod(c(3), repulsion(moved(q, 3, false), at_step(n, 3, k, -1))),
    )
}

/// The raised integrals of four shells add up to the lowered ones.
pub proof fn lemma_repulsion_invariant<T: Real>(q: Four<T>, n: Components, k: int)
    requires
        is_ring::<T>(),
        counts_exactly::<T>(),
        is_regular(q),
        are_components(momenta_of(q), n),
        0 <= k < 3,
    ensures
        sum_of_four(raised_four(q, n, k)) == sum_of_four(lowered_four(q, n, k)),
{
    let (bras, kets) = (shell_pairs(q.0.1, q.1.1), shell_pairs(q.2.1, q.3.1));
    let nb = bras.len() as int;
    let up = |pos: int, i: int, j: int| raised_term(q, n, pos, k, i, j);
    let low = |pos: int, i: int, j: int| lowered_term(q, n, pos, k, i, j);
    let g = |i: int, j: int| (up(0, i, j), up(1, i, j), up(2, i, j), up(3, i, j));
    let h = |i: int, j: int| (low(0, i, j), low(1, i, j), low(2, i, j), low(3, i, j));
    assert forall|i: int, j: int|
        #![trigger g(i, j)]
        0 <= i < bras.len() && 0 <= j < kets.len() implies sum_of_four(g(i, j)) == sum_of_four(
        h(i, j),
    ) by {
        lemma_terms_cancel(q, n, k, i, j);
    }
    lemma_four_sums(bras, kets, g, h, nb, 0);
    assert((|i: int, j: int| g(i, j).0) =~= (|i: int, j: int| raised_term(q, n, 0, k, i, j)));
    assert((|i: int, j: int| g(i, j).1) =~= (|i: int, j: int| raised_term(q, n, 1, k, i, j)));
    assert((|i: int, j: int| g(i, j).2) =~= (|i: int, j: int| raised_term(q, n, 2, k, i, j)));
    assert((|i: int, j: int| g(i, j).3) =~= (|i: int, j: int| raised_term(q, n, 3, k, i, j)));
    assert((|i: int, j: int| h(i, j).0) =~= (|i: int, j: int| lowered_term(q, n, 0, k, i, j)));
    assert((|i: int, j: int| h(i, j).1) =~= (|i: int, j: int| lowered_term(q, n, 1, k, i, j)));
    assert((|i: int, j: int| h(i, j).2) =~= (|i: int, j: int| lowered_term(q, n, 2, k, i, j)));
    assert((|i: int, j: int| h(i, j).3) =~= (|i: int, j: int| lowered_term(q, n, 3, k, i, j)));
    lemma_raised(q, n, 0, k);
    lemma_raised(q, n, 1, k);
    lemma_raised(q, n, 2, k);
    lemma_raised(q, n, 3, k);
    lemma_lowered(q, n, 0, k);
    lemma_lowered(q, n, 1, k);
    lemma_lowered(q, n, 2, k);
    lemma_lowered(q, n, 3, k);
}

} // verus!
