//! The vertical recurrence for any angular momentum, in a rolling window.
//!
//! The full table of `[e0|f0]^(m)` grows fast with the angular momentum. This
//! kernel marches over the degree of `f` and keeps three consecutive levels. Within
//! a level the rows are packed: an `e` of degree `de` stores `m` up to
//! `l_total - de - k` only.
use vstd::prelude::*;

use crate::engine::triples::{
    addr, address, dec, first_axis, is_triple, lemma_listed_at_address, lemma_listed_by_degree,
    lemma_listed_degree_bound, lemma_small_degree, lemma_tetrahedron_grows,
    lemma_tetrahedron_step, lists_triples, lower_axis, n_addr, power, power_of, shifted,
    tetrahedron, tri_below,
};
use crate::engine::vrr::{
    accumulated, at, at_degree, contribution, element, lemma_lowered_component, raised_bra,
    raised_ket, VrrInput,
};
use crate::flat::{lemma_pair_in_range, lemma_pair_order, pair};
use crate::math::am::{cart_count, cart_index, degree, is_component, n_cart, powers, Powers};
use crate::scalar::Scalar;

verus! {

/// Number of entries of the row of `e`, the triple at address `a`, in the level of
/// degree `k`.
pub open spec fn row_len(tri: Seq<[usize; 3]>, lt: int, k: int, a: int) -> int {
    lt - degree(at(tri, a)) - k + 1
}

/// First entry of the row at address `a` in a component of the level of degree `k`.
pub open spec fn row_offset(tri: Seq<[usize; 3]>, lt: int, k: int, a: int) -> int
    decreases a,
{
    if a <= 0 {
        0
    } else {
        row_offset(tri, lt, k, a - 1) + row_len(tri, lt, k, a - 1)
    }
}

/// Whether the offsets and sizes of the packed levels `0..=nf` stand in `eoff` and
/// `slab`, and every level fits into `maxlevel`.
pub open spec fn packed(
    tri: Seq<[usize; 3]>,
    ne: int,
    nf: int,
    eoff: Seq<usize>,
    slab: Seq<usize>,
    maxlevel: int,
) -> bool {
    let n_e = tetrahedron(ne + 1);
    &&& slab.len() >= nf + 1
    &&& eoff.len() >= (nf + 1) * n_e
    &&& forall|k: int|
        0 <= k <= nf ==> #[trigger] slab[k] == row_offset(tri, ne + nf, k, n_e) && cart_count(k)
            * slab[k] <= maxlevel
    &&& forall|k: int, a: int|
        0 <= k <= nf && 0 <= a < n_e ==> #[trigger] eoff[pair(k, n_e, a)] == row_offset(
            tri,
            ne + nf,
            k,
            a,
        )
}

/// Place of `[e0|f0]^(m)` in the window: level of degree `k`, component `lf`, row
/// `a`.
pub open spec fn spot(
    tri: Seq<[usize; 3]>,
    lt: int,
    n_e: int,
    maxlevel: int,
    k: int,
    lf: int,
    a: int,
    m: int,
) -> int {
    (k % 3) * maxlevel + lf * row_offset(tri, lt, k, n_e) + row_offset(tri, lt, k, a) + m
}

/// Whether the window holds the entries of the level of degree `k` that precede
/// `(fw, ae, mm)` in the order component, row, index.
pub open spec fn held<T: Scalar>(
    x: VrrInput<T>,
    fm: Seq<T>,
    tri: Seq<[usize; 3]>,
    levels: Seq<T>,
    lt: int,
    n_e: int,
    maxlevel: int,
    k: int,
    fw: int,
    ae: int,
    mm: int,
) -> bool {
    forall|lf: int, a: int, m: int|
        0 <= lf < cart_count(k) && 0 <= a < n_e && 0 <= m < row_len(tri, lt, k, a) && (lf < fw || (
        lf == fw && (a < ae || (a == ae && m < mm)))) ==> #[trigger] levels[spot(
            tri,
            lt,
            n_e,
            maxlevel,
            k,
            lf,
            a,
            m,
        )] == element(x, fm, at(tri, a), at_degree(tri, k, lf), m)
}

/// Rows follow one another.
proof fn lemma_rows(tri: Seq<[usize; 3]>, lmax: int, ne: int, lt: int, k: int, a: int, b: int)
    requires
        lists_triples(tri, lmax),
        0 <= ne <= lmax,
        0 <= k,
        ne + k <= lt,
        0 <= a <= b <= tetrahedron(ne + 1),
    ensures
        a < b ==> row_len(tri, lt, k, a) >= 1,
        a < b ==> row_offset(tri, lt, k, a) + row_len(tri, lt, k, a) <= row_offset(tri, lt, k, b),
        0 <= row_offset(tri, lt, k, a) <= row_offset(tri, lt, k, b),
        row_offset(tri, lt, k, b) <= b * (lt + 1),
    decreases b,
{
    lemma_tetrahedron_grows(ne + 1, lmax + 1);
    if b > 0 {
        lemma_listed_degree_bound(tri, lmax, ne, b - 1);
        assert((b - 1) * (lt + 1) + (lt + 1) == b * (lt + 1)) by (nonlinear_arith);
        if a < b {
            lemma_rows(tri, lmax, ne, lt, k, a, b - 1);
            lemma_listed_degree_bound(tri, lmax, ne, a);
        } else {
            lemma_rows(tri, lmax, ne, lt, k, b - 1, b - 1);
        }
    } else {
        assert(0 * (lt + 1) == 0) by (nonlinear_arith);
    }
}

/// A place lies in the part of the window that belongs to its level.
proof fn lemma_spot_in_range(
    tri: Seq<[usize; 3]>,
    lmax: int,
    ne: int,
    lt: int,
    maxlevel: int,
    k: int,
    lf: int,
    a: int,
    m: int,
)
    requires
        lists_triples(tri, lmax),
        0 <= ne <= lmax,
        0 <= k,
        ne + k <= lt,
        0 <= lf < cart_count(k),
        0 <= a < tetrahedron(ne + 1),
        0 <= m < row_len(tri, lt, k, a),
        cart_count(k) * row_offset(tri, lt, k, tetrahedron(ne + 1)) <= maxlevel,
    ensures
        0 <= row_offset(tri, lt, k, a),
        0 <= lf * row_offset(tri, lt, k, tetrahedron(ne + 1)),
        0 <= row_offset(tri, lt, k, a) + m < row_offset(tri, lt, k, tetrahedron(ne + 1)),
        (k % 3) * maxlevel <= spot(tri, lt, tetrahedron(ne + 1), maxlevel, k, lf, a, m),
        spot(tri, lt, tetrahedron(ne + 1), maxlevel, k, lf, a, m) < (k % 3) * maxlevel + maxlevel,
        0 <= (k % 3) * maxlevel <= 2 * maxlevel,
{
    let n_e = tetrahedron(ne + 1);
    lemma_rows(tri, lmax, ne, lt, k, a, n_e);
    lemma_pair_in_range(
        lf,
        cart_count(k),
        row_offset(tri, lt, k, n_e),
        row_offset(tri, lt, k, a) + m,
    );
    let c = k % 3;
    assert(0 <= c * maxlevel <= 2 * maxlevel) by (nonlinear_arith)
        requires
            0 <= c <= 2,
            0 <= maxlevel,
    ;
}

/// Two places are the same only for the same entry, as long as the levels share a
/// slot of the window only when they are the same level.
proof fn lemma_spot_distinct(
    tri: Seq<[usize; 3]>,
    lmax: int,
    ne: int,
    lt: int,
    maxlevel: int,
    k: int,
    lf: int,
    a: int,
    m: int,
    k2: int,
    lf2: int,
    a2: int,
    m2: int,
)
    requires
        lists_triples(tri, lmax),
        0 <= ne <= lmax,
        0 <= k,
        0 <= k2,
        ne + k <= lt,
        ne + k2 <= lt,
        0 <= lf < cart_count(k),
        0 <= lf2 < cart_count(k2),
        0 <= a < tetrahedron(ne + 1),
        0 <= a2 < tetrahedron(ne + 1),
        0 <= m < row_len(tri, lt, k, a),
        0 <= m2 < row_len(tri, lt, k2, a2),
        cart_count(k) * row_offset(tri, lt, k, tetrahedron(ne + 1)) <= maxlevel,
        cart_count(k2) * row_offset(tri, lt, k2, tetrahedron(ne + 1)) <= maxlevel,
        k == k2 || k % 3 != k2 % 3,
    ensures
        spot(tri, lt, tetrahedron(ne + 1), maxlevel, k, lf, a, m) == spot(
            tri,
            lt,
            tetrahedron(ne + 1),
            maxlevel,
            k2,
            lf2,
            a2,
            m2,
        ) <==> k == k2 && lf == lf2 && a == a2 && m == m2,
{
    let n_e = tetrahedron(ne + 1);
    lemma_spot_in_range(tri, lmax, ne, lt, maxlevel, k, lf, a, m);
    lemma_spot_in_range(tri, lmax, ne, lt, maxlevel, k2, lf2, a2, m2);
    if k == k2 {
        lemma_pair_order(
            lf,
            row_offset(tri, lt, k, a) + m,
            lf2,
            row_offset(tri, lt, k, a2) + m2,
            row_offset(tri, lt, k, n_e),
        );
        if a < a2 {
            lemma_rows(tri, lmax, ne, lt, k, a, a2);
        } else if a2 < a {
            lemma_rows(tri, lmax, ne, lt, k, a2, a);
        }
    } else {
        let (c, c2) = (k % 3, k2 % 3);
        if c < c2 {
            assert(c * maxlevel + maxlevel <= c2 * maxlevel) by (nonlinear_arith)
                requires
                    c < c2,
                    0 <= maxlevel,
            ;
        } else {
            assert(c2 * maxlevel + maxlevel <= c * maxlevel) by (nonlinear_arith)
                requires
                    c2 < c,
                    0 <= maxlevel,
            ;
        }
    }
}

/// Writing the entry `(fw, ae, mm)` of the level `k` extends what is held of it.
proof fn lemma_held_write<T: Scalar>(
    x: VrrInput<T>,
    fm: Seq<T>,
    tri: Seq<[usize; 3]>,
    lmax: int,
    levels: Seq<T>,
    ne: int,
    lt: int,
    maxlevel: int,
    k: int,
    fw: int,
    ae: int,
    mm: int,
    v: T,
)
    requires
        held(x, fm, tri, levels, lt, tetrahedron(ne + 1), maxlevel, k, fw, ae, mm),
        lists_triples(tri, lmax),
        0 <= ne <= lmax,
        0 <= k,
        ne + k <= lt,
        0 <= fw < cart_count(k),
        0 <= ae < tetrahedron(ne + 1),
        0 <= mm < row_len(tri, lt, k, ae),
        cart_count(k) * row_offset(tri, lt, k, tetrahedron(ne + 1)) <= maxlevel,
        levels.len() >= 3 * maxlevel,
        v == element(x, fm, at(tri, ae), at_degree(tri, k, fw), mm),
    ensures
        held(
            x,
            fm,
            tri,
            levels.update(spot(tri, lt, tetrahedron(ne + 1), maxlevel, k, fw, ae, mm), v),
            lt,
            tetrahedron(ne + 1),
            maxlevel,
            k,
            fw,
            ae,
            mm + 1,
        ),
{
    let n_e = tetrahedron(ne + 1);
    let new = levels.update(spot(tri, lt, n_e, maxlevel, k, fw, ae, mm), v);
    lemma_spot_in_range(tri, lmax, ne, lt, maxlevel, k, fw, ae, mm);
    assert forall|lf: int, a: int, m: int|
        0 <= lf < cart_count(k) && 0 <= a < n_e && 0 <= m < row_len(tri, lt, k, a) && (lf < fw || (
        lf == fw && (a < ae || (a == ae && m < mm + 1)))) implies #[trigger] new[spot(
        tri,
        lt,
        n_e,
        maxlevel,
        k,
        lf,
        a,
        m,
    )] == element(x, fm, at(tri, a), at_degree(tri, k, lf), m) by {
        lemma_spot_in_range(tri, lmax, ne, lt, maxlevel, k, lf, a, m);
        lemma_spot_distinct(tri, lmax, ne, lt, maxlevel, k, lf, a, m, k, fw, ae, mm);
    }
}

/// Writing into the level `k` leaves a level in another slot of the window alone.
proof fn lemma_held_other<T: Scalar>(
    x: VrrInput<T>,
    fm: Seq<T>,
    tri: Seq<[usize; 3]>,
    lmax: int,
    levels: Seq<T>,
    ne: int,
    lt: int,
    maxlevel: int,
    k: int,
    fw: int,
    ae: int,
    mm: int,
    v: T,
    o: int,
)
    requires
        held(x, fm, tri, levels, lt, tetrahedron(ne + 1), maxlevel, o, cart_count(o), 0, 0),
        lists_triples(tri, lmax),
        0 <= ne <= lmax,
        0 <= k,
        0 <= o,
        o % 3 != k % 3,
        ne + k <= lt,
        ne + o <= lt,
        0 <= fw < cart_count(k),
        0 <= ae < tetrahedron(ne + 1),
        0 <= mm < row_len(tri, lt, k, ae),
        cart_count(k) * row_offset(tri, lt, k, tetrahedron(ne + 1)) <= maxlevel,
        cart_count(o) * row_offset(tri, lt, o, tetrahedron(ne + 1)) <= maxlevel,
        levels.len() >= 3 * maxlevel,
    ensures
        held(
            x,
            fm,
            tri,
            levels.update(spot(tri, lt, tetrahedron(ne + 1), maxlevel, k, fw, ae, mm), v),
            lt,
            tetrahedron(ne + 1),
            maxlevel,
            o,
            cart_count(o),
            0,
            0,
        ),
{
    let n_e = tetrahedron(ne + 1);
    let new = levels.update(spot(tri, lt, n_e, maxlevel, k, fw, ae, mm), v);
    lemma_spot_in_range(tri, lmax, ne, lt, maxlevel, k, fw, ae, mm);
    assert forall|lf: int, a: int, m: int|
        0 <= lf < cart_count(o) && 0 <= a < n_e && 0 <= m < row_len(tri, lt, o, a) && (lf
            < cart_count(o) || (lf == cart_count(o) && (a < 0 || (a == 0 && m
            < 0)))) implies #[trigger] new[spot(tri, lt, n_e, maxlevel, o, lf, a, m)] == element(
        x,
        fm,
        at(tri, a),
        at_degree(tri, o, lf),
        m,
    ) by {
        lemma_spot_in_range(tri, lmax, ne, lt, maxlevel, o, lf, a, m);
        lemma_spot_distinct(tri, lmax, ne, lt, maxlevel, o, lf, a, m, k, fw, ae, mm);
    }
}

/// Grow `v` with zeros to at least `n` entries; never shrink it.
pub fn ensure_usize(v: &mut Vec<usize>, n: usize)
    ensures
        final(v)@ == old(v)@ + Seq::new(
            if old(v)@.len() < n {
                (n - old(v)@.len()) as nat
            } else {
                0
            },
            |i: int| 0usize,
        ),
{
    while v.len() < n
        invariant
            old(v)@.len() <= v@.len(),
            v@.len() <= n || v@ == old(v)@,
            v@ == old(v)@ + Seq::new((v@.len() - old(v)@.len()) as nat, |i: int| 0usize),
        decreases n - v@.len(),
    {
        v.push(0);
        assert(v@ =~= old(v)@ + Seq::new((v@.len() - old(v)@.len()) as nat, |i: int| 0usize));
    }
}

/// Size of one component of the packed level of degree `k`, over the bra degrees below
/// `d`: `m` runs to `lt - degree - k` for every triple.
pub open spec fn packed_size(lt: int, k: int, d: int) -> int
    decreases d,
{
    if d <= 0 {
        0
    } else {
        packed_size(lt, k, d - 1) + cart_count(d - 1) * (lt - (d - 1) - k + 1)
    }
}

/// Size of the largest of the packed levels of degrees below `k`.
pub open spec fn largest_level(ne: int, nf: int, k: int) -> int
    decreases k,
{
    if k <= 0 {
        0
    } else {
        let size = cart_count(k - 1) * packed_size(ne + nf, k - 1, ne + 1);
        let before = largest_level(ne, nf, k - 1);
        if size > before {
            size
        } else {
            before
        }
    }
}

/// The rows of one bra degree have one length.
proof fn lemma_degree_rows(tri: Seq<[usize; 3]>, lmax: int, lt: int, k: int, d: int, i: int)
    requires
        lists_triples(tri, lmax),
        0 <= d <= lmax <= 12,
        0 <= i <= cart_count(d),
    ensures
        row_offset(tri, lt, k, tetrahedron(d) + i) == row_offset(tri, lt, k, tetrahedron(d)) + i * (
        lt - d - k + 1),
    decreases i,
{
    lemma_small_degree(d);
    if i > 0 {
        lemma_degree_rows(tri, lmax, lt, k, d, i - 1);
        lemma_listed_by_degree(tri, lmax, d, i - 1);
        let w = lt - d - k + 1;
        assert(i * w == (i - 1) * w + w) by (nonlinear_arith);
    } else {
        assert(0 * (lt - d - k + 1) == 0) by (nonlinear_arith);
    }
}

/// The offsets of whole degrees.
proof fn lemma_packed_size(tri: Seq<[usize; 3]>, lmax: int, lt: int, k: int, d: int)
    requires
        lists_triples(tri, lmax),
        0 <= d <= lmax + 1,
        lmax <= 12,
    ensures
        row_offset(tri, lt, k, tetrahedron(d)) == packed_size(lt, k, d),
    decreases d,
{
    if d > 0 {
        lemma_packed_size(tri, lmax, lt, k, d - 1);
        lemma_small_degree(d - 1);
        lemma_degree_rows(tri, lmax, lt, k, d - 1, cart_count(d - 1));
    } else {
        assert(tetrahedron(0) == 0);
    }
}

/// Fill the offsets and sizes of the packed levels, and return the size of the
/// largest level.
pub fn pack_levels(
    tri: &[[usize; 3]],
    lmax: usize,
    ne: usize,
    nf: usize,
    eoff: &mut Vec<usize>,
    slab: &mut Vec<usize>,
) -> (maxlevel: usize)
    requires
        lists_triples(tri@, lmax as int),
        ne <= lmax <= 12,
        nf <= lmax,
    ensures
        packed(tri@, ne as int, nf as int, final(eoff)@, final(slab)@, maxlevel as int),
        maxlevel == largest_level(ne as int, nf as int, nf + 1),
        maxlevel <= 1_100_000,
{
    let lt: usize = ne + nf;
    proof {
        lemma_small_degree(ne as int);
        lemma_tetrahedron_grows(ne + 1, lmax + 1);
        lemma_window_counts(ne as int);
        assert((nf + 1) * tetrahedron(ne + 1) <= 5915) by (nonlinear_arith)
            requires
                0 <= nf <= 12,
                0 <= tetrahedron(ne + 1) <= 455,
        ;
    }
    let n_e: usize = n_addr(ne);
    ensure_usize(slab, nf + 1);
    ensure_usize(eoff, (nf + 1) * n_e);
    let mut maxlevel: usize = 0;
    let mut k: usize = 0;
    while k <= nf
        invariant
            k <= nf + 1,
            lists_triples(tri@, lmax as int),
            ne <= lmax <= 12,
            nf <= lmax,
            lt == ne + nf,
            n_e == tetrahedron(ne + 1) <= 455,
            n_e <= tri@.len(),
            slab@.len() >= nf + 1,
            eoff@.len() >= (nf + 1) * n_e,
            maxlevel <= 1_100_000,
            maxlevel == largest_level(ne as int, nf as int, k as int),
            forall|i: int|
                0 <= i < k ==> #[trigger] slab@[i] == row_offset(tri@, lt as int, i, n_e as int)
                    && cart_count(i) * slab@[i] <= maxlevel,
            forall|i: int, a: int|
                0 <= i < k && 0 <= a < n_e ==> #[trigger] eoff@[pair(i, n_e as int, a)]
                    == row_offset(tri@, lt as int, i, a),
        decreases nf + 1 - k,
    {
        let mut run: usize = 0;
        let mut ae: usize = 0;
        while ae < n_e
            invariant
                ae <= n_e,
                k <= nf,
                lists_triples(tri@, lmax as int),
                ne <= lmax <= 12,
                nf <= lmax,
                lt == ne + nf,
                n_e == tetrahedron(ne + 1) <= 455,
                n_e <= tri@.len(),
                slab@.len() >= nf + 1,
                eoff@.len() >= (nf + 1) * n_e,
                run == row_offset(tri@, lt as int, k as int, ae as int),
                forall|i: int, a: int|
                    0 <= i < k && 0 <= a < n_e ==> #[trigger] eoff@[pair(i, n_e as int, a)]
                        == row_offset(tri@, lt as int, i, a),
                forall|a: int|
                    0 <= a < ae ==> #[trigger] eoff@[pair(k as int, n_e as int, a)] == row_offset(
                        tri@,
                        lt as int,
                        k as int,
                        a,
                    ),
            decreases n_e - ae,
        {
            proof {
                lemma_listed_degree_bound(tri@, lmax as int, ne as int, ae as int);
                lemma_pair_in_range(k as int, nf + 1, n_e as int, ae as int);
                lemma_rows(
                    tri@,
                    lmax as int,
                    ne as int,
                    lt as int,
                    k as int,
                    ae as int,
                    ae + 1,
                );
                assert((ae + 1) * (lt + 1) <= 11_375) by (nonlinear_arith)
                    requires
                        0 <= ae + 1 <= 455,
                        0 <= lt + 1 <= 25,
                ;
                assert((nf + 1) * n_e <= 5915) by (nonlinear_arith)
                    requires
                        0 <= nf <= 12,
                        0 <= n_e <= 455,
                ;
            }
            let te: [usize; 3] = tri[ae];
            let de: usize = te[0] + te[1] + te[2];
            let mlen: usize = lt - de - k + 1;
            eoff[k * n_e + ae] = run;
            run = run + mlen;
            proof {
                let row = pair(k as int, n_e as int, ae as int);
                assert forall|i: int, a: int|
                    0 <= i < k && 0 <= a < n_e implies #[trigger] eoff@[pair(i, n_e as int, a)]
                    == row_offset(tri@, lt as int, i, a) by {
                    lemma_pair_order(i, a, k as int, ae as int, n_e as int);
                }
                assert forall|a: int| 0 <= a < ae + 1 implies #[trigger] eoff@[pair(
                    k as int,
                    n_e as int,
                    a,
                )] == row_offset(tri@, lt as int, k as int, a) by {
                    lemma_pair_order(k as int, a, k as int, ae as int, n_e as int);
                }
            }
            ae = ae + 1;
        }
        slab[k] = run;
        proof {
            lemma_small_degree(k as int);
            lemma_window_counts(k as int);
            lemma_rows(
                tri@,
                lmax as int,
                ne as int,
                lt as int,
                k as int,
                0,
                n_e as int,
            );
            assert(n_e * (lt + 1) <= 11_375) by (nonlinear_arith)
                requires
                    0 <= n_e <= 455,
                    0 <= lt + 1 <= 25,
            ;
            assert(0 <= cart_count(k as int) * run <= 1_100_000) by (nonlinear_arith)
                requires
                    0 <= cart_count(k as int) <= 91,
                    0 <= run <= 11_375,
            ;
        }
        proof {
            lemma_packed_size(tri@, lmax as int, lt as int, k as int, ne + 1);
        }
        let size: usize = n_cart(k) * run;
        if size > maxlevel {
            maxlevel = size;
        }
        k = k + 1;
    }
    maxlevel
}

/// Counts within the reach of the engines.
proof fn lemma_window_counts(k: int)
    requires
        0 <= k <= 12,
    ensures
        tetrahedron(k + 1) <= 455,
        cart_count(k) <= 91,
{
    lemma_tetrahedron_grows(k + 1, 13);
    crate::math::am::lemma_triangle_grows(k + 1, 13);
    assert(tetrahedron(13) == 455);
    assert(cart_count(12) == 91);
}

/// One primitive quartet of any class: add `scale [e0|f0]^(0)` to `c_ef` for every
/// pair of triples, keeping three ket levels at a time.
pub fn vrr_primitive<T: Scalar>(
    x: &VrrInput<T>,
    fm: &[T],
    tri: &[[usize; 3]],
    lmax: usize,
    ne: usize,
    nf: usize,
    maxlevel: usize,
    eoff: &[usize],
    slab: &[usize],
    levels: &mut [T],
    c_ef: &mut [T],
)
    requires
        lists_triples(tri@, lmax as int),
        ne <= lmax <= 12,
        nf <= lmax,
        fm@.len() > ne + nf,
        maxlevel <= 1_100_000,
        packed(tri@, ne as int, nf as int, eoff@, slab@, maxlevel as int),
        old(levels)@.len() >= 3 * maxlevel,
        old(c_ef)@.len() >= tetrahedron(ne + 1) * tetrahedron(nf + 1),
    ensures
        final(levels)@.len() == old(levels)@.len(),
        accumulated(
            *x,
            fm@,
            tri@,
            old(c_ef)@,
            final(c_ef)@,
            tetrahedron(ne + 1),
            tetrahedron(nf + 1),
            tetrahedron(nf + 1),
        ),
{
    let lt: usize = ne + nf;
    proof {
        lemma_small_degree(ne as int);
        lemma_small_degree(nf as int);
        lemma_tetrahedron_grows(ne + 1, lmax + 1);
    }
    let n_e: usize = n_addr(ne);
    window_bra(x, fm, tri, lmax, ne, nf, maxlevel, eoff, slab, levels);
    proof {
        lemma_tetrahedron_step(0);
    }
    let ghost orig = c_ef@;
    extract_window(
        x,
        Ghost(fm@),
        tri,
        lmax,
        ne,
        nf,
        0,
        maxlevel,
        eoff,
        slab,
        levels,
        Ghost(orig),
        c_ef,
    );
    let mut k: usize = 1;
    while k <= nf
        invariant
            1 <= k <= nf + 1,
            lists_triples(tri@, lmax as int),
            ne <= lmax <= 12,
            nf <= lmax,
            lt == ne + nf,
            n_e == tetrahedron(ne + 1) <= 3276,
            n_e <= tri@.len(),
            maxlevel <= 1_100_000,
            packed(tri@, ne as int, nf as int, eoff@, slab@, maxlevel as int),
            levels@.len() == old(levels)@.len(),
            levels@.len() >= 3 * maxlevel,
            held(
                *x,
                fm@,
                tri@,
                levels@,
                lt as int,
                n_e as int,
                maxlevel as int,
                k - 1,
                cart_count(k - 1),
                0,
                0,
            ),
            k >= 2 ==> held(
                *x,
                fm@,
                tri@,
                levels@,
                lt as int,
                n_e as int,
                maxlevel as int,
                k - 2,
                cart_count(k - 2),
                0,
                0,
            ),
            c_ef@.len() >= tetrahedron(ne + 1) * tetrahedron(nf + 1),
            accumulated(
                *x,
                fm@,
                tri@,
                orig,
                c_ef@,
                tetrahedron(ne + 1),
                tetrahedron(nf + 1),
                tetrahedron(k as int),
            ),
        decreases nf + 1 - k,
    {
        window_ket(x, Ghost(fm@), tri, lmax, ne, nf, k, maxlevel, eoff, slab, levels);
        extract_window(
            x,
            Ghost(fm@),
            tri,
            lmax,
            ne,
            nf,
            k,
            maxlevel,
            eoff,
            slab,
            levels,
            Ghost(orig),
            c_ef,
        );
        k = k + 1;
    }
}

/// The bra ladder in the window: the level of degree zero.
#[verifier::spinoff_prover]
#[verifier::rlimit(60)]
fn window_bra<T: Scalar>(
    x: &VrrInput<T>,
    fm: &[T],
    tri: &[[usize; 3]],
    lmax: usize,
    ne: usize,
    nf: usize,
    maxlevel: usize,
    eoff: &[usize],
    slab: &[usize],
    levels: &mut [T],
)
    requires
        lists_triples(tri@, lmax as int),
        ne <= lmax <= 12,
        nf <= lmax,
        fm@.len() > ne + nf,
        maxlevel <= 1_100_000,
        packed(tri@, ne as int, nf as int, eoff@, slab@, maxlevel as int),
        old(levels)@.len() >= 3 * maxlevel,
    ensures
        final(levels)@.len() == old(levels)@.len(),
        held(
            *x,
            fm@,
            tri@,
            final(levels)@,
            ne + nf,
            tetrahedron(ne + 1),
            maxlevel as int,
            0,
            cart_count(0),
            0,
            0,
        ),
{
    let lt: usize = ne + nf;
    proof {
        lemma_small_degree(ne as int);
        lemma_small_degree(0);
        lemma_tetrahedron_grows(ne + 1, lmax + 1);
        lemma_tetrahedron_grows(1, ne + 1);
        lemma_listed_by_degree(tri@, lmax as int, 0, 0);
        assert(cart_count(0) == 1);
    }
    let n_e: usize = n_addr(ne);
    let mut ae: usize = 0;
    while ae < n_e
        invariant
            ae <= n_e,
            fm@.len() > lt,
            lists_triples(tri@, lmax as int),
            ne <= lmax <= 12,
            nf <= lmax,
            lt == ne + nf,
            n_e == tetrahedron(ne + 1) <= 3276,
            n_e <= tri@.len(),
            maxlevel <= 1_100_000,
            packed(tri@, ne as int, nf as int, eoff@, slab@, maxlevel as int),
            levels@.len() == old(levels)@.len(),
            levels@.len() >= 3 * maxlevel,
            cart_count(0) == 1,
            at_degree(tri@, 0, 0) == (0int, 0int, 0int),
            tetrahedron(0) == 0,
            held(
                *x,
                fm@,
                tri@,
                levels@,
                lt as int,
                n_e as int,
                maxlevel as int,
                0,
                0,
                ae as int,
                0,
            ),
        decreases n_e - ae,
    {
        let te: [usize; 3] = tri[ae];
        let ghost e = powers(te);
        proof {
            lemma_listed_degree_bound(tri@, lmax as int, ne as int, ae as int);
            lemma_small_degree(degree(e));
            lemma_pair_in_range(0, nf + 1, n_e as int, ae as int);
            assert(pair(0, n_e as int, ae as int) == ae) by (nonlinear_arith);
            assert(eoff@[pair(0, n_e as int, ae as int)] == row_offset(
                tri@,
                lt as int,
                0,
                ae as int,
            ));
            assert(slab@[0] == row_offset(tri@, lt as int, 0, n_e as int));
            lemma_rows(tri@, lmax as int, ne as int, lt as int, 0, ae as int, n_e as int);
        }
        let de: usize = te[0] + te[1] + te[2];
        let dst: usize = eoff[ae];
        let i: usize = lower_axis(te);
        let p: usize = power_of(te, i);
        let mut s1: usize = 0;
        let mut s2: usize = 0;
        let ghost a1 = address(shifted(e, i as int, -1));
        let ghost a2 = address(shifted(e, i as int, -2));
        if de >= 1 {
            let t1: [usize; 3] = dec(te, i);
            proof {
                lemma_window_lowered(tri@, lmax as int, ne as int, nf as int, e, i as int);
                lemma_small_degree(degree(e) - 1);
                assert(pair(0, n_e as int, a1) == a1) by (nonlinear_arith);
                lemma_pair_in_range(0, nf + 1, n_e as int, a1);
                assert(eoff@[pair(0, n_e as int, a1)] == row_offset(tri@, lt as int, 0, a1));
            }
            s1 = eoff[addr(t1)];
            if p >= 2 {
                let t2: [usize; 3] = dec(t1, i);
                proof {
                    lemma_small_degree(degree(e) - 2);
                    assert(pair(0, n_e as int, a2) == a2) by (nonlinear_arith);
                    lemma_pair_in_range(0, nf + 1, n_e as int, a2);
                    assert(eoff@[pair(0, n_e as int, a2)] == row_offset(tri@, lt as int, 0, a2));
                }
                s2 = eoff[addr(t2)];
            }
        }
        let mut m: usize = 0;
        while m <= lt - de
            invariant
                m <= lt - de + 1,
                ae < n_e,
                fm@.len() > lt,
                lists_triples(tri@, lmax as int),
                ne <= lmax <= 12,
                nf <= lmax,
                lt == ne + nf,
                n_e == tetrahedron(ne + 1) <= 3276,
                n_e <= tri@.len(),
                maxlevel <= 1_100_000,
                packed(tri@, ne as int, nf as int, eoff@, slab@, maxlevel as int),
                levels@.len() == old(levels)@.len(),
                levels@.len() >= 3 * maxlevel,
                cart_count(0) == 1,
                at_degree(tri@, 0, 0) == (0int, 0int, 0int),
                e == at(tri@, ae as int),
                is_triple(e, ne as int),
                de == degree(e),
                i < 3,
                i == first_axis(e),
                p == power(e, i as int),
                dst == row_offset(tri@, lt as int, 0, ae as int),
                de >= 1 ==> {
                    &&& p >= 1
                    &&& 0 <= a1 < ae
                    &&& at(tri@, a1) == shifted(e, i as int, -1)
                    &&& degree(at(tri@, a1)) == de - 1
                    &&& s1 == row_offset(tri@, lt as int, 0, a1)
                },
                de >= 1 && p >= 2 ==> {
                    &&& 0 <= a2 < ae
                    &&& at(tri@, a2) == shifted(e, i as int, -2)
                    &&& degree(at(tri@, a2)) == de - 2
                    &&& s2 == row_offset(tri@, lt as int, 0, a2)
                },
                cart_count(0) * row_offset(tri@, lt as int, 0, n_e as int) <= maxlevel,
                held(
                    *x,
                    fm@,
                    tri@,
                    levels@,
                    lt as int,
                    n_e as int,
                    maxlevel as int,
                    0,
                    0,
                    ae as int,
                    m as int,
                ),
            decreases lt - de + 1 - m,
        {
            let ghost (mx, l) = (maxlevel as int, lt as int);
            proof {
                lemma_spot_in_range(
                    tri@,
                    lmax as int,
                    ne as int,
                    l,
                    mx,
                    0,
                    0,
                    ae as int,
                    m as int,
                );
                lemma_spot_zero(tri@, l, n_e as int, mx, ae as int, m as int);
            }
            let v = if de == 0 {
                x.hdr.pref.times(fm[m])
            } else {
                proof {
                    lemma_spot_in_range(tri@, lmax as int, ne as int, l, mx, 0, 0, a1, m as int);
                    lemma_spot_in_range(tri@, lmax as int, ne as int, l, mx, 0, 0, a1, m + 1);
                    lemma_spot_zero(tri@, l, n_e as int, mx, a1, m as int);
                    lemma_spot_zero(tri@, l, n_e as int, mx, a1, m + 1);
                }
                let a = levels[s1 + m];
                let b = levels[s1 + m + 1];
                proof {
                    let z = (0int, 0int, 0int);
                    let e1 = shifted(e, i as int, -1);
                    assert(levels@[spot(tri@, l, n_e as int, mx, 0, 0, a1, m as int)] == element(
                        *x,
                        fm@,
                        e1,
                        z,
                        m as int,
                    ));
                    assert(levels@[spot(tri@, l, n_e as int, mx, 0, 0, a1, m + 1)] == element(
                        *x,
                        fm@,
                        e1,
                        z,
                        m + 1,
                    ));
                }
                let mut c = a;
                let mut d = b;
                if p >= 2 {
                    proof {
                        lemma_spot_in_range(
                            tri@,
                            lmax as int,
                            ne as int,
                            l,
                            mx,
                            0,
                            0,
                            a2,
                            m as int,
                        );
                        lemma_spot_in_range(tri@, lmax as int, ne as int, l, mx, 0, 0, a2, m + 1);
                        lemma_spot_zero(tri@, l, n_e as int, mx, a2, m as int);
                        lemma_spot_zero(tri@, l, n_e as int, mx, a2, m + 1);
                    }
                    c = levels[s2 + m];
                    d = levels[s2 + m + 1];
                    proof {
                        let z = (0int, 0int, 0int);
                        let e2 = shifted(e, i as int, -2);
                        assert(levels@[spot(tri@, l, n_e as int, mx, 0, 0, a2, m as int)]
                            == element(*x, fm@, e2, z, m as int));
                        assert(levels@[spot(tri@, l, n_e as int, mx, 0, 0, a2, m + 1)] == element(
                            *x,
                            fm@,
                            e2,
                            z,
                            m + 1,
                        ));
                    }
                }
                raised_bra(x, i, p, a, b, c, d)
            };
            proof {
                assert(v == element(*x, fm@, e, (0, 0, 0), m as int));
                lemma_held_write(
                    *x,
                    fm@,
                    tri@,
                    lmax as int,
                    levels@,
                    ne as int,
                    l,
                    mx,
                    0,
                    0,
                    ae as int,
                    m as int,
                    v,
                );
            }
            levels[dst + m] = v;
            m = m + 1;
        }
        ae = ae + 1;
    }
}

/// Places in the level of degree zero.
proof fn lemma_spot_zero(
    tri: Seq<[usize; 3]>,
    lt: int,
    n_e: int,
    maxlevel: int,
    a: int,
    m: int,
)
    ensures
        spot(tri, lt, n_e, maxlevel, 0, 0, a, m) == row_offset(tri, lt, 0, a) + m,
{
    assert(0 * maxlevel == 0 && 0 * row_offset(tri, lt, 0, n_e) == 0) by (nonlinear_arith);
}

/// A triple lowered once and, where its power allows, twice along its first axis:
/// both stand before it in the list.
proof fn lemma_window_lowered(
    tri: Seq<[usize; 3]>,
    lmax: int,
    ne: int,
    nf: int,
    e: Powers,
    i: int,
)
    requires
        lists_triples(tri, lmax),
        0 <= ne <= lmax,
        is_triple(e, ne),
        degree(e) >= 1,
        i == first_axis(e),
    ensures
        power(e, i) >= 1,
        0 <= address(shifted(e, i, -1)) < address(e) < tetrahedron(ne + 1),
        at(tri, address(shifted(e, i, -1))) == shifted(e, i, -1),
        shifted(shifted(e, i, -1), i, -1) == shifted(e, i, -2),
        power(e, i) >= 2 ==> {
            &&& 0 <= address(shifted(e, i, -2)) < address(e)
            &&& at(tri, address(shifted(e, i, -2))) == shifted(e, i, -2)
        },
{
    let e1 = shifted(e, i, -1);
    lemma_listed_at_address(tri, lmax, e1);
    crate::engine::triples::law_addresses_are_distinct(e1, e, ne);
    crate::engine::triples::law_addresses_are_distinct(e, e1, ne);
    if power(e, i) >= 2 {
        let e2 = shifted(e, i, -2);
        lemma_listed_at_address(tri, lmax, e2);
        crate::engine::triples::law_addresses_are_distinct(e2, e, ne);
    }
}

/// The ket level of degree `k` in the window, from the two levels below.
#[verifier::spinoff_prover]
#[verifier::rlimit(60)]
fn window_ket<T: Scalar>(
    x: &VrrInput<T>,
    Ghost(fm): Ghost<Seq<T>>,
    tri: &[[usize; 3]],
    lmax: usize,
    ne: usize,
    nf: usize,
    k: usize,
    maxlevel: usize,
    eoff: &[usize],
    slab: &[usize],
    levels: &mut [T],
)
    requires
        lists_triples(tri@, lmax as int),
        ne <= lmax <= 12,
        nf <= lmax,
        1 <= k <= nf,
        maxlevel <= 1_100_000,
        packed(tri@, ne as int, nf as int, eoff@, slab@, maxlevel as int),
        old(levels)@.len() >= 3 * maxlevel,
        held(
            *x,
            fm,
            tri@,
            old(levels)@,
            ne + nf,
            tetrahedron(ne + 1),
            maxlevel as int,
            k - 1,
            cart_count(k - 1),
            0,
            0,
        ),
        k >= 2 ==> held(
            *x,
            fm,
            tri@,
            old(levels)@,
            ne + nf,
            tetrahedron(ne + 1),
            maxlevel as int,
            k - 2,
            cart_count(k - 2),
            0,
            0,
        ),
    ensures
        final(levels)@.len() == old(levels)@.len(),
        held(
            *x,
            fm,
            tri@,
            final(levels)@,
            ne + nf,
            tetrahedron(ne + 1),
            maxlevel as int,
            k as int,
            cart_count(k as int),
            0,
            0,
        ),
        held(
            *x,
            fm,
            tri@,
            final(levels)@,
            ne + nf,
            tetrahedron(ne + 1),
            maxlevel as int,
            k - 1,
            cart_count(k - 1),
            0,
            0,
        ),
{
    let lt: usize = ne + nf;
    proof {
        lemma_small_degree(ne as int);
        lemma_small_degree(k as int);
        lemma_small_degree(k - 1);
        lemma_tetrahedron_grows(ne + 1, lmax + 1);
        lemma_tetrahedron_grows(k + 1, lmax + 1);
        assert(slab@[k as int] == row_offset(tri@, lt as int, k as int, tetrahedron(ne + 1)));
        assert(slab@[k - 1] == row_offset(tri@, lt as int, k - 1, tetrahedron(ne + 1)));
        if k >= 2 {
            lemma_small_degree(k - 2);
            assert(slab@[k - 2] == row_offset(tri@, lt as int, k - 2, tetrahedron(ne + 1)));
        }
        lemma_slot(k as int, maxlevel as int);
        lemma_slot(k - 1, maxlevel as int);
        lemma_slot(k - 2, maxlevel as int);
    }
    let n_e: usize = n_addr(ne);
    let base: usize = tri_below(k);
    let nck: usize = n_cart(k);
    let slot_k: usize = (k % 3) * maxlevel;
    let slot_k1: usize = ((k - 1) % 3) * maxlevel;
    let slab_k: usize = slab[k];
    let slab_k1: usize = slab[k - 1];
    let mut slot_k2: usize = 0;
    let mut slab_k2: usize = 0;
    if k >= 2 {
        slot_k2 = ((k - 2) % 3) * maxlevel;
        slab_k2 = slab[k - 2];
    }
    let mut fw: usize = 0;
    while fw < nck
        invariant
            fw <= nck,
            lists_triples(tri@, lmax as int),
            ne <= lmax <= 12,
            nf <= lmax,
            1 <= k <= nf,
            lt == ne + nf,
            n_e == tetrahedron(ne + 1) <= 3276,
            n_e <= tri@.len(),
            maxlevel <= 1_100_000,
            packed(tri@, ne as int, nf as int, eoff@, slab@, maxlevel as int),
            levels@.len() == old(levels)@.len(),
            levels@.len() >= 3 * maxlevel,
            nck == cart_count(k as int),
            base == tetrahedron(k as int),
            base + nck <= tri@.len(),
            base + nck <= 3276,
            slot_k == (k as int % 3) * maxlevel <= 2 * maxlevel,
            slot_k1 == ((k - 1) % 3) * maxlevel <= 2 * maxlevel,
            k >= 2 ==> slot_k2 == ((k - 2) % 3) * maxlevel <= 2 * maxlevel,
            slab_k == row_offset(tri@, lt as int, k as int, n_e as int),
            slab_k1 == row_offset(tri@, lt as int, k - 1, n_e as int),
            k >= 2 ==> slab_k2 == row_offset(tri@, lt as int, k - 2, n_e as int),
            cart_count(k as int) * slab_k <= maxlevel,
            cart_count(k - 1) * slab_k1 <= maxlevel,
            k >= 2 ==> cart_count(k - 2) * slab_k2 <= maxlevel,
            (k - 1) % 3 != (k as int) % 3,
            k >= 2 ==> (k - 2) % 3 != (k as int) % 3,
            held(*x, fm, tri@, levels@, lt as int, n_e as int, maxlevel as int, k - 1, cart_count(k - 1), 0, 0),
            k >= 2 ==> held(*x, fm, tri@, levels@, lt as int, n_e as int, maxlevel as int, k - 2, cart_count(k - 2), 0, 0),
            held(*x, fm, tri@, levels@, lt as int, n_e as int, maxlevel as int, k as int, fw as int, 0, 0),
        decreases nck - fw,
    {
        let tf: [usize; 3] = tri[base + fw];
        let ghost f = powers(tf);
        proof {
            lemma_listed_by_degree(tri@, lmax as int, k as int, fw as int);
            lemma_lowered_component(tri@, lmax as int, k as int, f, first_axis(f));
        }
        let j: usize = lower_axis(tf);
        let p: usize = power_of(tf, j);
        let f1: [usize; 3] = dec(tf, j);
        let lf1: usize = cart_index(f1);
        let mut lf2: usize = 0;
        if p >= 2 {
            let f2: [usize; 3] = dec(f1, j);
            lf2 = cart_index(f2);
        }
        let mut ae: usize = 0;
        while ae < n_e
            invariant
                ae <= n_e,
                fw < nck,
                lists_triples(tri@, lmax as int),
                ne <= lmax <= 12,
                nf <= lmax,
                1 <= k <= nf,
                lt == ne + nf,
                n_e == tetrahedron(ne + 1) <= 3276,
                n_e <= tri@.len(),
                maxlevel <= 1_100_000,
                packed(tri@, ne as int, nf as int, eoff@, slab@, maxlevel as int),
                levels@.len() == old(levels)@.len(),
                levels@.len() >= 3 * maxlevel,
                nck == cart_count(k as int),
                base == tetrahedron(k as int),
                base + nck <= tri@.len(),
                base + nck <= 3276,
                slot_k == (k as int % 3) * maxlevel <= 2 * maxlevel,
                slot_k1 == ((k - 1) % 3) * maxlevel <= 2 * maxlevel,
                k >= 2 ==> slot_k2 == ((k - 2) % 3) * maxlevel <= 2 * maxlevel,
                slab_k == row_offset(tri@, lt as int, k as int, n_e as int),
                slab_k1 == row_offset(tri@, lt as int, k - 1, n_e as int),
                k >= 2 ==> slab_k2 == row_offset(tri@, lt as int, k - 2, n_e as int),
                cart_count(k as int) * slab_k <= maxlevel,
                cart_count(k - 1) * slab_k1 <= maxlevel,
                k >= 2 ==> cart_count(k - 2) * slab_k2 <= maxlevel,
                (k - 1) % 3 != (k as int) % 3,
                k >= 2 ==> (k - 2) % 3 != (k as int) % 3,
                held(*x, fm, tri@, levels@, lt as int, n_e as int, maxlevel as int, k - 1, cart_count(k - 1), 0, 0),
                k >= 2 ==> held(*x, fm, tri@, levels@, lt as int, n_e as int, maxlevel as int, k - 2, cart_count(k - 2), 0, 0),
                f == at_degree(tri@, k as int, fw as int),
                is_component(f, k as int),
                j < 3,
                j == first_axis(f),
                p == power(f, j as int) >= 1,
                0 <= lf1 < cart_count(k - 1),
                at_degree(tri@, k - 1, lf1 as int) == shifted(f, j as int, -1),
                p >= 2 ==> k >= 2 && 0 <= lf2 < cart_count(k - 2) && at_degree(
                    tri@,
                    k - 2,
                    lf2 as int,
                ) == shifted(f, j as int, -2),
                held(*x, fm, tri@, levels@, lt as int, n_e as int, maxlevel as int, k as int, fw as int, ae as int, 0),
            decreases n_e - ae,
        {
            let te: [usize; 3] = tri[ae];
            let ghost e = powers(te);
            let kj: usize = power_of(te, j);
            proof {
                lemma_listed_degree_bound(tri@, lmax as int, ne as int, ae as int);
                lemma_small_degree(degree(e));
                lemma_row_start(tri@, lmax as int, ne as int, nf as int, eoff@, k as int, ae as int);
                lemma_row_start(tri@, lmax as int, ne as int, nf as int, eoff@, k - 1, ae as int);
                assert(eoff@[pair(k as int, n_e as int, ae as int)] == row_offset(tri@, lt as int, k as int, ae as int));
                assert(eoff@[pair(k - 1, n_e as int, ae as int)] == row_offset(tri@, lt as int, k - 1, ae as int));
                lemma_spot_in_range(tri@, lmax as int, ne as int, lt as int, maxlevel as int, k as int, fw as int, ae as int, 0);
                lemma_spot_in_range(tri@, lmax as int, ne as int, lt as int, maxlevel as int, k - 1, lf1 as int, ae as int, 0);
            }
            let de: usize = te[0] + te[1] + te[2];
            let dst: usize = slot_k + fw * slab_k + eoff[k * n_e + ae];
            let src1: usize = slot_k1 + lf1 * slab_k1 + eoff[(k - 1) * n_e + ae];
            let mut src2: usize = 0;
            if p >= 2 {
                proof {
                    lemma_row_start(tri@, lmax as int, ne as int, nf as int, eoff@, k - 2, ae as int);
                    assert(eoff@[pair(k - 2, n_e as int, ae as int)] == row_offset(tri@, lt as int, k - 2, ae as int));
                    lemma_spot_in_range(tri@, lmax as int, ne as int, lt as int, maxlevel as int, k - 2, lf2 as int, ae as int, 0);
                }
                src2 = slot_k2 + lf2 * slab_k2 + eoff[(k - 2) * n_e + ae];
            }
            let mut cross: usize = 0;
            let ghost cs = address(shifted(e, j as int, -1));
            if kj >= 1 {
                let te1: [usize; 3] = dec(te, j);
                proof {
                    lemma_small_degree(degree(e) - 1);
                    lemma_listed_at_address(tri@, lmax as int, powers(te1));
                    lemma_listed_degree_bound(tri@, lmax as int, ne as int, cs);
                    lemma_row_start(tri@, lmax as int, ne as int, nf as int, eoff@, k - 1, cs);
                    assert(eoff@[pair(k - 1, n_e as int, cs)] == row_offset(tri@, lt as int, k - 1, cs));
                    lemma_spot_in_range(tri@, lmax as int, ne as int, lt as int, maxlevel as int, k - 1, lf1 as int, cs, 0);
                }
                cross = slot_k1 + lf1 * slab_k1 + eoff[(k - 1) * n_e + addr(te1)];
            }
            let mut m: usize = 0;
            while m <= lt - de - k
                invariant
                    m <= lt - de - k + 1,
                    ae < n_e,
                    fw < nck,
                    lists_triples(tri@, lmax as int),
                    ne <= lmax <= 12,
                    nf <= lmax,
                    1 <= k <= nf,
                    lt == ne + nf,
                    n_e == tetrahedron(ne + 1) <= 3276,
                    n_e <= tri@.len(),
                    maxlevel <= 1_100_000,
                    packed(tri@, ne as int, nf as int, eoff@, slab@, maxlevel as int),
                    levels@.len() == old(levels)@.len(),
                    levels@.len() >= 3 * maxlevel,
                    nck == cart_count(k as int),
                    base == tetrahedron(k as int),
                    base + nck <= tri@.len(),
                    base + nck <= 3276,
                    slot_k == (k as int % 3) * maxlevel <= 2 * maxlevel,
                    slot_k1 == ((k - 1) % 3) * maxlevel <= 2 * maxlevel,
                    k >= 2 ==> slot_k2 == ((k - 2) % 3) * maxlevel <= 2 * maxlevel,
                    slab_k == row_offset(tri@, lt as int, k as int, n_e as int),
                    slab_k1 == row_offset(tri@, lt as int, k - 1, n_e as int),
                    k >= 2 ==> slab_k2 == row_offset(tri@, lt as int, k - 2, n_e as int),
                    cart_count(k as int) * slab_k <= maxlevel,
                    cart_count(k - 1) * slab_k1 <= maxlevel,
                    k >= 2 ==> cart_count(k - 2) * slab_k2 <= maxlevel,
                    (k - 1) % 3 != (k as int) % 3,
                    k >= 2 ==> (k - 2) % 3 != (k as int) % 3,
                    held(*x, fm, tri@, levels@, lt as int, n_e as int, maxlevel as int, k - 1, cart_count(k - 1), 0, 0),
                    k >= 2 ==> held(*x, fm, tri@, levels@, lt as int, n_e as int, maxlevel as int, k - 2, cart_count(k - 2), 0, 0),
                    f == at_degree(tri@, k as int, fw as int),
                    is_component(f, k as int),
                    j < 3,
                    j == first_axis(f),
                    p == power(f, j as int) >= 1,
                    0 <= lf1 < cart_count(k - 1),
                    at_degree(tri@, k - 1, lf1 as int) == shifted(f, j as int, -1),
                    p >= 2 ==> k >= 2 && 0 <= lf2 < cart_count(k - 2) && at_degree(
                        tri@,
                        k - 2,
                        lf2 as int,
                    ) == shifted(f, j as int, -2),
                    e == at(tri@, ae as int),
                    is_triple(e, ne as int),
                    de == degree(e),
                    de + k <= lt,
                    kj == power(e, j as int),
                    dst == spot(tri@, lt as int, n_e as int, maxlevel as int, k as int, fw as int, ae as int, 0),
                    src1 == spot(tri@, lt as int, n_e as int, maxlevel as int, k - 1, lf1 as int, ae as int, 0),
                    p >= 2 ==> src2 == spot(tri@, lt as int, n_e as int, maxlevel as int, k - 2, lf2 as int, ae as int, 0),
                    kj >= 1 ==> {
                        &&& 0 <= cs < n_e
                        &&& at(tri@, cs) == shifted(e, j as int, -1)
                        &&& degree(at(tri@, cs)) == de - 1
                        &&& cross == spot(tri@, lt as int, n_e as int, maxlevel as int, k - 1, lf1 as int, cs, 0)
                    },
                    held(*x, fm, tri@, levels@, lt as int, n_e as int, maxlevel as int, k as int, fw as int, ae as int, m as int),
                decreases lt - de - k + 1 - m,
            {
                let ghost (l, mx, q) = (lt as int, maxlevel as int, n_e as int);
                proof {
                    lemma_spot_in_range(tri@, lmax as int, ne as int, l, mx, k as int, fw as int, ae as int, m as int);
                    lemma_spot_in_range(tri@, lmax as int, ne as int, l, mx, k - 1, lf1 as int, ae as int, m as int);
                    lemma_spot_in_range(tri@, lmax as int, ne as int, l, mx, k - 1, lf1 as int, ae as int, m + 1);
                    assert(src1 + m == spot(tri@, l, q, mx, k - 1, lf1 as int, ae as int, m as int));
                    assert(src1 + m + 1 == spot(tri@, l, q, mx, k - 1, lf1 as int, ae as int, m + 1));
                }
                let a = levels[src1 + m];
                let b = levels[src1 + m + 1];
                let mut c = a;
                let mut d = b;
                let mut g = b;
                if p >= 2 {
                    proof {
                        lemma_spot_in_range(tri@, lmax as int, ne as int, l, mx, k - 2, lf2 as int, ae as int, m as int);
                        lemma_spot_in_range(tri@, lmax as int, ne as int, l, mx, k - 2, lf2 as int, ae as int, m + 1);
                        assert(src2 + m == spot(tri@, l, q, mx, k - 2, lf2 as int, ae as int, m as int));
                        assert(src2 + m + 1 == spot(tri@, l, q, mx, k - 2, lf2 as int, ae as int, m + 1));
                    }
                    c = levels[src2 + m];
                    d = levels[src2 + m + 1];
                }
                if kj >= 1 {
                    proof {
                        lemma_spot_in_range(tri@, lmax as int, ne as int, l, mx, k - 1, lf1 as int, cs, m + 1);
                        assert(cross + m + 1 == spot(tri@, l, q, mx, k - 1, lf1 as int, cs, m + 1));
                    }
                    g = levels[cross + m + 1];
                }
                let v = raised_ket(x, j, p, kj, a, b, c, d, g);
                proof {
                    assert(v == element(*x, fm, e, f, m as int));
                    lemma_held_write(*x, fm, tri@, lmax as int, levels@, ne as int, l, mx, k as int, fw as int, ae as int, m as int, v);
                    lemma_held_other(*x, fm, tri@, lmax as int, levels@, ne as int, l, mx, k as int, fw as int, ae as int, m as int, v, k - 1);
                    if k >= 2 {
                        lemma_held_other(*x, fm, tri@, lmax as int, levels@, ne as int, l, mx, k as int, fw as int, ae as int, m as int, v, k - 2);
                    }
                    assert(dst + m == spot(tri@, l, q, mx, k as int, fw as int, ae as int, m as int));
                }
                levels[dst + m] = v;
                m = m + 1;
            }
            ae = ae + 1;
        }
        fw = fw + 1;
    }
}

/// Slots of the window.
proof fn lemma_slot(k: int, maxlevel: int)
    requires
        0 <= maxlevel,
    ensures
        0 <= (k % 3) * maxlevel <= 2 * maxlevel,
{
    let c = k % 3;
    assert(0 <= c * maxlevel <= 2 * maxlevel) by (nonlinear_arith)
        requires
            0 <= c <= 2,
            0 <= maxlevel,
    ;
}

/// Where the offset of a row stands.
proof fn lemma_row_start(
    tri: Seq<[usize; 3]>,
    lmax: int,
    ne: int,
    nf: int,
    eoff: Seq<usize>,
    k: int,
    a: int,
)
    requires
        lists_triples(tri, lmax),
        0 <= ne <= lmax <= 12,
        0 <= k <= nf <= 12,
        0 <= a < tetrahedron(ne + 1),
        eoff.len() >= (nf + 1) * tetrahedron(ne + 1),
    ensures
        0 <= k * tetrahedron(ne + 1),
        0 <= pair(k, tetrahedron(ne + 1), a) < eoff.len(),
        pair(k, tetrahedron(ne + 1), a) <= 5915,
        row_len(tri, ne + nf, k, a) >= 1,
{
    let n_e = tetrahedron(ne + 1);
    lemma_window_counts(ne);
    lemma_pair_in_range(k, nf + 1, n_e, a);
    lemma_rows(tri, lmax, ne, ne + nf, k, a, a + 1);
    assert((nf + 1) * n_e <= 5915) by (nonlinear_arith)
        requires
            0 <= nf <= 12,
            0 <= n_e <= 455,
    ;
}

/// Contract the `m = 0` entries of the level of degree `k` into `c_ef`.
fn extract_window<T: Scalar>(
    x: &VrrInput<T>,
    Ghost(fm): Ghost<Seq<T>>,
    tri: &[[usize; 3]],
    lmax: usize,
    ne: usize,
    nf: usize,
    k: usize,
    maxlevel: usize,
    eoff: &[usize],
    slab: &[usize],
    levels: &[T],
    Ghost(orig): Ghost<Seq<T>>,
    c_ef: &mut [T],
)
    requires
        lists_triples(tri@, lmax as int),
        ne <= lmax <= 12,
        k <= nf <= lmax,
        maxlevel <= 1_100_000,
        packed(tri@, ne as int, nf as int, eoff@, slab@, maxlevel as int),
        levels@.len() >= 3 * maxlevel,
        held(
            *x,
            fm,
            tri@,
            levels@,
            ne + nf,
            tetrahedron(ne + 1),
            maxlevel as int,
            k as int,
            cart_count(k as int),
            0,
            0,
        ),
        old(c_ef)@.len() >= tetrahedron(ne + 1) * tetrahedron(nf + 1),
        accumulated(
            *x,
            fm,
            tri@,
            orig,
            old(c_ef)@,
            tetrahedron(ne + 1),
            tetrahedron(nf + 1),
            tetrahedron(k as int),
        ),
    ensures
        accumulated(
            *x,
            fm,
            tri@,
            orig,
            final(c_ef)@,
            tetrahedron(ne + 1),
            tetrahedron(nf + 1),
            tetrahedron(k + 1),
        ),
{
    let lt: usize = ne + nf;
    proof {
        lemma_small_degree(k as int);
        lemma_small_degree(ne as int);
        lemma_small_degree(nf as int);
        lemma_tetrahedron_grows(k + 1, nf + 1);
        lemma_tetrahedron_grows(ne + 1, lmax + 1);
        lemma_slot(k as int, maxlevel as int);
        assert(slab@[k as int] == row_offset(tri@, lt as int, k as int, tetrahedron(ne + 1)));
    }
    let base: usize = tri_below(k);
    let nck: usize = n_cart(k);
    let n_e: usize = n_addr(ne);
    let n_f: usize = n_addr(nf);
    let slot_k: usize = (k % 3) * maxlevel;
    let slab_k: usize = slab[k];
    let mut fw: usize = 0;
    while fw < nck
        invariant
            fw <= nck,
            lists_triples(tri@, lmax as int),
            ne <= lmax <= 12,
            k <= nf <= lmax,
            lt == ne + nf,
            n_e == tetrahedron(ne + 1) <= 3276,
            n_f == tetrahedron(nf + 1) <= 3276,
            nck == cart_count(k as int) <= 351,
            base == tetrahedron(k as int),
            base + nck == tetrahedron(k + 1) <= n_f,
            maxlevel <= 1_100_000,
            packed(tri@, ne as int, nf as int, eoff@, slab@, maxlevel as int),
            levels@.len() >= 3 * maxlevel,
            slot_k == (k as int % 3) * maxlevel <= 2 * maxlevel,
            slab_k == row_offset(tri@, lt as int, k as int, n_e as int),
            cart_count(k as int) * slab_k <= maxlevel,
            held(*x, fm, tri@, levels@, lt as int, n_e as int, maxlevel as int, k as int, cart_count(k as int), 0, 0),
            c_ef@.len() >= n_e * n_f,
            accumulated(*x, fm, tri@, orig, c_ef@, n_e as int, n_f as int, base + fw),
        decreases nck - fw,
    {
        let mut ae: usize = 0;
        while ae < n_e
            invariant
                ae <= n_e,
                fw < nck,
                lists_triples(tri@, lmax as int),
                ne <= lmax <= 12,
                k <= nf <= lmax,
                lt == ne + nf,
                n_e == tetrahedron(ne + 1) <= 3276,
                n_f == tetrahedron(nf + 1) <= 3276,
                nck == cart_count(k as int) <= 351,
                base == tetrahedron(k as int),
                base + nck == tetrahedron(k + 1) <= n_f,
                maxlevel <= 1_100_000,
                packed(tri@, ne as int, nf as int, eoff@, slab@, maxlevel as int),
                levels@.len() >= 3 * maxlevel,
                slot_k == (k as int % 3) * maxlevel <= 2 * maxlevel,
                slab_k == row_offset(tri@, lt as int, k as int, n_e as int),
                cart_count(k as int) * slab_k <= maxlevel,
                held(*x, fm, tri@, levels@, lt as int, n_e as int, maxlevel as int, k as int, cart_count(k as int), 0, 0),
                c_ef@.len() == orig.len(),
                c_ef@.len() >= n_e * n_f,
                forall|a: int, f: int|
                    0 <= a < n_e && 0 <= f < n_f ==> #[trigger] c_ef@[pair(a, n_f as int, f)] == (
                    if f < base + fw || (f == base + fw && a < ae) {
                        T::sum(orig[pair(a, n_f as int, f)], contribution(*x, fm, tri@, a, f))
                    } else {
                        orig[pair(a, n_f as int, f)]
                    }),
                forall|i: int| n_e * n_f <= i < orig.len() ==> c_ef@[i] == orig[i],
            decreases n_e - ae,
        {
            proof {
                lemma_row_start(tri@, lmax as int, ne as int, nf as int, eoff@, k as int, ae as int);
                assert(eoff@[pair(k as int, n_e as int, ae as int)] == row_offset(tri@, lt as int, k as int, ae as int));
                lemma_spot_in_range(tri@, lmax as int, ne as int, lt as int, maxlevel as int, k as int, fw as int, ae as int, 0);
                lemma_pair_in_range(ae as int, n_e as int, n_f as int, base + fw);
                assert(n_e * n_f <= 10_732_176) by (nonlinear_arith)
                    requires
                        0 <= n_e <= 3276,
                        0 <= n_f <= 3276,
                ;
            }
            let from: usize = slot_k + fw * slab_k + eoff[k * n_e + ae];
            assert(from == spot(tri@, lt as int, n_e as int, maxlevel as int, k as int, fw as int, ae as int, 0));
            let v = levels[from];
            let idx: usize = ae * n_f + base + fw;
            assert(idx == pair(ae as int, n_f as int, base + fw));
            let ghost before = c_ef@;
            c_ef[idx] = c_ef[idx].plus(x.hdr.scale.times(v));
            proof {
                assert forall|a: int, f: int| 0 <= a < n_e && 0 <= f < n_f implies #[trigger]
                c_ef@[pair(a, n_f as int, f)] == (if f < base + fw || (f == base + fw && a < ae
                    + 1) {
                    T::sum(orig[pair(a, n_f as int, f)], contribution(*x, fm, tri@, a, f))
                } else {
                    orig[pair(a, n_f as int, f)]
                }) by {
                    lemma_pair_in_range(a, n_e as int, n_f as int, f);
                    lemma_pair_order(a, f, ae as int, base + fw, n_f as int);
                    assert(before[pair(a, n_f as int, f)] == c_ef@[pair(a, n_f as int, f)] || (a
                        == ae && f == base + fw));
                }
            }
            ae = ae + 1;
        }
        fw = fw + 1;
    }
}

} // verus!
