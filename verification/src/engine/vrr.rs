//! The vertical recurrence: `[e0|f0]^(m)` of one primitive quartet, and its
//! contraction.
//!
//! With `P-A`, `W-P`, `Q-C`, `W-Q` the shift vectors of the quartet, `i` the first
//! axis of `e` and `j` that of `f`, an element is raised from lower ones by
//!
//! ```text
//!   [00|00]^(m) = pref F_m
//!   [e0|00]^(m) = (P-A)_i [e-1_i|0]^(m) + (W-P)_i [e-1_i|0]^(m+1)
//!       + (e_i-1)/2p ( [e-2_i|0]^(m) - q/(p+q) [e-2_i|0]^(m+1) )
//!   [e0|f0]^(m) = (Q-C)_j [e|f-1_j]^(m) + (W-Q)_j [e|f-1_j]^(m+1)
//!       + (f_j-1)/2q ( [e|f-2_j]^(m) - p/(p+q) [e|f-2_j]^(m+1) )
//!       + e_j/2(p+q) [e-1_j|f-1_j]^(m+1)
//! ```
//!
//! The kernels below differ in how they store the elements, not in the elements:
//! every one of them is proved against the one recurrence [`element`].
use vstd::prelude::*;

use crate::engine::triples::{
    addr, address, dec, first_axis, lemma_listed_at_address, lemma_listed_by_degree,
    lemma_listed_degree_bound, lemma_small_degree, lemma_tetrahedron_grows, lemma_tetrahedron_step,
    lists_triples, lower_axis, power, power_of, shifted, tetrahedron, tri_below,
};
use crate::flat::{
    cell, lemma_cell_distinct, lemma_cell_in_range, lemma_pair_in_range, lemma_pair_order, pair,
};
use crate::math::am::{
    cart_count, cart_index, cart_position, degree, is_component, law_positions_order_components,
    lemma_triangle_step, n_cart, powers, Powers,
};
use crate::scalar::Scalar;

verus! {

/// Per-quartet scalars: everything the recurrence needs that depends on the pair
/// of primitive pairs, not on either pair alone.
#[derive(Clone, Copy, Debug)]
pub struct QuartetHeader<T> {
    /// `W - P`.
    pub wp: [T; 3],
    /// `W - Q`.
    pub wq: [T; 3],
    /// Prefactor of the base ladder.
    pub pref: T,
    /// `1/2(p+q)`.
    pub inv_2pq: T,
    /// `q/(p+q)`.
    pub q_over_pq: T,
    /// `p/(p+q)`.
    pub p_over_pq: T,
    /// Product of the four contraction coefficients.
    pub scale: T,
    /// Argument of the base ladder.
    pub t: T,
}

/// The scalars of one primitive quartet that the recurrence runs on.
#[derive(Clone, Copy, Debug)]
pub struct VrrInput<T> {
    /// `P - A`.
    pub pa: [T; 3],
    /// `Q - C`.
    pub qc: [T; 3],
    /// `1/2p`.
    pub inv_2p: T,
    /// `1/2q`.
    pub inv_2q: T,
    /// What depends on both pairs.
    pub hdr: QuartetHeader<T>,
}

/// One bra raise along axis `i` to power `n`, from the elements lowered once
/// (`a` at `m`, `b` at `m+1`) and twice (`c`, `d`).
pub open spec fn bra_raise<T: Scalar>(
    x: VrrInput<T>,
    i: int,
    n: int,
    a: T,
    b: T,
    c: T,
    d: T,
) -> T {
    let v = T::sum(T::prod(x.pa[i], a), T::prod(x.hdr.wp[i], b));
    if n >= 2 {
        T::sum(
            v,
            T::prod(
                T::prod(T::count((n - 1) as u64), x.inv_2p),
                T::diff(c, T::prod(x.hdr.q_over_pq, d)),
            ),
        )
    } else {
        v
    }
}

/// One ket raise along axis `j` to power `n`, from the elements lowered once
/// (`a`, `b`) and twice (`c`, `d`) in the ket, and from the one lowered in bra and
/// ket (`g`), which enters where the bra has a power `k` along the axis.
pub open spec fn ket_raise<T: Scalar>(
    x: VrrInput<T>,
    j: int,
    n: int,
    k: int,
    a: T,
    b: T,
    c: T,
    d: T,
    g: T,
) -> T {
    let v = T::sum(T::prod(x.qc[j], a), T::prod(x.hdr.wq[j], b));
    let w = if n >= 2 {
        T::sum(
            v,
            T::prod(
                T::prod(T::count((n - 1) as u64), x.inv_2q),
                T::diff(c, T::prod(x.hdr.p_over_pq, d)),
            ),
        )
    } else {
        v
    };
    if k >= 1 {
        T::sum(w, T::prod(T::prod(T::count(k as u64), x.hdr.inv_2pq), g))
    } else {
        w
    }
}

/// The element `[e0|f0]^(m)` of the quartet `x` over the base ladder `fm`.
pub open spec fn element<T: Scalar>(
    x: VrrInput<T>,
    fm: Seq<T>,
    e: Powers,
    f: Powers,
    m: int,
) -> T
    decreases degree(f) + 2, degree(e) + 2,
{
    if e.0 < 0 || e.1 < 0 || e.2 < 0 || f.0 < 0 || f.1 < 0 || f.2 < 0 {
        T::count(0)
    } else if degree(f) > 0 {
        let j = first_axis(f);
        let f1 = shifted(f, j, -1);
        let f2 = shifted(f, j, -2);
        ket_raise(
            x,
            j,
            power(f, j),
            power(e, j),
            element(x, fm, e, f1, m),
            element(x, fm, e, f1, m + 1),
            element(x, fm, e, f2, m),
            element(x, fm, e, f2, m + 1),
            element(x, fm, shifted(e, j, -1), f1, m + 1),
        )
    } else if degree(e) > 0 {
        let i = first_axis(e);
        let e1 = shifted(e, i, -1);
        let e2 = shifted(e, i, -2);
        bra_raise(
            x,
            i,
            power(e, i),
            element(x, fm, e1, f, m),
            element(x, fm, e1, f, m + 1),
            element(x, fm, e2, f, m),
            element(x, fm, e2, f, m + 1),
        )
    } else {
        T::prod(x.hdr.pref, fm[m])
    }
}

/// [`bra_raise`], computed. The twice-lowered elements are read only where the
/// power calls for them.
pub fn raised_bra<T: Scalar>(x: &VrrInput<T>, i: usize, n: usize, a: T, b: T, c: T, d: T) -> (v: T)
    requires
        i < 3,
        1 <= n,
    ensures
        v == bra_raise(*x, i as int, n as int, a, b, c, d),
{
    let v = x.pa[i].times(a).plus(x.hdr.wp[i].times(b));
    if n >= 2 {
        let coef2 = T::from_count((n - 1) as u64).times(x.inv_2p);
        v.plus(coef2.times(c.minus(x.hdr.q_over_pq.times(d))))
    } else {
        v
    }
}

/// [`ket_raise`], computed.
pub fn raised_ket<T: Scalar>(
    x: &VrrInput<T>,
    j: usize,
    n: usize,
    k: usize,
    a: T,
    b: T,
    c: T,
    d: T,
    g: T,
) -> (v: T)
    requires
        j < 3,
        1 <= n,
    ensures
        v == ket_raise(*x, j as int, n as int, k as int, a, b, c, d, g),
{
    let mut v = x.qc[j].times(a).plus(x.hdr.wq[j].times(b));
    if n >= 2 {
        let coef2 = T::from_count((n - 1) as u64).times(x.inv_2q);
        v = v.plus(coef2.times(c.minus(x.hdr.p_over_pq.times(d))));
    }
    if k >= 1 {
        let cross = T::from_count(k as u64).times(x.hdr.inv_2pq);
        v = v.plus(cross.times(g));
    }
    v
}

/// The triple at address `n` of the list.
pub open spec fn at(tri: Seq<[usize; 3]>, n: int) -> Powers {
    powers(tri[n])
}

/// The component of degree `k` at position `f` in the list.
pub open spec fn at_degree(tri: Seq<[usize; 3]>, k: int, f: int) -> Powers {
    powers(tri[tetrahedron(k) + f])
}

/// Whether the first `rows` rows of the bra table hold their elements: row `a`,
/// column `m` is `[e0|00]^(m)` with `e` the triple at address `a`, for `m` up to
/// `lt - deg(e)`.
pub open spec fn bra_rows<T: Scalar>(
    x: VrrInput<T>,
    fm: Seq<T>,
    tri: Seq<[usize; 3]>,
    tab: Seq<T>,
    lt: int,
    rows: int,
) -> bool {
    forall|a: int, m: int|
        0 <= a < rows && 0 <= m <= lt - degree(at(tri, a)) ==> #[trigger] tab[pair(a, lt + 1, m)]
            == element(x, fm, at(tri, a), (0, 0, 0), m)
}

/// Whether `tab` holds the ket level `k`: entry `(a, f, m)` of shape
/// `(rows, cart_count(k), s)` is `[e0|f0]^(m)` with `e` the triple at address `a`
/// and `f` the component of degree `k` at position `f`, for `m` up to `mtop`.
pub open spec fn level<T: Scalar>(
    x: VrrInput<T>,
    fm: Seq<T>,
    tri: Seq<[usize; 3]>,
    tab: Seq<T>,
    rows: int,
    k: int,
    s: int,
    mtop: int,
) -> bool {
    forall|a: int, f: int, m: int|
        0 <= a < rows && 0 <= f < cart_count(k) && 0 <= m <= mtop
            ==> #[trigger] tab[cell(a, cart_count(k), f, s, m)] == element(
            x,
            fm,
            at(tri, a),
            at_degree(tri, k, f),
            m,
        )
}

/// What contraction adds to the element at addresses `(a, f)`.
pub open spec fn contribution<T: Scalar>(
    x: VrrInput<T>,
    fm: Seq<T>,
    tri: Seq<[usize; 3]>,
    a: int,
    f: int,
) -> T {
    T::prod(x.hdr.scale, element(x, fm, at(tri, a), at(tri, f), 0))
}

/// One degree `k` of the bra ladder: raise every triple of degree `k` into the
/// table, whose rows of lower degree are there.
fn big_bra_degree<T: Scalar>(
    x: &VrrInput<T>,
    Ghost(fm): Ghost<Seq<T>>,
    tri: &[[usize; 3]],
    lmax: usize,
    k: usize,
    lt: usize,
    ea: &mut [T],
)
    requires
        lists_triples(tri@, lmax as int),
        1 <= k <= lmax <= 12,
        k <= lt <= 24,
        old(ea)@.len() >= tetrahedron(k + 1) * (lt + 1),
        bra_rows(*x, fm, tri@, old(ea)@, lt as int, tetrahedron(k as int)),
    ensures
        final(ea)@.len() == old(ea)@.len(),
        bra_rows(*x, fm, tri@, final(ea)@, lt as int, tetrahedron(k + 1)),
{
    proof {
        lemma_small_degree(k as int);
        lemma_tetrahedron_grows(k + 1, lmax + 1);
    }
    let base: usize = tri_below(k);
    let n: usize = n_cart(k);
    let sa: usize = lt + 1;
    let mut iw: usize = 0;
    while iw < n
        invariant
            iw <= n,
            n == cart_count(k as int),
            base == tetrahedron(k as int),
            base + n == tetrahedron(k + 1),
            tetrahedron(k + 1) <= tri@.len(),
            base + n <= 3276,
            sa == lt + 1,
            lists_triples(tri@, lmax as int),
            1 <= k <= lmax <= 12,
            k <= lt <= 24,
            ea@.len() == old(ea)@.len(),
            ea@.len() >= (base + n) * (lt + 1),
            bra_rows(*x, fm, tri@, ea@, lt as int, base + iw),
        decreases n - iw,
    {
        let te: [usize; 3] = tri[base + iw];
        let ghost e = powers(te);
        proof {
            lemma_listed_by_degree(tri@, lmax as int, k as int, iw as int);
        }
        let i: usize = lower_axis(te);
        let p: usize = power_of(te, i);
        let t1: [usize; 3] = dec(te, i);
        proof {
            lemma_small_degree(k - 1);
            lemma_lowered(tri@, lmax as int, k as int, e, i as int);
        }
        let s1a: usize = addr(t1);
        let mut s2a: usize = 0;
        if p >= 2 {
            let t2: [usize; 3] = dec(t1, i);
            proof {
                lemma_small_degree(k - 2);
            }
            s2a = addr(t2);
        }
        let row: usize = base + iw;
        let mut m: usize = 0;
        while m <= lt - k
            invariant
                m <= lt - k + 1,
                iw < n,
                row == base + iw,
                n == cart_count(k as int),
                base == tetrahedron(k as int),
                base + n <= 3276,
                sa == lt + 1,
                1 <= k <= lmax <= 12,
                k <= lt <= 24,
                lists_triples(tri@, lmax as int),
                base + n <= tri@.len(),
                e == at(tri@, row as int),
                is_component(e, k as int),
                i < 3,
                i == first_axis(e),
                p == power(e, i as int),
                p >= 1,
                s1a == address(shifted(e, i as int, -1)),
                s1a < base,
                at(tri@, s1a as int) == shifted(e, i as int, -1),
                s2a < base,
                p >= 2 ==> at(tri@, s2a as int) == shifted(e, i as int, -2),
                ea@.len() == old(ea)@.len(),
                ea@.len() >= (base + n) * (lt + 1),
                bra_rows(*x, fm, tri@, ea@, lt as int, row as int),
                forall|c: int|
                    0 <= c < m ==> #[trigger] ea@[pair(row as int, lt + 1, c)] == element(
                        *x,
                        fm,
                        e,
                        (0, 0, 0),
                        c,
                    ),
            decreases lt - k + 1 - m,
        {
            proof {
                lemma_pair_in_range(row as int, base + n, lt + 1, m as int);
                lemma_pair_in_range(s1a as int, base + n, lt + 1, m as int);
                lemma_pair_in_range(s1a as int, base + n, lt + 1, m + 1);
                lemma_pair_in_range(s2a as int, base + n, lt + 1, m as int);
                lemma_pair_in_range(s2a as int, base + n, lt + 1, m + 1);
                assert(row * sa + m == pair(row as int, lt + 1, m as int));
                assert(s1a * sa + m == pair(s1a as int, lt + 1, m as int));
                assert(s1a * sa + m + 1 == pair(s1a as int, lt + 1, m + 1));
                assert(s2a * sa + m == pair(s2a as int, lt + 1, m as int));
                assert(s2a * sa + m + 1 == pair(s2a as int, lt + 1, m + 1));
                assert((base + n) * (lt + 1) <= 81900) by (nonlinear_arith)
                    requires
                        0 <= base + n <= 3276,
                        0 <= lt + 1 <= 25,
                ;
            }
            let a = ea[s1a * sa + m];
            let b = ea[s1a * sa + m + 1];
            let c = ea[s2a * sa + m];
            let d = ea[s2a * sa + m + 1];
            let v = raised_bra(x, i, p, a, b, c, d);
            assert(v == element(*x, fm, e, (0, 0, 0), m as int));
            ea[row * sa + m] = v;
            proof {
                assert forall|a: int, mm: int|
                    0 <= a < row && 0 <= mm <= lt - degree(
                        at(tri@, a),
                    ) implies #[trigger] ea@[pair(a, lt + 1, mm)] == element(
                    *x,
                    fm,
                    at(tri@, a),
                    (0, 0, 0),
                    mm,
                ) by {
                    lemma_pair_order(a, mm, row as int, m as int, lt + 1);
                    lemma_pair_in_range(a, base + n, lt + 1, mm);
                }
                assert forall|c: int| 0 <= c < m + 1 implies #[trigger] ea@[pair(
                    row as int,
                    lt + 1,
                    c,
                )] == element(*x, fm, e, (0, 0, 0), c) by {
                    lemma_pair_order(row as int, c, row as int, m as int, lt + 1);
                    lemma_pair_in_range(row as int, base + n, lt + 1, c);
                }
            }
            m = m + 1;
        }
        iw = iw + 1;
    }
}

/// The triple lowered once and, where its power allows, twice along its first
/// axis, and where they stand in the list.
proof fn lemma_lowered(tri: Seq<[usize; 3]>, lmax: int, k: int, e: Powers, i: int)
    requires
        lists_triples(tri, lmax),
        1 <= k <= lmax,
        is_component(e, k),
        i == first_axis(e),
    ensures
        power(e, i) >= 1,
        is_component(shifted(e, i, -1), k - 1),
        0 <= address(shifted(e, i, -1)) < tetrahedron(k),
        tetrahedron(k) <= tri.len(),
        at(tri, address(shifted(e, i, -1))) == shifted(e, i, -1),
        shifted(shifted(e, i, -1), i, -1) == shifted(e, i, -2),
        power(e, i) >= 2 ==> {
            &&& is_component(shifted(e, i, -2), k - 2)
            &&& 0 <= address(shifted(e, i, -2)) < tetrahedron(k)
            &&& at(tri, address(shifted(e, i, -2))) == shifted(e, i, -2)
        },
{
    let e1 = shifted(e, i, -1);
    lemma_listed_at_address(tri, lmax, e1);
    crate::engine::triples::law_addresses_are_distinct(e1, e1, k - 1);
    lemma_tetrahedron_grows(k, lmax + 1);
    if power(e, i) >= 2 {
        let e2 = shifted(e, i, -2);
        lemma_listed_at_address(tri, lmax, e2);
        crate::engine::triples::law_addresses_are_distinct(e2, e2, k - 1);
    }
}

/// [`level`] for the entries that precede `(fw, ae, mm)` in the order position,
/// address, index.
spec fn level_before<T: Scalar>(
    x: VrrInput<T>,
    fm: Seq<T>,
    tri: Seq<[usize; 3]>,
    tab: Seq<T>,
    rows: int,
    k: int,
    s: int,
    mtop: int,
    fw: int,
    ae: int,
    mm: int,
) -> bool {
    forall|a: int, f: int, m: int|
        0 <= a < rows && 0 <= f < cart_count(k) && 0 <= m <= mtop && (f < fw || (f == fw && (a < ae
            || (a == ae && m < mm)))) ==> #[trigger] tab[cell(a, cart_count(k), f, s, m)]
            == element(x, fm, at(tri, a), at_degree(tri, k, f), m)
}

/// Writing the entry `(fw, ae, mm)` extends what is held by it.
proof fn lemma_level_write<T: Scalar>(
    x: VrrInput<T>,
    fm: Seq<T>,
    tri: Seq<[usize; 3]>,
    tab: Seq<T>,
    rows: int,
    k: int,
    s: int,
    mtop: int,
    fw: int,
    ae: int,
    mm: int,
    v: T,
)
    requires
        level_before(x, fm, tri, tab, rows, k, s, mtop, fw, ae, mm),
        0 <= fw < cart_count(k),
        0 <= ae < rows,
        0 <= mm <= mtop < s,
        tab.len() >= rows * cart_count(k) * s,
        v == element(x, fm, at(tri, ae), at_degree(tri, k, fw), mm),
    ensures
        level_before(
            x,
            fm,
            tri,
            tab.update(cell(ae, cart_count(k), fw, s, mm), v),
            rows,
            k,
            s,
            mtop,
            fw,
            ae,
            mm + 1,
        ),
{
    let new = tab.update(cell(ae, cart_count(k), fw, s, mm), v);
    lemma_cell_in_range(ae, rows, cart_count(k), fw, s, mm);
    assert forall|a: int, f: int, m: int|
        0 <= a < rows && 0 <= f < cart_count(k) && 0 <= m <= mtop && (f < fw || (f == fw && (a < ae
            || (a == ae && m < mm + 1)))) implies #[trigger] new[cell(a, cart_count(k), f, s, m)]
        == element(x, fm, at(tri, a), at_degree(tri, k, f), m) by {
        lemma_cell_in_range(a, rows, cart_count(k), f, s, m);
        lemma_cell_distinct(a, f, m, ae, fw, mm, cart_count(k), s);
    }
}

/// Tables of the sizes that the engines reach.
proof fn lemma_table_size(rows: int, n: int, s: int)
    requires
        0 <= rows <= 3276,
        0 <= n <= 351,
        0 <= s <= 49,
    ensures
        0 <= rows * n * s <= 56_344_124,
        0 <= rows * n <= 1_149_876,
{
    assert(0 <= rows * n <= 1_149_876) by (nonlinear_arith)
        requires
            0 <= rows <= 3276,
            0 <= n <= 351,
    ;
    let r = rows * n;
    assert(0 <= r * s <= 56_344_124) by (nonlinear_arith)
        requires
            0 <= r <= 1_149_876,
            0 <= s <= 49,
    ;
}

/// One ket degree `k`: build the ket level `k` from the levels one and two below.
/// The level two below is read only for components with a power of two or more.
fn big_ket_degree<T: Scalar>(
    x: &VrrInput<T>,
    Ghost(fm): Ghost<Seq<T>>,
    tri: &[[usize; 3]],
    lmax: usize,
    ne: usize,
    k: usize,
    mtop: usize,
    sk: usize,
    sk1: usize,
    sk2: usize,
    src1: &[T],
    src2: &[T],
    dst: &mut [T],
)
    requires
        lists_triples(tri@, lmax as int),
        1 <= k <= lmax <= 12,
        ne <= lmax,
        mtop < sk <= 49,
        mtop + 1 < sk1 <= 49,
        mtop + 1 < sk2 <= 49,
        src1@.len() >= tetrahedron(ne + 1) * cart_count(k - 1) * sk1,
        level(*x, fm, tri@, src1@, tetrahedron(ne + 1), k - 1, sk1 as int, mtop + 1),
        k >= 2 ==> src2@.len() >= tetrahedron(ne + 1) * cart_count(k - 2) * sk2,
        k >= 2 ==> level(*x, fm, tri@, src2@, tetrahedron(ne + 1), k - 2, sk2 as int, mtop + 1),
        old(dst)@.len() >= tetrahedron(ne + 1) * cart_count(k as int) * sk,
    ensures
        final(dst)@.len() == old(dst)@.len(),
        level(*x, fm, tri@, final(dst)@, tetrahedron(ne + 1), k as int, sk as int, mtop as int),
{
    proof {
        lemma_small_degree(k as int);
        lemma_small_degree(k - 1);
        if k >= 2 {
            lemma_small_degree(k - 2);
        }
        lemma_small_degree(ne as int);
        lemma_tetrahedron_grows(k + 1, lmax + 1);
        lemma_tetrahedron_grows(ne + 1, lmax + 1);
    }
    let base: usize = tri_below(k);
    let nck: usize = n_cart(k);
    let nck1: usize = n_cart(k - 1);
    let nck2: usize = if k >= 2 {
        n_cart(k - 2)
    } else {
        0
    };
    let rows: usize = crate::engine::triples::n_addr(ne);
    let mut fw: usize = 0;
    while fw < nck
        invariant
            fw <= nck,
            nck == cart_count(k as int) <= 351,
            nck1 == cart_count(k - 1) <= 351,
            k >= 2 ==> nck2 == cart_count(k - 2) <= 351,
            base == tetrahedron(k as int),
            base + nck <= tri@.len(),
            base + nck <= 3276,
            rows == tetrahedron(ne + 1) <= 3276,
            rows <= tri@.len(),
            lists_triples(tri@, lmax as int),
            1 <= k <= lmax <= 12,
            ne <= lmax,
            mtop < sk <= 49,
            mtop + 1 < sk1 <= 49,
            mtop + 1 < sk2 <= 49,
            src1@.len() >= rows * nck1 * sk1,
            level(*x, fm, tri@, src1@, rows as int, k - 1, sk1 as int, mtop + 1),
            k >= 2 ==> src2@.len() >= rows * nck2 * sk2,
            k >= 2 ==> level(*x, fm, tri@, src2@, rows as int, k - 2, sk2 as int, mtop + 1),
            dst@.len() == old(dst)@.len(),
            dst@.len() >= rows * nck * sk,
            level_before(
                *x,
                fm,
                tri@,
                dst@,
                rows as int,
                k as int,
                sk as int,
                mtop as int,
                fw as int,
                0,
                0,
            ),
        decreases nck - fw,
    {
        let tf: [usize; 3] = tri[base + fw];
        let ghost f = powers(tf);
        proof {
            lemma_listed_by_degree(tri@, lmax as int, k as int, fw as int);
        }
        let j: usize = lower_axis(tf);
        let p: usize = power_of(tf, j);
        let f1: [usize; 3] = dec(tf, j);
        proof {
            lemma_lowered_component(tri@, lmax as int, k as int, f, j as int);
        }
        let lf1: usize = cart_index(f1);
        let mut lf2: usize = 0;
        if p >= 2 {
            let f2: [usize; 3] = dec(f1, j);
            lf2 = cart_index(f2);
        }
        let mut ae: usize = 0;
        while ae < rows
            invariant
                ae <= rows,
                fw < nck,
                nck == cart_count(k as int) <= 351,
                nck1 == cart_count(k - 1) <= 351,
                k >= 2 ==> nck2 == cart_count(k - 2) <= 351,
                rows == tetrahedron(ne + 1) <= 3276,
                rows <= tri@.len(),
                lists_triples(tri@, lmax as int),
                1 <= k <= lmax <= 12,
                ne <= lmax,
                mtop < sk <= 49,
                mtop + 1 < sk1 <= 49,
                mtop + 1 < sk2 <= 49,
                src1@.len() >= rows * nck1 * sk1,
                level(*x, fm, tri@, src1@, rows as int, k - 1, sk1 as int, mtop + 1),
                k >= 2 ==> src2@.len() >= rows * nck2 * sk2,
                k >= 2 ==> level(*x, fm, tri@, src2@, rows as int, k - 2, sk2 as int, mtop + 1),
                f == at_degree(tri@, k as int, fw as int),
                is_component(f, k as int),
                j < 3,
                j == first_axis(f),
                p == power(f, j as int) >= 1,
                0 <= lf1 < nck1,
                at_degree(tri@, k - 1, lf1 as int) == shifted(f, j as int, -1),
                p >= 2 ==> k >= 2 && 0 <= lf2 < nck2 && at_degree(tri@, k - 2, lf2 as int)
                    == shifted(f, j as int, -2),
                dst@.len() == old(dst)@.len(),
                dst@.len() >= rows * nck * sk,
                level_before(
                    *x,
                    fm,
                    tri@,
                    dst@,
                    rows as int,
                    k as int,
                    sk as int,
                    mtop as int,
                    fw as int,
                    ae as int,
                    0,
                ),
            decreases rows - ae,
        {
            let te: [usize; 3] = tri[ae];
            let ghost e = powers(te);
            let kj: usize = power_of(te, j);
            let mut cs: usize = 0;
            proof {
                lemma_listed_degree_bound(tri@, lmax as int, ne as int, ae as int);
                lemma_small_degree(degree(e));
            }
            if kj >= 1 {
                let te1: [usize; 3] = dec(te, j);
                proof {
                    lemma_small_degree(degree(e) - 1);
                    lemma_listed_at_address(tri@, lmax as int, powers(te1));
                    lemma_listed_degree_bound(tri@, lmax as int, ne as int, address(powers(te1)));
                }
                cs = addr(te1);
            }
            let mut m: usize = 0;
            while m <= mtop
                invariant
                    m <= mtop + 1,
                    ae < rows,
                    fw < nck,
                    nck == cart_count(k as int) <= 351,
                    nck1 == cart_count(k - 1) <= 351,
                    k >= 2 ==> nck2 == cart_count(k - 2) <= 351,
                    rows == tetrahedron(ne + 1) <= 3276,
                    rows <= tri@.len(),
                    1 <= k,
                    mtop < sk <= 49,
                    mtop + 1 < sk1 <= 49,
                    mtop + 1 < sk2 <= 49,
                    src1@.len() >= rows * nck1 * sk1,
                    level(*x, fm, tri@, src1@, rows as int, k - 1, sk1 as int, mtop + 1),
                    k >= 2 ==> src2@.len() >= rows * nck2 * sk2,
                    k >= 2 ==> level(*x, fm, tri@, src2@, rows as int, k - 2, sk2 as int, mtop + 1),
                    f == at_degree(tri@, k as int, fw as int),
                    is_component(f, k as int),
                    j < 3,
                    j == first_axis(f),
                    p == power(f, j as int) >= 1,
                    0 <= lf1 < nck1,
                    at_degree(tri@, k - 1, lf1 as int) == shifted(f, j as int, -1),
                    p >= 2 ==> k >= 2 && 0 <= lf2 < nck2 && at_degree(tri@, k - 2, lf2 as int)
                        == shifted(f, j as int, -2),
                    e == at(tri@, ae as int),
                    e.0 >= 0 && e.1 >= 0 && e.2 >= 0,
                    kj == power(e, j as int),
                    0 <= cs < rows,
                    kj >= 1 ==> at(tri@, cs as int) == shifted(e, j as int, -1),
                    dst@.len() == old(dst)@.len(),
                    dst@.len() >= rows * nck * sk,
                    level_before(
                        *x,
                        fm,
                        tri@,
                        dst@,
                        rows as int,
                        k as int,
                        sk as int,
                        mtop as int,
                        fw as int,
                        ae as int,
                        m as int,
                    ),
                decreases mtop + 1 - m,
            {
                proof {
                    let (r, n1, s1) = (rows as int, nck1 as int, sk1 as int);
                    lemma_cell_in_range(ae as int, r, nck as int, fw as int, sk as int, m as int);
                    lemma_cell_in_range(ae as int, r, n1, lf1 as int, s1, m as int);
                    lemma_cell_in_range(ae as int, r, n1, lf1 as int, s1, m + 1);
                    lemma_cell_in_range(cs as int, r, n1, lf1 as int, s1, m + 1);
                    lemma_table_size(r, nck as int, sk as int);
                    lemma_table_size(r, n1, s1);
                    assert((ae * nck1 + lf1) * sk1 + m + 1 == cell(
                        ae as int,
                        n1,
                        lf1 as int,
                        s1,
                        m + 1,
                    ));
                }
                let a = src1[(ae * nck1 + lf1) * sk1 + m];
                let b = src1[(ae * nck1 + lf1) * sk1 + m + 1];
                let mut c = a;
                let mut d = b;
                if p >= 2 {
                    proof {
                        let (r, n2, s2) = (rows as int, nck2 as int, sk2 as int);
                        lemma_cell_in_range(ae as int, r, n2, lf2 as int, s2, m as int);
                        lemma_cell_in_range(ae as int, r, n2, lf2 as int, s2, m + 1);
                        lemma_table_size(r, n2, s2);
                        assert((ae * nck2 + lf2) * sk2 + m + 1 == cell(
                            ae as int,
                            n2,
                            lf2 as int,
                            s2,
                            m + 1,
                        ));
                    }
                    c = src2[(ae * nck2 + lf2) * sk2 + m];
                    d = src2[(ae * nck2 + lf2) * sk2 + m + 1];
                }
                let g = src1[(cs * nck1 + lf1) * sk1 + m + 1];
                proof {
                    assert((cs * nck1 + lf1) * sk1 + m + 1 == cell(
                        cs as int,
                        nck1 as int,
                        lf1 as int,
                        sk1 as int,
                        m + 1,
                    ));
                }
                let v = raised_ket(x, j, p, kj, a, b, c, d, g);
                proof {
                    assert(v == element(*x, fm, e, f, m as int));
                    lemma_level_write(
                        *x,
                        fm,
                        tri@,
                        dst@,
                        rows as int,
                        k as int,
                        sk as int,
                        mtop as int,
                        fw as int,
                        ae as int,
                        m as int,
                        v,
                    );
                }
                dst[(ae * nck + fw) * sk + m] = v;
                m = m + 1;
            }
            ae = ae + 1;
        }
        fw = fw + 1;
    }
}

/// The component lowered once and, where its power allows, twice along its first
/// axis, and where they stand among those of their degree.
pub proof fn lemma_lowered_component(tri: Seq<[usize; 3]>, lmax: int, k: int, f: Powers, j: int)
    requires
        lists_triples(tri, lmax),
        1 <= k <= lmax <= 25,
        is_component(f, k),
        j == first_axis(f),
    ensures
        power(f, j) >= 1,
        is_component(shifted(f, j, -1), k - 1),
        0 <= cart_position(shifted(f, j, -1)) < cart_count(k - 1),
        at_degree(tri, k - 1, cart_position(shifted(f, j, -1))) == shifted(f, j, -1),
        shifted(shifted(f, j, -1), j, -1) == shifted(f, j, -2),
        power(f, j) >= 2 ==> {
            &&& is_component(shifted(f, j, -2), k - 2)
            &&& 0 <= cart_position(shifted(f, j, -2)) < cart_count(k - 2)
            &&& at_degree(tri, k - 2, cart_position(shifted(f, j, -2))) == shifted(f, j, -2)
        },
        forall|c: Powers| #[trigger]
            is_component(c, k - 1) || is_component(c, k - 2) ==> (c.1 + c.2) * (c.1 + c.2 + 1)
                <= 650,
{
    let f1 = shifted(f, j, -1);
    lemma_listed_at_address(tri, lmax, f1);
    law_positions_order_components(f1, f1, k - 1);
    if power(f, j) >= 2 {
        let f2 = shifted(f, j, -2);
        lemma_listed_at_address(tri, lmax, f2);
        law_positions_order_components(f2, f2, k - 2);
    }
    assert forall|c: Powers| #[trigger]
        is_component(c, k - 1) || is_component(c, k - 2) implies (c.1 + c.2) * (c.1 + c.2 + 1)
        <= 650 by {
        lemma_small_degree(c.1 + c.2);
    }
}

/// Whether `new` is `old` with the contributions of the quartet added at every
/// pair of addresses `(a, f)` with `f < done`, and nothing else changed. Both are
/// tables of shape `(n_e, n_f)`, with anything behind them left alone.
pub open spec fn accumulated<T: Scalar>(
    x: VrrInput<T>,
    fm: Seq<T>,
    tri: Seq<[usize; 3]>,
    old: Seq<T>,
    new: Seq<T>,
    n_e: int,
    n_f: int,
    done: int,
) -> bool {
    &&& new.len() == old.len()
    &&& forall|a: int, f: int|
        0 <= a < n_e && 0 <= f < n_f ==> #[trigger] new[pair(a, n_f, f)] == (if f < done {
            T::sum(old[pair(a, n_f, f)], contribution(x, fm, tri, a, f))
        } else {
            old[pair(a, n_f, f)]
        })
    &&& forall|i: int| n_e * n_f <= i < old.len() ==> new[i] == old[i]
}

/// Contract the `m = 0` entries of the ket level `k` into `c_ef`.
fn extract_level<T: Scalar>(
    x: &VrrInput<T>,
    Ghost(fm): Ghost<Seq<T>>,
    tri: &[[usize; 3]],
    lmax: usize,
    ne: usize,
    nf: usize,
    k: usize,
    s: usize,
    Ghost(mtop): Ghost<int>,
    tab: &[T],
    Ghost(orig): Ghost<Seq<T>>,
    c_ef: &mut [T],
)
    requires
        lists_triples(tri@, lmax as int),
        ne <= lmax <= 12,
        k <= nf <= lmax,
        1 <= s <= 49,
        0 <= mtop,
        tab@.len() >= tetrahedron(ne + 1) * cart_count(k as int) * s,
        level(*x, fm, tri@, tab@, tetrahedron(ne + 1), k as int, s as int, mtop),
        old(c_ef)@.len() >= tetrahedron(ne + 1) * tetrahedron(nf + 1),
        accumulated(
            *x,
            fm,
            tri@,
            orig,
            old(c_ef)@,
            tetrahedron(ne + 1),
            tetrahedron(nf + 1),
            tetrahedron(k as int),
        ),
    ensures
        accumulated(
            *x,
            fm,
            tri@,
            orig,
            final(c_ef)@,
            tetrahedron(ne + 1),
            tetrahedron(nf + 1),
            tetrahedron(k + 1),
        ),
{
    proof {
        lemma_small_degree(k as int);
        lemma_small_degree(ne as int);
        lemma_small_degree(nf as int);
        lemma_tetrahedron_grows(k + 1, nf + 1);
    }
    let base: usize = tri_below(k);
    let nck: usize = n_cart(k);
    let n_e: usize = crate::engine::triples::n_addr(ne);
    let n_f: usize = crate::engine::triples::n_addr(nf);
    let mut ae: usize = 0;
    while ae < n_e
        invariant
            ae <= n_e,
            n_e == tetrahedron(ne + 1) <= 3276,
            n_f == tetrahedron(nf + 1) <= 3276,
            nck == cart_count(k as int) <= 351,
            base == tetrahedron(k as int),
            base + nck == tetrahedron(k + 1) <= n_f,
            1 <= s <= 49,
            0 <= mtop,
            tab@.len() >= n_e * nck * s,
            level(*x, fm, tri@, tab@, n_e as int, k as int, s as int, mtop),
            c_ef@.len() == orig.len(),
            c_ef@.len() >= n_e * n_f,
            forall|a: int, f: int|
                0 <= a < n_e && 0 <= f < n_f ==> #[trigger] c_ef@[pair(a, n_f as int, f)] == (if f
                    < (if a < ae {
                    base + nck
                } else {
                    base as int
                }) {
                    T::sum(orig[pair(a, n_f as int, f)], contribution(*x, fm, tri@, a, f))
                } else {
                    orig[pair(a, n_f as int, f)]
                }),
            forall|i: int| n_e * n_f <= i < orig.len() ==> c_ef@[i] == orig[i],
        decreases n_e - ae,
    {
        let mut fw: usize = 0;
        while fw < nck
            invariant
                fw <= nck,
                ae < n_e,
                n_e == tetrahedron(ne + 1) <= 3276,
                n_f == tetrahedron(nf + 1) <= 3276,
                nck == cart_count(k as int) <= 351,
                base == tetrahedron(k as int),
                base + nck == tetrahedron(k + 1) <= n_f,
                1 <= s <= 49,
                0 <= mtop,
                tab@.len() >= n_e * nck * s,
                level(*x, fm, tri@, tab@, n_e as int, k as int, s as int, mtop),
                c_ef@.len() == orig.len(),
                c_ef@.len() >= n_e * n_f,
                forall|a: int, f: int|
                    0 <= a < n_e && 0 <= f < n_f ==> #[trigger] c_ef@[pair(a, n_f as int, f)] == (
                    if f < (if a < ae {
                        base + nck
                    } else if a == ae {
                        base + fw
                    } else {
                        base as int
                    }) {
                        T::sum(orig[pair(a, n_f as int, f)], contribution(*x, fm, tri@, a, f))
                    } else {
                        orig[pair(a, n_f as int, f)]
                    }),
                forall|i: int| n_e * n_f <= i < orig.len() ==> c_ef@[i] == orig[i],
            decreases nck - fw,
        {
            proof {
                lemma_cell_in_range(ae as int, n_e as int, nck as int, fw as int, s as int, 0);
                lemma_table_size(n_e as int, nck as int, s as int);
                lemma_pair_in_range(ae as int, n_e as int, n_f as int, base + fw);
                assert(n_e * n_f <= 10_732_176) by (nonlinear_arith)
                    requires
                        0 <= n_e <= 3276,
                        0 <= n_f <= 3276,
                ;
                assert((ae * nck + fw) * s == cell(
                    ae as int,
                    nck as int,
                    fw as int,
                    s as int,
                    0,
                ));
            }
            let v = tab[(ae * nck + fw) * s];
            let idx: usize = ae * n_f + base + fw;
            assert(idx == pair(ae as int, n_f as int, base + fw));
            let ghost before = c_ef@;
            c_ef[idx] = c_ef[idx].plus(x.hdr.scale.times(v));
            proof {
                assert forall|a: int, f: int| 0 <= a < n_e && 0 <= f < n_f implies #[trigger]
                c_ef@[pair(a, n_f as int, f)] == (if f < (if a < ae {
                    base + nck
                } else if a == ae {
                    base + fw + 1
                } else {
                    base as int
                }) {
                    T::sum(orig[pair(a, n_f as int, f)], contribution(*x, fm, tri@, a, f))
                } else {
                    orig[pair(a, n_f as int, f)]
                }) by {
                    lemma_pair_in_range(a, n_e as int, n_f as int, f);
                    lemma_pair_order(a, f, ae as int, base + fw, n_f as int);
                    assert(before[pair(a, n_f as int, f)] == c_ef@[pair(a, n_f as int, f)] || (a
                        == ae && f == base + fw));
                }
            }
            fw = fw + 1;
        }
        ae = ae + 1;
    }
}

/// The bra ladder: `[e0|00]^(m)` for every triple `e` of degree at most `ne`, from
/// the base ladder up.
fn bra_ladder<T: Scalar>(
    x: &VrrInput<T>,
    fm: &[T],
    tri: &[[usize; 3]],
    lmax: usize,
    ne: usize,
    lt: usize,
    ea: &mut [T],
)
    requires
        lists_triples(tri@, lmax as int),
        ne <= lmax <= 12,
        ne <= lt <= 24,
        fm@.len() > lt,
        old(ea)@.len() >= tetrahedron(ne + 1) * (lt + 1),
    ensures
        final(ea)@.len() == old(ea)@.len(),
        bra_rows(*x, fm@, tri@, final(ea)@, lt as int, tetrahedron(ne + 1)),
{
    proof {
        lemma_small_degree(0);
        lemma_small_degree(ne as int);
        lemma_tetrahedron_grows(1, ne + 1);
        lemma_listed_by_degree(tri@, lmax as int, 0, 0);
        assert(1 * (lt + 1) <= tetrahedron(ne + 1) * (lt + 1)) by (nonlinear_arith)
            requires
                1 <= tetrahedron(ne + 1),
        ;
    }
    let mut m: usize = 0;
    while m <= lt
        invariant
            m <= lt + 1,
            lt <= 24,
            fm@.len() > lt,
            ea@.len() == old(ea)@.len(),
            ea@.len() >= lt + 1,
            at(tri@, 0) == (0int, 0int, 0int),
            forall|c: int|
                0 <= c < m ==> #[trigger] ea@[pair(0, lt + 1, c)] == element(
                    *x,
                    fm@,
                    at(tri@, 0),
                    (0, 0, 0),
                    c,
                ),
        decreases lt + 1 - m,
    {
        ea[m] = x.hdr.pref.times(fm[m]);
        assert forall|c: int| 0 <= c < m + 1 implies #[trigger] ea@[pair(0, lt + 1, c)] == element(
            *x,
            fm@,
            at(tri@, 0),
            (0, 0, 0),
            c,
        ) by {
            assert(pair(0, lt + 1, c) == c) by (nonlinear_arith);
        }
        m = m + 1;
    }
    let mut k: usize = 1;
    while k <= ne
        invariant
            1 <= k <= ne + 1,
            lists_triples(tri@, lmax as int),
            ne <= lmax <= 12,
            ne <= lt <= 24,
            ea@.len() == old(ea)@.len(),
            ea@.len() >= tetrahedron(ne + 1) * (lt + 1),
            bra_rows(*x, fm@, tri@, ea@, lt as int, tetrahedron(k as int)),
        decreases ne + 1 - k,
    {
        proof {
            lemma_tetrahedron_grows(k + 1, ne + 1);
            assert(tetrahedron(k + 1) * (lt + 1) <= tetrahedron(ne + 1) * (lt + 1))
                by (nonlinear_arith)
                requires
                    tetrahedron(k + 1) <= tetrahedron(ne + 1),
            ;
        }
        big_bra_degree(x, Ghost(fm@), tri, lmax, k, lt, ea);
        k = k + 1;
    }
}

/// The bra table is the ket level of degree zero.
proof fn lemma_bra_is_level_zero<T: Scalar>(
    x: VrrInput<T>,
    fm: Seq<T>,
    tri: Seq<[usize; 3]>,
    lmax: int,
    tab: Seq<T>,
    ne: int,
    lt: int,
)
    requires
        lists_triples(tri, lmax),
        0 <= ne <= lmax,
        ne <= lt,
        bra_rows(x, fm, tri, tab, lt, tetrahedron(ne + 1)),
    ensures
        level(x, fm, tri, tab, tetrahedron(ne + 1), 0, lt + 1, lt - ne),
        cart_count(0) == 1,
        tetrahedron(ne + 1) * cart_count(0) * (lt + 1) == tetrahedron(ne + 1) * (lt + 1),
{
    let rows = tetrahedron(ne + 1);
    lemma_small_degree(0);
    lemma_listed_by_degree(tri, lmax, 0, 0);
    lemma_triangle_step(0);
    assert forall|a: int, f: int, m: int|
        0 <= a < rows && 0 <= f < cart_count(0) && 0 <= m <= lt - ne implies #[trigger] tab[cell(
        a,
        cart_count(0),
        f,
        lt + 1,
        m,
    )] == element(x, fm, at(tri, a), at_degree(tri, 0, f), m) by {
        lemma_tetrahedron_grows(ne + 1, lmax + 1);
        lemma_listed_degree_bound(tri, lmax, ne, a);
        assert(pair(a, 1, 0) == a) by (nonlinear_arith);
        assert(cell(a, cart_count(0), f, lt + 1, m) == pair(a, lt + 1, m));
    }
    assert(rows * 1 == rows) by (nonlinear_arith);
}

/// Nothing is accumulated before the first level.
proof fn lemma_nothing_accumulated<T: Scalar>(
    x: VrrInput<T>,
    fm: Seq<T>,
    tri: Seq<[usize; 3]>,
    c_ef: Seq<T>,
    n_e: int,
    n_f: int,
)
    ensures
        accumulated(x, fm, tri, c_ef, c_ef, n_e, n_f, tetrahedron(0)),
{
    lemma_tetrahedron_step(0);
}

/// Counts of the low degrees.
proof fn lemma_low_counts()
    ensures
        tetrahedron(0) == 0,
        tetrahedron(1) == 1,
        tetrahedron(2) == 4,
        tetrahedron(3) == 10,
        tetrahedron(4) == 20,
        tetrahedron(5) == 35,
        tetrahedron(6) == 56,
        tetrahedron(7) == 84,
        cart_count(0) == 1,
        cart_count(1) == 3,
        cart_count(2) == 6,
        cart_count(3) == 10,
        cart_count(4) == 15,
        cart_count(5) == 21,
        cart_count(6) == 28,
{
}

/// One primitive quartet of the small classes `NE, NF <= 3`, with tables of fixed
/// size: add `scale [e0|f0]^(0)` to `c_ef` for every pair of triples.
///
/// The ket level `k` holds `m <= NF - k` only, which is all that the levels above
/// it read.
pub fn vrr_small<T: Scalar, const NE: usize, const NF: usize>(
    x: &VrrInput<T>,
    fm: &[T],
    tri: &[[usize; 3]],
    lmax: usize,
    ea: &mut [T; 140],
    eb1: &mut [T; 360],
    eb2: &mut [T; 600],
    eb3: &mut [T; 800],
    c_ef: &mut [T],
)
    requires
        NE <= 3,
        NF <= 3,
        lists_triples(tri@, lmax as int),
        NE <= lmax <= 12,
        NF <= lmax,
        fm@.len() > NE + NF,
        old(c_ef)@.len() >= tetrahedron(NE + 1) * tetrahedron(NF + 1),
    ensures
        accumulated(
            *x,
            fm@,
            tri@,
            old(c_ef)@,
            final(c_ef)@,
            tetrahedron(NE + 1),
            tetrahedron(NF + 1),
            tetrahedron(NF + 1),
        ),
{
    let lt: usize = NE + NF;
    let ghost rows = tetrahedron(NE + 1);
    proof {
        lemma_low_counts();
        lemma_small_degree(NE as int);
        assert(rows <= 20);
        assert(rows * (lt + 1) <= 140) by (nonlinear_arith)
            requires
                0 <= rows <= 20,
                lt <= 6,
        ;
        assert(rows * 3 * lt <= 360) by (nonlinear_arith)
            requires
                0 <= rows <= 20,
                lt <= 6,
        ;
        assert(lt >= 1 ==> rows * 6 * (lt - 1) <= 600) by (nonlinear_arith)
            requires
                0 <= rows <= 20,
                lt <= 6,
        ;
        assert(lt >= 2 ==> rows * 10 * (lt - 2) <= 800) by (nonlinear_arith)
            requires
                0 <= rows <= 20,
                lt <= 6,
        ;
    }
    bra_ladder(x, fm, tri, lmax, NE, lt, ea);
    proof {
        lemma_bra_is_level_zero(*x, fm@, tri@, lmax as int, ea@, NE as int, lt as int);
        lemma_nothing_accumulated(*x, fm@, tri@, c_ef@, rows, tetrahedron(NF + 1));
    }
    extract_level(
        x,
        Ghost(fm@),
        tri,
        lmax,
        NE,
        NF,
        0,
        lt + 1,
        Ghost(NF as int),
        ea,
        Ghost(old(c_ef)@),
        c_ef,
    );
    if NF >= 1 {
        big_ket_degree(
            x,
            Ghost(fm@),
            tri,
            lmax,
            NE,
            1,
            NF - 1,
            lt,
            lt + 1,
            lt + 1,
            ea,
            ea,
            eb1,
        );
        extract_level(
            x,
            Ghost(fm@),
            tri,
            lmax,
            NE,
            NF,
            1,
            lt,
            Ghost(NF - 1),
            eb1,
            Ghost(old(c_ef)@),
            c_ef,
        );
    }
    if NF >= 2 {
        big_ket_degree(
            x,
            Ghost(fm@),
            tri,
            lmax,
            NE,
            2,
            NF - 2,
            lt - 1,
            lt,
            lt + 1,
            eb1,
            ea,
            eb2,
        );
        extract_level(
            x,
            Ghost(fm@),
            tri,
            lmax,
            NE,
            NF,
            2,
            lt - 1,
            Ghost(NF - 2),
            eb2,
            Ghost(old(c_ef)@),
            c_ef,
        );
    }
    if NF >= 3 {
        big_ket_degree(
            x,
            Ghost(fm@),
            tri,
            lmax,
            NE,
            3,
            NF - 3,
            lt - 2,
            lt - 1,
            lt,
            eb2,
            eb1,
            eb3,
        );
        extract_level(
            x,
            Ghost(fm@),
            tri,
            lmax,
            NE,
            NF,
            3,
            lt - 2,
            Ghost(NF - 3),
            eb3,
            Ghost(old(c_ef)@),
            c_ef,
        );
    }
}

/// Size of the table of degree `k` for the shape `(ne, nf)`: the bra table for
/// degree zero, else the ket level.
pub open spec fn table_size(ne: int, nf: int, k: int) -> int {
    if k <= nf {
        tetrahedron(ne + 1) * cart_count(k) * (ne + nf - k + 1)
    } else {
        0
    }
}

/// Size of the slab that holds the tables of all degrees below `k`.
pub open spec fn slab_size(ne: int, nf: int, k: int) -> int
    decreases k,
{
    if k <= 0 {
        0
    } else {
        slab_size(ne, nf, k - 1) + table_size(ne, nf, k - 1)
    }
}

/// Sizes of the tables of [`vrr_big`] for the shape `(NE, NF)`: the bra table,
/// then the ket levels `1..=NF`, then zeros; and their sum.
pub fn big_sizes<const NE: usize, const NF: usize>() -> (r: ([usize; 7], usize))
    requires
        NE <= 6,
        NF <= 6,
    ensures
        forall|k: int|
            0 <= k < 7 ==> #[trigger] r.0[k] == table_size(NE as int, NF as int, k),
        r.1 == slab_size(NE as int, NF as int, 7),
        r.1 == r.0[0] + r.0[1] + r.0[2] + r.0[3] + r.0[4] + r.0[5] + r.0[6],
{
    let lt: usize = NE + NF;
    proof {
        lemma_low_counts();
        lemma_small_degree(NE as int);
    }
    let n_e: usize = crate::engine::triples::n_addr(NE);
    let mut sizes: [usize; 7] = [0, 0, 0, 0, 0, 0, 0];
    let mut total: usize = 0;
    let mut k: usize = 0;
    while k <= NF
        invariant
            k <= NF + 1,
            NE <= 6,
            NF <= 6,
            lt == NE + NF,
            n_e == tetrahedron(NE + 1) <= 84,
            forall|i: int|
                0 <= i < 7 ==> #[trigger] sizes[i] == (if i < k {
                    table_size(NE as int, NF as int, i)
                } else {
                    0
                }),
            total == sizes[0] + sizes[1] + sizes[2] + sizes[3] + sizes[4] + sizes[5] + sizes[6],
            total <= 30_576 * k,
        decreases NF + 1 - k,
    {
        proof {
            lemma_small_degree(k as int);
            lemma_low_counts();
        }
        let nck: usize = n_cart(k);
        assert(nck <= 28);
        let sk: usize = lt - k + 1;
        proof {
            assert(0 <= n_e * nck <= 2352 && n_e * nck * sk <= 30_576) by (nonlinear_arith)
                requires
                    0 <= n_e <= 84,
                    0 <= nck <= 28,
                    0 <= sk <= 13,
            ;
        }
        sizes[k] = n_e * nck * sk;
        total = total + n_e * nck * sk;
        k = k + 1;
    }
    proof {
        reveal_with_fuel(slab_size, 8);
    }
    (sizes, total)
}

/// One primitive quartet of the classes `NE, NF <= 6`, with the tables carved out
/// of the slab `buf`: add `scale [e0|f0]^(0)` to `c_ef` for every pair of triples.
pub fn vrr_big<T: Scalar, const NE: usize, const NF: usize>(
    x: &VrrInput<T>,
    fm: &[T],
    tri: &[[usize; 3]],
    lmax: usize,
    buf: &mut [T],
    c_ef: &mut [T],
)
    requires
        NE <= 6,
        NF <= 6,
        lists_triples(tri@, lmax as int),
        NE <= lmax <= 12,
        NF <= lmax,
        fm@.len() > NE + NF,
        old(buf)@.len() >= slab_size(NE as int, NF as int, 7),
        old(c_ef)@.len() >= tetrahedron(NE + 1) * tetrahedron(NF + 1),
    ensures
        final(buf)@.len() == old(buf)@.len(),
        accumulated(
            *x,
            fm@,
            tri@,
            old(c_ef)@,
            final(c_ef)@,
            tetrahedron(NE + 1),
            tetrahedron(NF + 1),
            tetrahedron(NF + 1),
        ),
{
    let lt: usize = NE + NF;
    proof {
        lemma_low_counts();
    }
    let (sizes, total) = big_sizes::<NE, NF>();
    let (ea, r) = buf.split_at_mut(sizes[0]);
    let (eb1, r) = r.split_at_mut(sizes[1]);
    let (eb2, r) = r.split_at_mut(sizes[2]);
    let (eb3, r) = r.split_at_mut(sizes[3]);
    let (eb4, r) = r.split_at_mut(sizes[4]);
    let (eb5, r) = r.split_at_mut(sizes[5]);
    let (eb6, r) = r.split_at_mut(sizes[6]);
    proof {
        lemma_bra_size(NE as int, lt as int);
    }
    bra_ladder(x, fm, tri, lmax, NE, lt, ea);
    proof {
        lemma_bra_is_level_zero(*x, fm@, tri@, lmax as int, ea@, NE as int, lt as int);
        lemma_nothing_accumulated(
            *x,
            fm@,
            tri@,
            c_ef@,
            tetrahedron(NE + 1),
            tetrahedron(NF + 1),
        );
    }
    extract_level(
        x,
        Ghost(fm@),
        tri,
        lmax,
        NE,
        NF,
        0,
        lt + 1,
        Ghost(NF as int),
        ea,
        Ghost(old(c_ef)@),
        c_ef,
    );
    if NF >= 1 {
        big_ket_degree(
            x,
            Ghost(fm@),
            tri,
            lmax,
            NE,
            1,
            NF - 1,
            lt,
            lt + 1,
            lt + 1,
            ea,
            ea,
            eb1,
        );
        extract_level(
            x,
            Ghost(fm@),
            tri,
            lmax,
            NE,
            NF,
            1,
            lt,
            Ghost(NF - 1),
            eb1,
            Ghost(old(c_ef)@),
            c_ef,
        );
    }
    if NF >= 2 {
        big_ket_degree(
            x,
            Ghost(fm@),
            tri,
            lmax,
            NE,
            2,
            NF - 2,
            lt - 1,
            lt,
            lt + 1,
            eb1,
            ea,
            eb2,
        );
        extract_level(
            x,
            Ghost(fm@),
            tri,
            lmax,
            NE,
            NF,
            2,
            lt - 1,
            Ghost(NF - 2),
            eb2,
            Ghost(old(c_ef)@),
            c_ef,
        );
    }
    if NF >= 3 {
        big_ket_degree(
            x,
            Ghost(fm@),
            tri,
            lmax,
            NE,
            3,
            NF - 3,
            lt - 2,
            lt - 1,
            lt,
            eb2,
            eb1,
            eb3,
        );
        extract_level(
            x,
            Ghost(fm@),
            tri,
            lmax,
            NE,
            NF,
            3,
            lt - 2,
            Ghost(NF - 3),
            eb3,
            Ghost(old(c_ef)@),
            c_ef,
        );
    }
    if NF >= 4 {
        big_ket_degree(
            x,
            Ghost(fm@),
            tri,
            lmax,
            NE,
            4,
            NF - 4,
            lt - 3,
            lt - 2,
            lt - 1,
            eb3,
            eb2,
            eb4,
        );
        extract_level(
            x,
            Ghost(fm@),
            tri,
            lmax,
            NE,
            NF,
            4,
            lt - 3,
            Ghost(NF - 4),
            eb4,
            Ghost(old(c_ef)@),
            c_ef,
        );
    }
    if NF >= 5 {
        big_ket_degree(
            x,
            Ghost(fm@),
            tri,
            lmax,
            NE,
            5,
            NF - 5,
            lt - 4,
            lt - 3,
            lt - 2,
            eb4,
            eb3,
            eb5,
        );
        extract_level(
            x,
            Ghost(fm@),
            tri,
            lmax,
            NE,
            NF,
            5,
            lt - 4,
            Ghost(NF - 5),
            eb5,
            Ghost(old(c_ef)@),
            c_ef,
        );
    }
    if NF >= 6 {
        big_ket_degree(
            x,
            Ghost(fm@),
            tri,
            lmax,
            NE,
            6,
            NF - 6,
            lt - 5,
            lt - 4,
            lt - 3,
            eb5,
            eb4,
            eb6,
        );
        extract_level(
            x,
            Ghost(fm@),
            tri,
            lmax,
            NE,
            NF,
            6,
            lt - 5,
            Ghost(NF - 6),
            eb6,
            Ghost(old(c_ef)@),
            c_ef,
        );
    }
}

/// The bra table as the level of degree zero.
proof fn lemma_bra_size(ne: int, lt: int)
    ensures
        tetrahedron(ne + 1) * cart_count(0) * (lt + 1) == tetrahedron(ne + 1) * (lt + 1),
{
    let r = tetrahedron(ne + 1);
    assert(cart_count(0) == 1);
    assert(r * 1 == r) by (nonlinear_arith);
}

} // verus!
