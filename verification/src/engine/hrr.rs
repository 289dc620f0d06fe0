//! The horizontal recurrence: angular momentum moved from the first to the second
//! centre of a pair, in contracted space.
//!
//! ```text
//!   (a, b+1_i) = (a+1_i, b) + shift_i (a, b)
//! ```
//!
//! The same step serves the bra (shift `A-B`) and the ket (shift `C-D`). It is
//! carried out degree by degree of `b`, in two rolling layers.
use vstd::prelude::*;

use crate::engine::triples::{
    addr, address, dec, first_axis, inc, lemma_listed_at_address, lemma_listed_by_degree,
    lemma_listed_degree_bound, lemma_small_degree, lemma_tetrahedron_grows, lists_triples,
    lower_axis, n_addr, shifted, tetrahedron, tri_below,
};
use crate::engine::vrr::{at, at_degree, lemma_lowered_component};
use crate::flat::{
    cell, lemma_cell_distinct, lemma_cell_in_range, lemma_pair_in_range, lemma_pair_order,
    lemma_quad_in_range, pair, quad,
};
use crate::math::am::{
    cart_count, cart_index, degree, is_component, lemma_triangle_grows, n_cart, powers, Powers,
};
use crate::scalar::Scalar;

verus! {

/// `(a, b)` from the values `(a, 0)` that `base` holds by address.
pub open spec fn transferred<T: Scalar>(base: Seq<T>, shift: [T; 3], a: Powers, b: Powers) -> T
    decreases degree(b),
{
    if degree(b) <= 0 {
        base[address(a)]
    } else {
        let i = first_axis(b);
        let b1 = shifted(b, i, -1);
        T::sum(
            transferred(base, shift, shifted(a, i, 1), b1),
            T::prod(shift[i], transferred(base, shift, a, b1)),
        )
    }
}

/// Whether the layer `tab`, of rows of length `n`, holds `(a, b)` at row `pos(b)`,
/// column `address(a)`, for every `b` of degree `k` and every `a` of degree `l1` to
/// `top`.
pub open spec fn layer<T: Scalar>(
    base: Seq<T>,
    shift: [T; 3],
    tri: Seq<[usize; 3]>,
    tab: Seq<T>,
    n: int,
    l1: int,
    top: int,
    k: int,
) -> bool {
    forall|ib: int, ae: int|
        0 <= ib < cart_count(k) && tetrahedron(l1) <= ae < tetrahedron(top + 1)
            ==> #[trigger] tab[pair(ib, n, ae)] == transferred(
            base,
            shift,
            at(tri, ae),
            at_degree(tri, k, ib),
        )
}

/// Move `l2` units of angular momentum: from the values `(a, 0)` in the first row
/// of `prev` to the layer of degree `l2`, which is left in `prev`.
fn hrr_layers<T: Scalar>(
    l1: usize,
    l2: usize,
    shift: [T; 3],
    tri: &[[usize; 3]],
    lmax: usize,
    Ghost(base): Ghost<Seq<T>>,
    prev: &mut Vec<T>,
    cur: &mut Vec<T>,
)
    requires
        lists_triples(tri@, lmax as int),
        l1 + l2 <= lmax <= 12,
        old(prev)@.len() >= cart_count(l2 as int) * tetrahedron(l1 + l2 + 1),
        old(cur)@.len() >= cart_count(l2 as int) * tetrahedron(l1 + l2 + 1),
        forall|ae: int|
            tetrahedron(l1 as int) <= ae < tetrahedron(l1 + l2 + 1) ==> #[trigger] old(prev)@[ae]
                == base[ae],
        old(cur)@.len() == old(prev)@.len(),
    ensures
        final(prev)@.len() == old(prev)@.len(),
        final(cur)@.len() == old(prev)@.len(),
        final(prev)@.len() >= cart_count(l2 as int) * tetrahedron(l1 + l2 + 1),
        final(cur)@.len() >= cart_count(l2 as int) * tetrahedron(l1 + l2 + 1),
        layer(
            base,
            shift,
            tri@,
            final(prev)@,
            tetrahedron(l1 + l2 + 1),
            l1 as int,
            l1 as int,
            l2 as int,
        ),
{
    let ne: usize = l1 + l2;
    proof {
        lemma_small_degree(ne as int);
        lemma_small_degree(l1 as int);
        lemma_small_degree(l2 as int);
        lemma_tetrahedron_grows(ne + 1, lmax + 1);
        lemma_listed_by_degree(tri@, lmax as int, 0, 0);
        lemma_small_degree(0);
    }
    let n: usize = n_addr(ne);
    let lo: usize = tri_below(l1);
    proof {
        assert(cart_count(0) == 1);
        assert forall|ib: int, ae: int|
            0 <= ib < cart_count(0) && tetrahedron(l1 as int) <= ae < tetrahedron(
                ne + 1,
            ) implies #[trigger] prev@[pair(ib, n as int, ae)] == transferred(
            base,
            shift,
            at(tri@, ae),
            at_degree(tri@, 0, ib),
        ) by {
            assert(pair(0, n as int, ae) == ae) by (nonlinear_arith);
            lemma_tetrahedron_grows(0, l1 as int);
        }
    }
    let mut kb: usize = 1;
    while kb <= l2
        invariant
            1 <= kb <= l2 + 1,
            lists_triples(tri@, lmax as int),
            ne == l1 + l2,
            ne <= lmax <= 12,
            n == tetrahedron(ne + 1) <= 3276,
            n <= tri@.len(),
            lo == tetrahedron(l1 as int),
            prev@.len() >= cart_count(l2 as int) * n,
            cur@.len() >= cart_count(l2 as int) * n,
            prev@.len() == old(prev)@.len(),
            cur@.len() == old(prev)@.len(),
            layer(base, shift, tri@, prev@, n as int, l1 as int, ne - (kb - 1), kb - 1),
        decreases l2 + 1 - kb,
    {
        proof {
            lemma_small_degree(kb as int);
            lemma_small_degree(kb - 1);
            lemma_small_degree(ne - kb);
            lemma_small_degree(l2 as int);
            lemma_triangle_grows(kb + 1, l2 + 1);
            lemma_triangle_grows(kb as int, l2 + 1);
            lemma_tetrahedron_grows(kb + 1, lmax + 1);
            lemma_tetrahedron_grows(ne - kb + 1, ne + 1);
        }
        let nck: usize = n_cart(kb);
        let kbase: usize = tri_below(kb);
        let hi: usize = n_addr(ne - kb);
        let mut ibw: usize = 0;
        while ibw < nck
            invariant
                ibw <= nck,
                1 <= kb <= l2,
                lists_triples(tri@, lmax as int),
                ne == l1 + l2,
                ne <= lmax <= 12,
                n == tetrahedron(ne + 1) <= 3276,
                n <= tri@.len(),
                lo == tetrahedron(l1 as int),
                hi == tetrahedron(ne - kb + 1) <= n,
                nck == cart_count(kb as int) <= cart_count(l2 as int) <= 351,
                cart_count(kb - 1) <= cart_count(l2 as int),
                kbase == tetrahedron(kb as int),
                kbase + nck <= tri@.len(),
                kbase + nck <= 3276,
                prev@.len() >= cart_count(l2 as int) * n,
                cur@.len() >= cart_count(l2 as int) * n,
                prev@.len() == old(prev)@.len(),
                cur@.len() == old(prev)@.len(),
                layer(base, shift, tri@, prev@, n as int, l1 as int, ne - (kb - 1), kb - 1),
                forall|ib: int, ae: int|
                    0 <= ib < ibw && lo <= ae < hi ==> #[trigger] cur@[pair(ib, n as int, ae)]
                        == transferred(
                        base,
                        shift,
                        at(tri@, ae),
                        at_degree(tri@, kb as int, ib),
                    ),
            decreases nck - ibw,
        {
            let tb: [usize; 3] = tri[kbase + ibw];
            let ghost b = powers(tb);
            proof {
                lemma_listed_by_degree(tri@, lmax as int, kb as int, ibw as int);
                lemma_lowered_component(tri@, lmax as int, kb as int, b, first_axis(b));
            }
            let i: usize = lower_axis(tb);
            let b1: [usize; 3] = dec(tb, i);
            let b1w: usize = cart_index(b1);
            let mut ae: usize = lo;
            while ae < hi
                invariant
                    lo <= ae,
                    ae <= hi || ae == lo,
                    ibw < nck,
                    1 <= kb <= l2,
                    lists_triples(tri@, lmax as int),
                    ne == l1 + l2,
                    ne <= lmax <= 12,
                    n == tetrahedron(ne + 1) <= 3276,
                    n <= tri@.len(),
                    lo == tetrahedron(l1 as int),
                    hi == tetrahedron(ne - kb + 1) <= n,
                    nck == cart_count(kb as int) <= cart_count(l2 as int) <= 351,
                    cart_count(kb - 1) <= cart_count(l2 as int),
                    b == at_degree(tri@, kb as int, ibw as int),
                    is_component(b, kb as int),
                    i < 3,
                    i == first_axis(b),
                    0 <= b1w < cart_count(kb - 1),
                    at_degree(tri@, kb - 1, b1w as int) == shifted(b, i as int, -1),
                    prev@.len() >= cart_count(l2 as int) * n,
                    cur@.len() >= cart_count(l2 as int) * n,
                    prev@.len() == old(prev)@.len(),
                    cur@.len() == old(prev)@.len(),
                    layer(base, shift, tri@, prev@, n as int, l1 as int, ne - (kb - 1), kb - 1),
                    forall|ib: int, c: int|
                        0 <= ib < ibw && lo <= c < hi ==> #[trigger] cur@[pair(ib, n as int, c)]
                            == transferred(
                            base,
                            shift,
                            at(tri@, c),
                            at_degree(tri@, kb as int, ib),
                        ),
                    forall|c: int|
                        lo <= c < ae ==> #[trigger] cur@[pair(ibw as int, n as int, c)]
                            == transferred(base, shift, at(tri@, c), b),
                decreases hi - ae,
            {
                let ta: [usize; 3] = tri[ae];
                let ghost a = powers(ta);
                proof {
                    lemma_listed_degree_bound(tri@, lmax as int, ne - kb, ae as int);
                    if l1 >= 1 {
                        lemma_listed_degree_bound(tri@, lmax as int, l1 - 1, ae as int);
                    }
                    lemma_small_degree(degree(a) + 1);
                    lemma_listed_at_address(tri@, lmax as int, shifted(a, i as int, 1));
                    lemma_listed_degree_bound(
                        tri@,
                        lmax as int,
                        ne - kb + 1,
                        address(shifted(a, i as int, 1)),
                    );
                    if l1 >= 1 {
                        lemma_listed_degree_bound(
                            tri@,
                            lmax as int,
                            l1 - 1,
                            address(shifted(a, i as int, 1)),
                        );
                    } else {
                        lemma_small_degree(0);
                        assert(tetrahedron(0) == 0);
                    }
                    lemma_tetrahedron_grows(ne - kb + 2, ne + 1);
                    lemma_tetrahedron_grows(ne - kb + 1, ne - kb + 2);
                }
                let a1: [usize; 3] = inc(ta, i);
                let a1e: usize = addr(a1);
                proof {
                    let w = cart_count(l2 as int);
                    lemma_pair_in_range(ibw as int, w, n as int, ae as int);
                    lemma_pair_in_range(b1w as int, w, n as int, ae as int);
                    lemma_pair_in_range(b1w as int, w, n as int, a1e as int);
                    assert(w * n <= 1_149_876) by (nonlinear_arith)
                        requires
                            0 <= w <= 351,
                            0 <= n <= 3276,
                    ;
                }
                assert(b1w * n + a1e == pair(b1w as int, n as int, a1e as int));
                assert(b1w * n + ae == pair(b1w as int, n as int, ae as int));
                assert(ibw * n + ae == pair(ibw as int, n as int, ae as int));
                let v = prev[b1w * n + a1e].plus(shift[i].times(prev[b1w * n + ae]));
                proof {
                    let b1 = shifted(b, i as int, -1);
                    assert(prev@[pair(b1w as int, n as int, a1e as int)] == transferred(
                        base,
                        shift,
                        shifted(a, i as int, 1),
                        b1,
                    ));
                    assert(prev@[pair(b1w as int, n as int, ae as int)] == transferred(
                        base,
                        shift,
                        a,
                        b1,
                    ));
                    assert(v == transferred(base, shift, a, b));
                }
                cur[ibw * n + ae] = v;
                proof {
                    assert forall|ib: int, c: int|
                        0 <= ib < ibw && lo <= c < hi implies #[trigger] cur@[pair(
                        ib,
                        n as int,
                        c,
                    )] == transferred(base, shift, at(tri@, c), at_degree(tri@, kb as int, ib)) by {
                        lemma_pair_order(ib, c, ibw as int, ae as int, n as int);
                        lemma_pair_in_range(ib, cart_count(l2 as int), n as int, c);
                    }
                    assert forall|c: int| lo <= c < ae + 1 implies #[trigger] cur@[pair(
                        ibw as int,
                        n as int,
                        c,
                    )] == transferred(base, shift, at(tri@, c), b) by {
                        lemma_pair_order(ibw as int, c, ibw as int, ae as int, n as int);
                        lemma_pair_in_range(ibw as int, cart_count(l2 as int), n as int, c);
                    }
                }
                ae = ae + 1;
            }
            ibw = ibw + 1;
        }
        std::mem::swap(prev, cur);
        kb = kb + 1;
    }
}

/// Column `f` of the contracted table of shape `(n_e, n_f)`.
pub open spec fn column<T>(c_ef: Seq<T>, n_e: int, n_f: int, f: int) -> Seq<T> {
    Seq::new(n_e as nat, |e: int| c_ef[pair(e, n_f, f)])
}

/// `(ab|f0)` for every ket address `f`.
pub open spec fn bra_done<T: Scalar>(
    c_ef: Seq<T>,
    n_e: int,
    n_f: int,
    ab: [T; 3],
    a: Powers,
    b: Powers,
) -> Seq<T> {
    Seq::new(n_f as nat, |f: int| transferred(column(c_ef, n_e, n_f, f), ab, a, b))
}

/// `(ab|cd)` from the contracted table `c_ef` of shape `(n_e, n_f)`.
pub open spec fn shell_value<T: Scalar>(
    c_ef: Seq<T>,
    n_e: int,
    n_f: int,
    ab: [T; 3],
    cd: [T; 3],
    a: Powers,
    b: Powers,
    c: Powers,
    d: Powers,
) -> T {
    transferred(bra_done(c_ef, n_e, n_f, ab, a, b), cd, c, d)
}

/// The length of a buffer of length `len` that is grown to at least `n`.
pub open spec fn grown(len: int, n: int) -> int {
    if len < n {
        n
    } else {
        len
    }
}

/// Grow `v` with zeros to at least `n` entries; never shrink it.
pub fn ensure_len<T: Scalar>(v: &mut Vec<T>, n: usize)
    ensures
        final(v)@ == old(v)@ + Seq::new(
            if old(v)@.len() < n {
                (n - old(v)@.len()) as nat
            } else {
                0
            },
            |i: int| T::count(0),
        ),
{
    while v.len() < n
        invariant
            old(v)@.len() <= v@.len(),
            v@.len() <= n || v@ == old(v)@,
            v@ == old(v)@ + Seq::new((v@.len() - old(v)@.len()) as nat, |i: int| T::count(0)),
        decreases n - v@.len(),
    {
        v.push(T::from_count(0));
        assert(v@ =~= old(v)@ + Seq::new(
            (v@.len() - old(v)@.len()) as nat,
            |i: int| T::count(0),
        ));
    }
}

/// The bra pass: `bra[(ia nb + ib) nf_range + (f - f_base)] = (ab|f0)` for every
/// ket address `f` from `f_base` on.
#[verifier::spinoff_prover]
#[verifier::rlimit(40)]
fn hrr_bra<T: Scalar>(
    la: usize,
    lb: usize,
    f_base: usize,
    n_f: usize,
    c_ef: &[T],
    ab: [T; 3],
    tri: &[[usize; 3]],
    lmax: usize,
    bra: &mut Vec<T>,
    prev: &mut Vec<T>,
    cur: &mut Vec<T>,
)
    requires
        lists_triples(tri@, lmax as int),
        la + lb <= lmax <= 12,
        f_base < n_f <= 3276,
        c_ef@.len() >= tetrahedron(la + lb + 1) * n_f,
        cart_count(la as int) * cart_count(lb as int) * (n_f - f_base) <= usize::MAX,
        old(cur)@.len() == old(prev)@.len(),
    ensures
        final(bra)@.len() == grown(
            old(bra)@.len() as int,
            cart_count(la as int) * cart_count(lb as int) * (n_f - f_base),
        ),
        final(prev)@.len() == grown(
            old(prev)@.len() as int,
            cart_count(lb as int) * tetrahedron(la + lb + 1),
        ),
        final(cur)@.len() == final(prev)@.len(),
        forall|ia: int, ib: int, f: int|
            0 <= ia < cart_count(la as int) && 0 <= ib < cart_count(lb as int) && f_base <= f < n_f
                ==> #[trigger] final(bra)@[cell(
                ia,
                cart_count(lb as int),
                ib,
                n_f - f_base,
                f - f_base,
            )] == transferred(
                column(c_ef@, tetrahedron(la + lb + 1), n_f as int, f),
                ab,
                at_degree(tri@, la as int, ia),
                at_degree(tri@, lb as int, ib),
            ),
{
    let ne: usize = la + lb;
    proof {
        lemma_small_degree(ne as int);
        lemma_small_degree(la as int);
        lemma_small_degree(lb as int);
        lemma_tetrahedron_grows(ne + 1, lmax + 1);
        lemma_tetrahedron_grows(la + 1, ne + 1);
    }
    let n_e: usize = n_addr(ne);
    let na: usize = n_cart(la);
    let nb: usize = n_cart(lb);
    let lo: usize = tri_below(la);
    let range: usize = n_f - f_base;
    proof {
        assert(na * nb <= 123_201 && nb * n_e <= 1_149_876) by (nonlinear_arith)
            requires
                0 <= na <= 351,
                0 <= nb <= 351,
                0 <= n_e <= 3276,
        ;
        let w = na * nb;
        assert(w * 1 <= w * range) by (nonlinear_arith)
            requires
                0 <= w,
                1 <= range,
        ;
    }
    ensure_len(bra, na * nb * range);
    ensure_len(prev, nb * n_e);
    ensure_len(cur, nb * n_e);
    let ghost long = bra@.len();
    let ghost wide = prev@.len();
    let mut f: usize = f_base;
    while f < n_f
        invariant
            f_base <= f <= n_f <= 3276,
            range == n_f - f_base,
            range >= 1,
            lists_triples(tri@, lmax as int),
            ne == la + lb,
            ne <= lmax <= 12,
            n_e == tetrahedron(ne + 1) <= 3276,
            n_e <= tri@.len(),
            na == cart_count(la as int) <= 351,
            nb == cart_count(lb as int) <= 351,
            nb >= 1,
            lo == tetrahedron(la as int),
            lo + na == tetrahedron(la + 1) <= n_e,
            c_ef@.len() >= n_e * n_f,
            bra@.len() >= na * nb * range,
            bra@.len() == long,
            na * nb * range <= usize::MAX,
            prev@.len() >= nb * n_e,
            prev@.len() == wide,
            cur@.len() == wide,
            cur@.len() >= nb * n_e,
            forall|ia: int, ib: int, g: int|
                0 <= ia < na && 0 <= ib < nb && f_base <= g < f ==> #[trigger] bra@[cell(
                    ia,
                    nb as int,
                    ib,
                    range as int,
                    g - f_base,
                )] == transferred(
                    column(c_ef@, n_e as int, n_f as int, g),
                    ab,
                    at_degree(tri@, la as int, ia),
                    at_degree(tri@, lb as int, ib),
                ),
        decreases n_f - f,
    {
        let ghost base = column(c_ef@, n_e as int, n_f as int, f as int);
        proof {
            assert(nb * n_e >= n_e) by (nonlinear_arith)
                requires
                    nb >= 1,
                    n_e >= 0,
            ;
        }
        let mut ae: usize = lo;
        while ae < n_e
            invariant
                lo <= ae,
                ae <= n_e,
                f < n_f <= 3276,
                n_e <= 3276,
                c_ef@.len() >= n_e * n_f,
                prev@.len() >= nb * n_e,
                prev@.len() == wide,
                cur@.len() == wide,
                nb * n_e >= n_e,
                base == column(c_ef@, n_e as int, n_f as int, f as int),
                forall|e: int| lo <= e < ae ==> #[trigger] prev@[e] == base[e],
            decreases n_e - ae,
        {
            proof {
                lemma_pair_in_range(ae as int, n_e as int, n_f as int, f as int);
                assert(n_e * n_f <= 10_732_176) by (nonlinear_arith)
                    requires
                        0 <= n_e <= 3276,
                        0 <= n_f <= 3276,
                ;
            }
            prev[ae] = c_ef[ae * n_f + f];
            ae = ae + 1;
        }
        hrr_layers(la, lb, ab, tri, lmax, Ghost(base), prev, cur);
        let jf: usize = f - f_base;
        let mut ib: usize = 0;
        while ib < nb
            invariant
                ib <= nb,
                f_base <= f < n_f <= 3276,
                jf == f - f_base,
                range == n_f - f_base,
                n_e == tetrahedron(ne + 1) <= 3276,
                na == cart_count(la as int) <= 351,
                nb == cart_count(lb as int) <= 351,
                lo == tetrahedron(la as int),
                lo + na == tetrahedron(la + 1) <= n_e,
                bra@.len() >= na * nb * range,
                bra@.len() == long,
                na * nb * range <= usize::MAX,
                prev@.len() >= nb * n_e,
                prev@.len() == wide,
                cur@.len() == wide,
                layer(base, ab, tri@, prev@, n_e as int, la as int, la as int, lb as int),
                base == column(c_ef@, n_e as int, n_f as int, f as int),
                forall|ia: int, b: int, g: int|
                    0 <= ia < na && 0 <= b < nb && f_base <= g && (g < f || (g == f && b < ib))
                        ==> #[trigger] bra@[cell(ia, nb as int, b, range as int, g - f_base)]
                        == transferred(
                        column(c_ef@, n_e as int, n_f as int, g),
                        ab,
                        at_degree(tri@, la as int, ia),
                        at_degree(tri@, lb as int, b),
                    ),
            decreases nb - ib,
        {
            let mut ia: usize = 0;
            while ia < na
                invariant
                    ia <= na,
                    ib < nb,
                    f_base <= f < n_f <= 3276,
                    jf == f - f_base,
                    range == n_f - f_base,
                    n_e == tetrahedron(ne + 1) <= 3276,
                    na == cart_count(la as int) <= 351,
                    nb == cart_count(lb as int) <= 351,
                    lo == tetrahedron(la as int),
                    lo + na == tetrahedron(la + 1) <= n_e,
                    bra@.len() >= na * nb * range,
                    bra@.len() == long,
                    na * nb * range <= usize::MAX,
                    prev@.len() >= nb * n_e,
                    prev@.len() == wide,
                    cur@.len() == wide,
                    layer(base, ab, tri@, prev@, n_e as int, la as int, la as int, lb as int),
                    base == column(c_ef@, n_e as int, n_f as int, f as int),
                    forall|a: int, b: int, g: int|
                        0 <= a < na && 0 <= b < nb && f_base <= g && (g < f || (g == f && (b < ib
                            || (b == ib && a < ia)))) ==> #[trigger] bra@[cell(
                            a,
                            nb as int,
                            b,
                            range as int,
                            g - f_base,
                        )] == transferred(
                            column(c_ef@, n_e as int, n_f as int, g),
                            ab,
                            at_degree(tri@, la as int, a),
                            at_degree(tri@, lb as int, b),
                        ),
                decreases na - ia,
            {
                proof {
                    lemma_cell_in_range(
                        ia as int,
                        na as int,
                        nb as int,
                        ib as int,
                        range as int,
                        jf as int,
                    );
                    lemma_pair_in_range(ib as int, nb as int, n_e as int, lo + ia);
                    assert(nb * n_e <= 1_149_876) by (nonlinear_arith)
                        requires
                            0 <= nb <= 351,
                            0 <= n_e <= 3276,
                    ;
                }
                let v = prev[ib * n_e + lo + ia];
                assert(ib * n_e + lo + ia == pair(ib as int, n_e as int, lo + ia));
                let idx: usize = (ia * nb + ib) * range + jf;
                assert(idx == cell(ia as int, nb as int, ib as int, range as int, jf as int));
                let ghost before = bra@;
                bra[idx] = v;
                proof {
                    assert forall|a: int, b: int, g: int|
                        0 <= a < na && 0 <= b < nb && f_base <= g && (g < f || (g == f && (b < ib
                            || (b == ib && a < ia + 1)))) implies #[trigger] bra@[cell(
                        a,
                        nb as int,
                        b,
                        range as int,
                        g - f_base,
                    )] == transferred(
                        column(c_ef@, n_e as int, n_f as int, g),
                        ab,
                        at_degree(tri@, la as int, a),
                        at_degree(tri@, lb as int, b),
                    ) by {
                        lemma_cell_in_range(
                            a,
                            na as int,
                            nb as int,
                            b,
                            range as int,
                            g - f_base,
                        );
                        lemma_cell_distinct(
                            a,
                            b,
                            g - f_base,
                            ia as int,
                            ib as int,
                            jf as int,
                            nb as int,
                            range as int,
                        );
                        assert(before[cell(a, nb as int, b, range as int, g - f_base)] == bra@[cell(
                            a,
                            nb as int,
                            b,
                            range as int,
                            g - f_base,
                        )] || (a == ia && b == ib && g == f));
                    }
                }
                ia = ia + 1;
            }
            ib = ib + 1;
        }
        f = f + 1;
    }
}

/// Whether `new` is `old` with the value `(ab|cd)` added at every entry of the
/// block of shape `(na, nb, nc, nd)`, and nothing else changed.
pub open spec fn block_added<T: Scalar>(
    tri: Seq<[usize; 3]>,
    c_ef: Seq<T>,
    la: int,
    lb: int,
    lc: int,
    ld: int,
    ab: [T; 3],
    cd: [T; 3],
    old: Seq<T>,
    new: Seq<T>,
) -> bool {
    let n_e = tetrahedron(la + lb + 1);
    let n_f = tetrahedron(lc + ld + 1);
    let (na, nb) = (cart_count(la), cart_count(lb));
    let (nc, nd) = (cart_count(lc), cart_count(ld));
    &&& new.len() == old.len()
    &&& forall|ia: int, ib: int, ic: int, id: int|
        0 <= ia < na && 0 <= ib < nb && 0 <= ic < nc && 0 <= id < nd ==> #[trigger] new[quad(
            ia,
            nb,
            ib,
            nc,
            ic,
            nd,
            id,
        )] == T::sum(
            old[quad(ia, nb, ib, nc, ic, nd, id)],
            shell_value(
                c_ef,
                n_e,
                n_f,
                ab,
                cd,
                at_degree(tri, la, ia),
                at_degree(tri, lb, ib),
                at_degree(tri, lc, ic),
                at_degree(tri, ld, id),
            ),
        )
    &&& forall|i: int| na * nb * nc * nd <= i < old.len() ==> new[i] == old[i]
}

/// Add one row `(ia, ib)` of the block: the ket pass for a bra pair, scattered
/// into `out`.
#[verifier::spinoff_prover]
#[verifier::rlimit(40)]
fn hrr_ket_row<T: Scalar>(
    row: usize,
    rows: usize,
    lc: usize,
    ld: usize,
    cd: [T; 3],
    tri: &[[usize; 3]],
    lmax: usize,
    bra: &[T],
    Ghost(base): Ghost<Seq<T>>,
    out: &mut [T],
    kprev: &mut Vec<T>,
    kcur: &mut Vec<T>,
)
    requires
        lists_triples(tri@, lmax as int),
        lc + ld <= lmax <= 12,
        row < rows,
        bra@.len() >= rows * (tetrahedron(lc + ld + 1) - tetrahedron(lc as int)),
        forall|f: int|
            tetrahedron(lc as int) <= f < tetrahedron(lc + ld + 1) ==> #[trigger] base[f]
                == bra@[pair(
                row as int,
                tetrahedron(lc + ld + 1) - tetrahedron(lc as int),
                f - tetrahedron(lc as int),
            )],
        old(kprev)@.len() >= cart_count(ld as int) * tetrahedron(lc + ld + 1),
        old(kcur)@.len() >= cart_count(ld as int) * tetrahedron(lc + ld + 1),
        old(out)@.len() >= rows * cart_count(lc as int) * cart_count(ld as int),
        rows <= 100_000,
        rows * cart_count(lc as int) * cart_count(ld as int) <= usize::MAX,
        old(kcur)@.len() == old(kprev)@.len(),
    ensures
        final(kprev)@.len() == old(kprev)@.len(),
        final(kcur)@.len() == old(kprev)@.len(),
        final(kprev)@.len() >= cart_count(ld as int) * tetrahedron(lc + ld + 1),
        final(kcur)@.len() >= cart_count(ld as int) * tetrahedron(lc + ld + 1),
        final(out)@.len() == old(out)@.len(),
        forall|ic: int, id: int|
            0 <= ic < cart_count(lc as int) && 0 <= id < cart_count(ld as int) ==> #[trigger] final(out)@[cell(row as int, cart_count(lc as int), ic, cart_count(ld as int), id)] == T::sum(
                old(out)@[cell(row as int, cart_count(lc as int), ic, cart_count(ld as int), id)],
                transferred(
                    base,
                    cd,
                    at_degree(tri@, lc as int, ic),
                    at_degree(tri@, ld as int, id),
                ),
            ),
        forall|i: int|
            0 <= i < old(out)@.len() && !(row * (cart_count(lc as int) * cart_count(ld as int)) <= i
                < (row + 1) * (cart_count(lc as int) * cart_count(ld as int))) ==> #[trigger] final(out)@[i] == old(out)@[i],
{
    let nf: usize = lc + ld;
    proof {
        lemma_small_degree(nf as int);
        lemma_small_degree(lc as int);
        lemma_small_degree(ld as int);
        lemma_tetrahedron_grows(nf + 1, lmax + 1);
        lemma_tetrahedron_grows(lc + 1, nf + 1);
    }
    let n_f: usize = n_addr(nf);
    let nc: usize = n_cart(lc);
    let nd: usize = n_cart(ld);
    let lo: usize = tri_below(lc);
    let range: usize = n_f - lo;
    let ghost span = nc * nd;
    proof {
        assert(nd * n_f >= n_f && nd * n_f <= 1_149_876) by (nonlinear_arith)
            requires
                1 <= nd <= 351,
                0 <= n_f <= 3276,
        ;
        assert(rows * range <= 327_600_000) by (nonlinear_arith)
            requires
                0 <= rows <= 100_000,
                0 <= range <= 3276,
        ;
    }
    let mut ce: usize = lo;
    while ce < n_f
        invariant
            lo <= ce <= n_f <= 3276,
            lo == tetrahedron(lc as int),
            n_f == tetrahedron(lc + ld + 1),
            range == n_f - lo,
            row < rows,
            rows * range <= 327_600_000,
            bra@.len() >= rows * range,
            kprev@.len() >= nd * n_f,
            kprev@.len() == old(kprev)@.len(),
            kcur@.len() == old(kprev)@.len(),
            nd * n_f >= n_f,
            forall|f: int|
                lo <= f < n_f ==> #[trigger] base[f] == bra@[pair(
                    row as int,
                    range as int,
                    f - lo,
                )],
            forall|f: int| lo <= f < ce ==> #[trigger] kprev@[f] == base[f],
        decreases n_f - ce,
    {
        proof {
            lemma_pair_in_range(row as int, rows as int, range as int, ce - lo);
            assert(base[ce as int] == bra@[pair(row as int, range as int, ce - lo)]);
        }
        kprev[ce] = bra[row * range + (ce - lo)];
        ce = ce + 1;
    }
    hrr_layers(lc, ld, cd, tri, lmax, Ghost(base), kprev, kcur);
    let mut ic: usize = 0;
    while ic < nc
        invariant
            ic <= nc,
            lo == tetrahedron(lc as int),
            n_f == tetrahedron(lc + ld + 1) <= 3276,
            nc == cart_count(lc as int) <= 351,
            nd == cart_count(ld as int) <= 351,
            lo + nc == tetrahedron(lc + 1) <= n_f,
            span == nc * nd,
            row < rows <= 100_000,
            rows * nc * nd <= usize::MAX,
            nd * n_f <= 1_149_876,
            kprev@.len() >= nd * n_f,
            kprev@.len() == old(kprev)@.len(),
            kcur@.len() == old(kprev)@.len(),
            layer(base, cd, tri@, kprev@, n_f as int, lc as int, lc as int, ld as int),
            out@.len() == old(out)@.len(),
            out@.len() >= rows * nc * nd,
            forall|c: int, d: int|
                0 <= c < nc && 0 <= d < nd ==> #[trigger] out@[cell(
                    row as int,
                    nc as int,
                    c,
                    nd as int,
                    d,
                )] == (if c < ic {
                    T::sum(
                        old(out)@[cell(row as int, nc as int, c, nd as int, d)],
                        transferred(
                            base,
                            cd,
                            at_degree(tri@, lc as int, c),
                            at_degree(tri@, ld as int, d),
                        ),
                    )
                } else {
                    old(out)@[cell(row as int, nc as int, c, nd as int, d)]
                }),
            forall|i: int|
                0 <= i < out@.len() && !(row * span <= i < (row + 1) * span) ==> #[trigger] out@[i]
                    == old(out)@[i],
        decreases nc - ic,
    {
        let ce: usize = lo + ic;
        let mut id: usize = 0;
        while id < nd
            invariant
                id <= nd,
                ic < nc,
                ce == lo + ic,
                lo == tetrahedron(lc as int),
                n_f == tetrahedron(lc + ld + 1) <= 3276,
                nc == cart_count(lc as int) <= 351,
                nd == cart_count(ld as int) <= 351,
                lo + nc == tetrahedron(lc + 1) <= n_f,
                span == nc * nd,
                row < rows <= 100_000,
                rows * nc * nd <= usize::MAX,
                nd * n_f <= 1_149_876,
                kprev@.len() >= nd * n_f,
                kprev@.len() == old(kprev)@.len(),
                kcur@.len() == old(kprev)@.len(),
                layer(base, cd, tri@, kprev@, n_f as int, lc as int, lc as int, ld as int),
                out@.len() == old(out)@.len(),
                out@.len() >= rows * nc * nd,
                forall|c: int, d: int|
                    0 <= c < nc && 0 <= d < nd ==> #[trigger] out@[cell(
                        row as int,
                        nc as int,
                        c,
                        nd as int,
                        d,
                    )] == (if c < ic || (c == ic && d < id) {
                        T::sum(
                            old(out)@[cell(row as int, nc as int, c, nd as int, d)],
                            transferred(
                                base,
                                cd,
                                at_degree(tri@, lc as int, c),
                                at_degree(tri@, ld as int, d),
                            ),
                        )
                    } else {
                        old(out)@[cell(row as int, nc as int, c, nd as int, d)]
                    }),
                forall|i: int|
                    0 <= i < out@.len() && !(row * span <= i < (row + 1) * span)
                        ==> #[trigger] out@[i] == old(out)@[i],
            decreases nd - id,
        {
            proof {
                lemma_cell_in_range(
                    row as int,
                    rows as int,
                    nc as int,
                    ic as int,
                    nd as int,
                    id as int,
                );
                lemma_pair_in_range(id as int, nd as int, n_f as int, ce as int);
                lemma_cell_span(row as int, nc as int, ic as int, nd as int, id as int);
            }
            assert(id * n_f + ce == pair(id as int, n_f as int, lo + ic));
            let v = kprev[id * n_f + ce];
            let idx: usize = (row * nc + ic) * nd + id;
            assert(idx == cell(row as int, nc as int, ic as int, nd as int, id as int));
            let ghost before = out@;
            out[idx] = out[idx].plus(v);
            proof {
                assert forall|c: int, d: int| 0 <= c < nc && 0 <= d < nd implies #[trigger] out@[cell(
                    row as int,
                    nc as int,
                    c,
                    nd as int,
                    d,
                )] == (if c < ic || (c == ic && d < id + 1) {
                    T::sum(
                        old(out)@[cell(row as int, nc as int, c, nd as int, d)],
                        transferred(
                            base,
                            cd,
                            at_degree(tri@, lc as int, c),
                            at_degree(tri@, ld as int, d),
                        ),
                    )
                } else {
                    old(out)@[cell(row as int, nc as int, c, nd as int, d)]
                }) by {
                    lemma_cell_in_range(row as int, rows as int, nc as int, c, nd as int, d);
                    lemma_cell_distinct(
                        row as int,
                        c,
                        d,
                        row as int,
                        ic as int,
                        id as int,
                        nc as int,
                        nd as int,
                    );
                    assert(before[cell(row as int, nc as int, c, nd as int, d)] == out@[cell(
                        row as int,
                        nc as int,
                        c,
                        nd as int,
                        d,
                    )] || (c == ic && d == id));
                }
            }
            id = id + 1;
        }
        ic = ic + 1;
    }
}

/// The entries of one row lie together.
proof fn lemma_cell_span(row: int, n: int, c: int, s: int, d: int)
    requires
        0 <= row,
        0 <= c < n,
        0 <= d < s,
    ensures
        row * (n * s) <= cell(row, n, c, s, d) < (row + 1) * (n * s),
{
    assert(row * (n * s) <= (row * n + c) * s + d < (row + 1) * (n * s)) by (nonlinear_arith)
        requires
            0 <= row,
            0 <= c < n,
            0 <= d < s,
    ;
}

/// The horizontal recurrence on a contracted table, added to the block `out` of
/// shape `(na, nb, nc, nd)`: the bra pass for every ket address, then the ket pass
/// for every bra pair.
#[verifier::spinoff_prover]
#[verifier::rlimit(40)]
pub fn hrr_and_scatter<T: Scalar>(
    la: usize,
    lb: usize,
    lc: usize,
    ld: usize,
    c_ef: &[T],
    ab: [T; 3],
    cd: [T; 3],
    out: &mut [T],
    bra: &mut Vec<T>,
    prev: &mut Vec<T>,
    cur: &mut Vec<T>,
    kprev: &mut Vec<T>,
    kcur: &mut Vec<T>,
    tri: &[[usize; 3]],
    lmax: usize,
)
    requires
        lists_triples(tri@, lmax as int),
        la <= 6,
        lb <= 6,
        lc <= 6,
        ld <= 6,
        la + lb <= lmax <= 12,
        lc + ld <= lmax,
        c_ef@.len() >= tetrahedron(la + lb + 1) * tetrahedron(lc + ld + 1),
        old(out)@.len() >= cart_count(la as int) * cart_count(lb as int) * cart_count(lc as int)
            * cart_count(ld as int),
        old(cur)@.len() == old(prev)@.len(),
        old(kcur)@.len() == old(kprev)@.len(),
    ensures
        final(bra)@.len() == grown(
            old(bra)@.len() as int,
            cart_count(la as int) * cart_count(lb as int) * (tetrahedron(lc + ld + 1)
                - tetrahedron(lc as int)),
        ),
        final(prev)@.len() == grown(
            old(prev)@.len() as int,
            cart_count(lb as int) * tetrahedron(la + lb + 1),
        ),
        final(cur)@.len() == final(prev)@.len(),
        final(kprev)@.len() == grown(
            old(kprev)@.len() as int,
            cart_count(ld as int) * tetrahedron(lc + ld + 1),
        ),
        final(kcur)@.len() == final(kprev)@.len(),
        block_added(
            tri@,
            c_ef@,
            la as int,
            lb as int,
            lc as int,
            ld as int,
            ab,
            cd,
            old(out)@,
            final(out)@,
        ),
{
    let nf: usize = lc + ld;
    proof {
        lemma_shell_counts(la as int);
        lemma_shell_counts(lb as int);
        lemma_shell_counts(lc as int);
        lemma_shell_counts(ld as int);
        lemma_small_degree(nf as int);
        lemma_small_degree(lc as int);
        lemma_tetrahedron_grows(lc + 1, nf + 1);
        lemma_small_degree(la as int);
        lemma_small_degree(lb as int);
        lemma_small_degree(ld as int);
    }
    let n_f: usize = n_addr(nf);
    let f_base: usize = tri_below(lc);
    let na: usize = n_cart(la);
    let nb: usize = n_cart(lb);
    let nc: usize = n_cart(lc);
    let nd: usize = n_cart(ld);
    let range: usize = n_f - f_base;
    let ghost n_e = tetrahedron(la + lb + 1);
    proof {
        assert(0 <= na * nb <= 784 && 0 <= nc * nd <= 784) by (nonlinear_arith)
            requires
                0 <= na <= 28,
                0 <= nb <= 28,
                0 <= nc <= 28,
                0 <= nd <= 28,
        ;
        let w = na * nb;
        assert(w * range <= 2_568_384 && w * nc <= 21_952) by (nonlinear_arith)
            requires
                0 <= w <= 784,
                0 <= range <= 3276,
                0 <= nc <= 28,
        ;
        let z = w * nc;
        assert(z * nd <= 614_656) by (nonlinear_arith)
            requires
                0 <= z <= 21_952,
                0 <= nd <= 28,
        ;
        assert(nd * n_f <= 91_728) by (nonlinear_arith)
            requires
                0 <= nd <= 28,
                0 <= n_f <= 3276,
        ;
    }
    hrr_bra(la, lb, f_base, n_f, c_ef, ab, tri, lmax, bra, prev, cur);
    ensure_len(kprev, nd * n_f);
    ensure_len(kcur, nd * n_f);
    let ghost wide = kprev@.len();
    let mut ia: usize = 0;
    while ia < na
        invariant
            ia <= na,
            lists_triples(tri@, lmax as int),
            lc + ld <= lmax <= 12,
            na == cart_count(la as int) <= 28,
            nb == cart_count(lb as int) <= 28,
            nc == cart_count(lc as int) <= 28,
            nd == cart_count(ld as int) <= 28,
            na * nb <= 784,
            n_e == tetrahedron(la + lb + 1),
            n_f == tetrahedron(lc + ld + 1),
            f_base == tetrahedron(lc as int),
            range == n_f - f_base,
            bra@.len() >= na * nb * range,
            forall|a: int, b: int, f: int|
                0 <= a < na && 0 <= b < nb && f_base <= f < n_f ==> #[trigger] bra@[cell(
                    a,
                    nb as int,
                    b,
                    range as int,
                    f - f_base,
                )] == transferred(
                    column(c_ef@, n_e, n_f as int, f),
                    ab,
                    at_degree(tri@, la as int, a),
                    at_degree(tri@, lb as int, b),
                ),
            kprev@.len() >= nd * n_f,
            kcur@.len() >= nd * n_f,
            kprev@.len() == wide,
            kcur@.len() == wide,
            out@.len() == old(out)@.len(),
            out@.len() >= na * nb * nc * nd,
            na * nb * nc * nd <= 614_656,
            rows_added(
                tri@,
                c_ef@,
                la as int,
                lb as int,
                lc as int,
                ld as int,
                ab,
                cd,
                old(out)@,
                out@,
                ia as int,
                0,
            ),
        decreases na - ia,
    {
        let mut ib: usize = 0;
        while ib < nb
            invariant
                ib <= nb,
                ia < na,
                lists_triples(tri@, lmax as int),
                lc + ld <= lmax <= 12,
                na == cart_count(la as int) <= 28,
                nb == cart_count(lb as int) <= 28,
                nc == cart_count(lc as int) <= 28,
                nd == cart_count(ld as int) <= 28,
                na * nb <= 784,
                n_e == tetrahedron(la + lb + 1),
                n_f == tetrahedron(lc + ld + 1),
                f_base == tetrahedron(lc as int),
                range == n_f - f_base,
                bra@.len() >= na * nb * range,
                forall|a: int, b: int, f: int|
                    0 <= a < na && 0 <= b < nb && f_base <= f < n_f ==> #[trigger] bra@[cell(
                        a,
                        nb as int,
                        b,
                        range as int,
                        f - f_base,
                    )] == transferred(
                        column(c_ef@, n_e, n_f as int, f),
                        ab,
                        at_degree(tri@, la as int, a),
                        at_degree(tri@, lb as int, b),
                    ),
                kprev@.len() >= nd * n_f,
                kcur@.len() >= nd * n_f,
                kprev@.len() == wide,
                kcur@.len() == wide,
                out@.len() == old(out)@.len(),
                out@.len() >= na * nb * nc * nd,
                na * nb * nc * nd <= 614_656,
                rows_added(
                    tri@,
                    c_ef@,
                    la as int,
                    lb as int,
                    lc as int,
                    ld as int,
                    ab,
                    cd,
                    old(out)@,
                    out@,
                    ia as int,
                    ib as int,
                ),
            decreases nb - ib,
        {
            let ghost before = out@;
            let ghost base = bra_done(
                c_ef@,
                n_e,
                n_f as int,
                ab,
                at_degree(tri@, la as int, ia as int),
                at_degree(tri@, lb as int, ib as int),
            );
            proof {
                lemma_pair_in_range(ia as int, na as int, nb as int, ib as int);
                assert forall|f: int| f_base <= f < n_f implies #[trigger] base[f] == bra@[pair(
                    ia * nb + ib,
                    range as int,
                    f - f_base,
                )] by {
                    assert(bra@[cell(ia as int, nb as int, ib as int, range as int, f - f_base)]
                        == base[f]);
                }
            }
            let row: usize = ia * nb + ib;
            hrr_ket_row(
                row,
                na * nb,
                lc,
                ld,
                cd,
                tri,
                lmax,
                bra,
                Ghost(base),
                out,
                kprev,
                kcur,
            );
            proof {
                lemma_row_added(
                    tri@,
                    c_ef@,
                    la as int,
                    lb as int,
                    lc as int,
                    ld as int,
                    ab,
                    cd,
                    old(out)@,
                    before,
                    out@,
                    ia as int,
                    ib as int,
                );
            }
            ib = ib + 1;
        }
        ia = ia + 1;
    }
}

/// [`block_added`] for the rows before `(ra, rb)`.
spec fn rows_added<T: Scalar>(
    tri: Seq<[usize; 3]>,
    c_ef: Seq<T>,
    la: int,
    lb: int,
    lc: int,
    ld: int,
    ab: [T; 3],
    cd: [T; 3],
    old: Seq<T>,
    new: Seq<T>,
    ra: int,
    rb: int,
) -> bool {
    let n_e = tetrahedron(la + lb + 1);
    let n_f = tetrahedron(lc + ld + 1);
    let (na, nb) = (cart_count(la), cart_count(lb));
    let (nc, nd) = (cart_count(lc), cart_count(ld));
    &&& forall|ia: int, ib: int, ic: int, id: int|
        0 <= ia < na && 0 <= ib < nb && 0 <= ic < nc && 0 <= id < nd ==> #[trigger] new[quad(
            ia,
            nb,
            ib,
            nc,
            ic,
            nd,
            id,
        )] == (if ia < ra || (ia == ra && ib < rb) {
            T::sum(
                old[quad(ia, nb, ib, nc, ic, nd, id)],
                shell_value(
                    c_ef,
                    n_e,
                    n_f,
                    ab,
                    cd,
                    at_degree(tri, la, ia),
                    at_degree(tri, lb, ib),
                    at_degree(tri, lc, ic),
                    at_degree(tri, ld, id),
                ),
            )
        } else {
            old[quad(ia, nb, ib, nc, ic, nd, id)]
        })
    &&& forall|i: int| na * nb * nc * nd <= i < old.len() ==> new[i] == old[i]
}

/// Adding the row `(ra, rb)` extends the rows that are done by it.
proof fn lemma_row_added<T: Scalar>(
    tri: Seq<[usize; 3]>,
    c_ef: Seq<T>,
    la: int,
    lb: int,
    lc: int,
    ld: int,
    ab: [T; 3],
    cd: [T; 3],
    old: Seq<T>,
    before: Seq<T>,
    new: Seq<T>,
    ra: int,
    rb: int,
)
    requires
        0 <= ra < cart_count(la),
        0 <= rb < cart_count(lb),
        cart_count(lc) >= 0,
        cart_count(ld) >= 0,
        old.len() == before.len() == new.len(),
        old.len() >= cart_count(la) * cart_count(lb) * cart_count(lc) * cart_count(ld),
        rows_added(tri, c_ef, la, lb, lc, ld, ab, cd, old, before, ra, rb),
        forall|ic: int, id: int|
            0 <= ic < cart_count(lc) && 0 <= id < cart_count(ld) ==> #[trigger] new[cell(
                ra * cart_count(lb) + rb,
                cart_count(lc),
                ic,
                cart_count(ld),
                id,
            )] == T::sum(
                before[cell(ra * cart_count(lb) + rb, cart_count(lc), ic, cart_count(ld), id)],
                transferred(
                    bra_done(
                        c_ef,
                        tetrahedron(la + lb + 1),
                        tetrahedron(lc + ld + 1),
                        ab,
                        at_degree(tri, la, ra),
                        at_degree(tri, lb, rb),
                    ),
                    cd,
                    at_degree(tri, lc, ic),
                    at_degree(tri, ld, id),
                ),
            ),
        forall|i: int|
            0 <= i < old.len() && !((ra * cart_count(lb) + rb) * (cart_count(lc) * cart_count(ld))
                <= i < (ra * cart_count(lb) + rb + 1) * (cart_count(lc) * cart_count(ld)))
                ==> #[trigger] new[i] == before[i],
    ensures
        rows_added(tri, c_ef, la, lb, lc, ld, ab, cd, old, new, ra, rb + 1),
{
    let (na, nb) = (cart_count(la), cart_count(lb));
    let (nc, nd) = (cart_count(lc), cart_count(ld));
    let row = ra * nb + rb;
    lemma_pair_in_range(ra, na, nb, rb);
    assert(nc * nd >= 0) by (nonlinear_arith)
        requires
            nc >= 0,
            nd >= 0,
    ;
    assert forall|ia: int, ib: int, ic: int, id: int|
        0 <= ia < na && 0 <= ib < nb && 0 <= ic < nc && 0 <= id < nd implies #[trigger] new[quad(
        ia,
        nb,
        ib,
        nc,
        ic,
        nd,
        id,
    )] == (if ia < ra || (ia == ra && ib < rb + 1) {
        T::sum(
            old[quad(ia, nb, ib, nc, ic, nd, id)],
            shell_value(
                c_ef,
                tetrahedron(la + lb + 1),
                tetrahedron(lc + ld + 1),
                ab,
                cd,
                at_degree(tri, la, ia),
                at_degree(tri, lb, ib),
                at_degree(tri, lc, ic),
                at_degree(tri, ld, id),
            ),
        )
    } else {
        old[quad(ia, nb, ib, nc, ic, nd, id)]
    }) by {
        lemma_quad_in_range(ia, na, ib, nb, ic, nc, id, nd);
        lemma_pair_order(ia, ib, ra, rb, nb);
        let r = pair(ia, nb, ib);
        assert(quad(ia, nb, ib, nc, ic, nd, id) == cell(r, nc, ic, nd, id));
        if r == row {
            assert(new[cell(row, nc, ic, nd, id)] == new[quad(ia, nb, ib, nc, ic, nd, id)]);
        } else {
            lemma_cell_span(r, nc, ic, nd, id);
            lemma_rows_apart(r, row, nc * nd);
            assert(new[quad(ia, nb, ib, nc, ic, nd, id)] == before[quad(
                ia,
                nb,
                ib,
                nc,
                ic,
                nd,
                id,
            )]);
        }
    }
    assert forall|i: int| na * nb * nc * nd <= i < old.len() implies new[i] == old[i] by {
        assert((row + 1) * (nc * nd) <= na * nb * nc * nd) by (nonlinear_arith)
            requires
                row + 1 <= na * nb,
                nc >= 0,
                nd >= 0,
                nc * nd >= 0,
        ;
        assert(new[i] == before[i]);
    }
}

/// Rows of the same span do not overlap.
proof fn lemma_rows_apart(r: int, s: int, span: int)
    requires
        r != s,
        0 <= span,
    ensures
        (r + 1) * span <= s * span || (s + 1) * span <= r * span,
{
    if r < s {
        assert((r + 1) * span <= s * span) by (nonlinear_arith)
            requires
                r < s,
                0 <= span,
        ;
    } else {
        assert((s + 1) * span <= r * span) by (nonlinear_arith)
            requires
                s < r,
                0 <= span,
        ;
    }
}

/// Component counts of the shells within reach.
pub proof fn lemma_shell_counts(l: int)
    requires
        0 <= l <= 6,
    ensures
        1 <= cart_count(l) <= 28,
{
    lemma_triangle_grows(l + 1, 7);
    lemma_triangle_grows(1, l + 1);
    assert(cart_count(6) == 28);
    assert(cart_count(0) == 1);
}

} // verus!
