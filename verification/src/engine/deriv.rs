//! First derivatives with respect to the center of a shell.
//!
//! For a primitive `g_a` at `A` of exponent `alpha`, `d/dA_i g_a = 2 alpha g_(a+1_i) -
//! a_i g_(a-1_i)`. The derivative of a block is therefore a combination of the two
//! blocks in which the differentiated index is raised and lowered. The factor
//! `2 alpha` is that of a primitive and is already in the raised block.
use vstd::prelude::*;

use crate::engine::triples::{dec, inc, power, power_of, shifted};
use crate::flat::{added, cell, lemma_added_step, lemma_cell_in_range, pair};
use crate::math::am::{
    cart_components, cart_count, cart_index, cart_position, component_at, is_component,
    law_positions_order_components, lemma_listed_components, lemma_triangle_grows,
    lemma_triangle_step, n_cart, powers, Powers,
};
use crate::scalar::Scalar;

verus! {

/// Which index of a block is differentiated, and along which axis. The block has the
/// shape `(outer, n_cart(l), inner)`.
#[derive(Clone, Copy, Debug)]
pub struct AxisDeriv {
    /// Angular momentum of the differentiated index.
    pub l: usize,
    /// Axis of the derivative.
    pub cart_axis: usize,
    /// Product of the dimensions of the slower indices.
    pub outer: usize,
    /// Product of the dimensions of the faster indices.
    pub inner: usize,
}

/// The derivative of component `a` at `(o, _, s)`: the raised entry, minus the power
/// of `a` times the lowered entry.
pub open spec fn center_derivative<T: Scalar>(
    d: AxisDeriv,
    raised: Seq<T>,
    lowered: Option<Seq<T>>,
    a: Powers,
    o: int,
    s: int,
) -> T {
    let i = d.cart_axis as int;
    let l = d.l as int;
    let up = raised[cell(
        o,
        cart_count(l + 1),
        cart_position(shifted(a, i, 1)),
        d.inner as int,
        s,
    )];
    if power(a, i) >= 1 {
        let low = lowered->0;
        T::diff(
            up,
            T::prod(
                T::count(power(a, i) as u64),
                low[cell(
                    o,
                    cart_count(l - 1),
                    cart_position(shifted(a, i, -1)),
                    d.inner as int,
                    s,
                )],
            ),
        )
    } else {
        up
    }
}

/// The scaled derivatives, by index in the block.
pub open spec fn derivative_entries<T: Scalar>(
    d: AxisDeriv,
    scale: T,
    raised: Seq<T>,
    lowered: Option<Seq<T>>,
) -> spec_fn(int) -> T {
    |k: int|
        {
            let (n, w) = (cart_count(d.l as int), d.inner as int);
            T::prod(
                scale,
                center_derivative(
                    d,
                    raised,
                    lowered,
                    component_at(d.l as int, k / w % n),
                    k / w / n,
                    k % w,
                ),
            )
        }
}

/// The contents of an optional slice.
pub open spec fn slice_view<T>(s: Option<&[T]>) -> Option<Seq<T>> {
    match s {
        None => None,
        Some(v) => Some(v@),
    }
}

/// Whether the raised and lowered blocks have the sizes that `d` asks for.
pub open spec fn blocks_fit<T>(d: AxisDeriv, raised: Seq<T>, lowered: Option<Seq<T>>) -> bool {
    let l = d.l as int;
    &&& d.cart_axis < 3
    &&& (l + 2) * (l + 3) <= usize::MAX
    &&& raised.len() == d.outer * cart_count(l + 1) * d.inner
    &&& l > 0 ==> lowered is Some && lowered->0.len() == d.outer * cart_count(l - 1) * d.inner
}

/// Numbers of components of neighbouring degrees, and positions in them.
pub proof fn lemma_neighbours(l: int, a: Powers, i: int)
    requires
        is_component(a, l),
        0 <= i < 3,
        (l + 2) * (l + 3) <= usize::MAX,
    ensures
        l + 3 <= usize::MAX,
        (l + 1) * (l + 2) <= usize::MAX,
        is_component(shifted(a, i, 1), l + 1),
        0 <= cart_position(shifted(a, i, 1)) < cart_count(l + 1) <= usize::MAX,
        (shifted(a, i, 1).1 + shifted(a, i, 1).2) * (shifted(a, i, 1).1 + shifted(a, i, 1).2 + 1)
            <= usize::MAX,
        power(a, i) >= 1 ==> is_component(shifted(a, i, -1), l - 1) && 0 <= cart_position(
            shifted(a, i, -1),
        ) < cart_count(l - 1) <= usize::MAX && (shifted(a, i, -1).1 + shifted(a, i, -1).2) * (shifted(
            a,
            i,
            -1,
        ).1 + shifted(a, i, -1).2 + 1) <= usize::MAX && l >= 1,
        cart_count(l) >= 1,
{
    assert(l + 3 <= (l + 2) * (l + 3)) by (nonlinear_arith)
        requires
            l >= 0,
    ;
    assert((l + 1) * (l + 2) <= (l + 2) * (l + 3)) by (nonlinear_arith)
        requires
            l >= 0,
    ;
    let up = shifted(a, i, 1);
    law_positions_order_components(up, up, l + 1);
    lemma_triangle_step(l + 2);
    lemma_triangle_grows(l + 1, l + 2);
    lemma_triangle_grows(0, l + 1);
    lemma_triangle_grows(0, l);
    lemma_triangle_step(0);
    lemma_triangle_step(l);
    let d = up.1 + up.2;
    assert(d * (d + 1) <= (l + 1) * (l + 2)) by (nonlinear_arith)
        requires
            0 <= d <= l + 1,
    ;
    if power(a, i) >= 1 {
        let dn = shifted(a, i, -1);
        law_positions_order_components(dn, dn, l - 1);
        lemma_triangle_grows(l, l + 2);
        let e = dn.1 + dn.2;
        assert(e * (e + 1) <= (l + 1) * (l + 2)) by (nonlinear_arith)
            requires
                0 <= e <= l,
        ;
    }
}

/// Add the scaled derivative of a block along one axis of one index. `raised` holds
/// the block with the index raised, times `2 alpha`; `lowered` that with the index
/// lowered, which there is none of for `l = 0`.
#[verifier::spinoff_prover]
#[verifier::rlimit(60)]
pub fn accumulate_center_derivative<T: Scalar>(
    d: AxisDeriv,
    scale: T,
    raised: &[T],
    lowered: Option<&[T]>,
    out: &mut [T],
)
    requires
        blocks_fit(d, raised@, slice_view(lowered)),
        old(out)@.len() == d.outer * cart_count(d.l as int) * d.inner,
    ensures
        final(out)@ == added(
            old(out)@,
            d.outer * cart_count(d.l as int) * d.inner,
            derivative_entries(d, scale, raised@, slice_view(lowered)),
        ),
{
    let (l, axis, outer, inner) = (d.l, d.cart_axis, d.outer, d.inner);
    let ghost ll = l as int;
    proof {
        lemma_neighbours(ll, (ll, 0, 0), 0);
    }
    let nl = n_cart(l);
    let np1 = n_cart(l + 1);
    let nm1: usize = if l > 0 {
        proof {
            assert(ll * (ll + 1) <= (ll + 1) * (ll + 2)) by (nonlinear_arith)
                requires
                    ll >= 0,
            ;
        }
        n_cart(l - 1)
    } else {
        0
    };
    let comps = cart_components(l);
    let ghost old_out = out@;
    let ghost g = derivative_entries(d, scale, raised@, slice_view(lowered));
    let ghost size = outer * nl * inner;
    let out_len = out.len();
    let raised_len = raised.len();
    proof {
        lemma_listed_components(comps@, ll);
        assert(added(old_out, 0, g) =~= old_out);
        assert(0 * nl == 0) by (nonlinear_arith);
        assert(0 * inner == 0) by (nonlinear_arith);
    }
    let mut o: usize = 0;
    while o < outer
        invariant
            o <= outer,
            d == (AxisDeriv { l, cart_axis: axis, outer, inner }),
            ll == l,
            blocks_fit(d, raised@, slice_view(lowered)),
            nl == cart_count(ll),
            nl >= 1,
            np1 == cart_count(ll + 1),
            l > 0 ==> nm1 == cart_count(ll - 1),
            comps@.len() == nl,
            forall|i: int| 0 <= i < nl ==> is_component(#[trigger] powers(comps@[i]), ll),
            forall|i: int| 0 <= i < nl ==> #[trigger] powers(comps@[i]) == component_at(ll, i),
            g == derivative_entries(d, scale, raised@, slice_view(lowered)),
            size == outer * nl * inner,
            old_out.len() == size,
            size <= usize::MAX,
            raised@.len() <= usize::MAX,
            out@ == added(old_out, o * nl * inner, g),
        decreases outer - o,
    {
        proof {
            assert(pair(o as int, nl as int, 0) * inner == o * nl * inner);
        }
        let mut ia: usize = 0;
        while ia < nl
            invariant
                o < outer,
                ia <= nl,
                d == (AxisDeriv { l, cart_axis: axis, outer, inner }),
                ll == l,
                blocks_fit(d, raised@, slice_view(lowered)),
                nl == cart_count(ll),
                nl >= 1,
                np1 == cart_count(ll + 1),
                l > 0 ==> nm1 == cart_count(ll - 1),
                comps@.len() == nl,
                forall|i: int| 0 <= i < nl ==> is_component(#[trigger] powers(comps@[i]), ll),
                forall|i: int| 0 <= i < nl ==> #[trigger] powers(comps@[i]) == component_at(ll, i),
                g == derivative_entries(d, scale, raised@, slice_view(lowered)),
                size == outer * nl * inner,
                old_out.len() == size,
                size <= usize::MAX,
                raised@.len() <= usize::MAX,
                out@ == added(old_out, pair(o as int, nl as int, ia as int) * inner, g),
            decreases nl - ia,
        {
            let a = comps[ia];
            let ghost ap = powers(comps@[ia as int]);
            assert(ap == component_at(ll, ia as int));
            proof {
                lemma_neighbours(ll, ap, axis as int);
            }
            let r_idx = cart_index(inc(a, axis));
            let pw = power_of(a, axis);
            let l_idx: usize = if pw >= 1 {
                cart_index(dec(a, axis))
            } else {
                0
            };
            let mut s: usize = 0;
            while s < inner
                invariant
                    o < outer,
                    ia < nl,
                    s <= inner,
                    d == (AxisDeriv { l, cart_axis: axis, outer, inner }),
                    ll == l,
                    blocks_fit(d, raised@, slice_view(lowered)),
                    nl == cart_count(ll),
                    np1 == cart_count(ll + 1),
                    l > 0 ==> nm1 == cart_count(ll - 1),
                    ap == component_at(ll, ia as int),
                    is_component(ap, ll),
                    0 <= r_idx < np1,
                    r_idx == cart_position(shifted(ap, axis as int, 1)),
                    pw == power(ap, axis as int),
                    pw >= 1 ==> l > 0 && 0 <= l_idx < nm1 && l_idx == cart_position(
                        shifted(ap, axis as int, -1),
                    ),
                    g == derivative_entries(d, scale, raised@, slice_view(lowered)),
                    size == outer * nl * inner,
                    old_out.len() == size,
                    size <= usize::MAX,
                    raised@.len() <= usize::MAX,
                    out@ == added(
                        old_out,
                        cell(o as int, nl as int, ia as int, inner as int, s as int),
                        g,
                    ),
                decreases inner - s,
            {
                let ghost (po, pa, ps) = (o as int, ia as int, s as int);
                let ghost (pn, pw1, pi) = (nl as int, np1 as int, inner as int);
                proof {
                    lemma_cell_in_range(po, outer as int, pn, pa, pi, ps);
                    lemma_cell_in_range(po, outer as int, pw1, r_idx as int, pi, ps);
                    crate::spherical::lemma_cell_parts(po, pn, pa, pi, ps);
                }
                let mut v = raised[(o * np1 + r_idx) * inner + s];
                if pw >= 1 {
                    if let Some(low) = lowered {
                        let low_len = low.len();
                        proof {
                            lemma_cell_in_range(
                                po,
                                outer as int,
                                nm1 as int,
                                l_idx as int,
                                pi,
                                ps,
                            );
                        }
                        v = v.minus(
                            T::from_count(pw as u64).times(low[(o * nm1 + l_idx) * inner + s]),
                        );
                    }
                }
                let idx: usize = (o * nl + ia) * inner + s;
                out[idx] = out[idx].plus(scale.times(v));
                proof {
                    assert(T::prod(scale, v) == g(idx as int));
                    lemma_added_step(old_out, idx as int, g);
                }
                s = s + 1;
            }
            proof {
                let q = pair(o as int, nl as int, ia as int);
                assert(q * inner + inner == (q + 1) * inner) by (nonlinear_arith);
                assert(pair(o as int, nl as int, ia + 1) == q + 1);
            }
            ia = ia + 1;
        }
        proof {
            assert(pair(o as int, nl as int, nl as int) == (o + 1) * nl) by (nonlinear_arith)
                requires
                    pair(o as int, nl as int, nl as int) == o * nl + nl,
            ;
        }
        o = o + 1;
    }
}

} // verus!
