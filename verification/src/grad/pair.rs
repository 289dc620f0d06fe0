//! First derivatives of one-electron blocks with respect to the centers of the shells.
use vstd::prelude::*;

use crate::engine::deriv::{accumulate_center_derivative, derivative_entries, slice_view, AxisDeriv};
use crate::engine::os::{block_size, lemma_block_bounds, Prim};
use crate::engine::os_eri::MAX_L;
use crate::flat::added;
use crate::math::am::{cart_count, n_cart};
use crate::one_electron::{contracted_pair, PairOperator, PairStep};
use crate::scalar::{filled, Real, Scalar};
use crate::shell::Shell;

verus! {

/// `n` zeros.
pub open spec fn zeros<T: Scalar>(n: int) -> Seq<T> {
    Seq::new(n as nat, |k: int| T::count(0))
}

/// A primitive with its angular momentum replaced.
pub open spec fn at_momentum<T>(p: Prim<T>, l: int) -> Prim<T> {
    Prim { exp: p.exp, center: p.center, l: l as usize }
}

/// The block of two primitives with the ket or the bra raised, times twice its
/// exponent.
pub open spec fn raised_pair<T: Real>(
    step: PairStep<T>,
    a: Prim<T>,
    b: Prim<T>,
    ket: bool,
) -> Seq<T> {
    if ket {
        step(
            zeros(block_size(a.l as int, b.l + 1)),
            a,
            at_momentum(b, b.l + 1),
            T::prod(T::count(2), b.exp),
        )
    } else {
        step(
            zeros(block_size(a.l + 1, b.l as int)),
            at_momentum(a, a.l + 1),
            b,
            T::prod(T::count(2), a.exp),
        )
    }
}

/// The block of two primitives with the ket or the bra lowered, if it can be.
pub open spec fn lowered_pair<T: Real>(
    step: PairStep<T>,
    a: Prim<T>,
    b: Prim<T>,
    ket: bool,
) -> Option<Seq<T>> {
    if ket {
        if b.l == 0 {
            None
        } else {
            Some(
                step(
                    zeros(block_size(a.l as int, b.l - 1)),
                    a,
                    at_momentum(b, b.l - 1),
                    T::count(1),
                ),
            )
        }
    } else {
        if a.l == 0 {
            None
        } else {
            Some(
                step(
                    zeros(block_size(a.l - 1, b.l as int)),
                    at_momentum(a, a.l - 1),
                    b,
                    T::count(1),
                ),
            )
        }
    }
}

/// The derivative of a block of angular momenta `la` and `lb` along an axis of the ket
/// or the bra.
pub open spec fn pair_axis(la: int, lb: int, ket: bool, axis: int) -> AxisDeriv {
    if ket {
        AxisDeriv {
            l: lb as usize,
            cart_axis: axis as usize,
            outer: cart_count(la) as usize,
            inner: 1,
        }
    } else {
        AxisDeriv {
            l: la as usize,
            cart_axis: axis as usize,
            outer: 1,
            inner: cart_count(lb) as usize,
        }
    }
}

/// What one pair of primitives adds to the derivative of the block of an operator with
/// respect to the center of the ket or the bra.
pub open spec fn derivative_step<T: Real>(step: PairStep<T>, ket: bool, axis: int) -> PairStep<T> {
    |old: Seq<T>, a: Prim<T>, b: Prim<T>, scale: T|
        added(
            old,
            block_size(a.l as int, b.l as int),
            derivative_entries(
                pair_axis(a.l as int, b.l as int, ket, axis),
                scale,
                raised_pair(step, a, b, ket),
                lowered_pair(step, a, b, ket),
            ),
        )
}

/// The block of two primitives with the ket or the bra raised, and that with it
/// lowered.
fn shifted_pair<T: Real>(op: &PairOperator<T>, a: Prim<T>, b: Prim<T>, ket: bool) -> (r: (
    Vec<T>,
    Option<Vec<T>>,
))
    requires
        op.valid(),
        a.l < op.l_max() <= MAX_L,
        b.l < op.l_max() <= MAX_L,
    ensures
        r.0@ == raised_pair(op.step(), a, b, ket),
        crate::spherical::held(r.1) == lowered_pair(op.step(), a, b, ket),
        ket ==> r.0@.len() == block_size(a.l as int, b.l + 1),
        !ket ==> r.0@.len() == block_size(a.l + 1, b.l as int),
        r.1 matches Some(v) ==> v@.len() == if ket {
            block_size(a.l as int, b.l - 1)
        } else {
            block_size(a.l - 1, b.l as int)
        },
{
    let two = T::from_count(2);
    let zero = T::from_count(0);
    proof {
        lemma_block_bounds(a.l as int, b.l + 1);
        lemma_block_bounds(a.l + 1, b.l as int);
    }
    if ket {
        let mut raised = filled(n_cart(a.l) * n_cart(b.l + 1), zero);
        assert(raised@ =~= zeros(block_size(a.l as int, b.l + 1)));
        op.apply(a, Prim::new(b.exp, b.center, b.l + 1), two.times(b.exp), raised.as_mut_slice());
        if b.l > 0 {
            proof {
                lemma_block_bounds(a.l as int, b.l - 1);
            }
            let mut low = filled(n_cart(a.l) * n_cart(b.l - 1), zero);
            assert(low@ =~= zeros(block_size(a.l as int, b.l - 1)));
            op.apply(
                a,
                Prim::new(b.exp, b.center, b.l - 1),
                T::from_count(1),
                low.as_mut_slice(),
            );
            (raised, Some(low))
        } else {
            (raised, None)
        }
    } else {
        let mut raised = filled(n_cart(a.l + 1) * n_cart(b.l), zero);
        assert(raised@ =~= zeros(block_size(a.l + 1, b.l as int)));
        op.apply(Prim::new(a.exp, a.center, a.l + 1), b, two.times(a.exp), raised.as_mut_slice());
        if a.l > 0 {
            proof {
                lemma_block_bounds(a.l - 1, b.l as int);
            }
            let mut low = filled(n_cart(a.l - 1) * n_cart(b.l), zero);
            assert(low@ =~= zeros(block_size(a.l - 1, b.l as int)));
            op.apply(
                Prim::new(a.exp, a.center, a.l - 1),
                b,
                T::from_count(1),
                low.as_mut_slice(),
            );
            (raised, Some(low))
        } else {
            (raised, None)
        }
    }
}

/// Whether the three blocks are the derivatives of the blocks of two shells along the
/// axes, over all primitive pairs before `(i, j)`.
pub open spec fn are_derivatives<T: Real>(
    blocks: Seq<Vec<T>>,
    step: PairStep<T>,
    ket: bool,
    a: Shell<T>,
    b: Shell<T>,
    i: int,
    j: int,
) -> bool {
    &&& blocks.len() == 3
    &&& forall|axis: int|
        0 <= axis < 3 ==> (#[trigger] blocks[axis])@ == contracted_pair(
            derivative_step(step, ket, axis),
            a,
            b,
            i,
            j,
        ) && blocks[axis]@.len() == block_size(a.l as int, b.l as int)
}

/// Add the derivatives of one pair of primitives along the three axes.
#[verifier::spinoff_prover]
#[verifier::rlimit(40)]
fn add_derivatives<T: Real>(
    op: &PairOperator<T>,
    a: &Shell<T>,
    b: &Shell<T>,
    i: usize,
    j: usize,
    ket: bool,
    blocks: &mut Vec<Vec<T>>,
)
    requires
        op.valid(),
        a.valid(),
        b.valid(),
        a.l < op.l_max() <= MAX_L,
        b.l < op.l_max() <= MAX_L,
        i < a.exponents@.len(),
        j < b.exponents@.len(),
        are_derivatives(old(blocks)@, op.step(), ket, *a, *b, i as int, j as int),
    ensures
        are_derivatives(final(blocks)@, op.step(), ket, *a, *b, i as int, j + 1),
{
    let scale = a.primitive_coeff(i).times(b.primitive_coeff(j));
    let (pa, pb) = (a.prim(i), b.prim(j));
    let (raised, lowered) = shifted_pair(op, pa, pb, ket);
    let (na, nb) = (a.n_cart(), b.n_cart());
    let low: Option<&[T]> = match &lowered {
        None => None,
        Some(v) => Some(v.as_slice()),
    };
    let ghost was = blocks@;
    let ghost step = op.step();
    let mut axis: usize = 0;
    while axis < 3
        invariant
            axis <= 3,
            a.valid(),
            b.valid(),
            a.l < MAX_L,
            b.l < MAX_L,
            i < a.exponents@.len(),
            j < b.exponents@.len(),
            step == op.step(),
            pa == a.primitive(i as int),
            pb == b.primitive(j as int),
            scale == T::prod(a.effective(i as int), b.effective(j as int)),
            raised@ == raised_pair(step, pa, pb, ket),
            slice_view(low) == lowered_pair(step, pa, pb, ket),
            ket ==> raised@.len() == block_size(a.l as int, b.l + 1),
            !ket ==> raised@.len() == block_size(a.l + 1, b.l as int),
            low matches Some(v) ==> v@.len() == if ket {
                block_size(a.l as int, b.l - 1)
            } else {
                block_size(a.l - 1, b.l as int)
            },
            na == cart_count(a.l as int),
            nb == cart_count(b.l as int),
            was.len() == 3,
            blocks@.len() == 3,
            are_derivatives(was, step, ket, *a, *b, i as int, j as int),
            forall|k: int| axis <= k < 3 ==> #[trigger] blocks@[k] == was[k],
            forall|k: int|
                0 <= k < axis ==> (#[trigger] blocks@[k])@ == contracted_pair(
                    derivative_step(step, ket, k),
                    *a,
                    *b,
                    i as int,
                    j + 1,
                ) && blocks@[k]@.len() == block_size(a.l as int, b.l as int),
        decreases 3 - axis,
    {
        let d = if ket {
            AxisDeriv { l: b.l, cart_axis: axis, outer: na, inner: 1 }
        } else {
            AxisDeriv { l: a.l, cart_axis: axis, outer: 1, inner: nb }
        };
        let ghost l = if ket {
            b.l as int
        } else {
            a.l as int
        };
        proof {
            assert(d == pair_axis(a.l as int, b.l as int, ket, axis as int));
            assert(blocks@[axis as int] == was[axis as int]);
            assert((l + 2) * (l + 3) <= 100) by (nonlinear_arith)
                requires
                    0 <= l <= 5,
            ;
            assert(1 * cart_count(l) == cart_count(l));
            assert(1 * cart_count(l + 1) == cart_count(l + 1));
            assert(1 * cart_count(l - 1) == cart_count(l - 1));
        }
        let slot = &mut blocks[axis];
        accumulate_center_derivative(d, scale, raised.as_slice(), low, slot.as_mut_slice());
        axis = axis + 1;
    }
}

/// The derivatives of the Cartesian block of two shells with respect to the center of
/// the bra, and with respect to that of the ket, along the three axes.
#[verifier::spinoff_prover]
pub(crate) fn pair_grad_1e<T: Real>(op: &PairOperator<T>, a: &Shell<T>, b: &Shell<T>) -> (r: (
    Vec<Vec<T>>,
    Vec<Vec<T>>,
))
    requires
        op.valid(),
        a.valid(),
        b.valid(),
        a.l < op.l_max() <= MAX_L,
        b.l < op.l_max() <= MAX_L,
    ensures
        are_derivatives(r.0@, op.step(), false, *a, *b, a.exponents@.len() as int, 0),
        are_derivatives(r.1@, op.step(), true, *a, *b, a.exponents@.len() as int, 0),
{
    proof {
        lemma_block_bounds(a.l as int, b.l as int);
    }
    let ghost step = op.step();
    let len: usize = a.n_cart() * b.n_cart();
    let mut da: Vec<Vec<T>> = Vec::new();
    let mut db: Vec<Vec<T>> = Vec::new();
    let mut k: usize = 0;
    while k < 3
        invariant
            k <= 3,
            len == block_size(a.l as int, b.l as int),
            da@.len() == k,
            db@.len() == k,
            forall|m: int| 0 <= m < k ==> (#[trigger] da@[m])@ == zeros::<T>(len as int),
            forall|m: int| 0 <= m < k ==> (#[trigger] db@[m])@ == zeros::<T>(len as int),
        decreases 3 - k,
    {
        da.push(filled(len, T::from_count(0)));
        db.push(filled(len, T::from_count(0)));
        k = k + 1;
    }
    let mut i: usize = 0;
    while i < a.n_prim()
        invariant
            i <= a.exponents@.len(),
            op.valid(),
            a.valid(),
            b.valid(),
            a.l < op.l_max() <= MAX_L,
            b.l < op.l_max() <= MAX_L,
            are_derivatives(da@, op.step(), false, *a, *b, i as int, 0),
            are_derivatives(db@, op.step(), true, *a, *b, i as int, 0),
        decreases a.exponents@.len() - i,
    {
        let mut j: usize = 0;
        while j < b.n_prim()
            invariant
                i < a.exponents@.len(),
                j <= b.exponents@.len(),
                op.valid(),
                a.valid(),
                b.valid(),
                a.l < op.l_max() <= MAX_L,
                b.l < op.l_max() <= MAX_L,
                are_derivatives(da@, op.step(), false, *a, *b, i as int, j as int),
                are_derivatives(db@, op.step(), true, *a, *b, i as int, j as int),
            decreases b.exponents@.len() - j,
        {
            add_derivatives(op, a, b, i, j, false, &mut da);
            add_derivatives(op, a, b, i, j, true, &mut db);
            j = j + 1;
        }
        i = i + 1;
    }
    (da, db)
}

} // verus!
