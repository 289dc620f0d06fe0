//! Integrals of two primitives as values, apart from the blocks that hold them.
use vstd::prelude::*;

use crate::engine::os::{
    block_size, dipole_factor, kinetic_entries, kinetic_value, overlap_entries, overlap_value,
    pair_at, Prim,
};
use crate::engine::pairs::Vec3;
use crate::flat::added;
use crate::grad::pair::at_momentum;
use crate::math::am::Powers;
use crate::one_electron::{kinetic_step, overlap_step, PairStep};
use crate::scalar::Real;

verus! {

/// An integral of two primitives by its components.
pub type PairValue<T> = spec_fn(Prim<T>, Prim<T>, Powers, Powers) -> T;

/// The overlap of two primitives.
pub open spec fn overlap_of<T: Real>() -> PairValue<T> {
    |a: Prim<T>, b: Prim<T>, ca: Powers, cb: Powers| overlap_value(a, b, ca, cb)
}

/// The kinetic energy of two primitives.
pub open spec fn kinetic_of<T: Real>() -> PairValue<T> {
    |a: Prim<T>, b: Prim<T>, ca: Powers, cb: Powers| kinetic_value(a, b, ca, cb)
}

/// The dipole of two primitives along an axis about `o`.
pub open spec fn dipole_of<T: Real>(o: Vec3<T>, k: int) -> PairValue<T> {
    |a: Prim<T>, b: Prim<T>, ca: Powers, cb: Powers|
        T::prod(
            T::prod(
                dipole_factor(a, b, o, k, 0, ca.0, cb.0),
                dipole_factor(a, b, o, k, 1, ca.1, cb.1),
            ),
            dipole_factor(a, b, o, k, 2, ca.2, cb.2),
        )
}

/// The scaled integrals of two primitives, by index in their block.
pub open spec fn entries_of<T: Real>(value: PairValue<T>, a: Prim<T>, b: Prim<T>, w: T) -> spec_fn(
    int,
) -> T {
    |e: int|
        {
            let (ca, cb) = pair_at(a.l as int, b.l as int, e);
            T::prod(w, value(a, b, ca, cb))
        }
}

/// The step that adds integrals.
pub open spec fn value_step<T: Real>(value: PairValue<T>) -> PairStep<T> {
    |old: Seq<T>, a: Prim<T>, b: Prim<T>, w: T|
        added(old, block_size(a.l as int, b.l as int), entries_of(value, a, b, w))
}

/// Whether a step adds integrals.
pub open spec fn adds_values<T: Real>(step: PairStep<T>, value: PairValue<T>) -> bool {
    forall|old: Seq<T>, a: Prim<T>, b: Prim<T>, w: T| #[trigger]
        step(old, a, b, w) == added(
            old,
            block_size(a.l as int, b.l as int),
            entries_of(value, a, b, w),
        )
}

/// Whether a step adds integrals that the angular momenta of the primitives do not change.
pub open spec fn adds<T: Real>(step: PairStep<T>, value: PairValue<T>) -> bool {
    &&& adds_values(step, value)
    &&& forall|a: Prim<T>, b: Prim<T>, ca: Powers, cb: Powers, l: int| #[trigger]
        value(at_momentum(a, l), b, ca, cb) == value(a, b, ca, cb)
    &&& forall|a: Prim<T>, b: Prim<T>, ca: Powers, cb: Powers, l: int| #[trigger]
        value(a, at_momentum(b, l), ca, cb) == value(a, b, ca, cb)
}

/// The step of the overlap adds overlaps.
pub proof fn lemma_overlap_adds<T: Real>()
    ensures
        adds(overlap_step::<T>(), overlap_of()),
{
    assert forall|old: Seq<T>, a: Prim<T>, b: Prim<T>, w: T| #[trigger]
        overlap_step::<T>()(old, a, b, w) == added(
            old,
            block_size(a.l as int, b.l as int),
            entries_of(overlap_of(), a, b, w),
        ) by {
        assert(overlap_entries(a, b, w) =~= entries_of(overlap_of(), a, b, w));
    }
}

/// The step of the kinetic energy adds kinetic energies.
pub proof fn lemma_kinetic_adds<T: Real>()
    ensures
        adds(kinetic_step::<T>(), kinetic_of()),
{
    assert forall|old: Seq<T>, a: Prim<T>, b: Prim<T>, w: T| #[trigger]
        kinetic_step::<T>()(old, a, b, w) == added(
            old,
            block_size(a.l as int, b.l as int),
            entries_of(kinetic_of(), a, b, w),
        ) by {
        assert(kinetic_entries(a, b, w) =~= entries_of(kinetic_of(), a, b, w));
    }
}

} // verus!
