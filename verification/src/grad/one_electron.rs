//! The gradients of the overlap, the kinetic energy and the nuclear attraction.
use vstd::prelude::*;

use crate::engine::os_eri::MAX_L;
use crate::engine::pairs::Vec3;
use crate::error::IntegralError;
use crate::exact::{adds_exactly, cancels_exactly, lemma_regrouped, lemma_zero_sum, sum_before};
use crate::grad::matrix::{
    grad_terms, gradient_entries, gradient_entry, is_gradient, landed, GradTerm, Gradient1e,
};
use crate::grad::pair::derivative_step;
use crate::math::boys::BoysTable;
use crate::one_electron::{
    kinetic_step, nuclear_step, overlap_step, pair_entries, PairOperator, PairStep,
};
use crate::scalar::{Real, Scalar};
use crate::shell::{
    atom_of, distinct_centers, find_point, first_match, function_counts, Basis, Shell,
};
use crate::tensor::At;

verus! {

/// An operator that does not move with any atom.
pub open spec fn fixed_term<T: Real>(step: PairStep<T>) -> Seq<GradTerm<T>> {
    seq![(step, None)]
}

/// The attraction to every charge, which moves with the atom at its place.
pub open spec fn charge_terms<T: Real>(
    charges: Seq<(Vec3<T>, T)>,
    atoms: Seq<Vec3<T>>,
) -> Seq<GradTerm<T>> {
    Seq::new(
        charges.len(),
        |k: int| (nuclear_step(seq![charges[k]]), Some(first_match(atoms, charges[k].0, 0))),
    )
}

/// The first charge from number `k` on that is on none of the atoms; the number of
/// charges if all are.
pub open spec fn first_off_atoms<T: Real>(
    charges: Seq<(Vec3<T>, T)>,
    atoms: Seq<Vec3<T>>,
    k: int,
) -> int
    decreases charges.len() - k,
{
    if k >= charges.len() || first_match(atoms, charges[k].0, 0) >= atoms.len() {
        k
    } else {
        first_off_atoms(charges, atoms, k + 1)
    }
}

/// The atoms of every charge; or the number of the first charge that is on none.
fn charge_atoms<T: Real>(charges: &[(Vec3<T>, T)], atoms: &Vec<Vec3<T>>) -> (r: Result<
    Vec<usize>,
    usize,
>)
    ensures
        r is Ok <==> (forall|k: int|
            0 <= k < charges@.len() ==> first_match(atoms@, (#[trigger] charges@[k]).0, 0)
                < atoms@.len()),
        r matches Ok(v) ==> v@.len() == charges@.len() && forall|k: int|
            0 <= k < v@.len() ==> #[trigger] v@[k] == first_match(atoms@, charges@[k].0, 0)
                && v@[k] < atoms@.len(),
        r matches Err(k) ==> k == first_off_atoms(charges@, atoms@, 0) && k < charges@.len(),
{
    let mut v: Vec<usize> = Vec::new();
    let mut k: usize = 0;
    while k < charges.len()
        invariant
            k <= charges@.len(),
            v@.len() == k,
            first_off_atoms(charges@, atoms@, 0) == first_off_atoms(charges@, atoms@, k as int),
            forall|j: int|
                0 <= j < k ==> #[trigger] v@[j] == first_match(atoms@, charges@[j].0, 0) && v@[j]
                    < atoms@.len(),
        decreases charges@.len() - k,
    {
        let at = find_point(atoms, charges[k].0);
        if at >= atoms.len() {
            assert(!(first_match(atoms@, charges@[k as int].0, 0) < atoms@.len()));
            return Err(k);
        }
        v.push(at);
        k = k + 1;
    }
    assert forall|j: int| 0 <= j < charges@.len() implies first_match(
        atoms@,
        (#[trigger] charges@[j]).0,
        0,
    ) < atoms@.len() by {
        assert(v@[j] < atoms@.len());
    }
    Ok(v)
}

impl<T: Real> Basis<T> {
    /// The gradient of the overlap matrix.
    pub fn overlap_grad(&self) -> (r: Result<Gradient1e<T>, IntegralError<T>>)
        requires
            self.valid(),
            self.gradient_fits(),
        ensures
            r is Ok <==> self.can_differentiate(),
            r matches Err(e) ==> e == self.grad_error(),
            r matches Ok(g) ==> g.valid() && g.atom_count() == self.atom_total() && g.size()
                == self.size() && is_gradient(
                g.values(),
                self.atom_total(),
                function_counts(self.shells@),
                gradient_entries(fixed_term(overlap_step()), self.shells@),
            ),
    {
        match self.check_grad_l() {
            Err(e) => Err(e),
            Ok(()) => {
                let mut ops: Vec<(PairOperator<T>, Option<usize>)> = Vec::new();
                ops.push((PairOperator::Overlap, None));
                assert(grad_terms(ops@) =~= fixed_term(overlap_step()));
                Ok(self.grad_1e(&ops))
            },
        }
    }

    /// The gradient of the kinetic-energy matrix.
    pub fn kinetic_grad(&self) -> (r: Result<Gradient1e<T>, IntegralError<T>>)
        requires
            self.valid(),
            self.gradient_fits(),
        ensures
            r is Ok <==> self.can_differentiate(),
            r matches Err(e) ==> e == self.grad_error(),
            r matches Ok(g) ==> g.valid() && g.atom_count() == self.atom_total() && g.size()
                == self.size() && is_gradient(
                g.values(),
                self.atom_total(),
                function_counts(self.shells@),
                gradient_entries(fixed_term(kinetic_step()), self.shells@),
            ),
    {
        match self.check_grad_l() {
            Err(e) => Err(e),
            Ok(()) => {
                let mut ops: Vec<(PairOperator<T>, Option<usize>)> = Vec::new();
                ops.push((PairOperator::Kinetic, None));
                assert(grad_terms(ops@) =~= fixed_term(kinetic_step()));
                Ok(self.grad_1e(&ops))
            },
        }
    }

    /// Whether every charge sits on an atom of the basis.
    pub open spec fn carries(self, charges: Seq<(Vec3<T>, T)>) -> bool {
        forall|k: int|
            0 <= k < charges.len() ==> first_match(
                distinct_centers(self.shells@, self.shells@.len() as int),
                (#[trigger] charges[k]).0,
                0,
            ) < self.atom_total()
    }

    /// The gradient of the matrix of the attraction to the given charges, each of which
    /// must sit on an atom of the basis and moves with it.
    pub fn nuclear_grad(&self, table: &BoysTable<T>, charges: &[(Vec3<T>, T)]) -> (r: Result<
        Gradient1e<T>,
        IntegralError<T>,
    >)
        requires
            table.valid(),
            self.valid(),
            self.gradient_fits(),
        ensures
            r is Ok <==> self.can_differentiate() && self.carries(charges@),
            !self.can_differentiate() ==> r == Err::<Gradient1e<T>, IntegralError<T>>(
                self.grad_error(),
            ),
            self.can_differentiate() && !self.carries(charges@) ==> r == Err::<
                Gradient1e<T>,
                IntegralError<T>,
            >(
                IntegralError::ChargeNotOnAtom {
                    center: charges@[first_off_atoms(
                        charges@,
                        distinct_centers(self.shells@, self.shells@.len() as int),
                        0,
                    )].0,
                },
            ),
            r matches Ok(g) ==> g.valid() && g.atom_count() == self.atom_total() && g.size()
                == self.size() && is_gradient(
                g.values(),
                self.atom_total(),
                function_counts(self.shells@),
                gradient_entries(
                    charge_terms(
                        charges@,
                        distinct_centers(self.shells@, self.shells@.len() as int),
                    ),
                    self.shells@,
                ),
            ),
    {
        if let Err(e) = self.check_grad_l() {
            return Err(e);
        }
        let atoms = self.atoms();
        let carriers = match charge_atoms(charges, &atoms) {
            Err(k) => {
                return Err(IntegralError::ChargeNotOnAtom { center: charges[k].0 });
            },
            Ok(v) => v,
        };
        let mut ops: Vec<(PairOperator<T>, Option<usize>)> = Vec::new();
        let mut k: usize = 0;
        while k < charges.len()
            invariant
                k <= charges@.len(),
                table.valid(),
                carriers@.len() == charges@.len(),
                forall|j: int|
                    0 <= j < carriers@.len() ==> #[trigger] carriers@[j] == first_match(
                        atoms@,
                        charges@[j].0,
                        0,
                    ) && carriers@[j] < atoms@.len(),
                ops@.len() == k,
                forall|j: int|
                    0 <= j < k ==> (#[trigger] ops@[j]).0.valid() && ops@[j].0.l_max() == MAX_L
                        && ops@[j].0.step() == nuclear_step(seq![charges@[j]]) && ops@[j].1 == Some(
                        carriers@[j],
                    ),
            decreases charges@.len() - k,
        {
            let one = vstd::slice::slice_subrange(charges, k, k + 1);
            assert(one@ =~= seq![charges@[k as int]]);
            ops.push((PairOperator::Nuclear(table, one), Some(carriers[k])));
            k = k + 1;
        }
        assert(grad_terms(ops@) =~= charge_terms(charges@, atoms@)) by {
            assert forall|j: int| 0 <= j < ops@.len() implies grad_terms(ops@)[j] == charge_terms(
                charges@,
                atoms@,
            )[j] by {
                assert(ops@[j].1 == Some(carriers@[j]));
                assert(carriers@[j] == first_match(atoms@, charges@[j].0, 0));
            }
        }
        Ok(self.grad_1e(&ops))
    }
}

/// What lands at one atom is added to the sum over the atoms.
pub proof fn lemma_landed_sum<T: Scalar>(
    f: spec_fn(int) -> T,
    g: spec_fn(int) -> T,
    at: int,
    factor: T,
    v: T,
    n: int,
)
    requires
        adds_exactly::<T>(),
        0 <= at,
        forall|c: int| #[trigger] g(c) == landed(f(c), at == c, factor, v),
    ensures
        sum_before(g, n) == (if at < n {
            T::sum(sum_before(f, n), T::prod(factor, v))
        } else {
            sum_before(f, n)
        }),
    decreases n,
{
    if n > 0 {
        lemma_landed_sum(f, g, at, factor, v, n - 1);
        let w = T::prod(factor, v);
        assert(g(n - 1) == landed(f(n - 1), at == n - 1, factor, v));
        lemma_regrouped(sum_before(f, n - 1), w, f(n - 1));
    }
}

/// Where every summand of an operator moves with an atom, the derivatives of an entry
/// with respect to all atoms sum to zero, in any arithmetic that adds exactly.
pub proof fn law_gradient_is_translation_invariant<T: Real>(
    terms: Seq<GradTerm<T>>,
    shells: Seq<Shell<T>>,
    natom: int,
    axis: int,
    x: At,
    y: At,
    n: int,
)
    requires
        adds_exactly::<T>(),
        cancels_exactly::<T>(),
        0 <= atom_of(shells, x.0) < natom,
        0 <= atom_of(shells, y.0) < natom,
        0 <= n <= terms.len(),
        forall|k: int|
            0 <= k < terms.len() ==> (#[trigger] terms[k]).1 is Some && 0 <= terms[k].1->0 < natom,
    ensures
        sum_before(|c: int| gradient_entry(terms, shells, c, axis, x, y, n), natom) == T::count(0),
    decreases n,
{
    let f4 = |c: int| gradient_entry(terms, shells, c, axis, x, y, n);
    if n <= 0 {
        lemma_zero_sum(f4, natom);
    } else {
        law_gradient_is_translation_invariant(terms, shells, natom, axis, x, y, n - 1);
        let f0 = |c: int| gradient_entry(terms, shells, c, axis, x, y, n - 1);
        let step = terms[n - 1].0;
        let carrier = terms[n - 1].1->0;
        let bra = pair_entries(derivative_step(step, false, axis), shells)(x, y);
        let ket = pair_entries(derivative_step(step, true, axis), shells)(x, y);
        let (one, minus) = (T::count(1), T::neg(T::count(1)));
        let (ca, cb) = (atom_of(shells, x.0), atom_of(shells, y.0));
        let f1 = |c: int| landed(f0(c), ca == c, one, bra);
        let f2 = |c: int| landed(f1(c), cb == c, one, ket);
        let f3 = |c: int| landed(f2(c), carrier == c, minus, bra);
        assert(terms[n - 1].1 is Some);
        assert forall|c: int| #[trigger] f4(c) == landed(f3(c), carrier == c, minus, ket) by {}
        lemma_landed_sum(f0, f1, ca, one, bra, natom);
        lemma_landed_sum(f1, f2, cb, one, ket, natom);
        lemma_landed_sum(f2, f3, carrier, minus, bra, natom);
        lemma_landed_sum(f3, f4, carrier, minus, ket, natom);
        let (p, q) = (T::prod(one, bra), T::prod(one, ket));
        let (r, s) = (T::prod(minus, bra), T::prod(minus, ket));
        let z = T::count(0);
        assert(sum_before(f0, natom) == z);
        assert(sum_before(f4, natom) == T::sum(T::sum(T::sum(T::sum(z, p), q), r), s));
        lemma_regrouped(p, q, r);
        lemma_regrouped(q, s, z);
        assert(T::sum(p, r) == z);
        assert(T::sum(q, s) == z);
    }
}

} // verus!
