//! Which point a refusal names.
use vstd::prelude::*;

use crate::engine::pairs::Vec3;
use crate::grad::fit::{first_absent, first_difference, mismatch, same_points};
use crate::grad::one_electron::first_off_atoms;
use crate::scalar::Real;
use crate::shell::{first_match, same_point};

verus! {

/// Whether a point is one of a list.
pub open spec fn is_among<T: Real>(points: Seq<Vec3<T>>, c: Vec3<T>) -> bool {
    exists|k: int| 0 <= k < points.len() && #[trigger] same_point(points[k], c)
}

proof fn lemma_match<T: Real>(points: Seq<Vec3<T>>, c: Vec3<T>, from: int)
    requires
        0 <= from,
    ensures
        first_match(points, c, from) < points.len() <==> exists|k: int|
            from <= k < points.len() && #[trigger] same_point(points[k], c),
    decreases points.len() - from,
{
    if from < points.len() {
        lemma_match(points, c, from + 1);
        if same_point(points[from], c) {
        } else if first_match(points, c, from + 1) < points.len() {
            let k = choose|k: int|
                from + 1 <= k < points.len() && #[trigger] same_point(points[k], c);
            assert(from <= k && same_point(points[k], c));
        }
    }
}

proof fn lemma_off_atoms<T: Real>(charges: Seq<(Vec3<T>, T)>, atoms: Seq<Vec3<T>>, k: int)
    requires
        0 <= k,
    ensures
        ({
            let n = first_off_atoms(charges, atoms, k);
            &&& k <= n
            &&& n < charges.len() ==> !is_among(atoms, charges[n].0)
            &&& forall|j: int|
                k <= j < n && j < charges.len() ==> is_among(atoms, (#[trigger] charges[j]).0)
        }),
    decreases charges.len() - k,
{
    if k < charges.len() {
        lemma_match(atoms, charges[k].0, 0);
        if first_match(atoms, charges[k].0, 0) < atoms.len() {
            lemma_off_atoms(charges, atoms, k + 1);
        }
    }
}

/// The charge that a gradient is refused for is on no atom, and every charge before it is
/// on one.
pub proof fn law_refused_charge<T: Real>(charges: Seq<(Vec3<T>, T)>, atoms: Seq<Vec3<T>>)
    ensures
        ({
            let n = first_off_atoms(charges, atoms, 0);
            &&& n < charges.len() ==> !is_among(atoms, charges[n].0)
            &&& forall|j: int|
                0 <= j < n && j < charges.len() ==> is_among(atoms, (#[trigger] charges[j]).0)
        }),
{
    lemma_off_atoms(charges, atoms, 0);
}

proof fn lemma_absent<T: Real>(list: Seq<Vec3<T>>, other: Seq<Vec3<T>>, k: int)
    requires
        0 <= k,
    ensures
        ({
            let n = first_absent(list, other, k);
            &&& k <= n
            &&& n < list.len() ==> !is_among(other, list[n])
            &&& forall|j: int| k <= j < n && j < list.len() ==> is_among(other, #[trigger] list[j])
        }),
    decreases list.len() - k,
{
    if k < list.len() {
        lemma_match(other, list[k], 0);
        if first_match(other, list[k], 0) < other.len() {
            lemma_absent(list, other, k + 1);
        }
    }
}

proof fn lemma_difference<T: Real>(a: Seq<Vec3<T>>, b: Seq<Vec3<T>>, k: int)
    requires
        0 <= k <= a.len(),
        k <= b.len(),
    ensures
        ({
            let n = first_difference(a, b, k);
            &&& k <= n <= a.len()
            &&& n <= b.len()
            &&& n < a.len() && n < b.len() ==> !same_point(a[n], b[n])
            &&& forall|j: int| k <= j < n ==> same_point(#[trigger] a[j], b[j])
        }),
    decreases a.len() - k,
{
    if k < a.len() && k < b.len() && same_point(a[k], b[k]) {
        lemma_difference(a, b, k + 1);
    }
}

/// Two lists of atoms are the same exactly where they are as long and agree at every place.
pub proof fn law_same_points<T: Real>(main: Seq<Vec3<T>>, aux: Seq<Vec3<T>>)
    ensures
        same_points(main, aux) <==> main.len() == aux.len() && forall|k: int|
            0 <= k < main.len() ==> same_point(#[trigger] main[k], aux[k]),
{
    lemma_difference(main, aux, 0);
    let n = first_difference(main, aux, 0);
    if n < main.len() && n < aux.len() {
        assert(!same_point(main[n], aux[n]));
    }
}

/// The point that a pair of lists of atoms is refused for is the first of the second list
/// that is not in the first; where all are, the first of the first list that is not in the
/// second; and where all of these are too, that of the second list at the first place where
/// the lists differ.
pub proof fn law_refused_atom<T: Real>(main: Seq<Vec3<T>>, aux: Seq<Vec3<T>>, k: int)
    requires
        0 <= k,
    ensures
        k < aux.len() && !is_among(main, aux[k]) && (forall|j: int|
            0 <= j < k ==> is_among(main, #[trigger] aux[j])) ==> mismatch(main, aux) == aux[k],
        (forall|j: int| 0 <= j < aux.len() ==> is_among(main, #[trigger] aux[j])) && k < main.len()
            && !is_among(aux, main[k]) && (forall|j: int|
            0 <= j < k ==> is_among(aux, #[trigger] main[j])) ==> mismatch(main, aux) == main[k],
        (forall|j: int| 0 <= j < aux.len() ==> is_among(main, #[trigger] aux[j])) && (forall|
            j: int,
        |
            0 <= j < main.len() ==> is_among(aux, #[trigger] main[j])) && k < aux.len() && k
            < main.len() && !same_point(aux[k], main[k]) && (forall|j: int|
            0 <= j < k ==> same_point(#[trigger] aux[j], main[j])) ==> mismatch(main, aux)
            == aux[k],
{
    lemma_absent(aux, main, 0);
    lemma_absent(main, aux, 0);
    lemma_difference(aux, main, 0);
    let (a, m, d) = (
        first_absent(aux, main, 0),
        first_absent(main, aux, 0),
        first_difference(aux, main, 0),
    );
    if k < aux.len() && a < aux.len() {
        assert(is_among(main, aux[k]) || a <= k);
    }
    if k < main.len() && m < main.len() {
        assert(is_among(aux, main[k]) || m <= k);
    }
    if k < aux.len() && k < main.len() && d < aux.len() && d < main.len() {
        assert(same_point(aux[k], main[k]) || d <= k);
        assert(!same_point(aux[d], main[d]));
    }
}

} // verus!
