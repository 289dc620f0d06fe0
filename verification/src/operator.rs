//! Matrices of operators that are polynomials in position and momentum.
use vstd::prelude::*;

use crate::dense::{larger, larger_of};
use crate::engine::operator::{
    expansion, ket_overlap, momenta, operated, operator_into, overlaps_added, phase_of, terms_value,
    Factor, Operator, TermView,
};
use crate::engine::os::{block_size, lemma_block_bounds, overlap_entries, overlap_value, Prim};
use crate::engine::os_eri::MAX_L;
use crate::engine::pairs::{difference, Vec3};
use crate::error::IntegralError;
use crate::exact::{has_neutral_values, keeps_zero};
use crate::flat::{added, cell, lemma_cell_in_range, lemma_index_parts, lemma_pair_in_range, pair};
use crate::math::am::{cart_count, component_at, degree, Powers};
use crate::offsets::{are_lengths, start};
use crate::one_electron::{
    contracted_pair, is_matrix, lemma_placed, lemma_ranges_fit, overlap_step, pair_entries,
    place_block, PairStep,
};
use crate::scalar::{filled, Real, Scalar};
use crate::shell::{function_counts, Basis, Shell};
use crate::shell_pairs::Prepared;
use crate::spherical::{contracted_axis, row_sum, shell_matrix, transform_block2};
use crate::tensor::{is_function, slot2, total, At};

verus! {

/// The first shell from number `k` on whose angular momentum cannot be raised by
/// `extra`; the number of shells if there is none.
pub open spec fn first_exceeding<T>(shells: Seq<Shell<T>>, extra: int, k: int) -> int
    decreases shells.len() - k,
{
    if k >= shells.len() || shells[k].l + extra > MAX_L {
        k
    } else {
        first_exceeding(shells, extra, k + 1)
    }
}

/// The first shell whose angular momentum cannot be raised by `extra`; the number of
/// shells if there is none.
pub fn find_exceeding<T: Real>(shells: &Vec<Shell<T>>, extra: usize) -> (k: usize)
    requires
        forall|s: int| 0 <= s < shells@.len() ==> (#[trigger] shells@[s]).valid(),
    ensures
        k == first_exceeding(shells@, extra as int, 0),
        k <= shells@.len(),
        forall|s: int| 0 <= s < k ==> (#[trigger] shells@[s]).l + extra <= MAX_L,
        k < shells@.len() ==> shells@[k as int].l + extra > MAX_L,
{
    let mut k: usize = 0;
    while k < shells.len()
        invariant
            k <= shells@.len(),
            forall|s: int| 0 <= s < shells@.len() ==> (#[trigger] shells@[s]).valid(),
            first_exceeding(shells@, extra as int, 0) == first_exceeding(
                shells@,
                extra as int,
                k as int,
            ),
            forall|s: int| 0 <= s < k ==> (#[trigger] shells@[s]).l + extra <= MAX_L,
        decreases shells@.len() - k,
    {
        assert(shells@[k as int].valid());
        if extra > MAX_L || shells[k].l + extra > MAX_L {
            return k;
        }
        k = k + 1;
    }
    k
}

/// What one pair of primitives adds to the real or the imaginary block.
pub open spec fn operator_step<T: Real>(terms: Seq<TermView<T>>, o: Vec3<T>, imag: bool) -> PairStep<
    T,
> {
    |old: Seq<T>, a: Prim<T>, b: Prim<T>, scale: T|
        operated(old, terms, o, a, b, scale, imag, terms.len() as int)
}

/// Whether every term has a phase other than that of the part: a real phase where the
/// part is the imaginary one, an imaginary phase where it is the real one.
pub open spec fn lacks_part<T>(terms: Seq<TermView<T>>, imag: bool) -> bool {
    forall|t: int|
        0 <= t < terms.len() ==> phase_of(
            momenta((#[trigger] terms[t]).1, terms[t].1.len() as int),
        ).0 != imag
}

proof fn lemma_terms_add_nothing<T: Real>(
    start: T,
    terms: Seq<TermView<T>>,
    o: Vec3<T>,
    a: Prim<T>,
    b: Prim<T>,
    scale: T,
    imag: bool,
    ca: Powers,
    cb: Powers,
    n: int,
)
    requires
        lacks_part(terms, imag),
        n <= terms.len(),
    ensures
        terms_value(start, terms, o, a, b, scale, imag, ca, cb, n) == start,
    decreases n,
{
    if n > 0 {
        lemma_terms_add_nothing(start, terms, o, a, b, scale, imag, ca, cb, n - 1);
        assert(phase_of(momenta(terms[n - 1].1, terms[n - 1].1.len() as int)).0 != imag);
    }
}

/// A block of the part that no term has stays as it is.
pub proof fn law_missing_part_is_unchanged<T: Real>(
    old: Seq<T>,
    terms: Seq<TermView<T>>,
    o: Vec3<T>,
    a: Prim<T>,
    b: Prim<T>,
    scale: T,
    imag: bool,
)
    requires
        lacks_part(terms, imag),
    ensures
        operated(old, terms, o, a, b, scale, imag, terms.len() as int) == old,
{
    let new = operated(old, terms, o, a, b, scale, imag, terms.len() as int);
    let nb = cart_count(b.l as int);
    assert forall|k: int| 0 <= k < old.len() implies new[k] == old[k] by {
        lemma_terms_add_nothing(
            old[k],
            terms,
            o,
            a,
            b,
            scale,
            imag,
            component_at(a.l as int, k / nb),
            component_at(b.l as int, k % nb),
            terms.len() as int,
        );
    }
    assert(new =~= old);
}

proof fn lemma_blank_pair<T: Real>(
    terms: Seq<TermView<T>>,
    o: Vec3<T>,
    imag: bool,
    a: Shell<T>,
    b: Shell<T>,
    i: int,
    j: int,
)
    requires
        lacks_part(terms, imag),
    ensures
        contracted_pair(operator_step(terms, o, imag), a, b, i, j) == Seq::new(
            block_size(a.l as int, b.l as int) as nat,
            |k: int| T::count(0),
        ),
    decreases i, j,
{
    let step = operator_step(terms, o, imag);
    if j > 0 {
        lemma_blank_pair(terms, o, imag, a, b, i, j - 1);
        let old = contracted_pair(step, a, b, i, j - 1);
        let new = contracted_pair(step, a, b, i, j);
        let (pa, pb) = (a.primitive(i), b.primitive(j - 1));
        let scale = T::prod(a.effective(i), b.effective(j - 1));
        assert(new == operated(old, terms, o, pa, pb, scale, imag, terms.len() as int));
        law_missing_part_is_unchanged(old, terms, o, pa, pb, scale, imag);
    } else if i > 0 {
        lemma_blank_pair(terms, o, imag, a, b, i - 1, b.exponents@.len() as int);
    }
}

proof fn lemma_blank_row<T: Scalar>(
    m: Seq<T>,
    block: Seq<T>,
    n: int,
    inner: int,
    o: int,
    r: int,
    i: int,
    c: int,
)
    requires
        keeps_zero::<T>(),
        c <= n,
        forall|x: int|
            0 <= x < n ==> #[trigger] block[cell(o, n, x, inner, i)] == T::count(0),
    ensures
        row_sum(m, block, n, inner, o, r, i, c) == T::count(0),
    decreases c,
{
    if c > 0 {
        lemma_blank_row(m, block, n, inner, o, r, i, c - 1);
        assert(block[cell(o, n, c - 1, inner, i)] == T::count(0));
    }
}

proof fn lemma_blank_axis<T: Scalar>(
    m: Option<Seq<T>>,
    rows: int,
    block: Seq<T>,
    outer: int,
    n: int,
    inner: int,
    k: int,
)
    requires
        keeps_zero::<T>(),
        0 <= outer,
        1 <= rows,
        1 <= n,
        1 <= inner,
        block.len() == outer * n * inner,
        m is None ==> rows == n,
        forall|x: int| 0 <= x < block.len() ==> #[trigger] block[x] == T::count(0),
        0 <= k < outer * rows * inner,
    ensures
        contracted_axis(m, rows, block, outer, n, inner)[k] == T::count(0),
        contracted_axis(m, rows, block, outer, n, inner).len() == outer * rows * inner,
{
    if let Some(t) = m {
        assert(0 <= outer * rows) by (nonlinear_arith)
            requires
                0 <= outer,
                1 <= rows,
        ;
        lemma_index_parts(k, outer * rows, inner);
        lemma_index_parts(k / inner, outer, rows);
        let (o, r, i) = (k / inner / rows, k / inner % rows, k % inner);
        assert forall|x: int| 0 <= x < n implies #[trigger] block[cell(o, n, x, inner, i)]
            == T::count(0) by {
            lemma_cell_in_range(o, outer, n, x, inner, i);
        }
        lemma_blank_row(t, block, n, inner, o, r, i, n);
    }
}

/// An operator whose terms all lack a part has zeros there: with an even number of
/// momenta in every term the imaginary part of its matrix vanishes, with an odd number
/// the real part.
pub proof fn law_missing_part_is_zero<T: Real>(
    terms: Seq<TermView<T>>,
    o: Vec3<T>,
    imag: bool,
    shells: Seq<Shell<T>>,
    x: At,
    y: At,
)
    requires
        keeps_zero::<T>(),
        lacks_part(terms, imag),
        0 <= x.0 < shells.len(),
        0 <= y.0 < shells.len(),
        shells[x.0].valid(),
        shells[y.0].valid(),
        is_function(function_counts(shells), x),
        is_function(function_counts(shells), y),
    ensures
        pair_entries(operator_step(terms, o, imag), shells)(x, y) == T::count(0),
{
    let (a, b) = (shells[x.0], shells[y.0]);
    let (na, nb) = (cart_count(a.l as int), cart_count(b.l as int));
    let (fa, fb) = (a.functions(), b.functions());
    let (ma, mb) = (
        shell_matrix::<T>(a.kind, a.l as int),
        shell_matrix::<T>(b.kind, b.l as int),
    );
    lemma_block_bounds(a.l as int, b.l as int);
    lemma_blank_pair(terms, o, imag, a, b, a.exponents@.len() as int, 0);
    let b0 = contracted_pair(operator_step(terms, o, imag), a, b, a.exponents@.len() as int, 0);
    let b1 = contracted_axis(ma, fa, b0, 1, na, nb);
    assert(1 * na * nb == na * nb);
    assert(1 * fa * nb == fa * nb);
    assert(fa * nb * 1 == fa * nb);
    assert(fa * fb * 1 == fa * fb);
    assert forall|k: int| 0 <= k < fa * nb implies #[trigger] b1[k] == T::count(0) by {
        lemma_blank_axis(ma, fa, b0, 1, na, nb, k);
    }
    assert(b1.len() == fa * nb) by {
        assert(0 < fa * nb) by (nonlinear_arith)
            requires
                fa >= 1,
                nb >= 1,
        ;
        lemma_blank_axis(ma, fa, b0, 1, na, nb, 0);
    }
    let k = pair(x.1, fb, y.1);
    lemma_pair_in_range(x.1, fa, fb, y.1);
    lemma_blank_axis(mb, fb, b1, fa, nb, 1, k);
}

/// The terms of the identity.
pub open spec fn identity_terms<T: Scalar>() -> Seq<TermView<T>> {
    seq![(T::count(1), Seq::<Factor>::empty())]
}

proof fn lemma_identity_entry<T: Real>(
    start: T,
    o: Vec3<T>,
    a: Prim<T>,
    b: Prim<T>,
    scale: T,
    ca: Powers,
    cb: Powers,
)
    requires
        has_neutral_values::<T>(),
    ensures
        terms_value(start, identity_terms::<T>(), o, a, b, scale, false, ca, cb, 1) == T::sum(
            start,
            T::prod(scale, overlap_value(a, b, ca, cb)),
        ),
{
    let terms = identity_terms::<T>();
    let none = Seq::<Factor>::empty();
    reveal_with_fuel(terms_value, 2);
    reveal_with_fuel(overlaps_added, 2);
    assert(momenta(none, 0) == 0);
    let list = expansion(none, b.exp, difference(b.center, o), cb, 0);
    assert(list == seq![(cb, T::count(1))]);
    assert(ket_overlap(a, b, ca, cb) == overlap_value(a, b, ca, cb)) by {
        let ket = Prim { exp: b.exp, center: b.center, l: degree(cb) as usize };
        assert(overlap_value(a, ket, ca, cb) == overlap_value(a, b, ca, cb));
    }
}

/// What the identity adds to a block is the overlap.
pub proof fn law_identity_adds_overlaps<T: Real>(
    old: Seq<T>,
    o: Vec3<T>,
    a: Prim<T>,
    b: Prim<T>,
    scale: T,
)
    requires
        has_neutral_values::<T>(),
        a.l <= MAX_L,
        b.l <= MAX_L,
        old.len() == block_size(a.l as int, b.l as int),
    ensures
        operated(old, identity_terms::<T>(), o, a, b, scale, false, 1) == added(
            old,
            block_size(a.l as int, b.l as int),
            overlap_entries(a, b, scale),
        ),
{
    let left = operated(old, identity_terms::<T>(), o, a, b, scale, false, 1);
    let right = added(old, block_size(a.l as int, b.l as int), overlap_entries(a, b, scale));
    let nb = cart_count(b.l as int);
    assert forall|k: int| 0 <= k < old.len() implies left[k] == right[k] by {
        lemma_identity_entry(
            old[k],
            o,
            a,
            b,
            scale,
            component_at(a.l as int, k / nb),
            component_at(b.l as int, k % nb),
        );
    }
    assert(left =~= right);
}

proof fn lemma_identity_pair<T: Real>(o: Vec3<T>, a: Shell<T>, b: Shell<T>, i: int, j: int)
    requires
        has_neutral_values::<T>(),
        0 <= a.l <= MAX_L,
        0 <= b.l <= MAX_L,
    ensures
        contracted_pair(operator_step(identity_terms::<T>(), o, false), a, b, i, j)
            == contracted_pair(overlap_step::<T>(), a, b, i, j),
        contracted_pair(overlap_step::<T>(), a, b, i, j).len() == block_size(
            a.l as int,
            b.l as int,
        ),
    decreases i, j,
{
    let terms = identity_terms::<T>();
    let step = operator_step(terms, o, false);
    lemma_block_bounds(a.l as int, b.l as int);
    if j > 0 {
        lemma_identity_pair(o, a, b, i, j - 1);
        let old = contracted_pair(step, a, b, i, j - 1);
        let (pa, pb) = (a.primitive(i), b.primitive(j - 1));
        let scale = T::prod(a.effective(i), b.effective(j - 1));
        law_identity_adds_overlaps(old, o, pa, pb, scale);
    } else if i > 0 {
        lemma_identity_pair(o, a, b, i - 1, b.exponents@.len() as int);
    }
}

/// The matrix of the identity is the overlap.
pub proof fn law_identity_is_the_overlap<T: Real>(
    o: Vec3<T>,
    shells: Seq<Shell<T>>,
    x: At,
    y: At,
)
    requires
        has_neutral_values::<T>(),
        0 <= x.0 < shells.len(),
        0 <= y.0 < shells.len(),
        shells[x.0].valid(),
        shells[y.0].valid(),
    ensures
        pair_entries(operator_step(identity_terms::<T>(), o, false), shells)(x, y) == pair_entries(
            overlap_step::<T>(),
            shells,
        )(x, y),
{
    let (a, b) = (shells[x.0], shells[y.0]);
    lemma_identity_pair(o, a, b, a.exponents@.len() as int, 0);
}

/// The largest magnitude among the first `n` entries, and zero.
pub open spec fn peak<T: Real>(s: Seq<T>, n: int) -> T
    decreases n,
{
    if n <= 0 {
        T::count(0)
    } else {
        larger(peak(s, n - 1), T::magnitude(s[n - 1]))
    }
}

/// The largest magnitude among the entries, and zero.
pub fn peak_of<T: Real>(s: &Vec<T>) -> (r: T)
    ensures
        r == peak(s@, s@.len() as int),
{
    let mut r = T::from_count(0);
    let mut i: usize = 0;
    while i < s.len()
        invariant
            i <= s@.len(),
            r == peak(s@, i as int),
        decreases s@.len() - i,
    {
        r = larger_of(r, s[i].abs());
        i = i + 1;
    }
    r
}

/// The complex matrix of an operator: real and imaginary parts.
#[derive(Clone, Debug)]
pub struct OperatorMatrix<T> {
    nao: usize,
    re: Vec<T>,
    im: Vec<T>,
}

impl<T: Real> OperatorMatrix<T> {
    /// The number of functions.
    pub closed spec fn size(self) -> int {
        self.nao as int
    }

    /// The real part.
    pub closed spec fn real_part(self) -> Seq<T> {
        self.re@
    }

    /// The imaginary part.
    pub closed spec fn imag_part(self) -> Seq<T> {
        self.im@
    }

    /// The number of functions.
    #[must_use]
    pub fn nao(&self) -> (n: usize)
        ensures
            n == self.size(),
    {
        self.nao
    }

    /// The real part, row-major.
    #[must_use]
    pub fn real_values(&self) -> (r: &[T])
        ensures
            r@ == self.real_part(),
    {
        self.re.as_slice()
    }

    /// The imaginary part, row-major.
    #[must_use]
    pub fn imag(&self) -> (r: &[T])
        ensures
            r@ == self.imag_part(),
    {
        self.im.as_slice()
    }

    /// The largest magnitude in the imaginary part.
    #[must_use]
    pub fn max_abs_imag(&self) -> (r: T)
        ensures
            r == peak(self.imag_part(), self.imag_part().len() as int),
    {
        peak_of(&self.im)
    }

    /// The largest magnitude in the real part.
    #[must_use]
    pub fn max_abs_real(&self) -> (r: T)
        ensures
            r == peak(self.real_part(), self.real_part().len() as int),
    {
        peak_of(&self.re)
    }
}

/// The real and imaginary Cartesian blocks of two shells.
fn contract_operator<T: Real>(op: &Operator<T>, a: &Shell<T>, b: &Shell<T>) -> (r: (Vec<T>, Vec<T>))
    requires
        op.valid(),
        a.valid(),
        b.valid(),
        b.l + op.order() <= MAX_L,
    ensures
        r.0@ == contracted_pair(
            operator_step(op.shown(), op.origin, false),
            *a,
            *b,
            a.exponents@.len() as int,
            0,
        ),
        r.1@ == contracted_pair(
            operator_step(op.shown(), op.origin, true),
            *a,
            *b,
            a.exponents@.len() as int,
            0,
        ),
        r.0@.len() == block_size(a.l as int, b.l as int),
        r.1@.len() == block_size(a.l as int, b.l as int),
{
    let ghost gr = operator_step(op.shown(), op.origin, false);
    let ghost gi = operator_step(op.shown(), op.origin, true);
    let ghost size = block_size(a.l as int, b.l as int);
    proof {
        lemma_block_bounds(a.l as int, b.l as int);
    }
    let len: usize = a.n_cart() * b.n_cart();
    let mut br = filled(len, T::from_count(0));
    let mut bi = filled(len, T::from_count(0));
    assert(br@ =~= contracted_pair(gr, *a, *b, 0, 0));
    assert(bi@ =~= contracted_pair(gi, *a, *b, 0, 0));
    let mut i: usize = 0;
    while i < a.n_prim()
        invariant
            i <= a.exponents@.len(),
            op.valid(),
            a.valid(),
            b.valid(),
            b.l + op.order() <= MAX_L,
            gr == operator_step(op.shown(), op.origin, false),
            gi == operator_step(op.shown(), op.origin, true),
            size == block_size(a.l as int, b.l as int),
            br@.len() == size,
            bi@.len() == size,
            br@ == contracted_pair(gr, *a, *b, i as int, 0),
            bi@ == contracted_pair(gi, *a, *b, i as int, 0),
        decreases a.exponents@.len() - i,
    {
        let mut j: usize = 0;
        while j < b.n_prim()
            invariant
                i < a.exponents@.len(),
                j <= b.exponents@.len(),
                op.valid(),
                a.valid(),
                b.valid(),
                b.l + op.order() <= MAX_L,
                gr == operator_step(op.shown(), op.origin, false),
                gi == operator_step(op.shown(), op.origin, true),
                size == block_size(a.l as int, b.l as int),
                br@.len() == size,
                bi@.len() == size,
                br@ == contracted_pair(gr, *a, *b, i as int, j as int),
                bi@ == contracted_pair(gi, *a, *b, i as int, j as int),
            decreases b.exponents@.len() - j,
        {
            let scale = a.primitive_coeff(i).times(b.primitive_coeff(j));
            operator_into(
                op,
                a.prim(i),
                b.prim(j),
                scale,
                br.as_mut_slice(),
                bi.as_mut_slice(),
            );
            j = j + 1;
        }
        i = i + 1;
    }
    (br, bi)
}

impl<T: Real> Basis<T> {
    /// The matrix of an operator, as real and imaginary parts. A shell whose angular
    /// momentum cannot be raised by the degree of the operator is an error.
    #[verifier::spinoff_prover]
    #[verifier::rlimit(60)]
    pub fn int1e(&self, op: &Operator<T>) -> (r: Result<OperatorMatrix<T>, IntegralError<T>>)
        requires
            op.valid(),
            self.valid(),
            self.matrix_fits(),
        ensures
            r is Ok <==> (forall|s: int|
                0 <= s < self.shells@.len() ==> (#[trigger] self.shells@[s]).l + op.order()
                    <= MAX_L),
            r matches Ok(m) ==> m.size() == self.size() && is_matrix(
                m.real_part(),
                pair_entries(operator_step(op.shown(), op.origin, false), self.shells@),
                function_counts(self.shells@),
            ) && is_matrix(
                m.imag_part(),
                pair_entries(operator_step(op.shown(), op.origin, true), self.shells@),
                function_counts(self.shells@),
            ),
            r matches Err(e) ==> e == (IntegralError::<T>::OperatorMomentumTooHigh {
                l: self.shells@[first_exceeding(self.shells@, op.order(), 0)].l,
                degree: op.order() as usize,
                max: MAX_L,
            }),
    {
        let deg = op.degree();
        let bad = find_exceeding(&self.shells, deg);
        if bad < self.shells.len() {
            assert(self.shells@[bad as int].l + op.order() > MAX_L);
            return Err(
                IntegralError::OperatorMomentumTooHigh {
                    l: self.shells[bad].l,
                    degree: deg,
                    max: MAX_L,
                },
            );
        }
        let ghost lens = function_counts(self.shells@);
        let ghost shells = self.shells@;
        let ghost er = pair_entries(operator_step(op.shown(), op.origin, false), shells);
        let ghost ei = pair_entries(operator_step(op.shown(), op.origin, true), shells);
        proof {
            self.lemma_size_fits();
        }
        let n = self.nao();
        let offs = self.offsets();
        let prep = Prepared::new(&self.shells);
        let nsh = self.shells.len();
        let mut re = filled(n * n, T::from_count(0));
        let mut im = filled(n * n, T::from_count(0));
        let mut si: usize = 0;
        while si < nsh
            invariant
                si <= nsh,
                nsh == shells.len(),
                shells == self.shells@,
                lens == function_counts(shells),
                are_lengths(lens),
                op.valid(),
                self.valid(),
                prep.valid(),
                prep.shells@ == shells,
                forall|s: int|
                    0 <= s < shells.len() ==> (#[trigger] shells[s]).l + op.order() <= MAX_L,
                er == pair_entries(operator_step(op.shown(), op.origin, false), shells),
                ei == pair_entries(operator_step(op.shown(), op.origin, true), shells),
                n == total(lens),
                n * n <= usize::MAX,
                offs@.len() == nsh,
                forall|s: int| 0 <= s < nsh ==> #[trigger] offs@[s] == start(lens, s),
                re@.len() == n * n,
                im@.len() == n * n,
                forall|x: At, y: At|
                    is_function(lens, x) && is_function(lens, y) && x.0 < si
                        ==> #[trigger] re@[slot2(lens, x, y)] == er(x, y),
                forall|x: At, y: At|
                    is_function(lens, x) && is_function(lens, y) && x.0 < si
                        ==> #[trigger] im@[slot2(lens, x, y)] == ei(x, y),
            decreases nsh - si,
        {
            let mut sj: usize = 0;
            while sj < nsh
                invariant
                    si < nsh,
                    sj <= nsh,
                    nsh == shells.len(),
                    shells == self.shells@,
                    lens == function_counts(shells),
                    are_lengths(lens),
                    op.valid(),
                    self.valid(),
                    prep.valid(),
                    prep.shells@ == shells,
                    forall|s: int|
                        0 <= s < shells.len() ==> (#[trigger] shells[s]).l + op.order() <= MAX_L,
                    er == pair_entries(operator_step(op.shown(), op.origin, false), shells),
                    ei == pair_entries(operator_step(op.shown(), op.origin, true), shells),
                    n == total(lens),
                    n * n <= usize::MAX,
                    offs@.len() == nsh,
                    forall|s: int| 0 <= s < nsh ==> #[trigger] offs@[s] == start(lens, s),
                    re@.len() == n * n,
                    im@.len() == n * n,
                    forall|x: At, y: At|
                        is_function(lens, x) && is_function(lens, y) && (x.0 < si || (x.0 == si
                            && y.0 < sj)) ==> #[trigger] re@[slot2(lens, x, y)] == er(x, y),
                    forall|x: At, y: At|
                        is_function(lens, x) && is_function(lens, y) && (x.0 < si || (x.0 == si
                            && y.0 < sj)) ==> #[trigger] im@[slot2(lens, x, y)] == ei(x, y),
                decreases nsh - sj,
            {
                let (sa, sb) = (prep.side(si), prep.side(sj));
                let (na, nb) = (sa.shell.n_func(), sb.shell.n_func());
                assert(shells[sj as int].l + op.order() <= MAX_L);
                let (mut br, mut bi) = contract_operator(op, sa.shell, sb.shell);
                transform_block2(sa.shell, sb.shell, sa.mat, sb.mat, &mut br);
                transform_block2(sa.shell, sb.shell, sa.mat, sb.mat, &mut bi);
                let ghost (wr, wi) = (re@, im@);
                proof {
                    lemma_ranges_fit(lens, si as int);
                    lemma_ranges_fit(lens, sj as int);
                    assert(offs@[si as int] == start(lens, si as int));
                    assert(offs@[sj as int] == start(lens, sj as int));
                }
                let (oi, oj) = (offs[si], offs[sj]);
                place_block(re.as_mut_slice(), 0, n, oi, oj, &br, na, nb);
                place_block(im.as_mut_slice(), 0, n, oi, oj, &bi, na, nb);
                proof {
                    assert forall|x: At, y: At|
                        is_function(lens, x) && is_function(lens, y) && (x.0 < si || (x.0 == si
                            && y.0 < sj + 1)) implies #[trigger] re@[slot2(lens, x, y)] == er(
                        x,
                        y,
                    ) by {
                        lemma_placed(wr, re@, lens, si as int, sj as int, br@, 0, x, y);
                        assert(wr[slot2(lens, x, y)] == er(x, y) || (x.0 == si && y.0 == sj));
                    }
                    assert forall|x: At, y: At|
                        is_function(lens, x) && is_function(lens, y) && (x.0 < si || (x.0 == si
                            && y.0 < sj + 1)) implies #[trigger] im@[slot2(lens, x, y)] == ei(
                        x,
                        y,
                    ) by {
                        lemma_placed(wi, im@, lens, si as int, sj as int, bi@, 0, x, y);
                        assert(wi[slot2(lens, x, y)] == ei(x, y) || (x.0 == si && y.0 == sj));
                    }
                }
                sj = sj + 1;
            }
            si = si + 1;
        }
        Ok(OperatorMatrix { nao: n, re, im })
    }
}

} // verus!
