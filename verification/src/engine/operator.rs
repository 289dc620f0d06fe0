//! One-electron operators that are polynomials in position and momentum.
//!
//! The operator is folded onto the ket. Each elementary factor takes a Cartesian
//! Gaussian to a sum of Cartesian Gaussians:
//!
//! - position about the origin `O`: `(r - O)_i g_b = g_(b+1_i) + (B - O)_i g_b`;
//! - momentum `p_i = -i d/dr_i`: `p_i g_b = i (2 beta g_(b+1_i) - b_i g_(b-1_i))`.
//!
//! Factors act from right to left. With `n` momentum factors the integral is `i^n`
//! times a sum of overlaps, so a term of the operator is either real or imaginary.
use vstd::prelude::*;

use crate::engine::os::{block_size, lemma_block_bounds, overlap_into, overlap_value, Prim};
use crate::engine::os_eri::MAX_L;
use crate::engine::pairs::{difference, Vec3};
use crate::engine::triples::{dec, inc, power, power_of, shifted};
use crate::flat::{lemma_pair_in_range, lemma_pair_order, pair};
use crate::math::am::{
    cart_components, cart_count, cart_index, cart_position, component_at, degree, is_component,
    lemma_listed_components, n_cart, powers, Powers,
};
use crate::scalar::{filled, fraction, ratio, Real, Scalar};

verus! {

/// An elementary factor of an operator, along an axis.
#[derive(Clone, Copy, Debug, PartialEq, Eq, Structural)]
pub enum Factor {
    /// Position relative to the origin of the operator.
    R(usize),
    /// Momentum.
    P(usize),
}

/// A product of factors with a coefficient. The last factor acts on the ket first.
#[derive(Clone, Debug)]
pub struct Term<T> {
    pub coeff: T,
    pub factors: Vec<Factor>,
}

/// The coefficient and the factors of a term.
pub type TermView<T> = (T, Seq<Factor>);

/// A sum of terms, with the origin of their position factors.
#[derive(Clone, Debug)]
pub struct Operator<T> {
    pub terms: Vec<Term<T>>,
    pub origin: Vec3<T>,
}

/// Whether the factor is along one of the three axes.
pub open spec fn has_axis(f: Factor) -> bool {
    match f {
        Factor::R(ax) => ax < 3,
        Factor::P(ax) => ax < 3,
    }
}

/// How many of the first `n` factors are momenta.
pub open spec fn momenta(factors: Seq<Factor>, n: int) -> int
    decreases n,
{
    if n <= 0 {
        0
    } else {
        momenta(factors, n - 1) + if factors[n - 1] is P {
            1int
        } else {
            0int
        }
    }
}

/// The largest number of factors among the first `n` terms.
pub open spec fn longest<T>(terms: Seq<TermView<T>>, n: int) -> int
    decreases n,
{
    if n <= 0 {
        0
    } else if terms[n - 1].1.len() > longest(terms, n - 1) {
        terms[n - 1].1.len() as int
    } else {
        longest(terms, n - 1)
    }
}

impl<T: Scalar> Term<T> {
    /// Coefficient and factors.
    pub open spec fn shown(self) -> TermView<T> {
        (self.coeff, self.factors@)
    }

    /// A term of the given coefficient and factors.
    #[must_use]
    pub fn new(coeff: T, factors: Vec<Factor>) -> (r: Self)
        ensures
            r.shown() == (coeff, factors@),
    {
        Term { coeff, factors }
    }

    /// The number of momentum factors.
    #[must_use]
    pub fn n_momentum(&self) -> (n: usize)
        ensures
            n == momenta(self.factors@, self.factors@.len() as int),
    {
        let mut n: usize = 0;
        let mut i: usize = 0;
        while i < self.factors.len()
            invariant
                i <= self.factors@.len(),
                n <= i,
                n == momenta(self.factors@, i as int),
            decreases self.factors@.len() - i,
        {
            if let Factor::P(_) = self.factors[i] {
                n = n + 1;
            }
            i = i + 1;
        }
        n
    }
}

/// The coefficients and factors of a list of terms.
pub open spec fn shown_terms<T: Scalar>(terms: Seq<Term<T>>) -> Seq<TermView<T>> {
    Seq::new(terms.len(), |i: int| terms[i].shown())
}

impl<T: Scalar> Operator<T> {
    /// Coefficients and factors of the terms.
    pub open spec fn shown(self) -> Seq<TermView<T>> {
        shown_terms(self.terms@)
    }

    /// Every factor is along one of the three axes.
    pub open spec fn valid(self) -> bool {
        forall|t: int, i: int|
            0 <= t < self.shown().len() && 0 <= i < self.shown()[t].1.len() ==> has_axis(
                #[trigger] self.shown()[t].1[i],
            )
    }

    /// The largest number of factors in a term.
    pub open spec fn order(self) -> int {
        longest(self.shown(), self.shown().len() as int)
    }

    /// An operator of the given terms and origin.
    #[must_use]
    pub fn new(terms: Vec<Term<T>>, origin: Vec3<T>) -> (r: Self)
        ensures
            r.shown() == shown_terms(terms@),
            r.origin == origin,
    {
        Operator { terms, origin }
    }

    /// An operator of one term.
    fn single(coeff: T, factors: Vec<Factor>, origin: Vec3<T>) -> (r: Self)
        ensures
            r.shown() == seq![(coeff, factors@)],
            r.origin == origin,
    {
        let mut terms: Vec<Term<T>> = Vec::new();
        terms.push(Term::new(coeff, factors));
        let r = Operator::new(terms, origin);
        assert(r.shown() =~= seq![(coeff, factors@)]);
        r
    }

    /// The identity.
    #[must_use]
    pub fn identity() -> (r: Self)
        ensures
            r.shown() == seq![(T::count(1), Seq::<Factor>::empty())],
            r.origin == [T::count(0), T::count(0), T::count(0)],
    {
        let z = T::from_count(0);
        Operator::single(T::from_count(1), Vec::new(), [z, z, z])
    }

    /// The dipole along `axis` about `origin`.
    #[must_use]
    pub fn dipole(axis: usize, origin: Vec3<T>) -> (r: Self)
        ensures
            r.shown() == seq![(T::count(1), seq![Factor::R(axis)])],
            r.origin == origin,
    {
        let factors = vec![Factor::R(axis)];
        assert(factors@ =~= seq![Factor::R(axis)]);
        Operator::single(T::from_count(1), factors, origin)
    }

    /// The second moment along `i` and `j` about `origin`.
    #[must_use]
    pub fn quadrupole(i: usize, j: usize, origin: Vec3<T>) -> (r: Self)
        ensures
            r.shown() == seq![(T::count(1), seq![Factor::R(i), Factor::R(j)])],
            r.origin == origin,
    {
        let factors = vec![Factor::R(i), Factor::R(j)];
        assert(factors@ =~= seq![Factor::R(i), Factor::R(j)]);
        Operator::single(T::from_count(1), factors, origin)
    }

    /// The kinetic energy, half the square of the momentum.
    #[must_use]
    pub fn kinetic() -> (r: Self)
        ensures
            r.shown() == Seq::new(
                3,
                |k: int|
                    (
                        fraction::<T>(1, 2),
                        seq![Factor::P(k as usize), Factor::P(k as usize)],
                    ),
            ),
            r.origin == [T::count(0), T::count(0), T::count(0)],
    {
        let z = T::from_count(0);
        let mut terms: Vec<Term<T>> = Vec::new();
        let mut k: usize = 0;
        while k < 3
            invariant
                k <= 3,
                terms@.len() == k,
                forall|i: int|
                    0 <= i < k ==> (#[trigger] terms@[i]).shown() == (
                        fraction::<T>(1, 2),
                        seq![Factor::P(i as usize), Factor::P(i as usize)],
                    ),
            decreases 3 - k,
        {
            let factors = vec![Factor::P(k), Factor::P(k)];
            assert(factors@ =~= seq![Factor::P(k), Factor::P(k)]);
            terms.push(Term::new(ratio(1, 2), factors));
            k = k + 1;
        }
        let r = Operator::new(terms, [z, z, z]);
        assert(r.shown() =~= Seq::new(
            3,
            |k: int|
                (fraction::<T>(1, 2), seq![Factor::P(k as usize), Factor::P(k as usize)]),
        ));
        r
    }

    /// The momentum along `axis`.
    #[must_use]
    pub fn momentum(axis: usize) -> (r: Self)
        ensures
            r.shown() == seq![(T::count(1), seq![Factor::P(axis)])],
            r.origin == [T::count(0), T::count(0), T::count(0)],
    {
        let z = T::from_count(0);
        let factors = vec![Factor::P(axis)];
        assert(factors@ =~= seq![Factor::P(axis)]);
        Operator::single(T::from_count(1), factors, [z, z, z])
    }

    /// The angular momentum along `axis` about `origin`.
    #[must_use]
    pub fn angular_momentum(axis: usize, origin: Vec3<T>) -> (r: Self)
        ensures
            r.origin == origin,
            ({
                let (j, k) = others(axis);
                r.shown() == seq![
                    (T::count(1), seq![Factor::R(j), Factor::P(k)]),
                    (T::neg(T::count(1)), seq![Factor::R(k), Factor::P(j)]),
                ]
            }),
            axis < 3 ==> r.shown() == crossed::<T>(axis as int),
    {
        let (j, k): (usize, usize) = if axis == 0 {
            (1, 2)
        } else if axis == 1 {
            (2, 0)
        } else {
            (0, 1)
        };
        let forward = vec![Factor::R(j), Factor::P(k)];
        let backward = vec![Factor::R(k), Factor::P(j)];
        assert(forward@ =~= seq![Factor::R(j), Factor::P(k)]);
        assert(backward@ =~= seq![Factor::R(k), Factor::P(j)]);
        let mut terms: Vec<Term<T>> = Vec::new();
        terms.push(Term::new(T::from_count(1), forward));
        terms.push(Term::new(T::from_count(1).negated(), backward));
        let r = Operator::new(terms, origin);
        assert(r.shown() =~= seq![
            (T::count(1), seq![Factor::R(j), Factor::P(k)]),
            (T::neg(T::count(1)), seq![Factor::R(k), Factor::P(j)]),
        ]);
        r
    }

    /// The degree of the polynomial: the largest number of factors in a term.
    #[must_use]
    pub fn degree(&self) -> (d: usize)
        ensures
            d == self.order(),
    {
        let mut d: usize = 0;
        let mut t: usize = 0;
        while t < self.terms.len()
            invariant
                t <= self.terms@.len(),
                d == longest(self.shown(), t as int),
            decreases self.terms@.len() - t,
        {
            let n = self.terms[t].factors.len();
            assert(self.shown()[t as int] == self.terms@[t as int].shown());
            if n > d {
                d = n;
            }
            t = t + 1;
        }
        d
    }
}

/// The two other axes, in cyclic order.
pub open spec fn others(axis: usize) -> (usize, usize) {
    if axis == 0 {
        (1, 2)
    } else if axis == 1 {
        (2, 0)
    } else {
        (0, 1)
    }
}

/// The component of the cross product of position and momentum along an axis: with the
/// axes counted on from it, `R(1) P(2) - R(2) P(1)`.
pub open spec fn crossed<T: Scalar>(axis: int) -> Seq<TermView<T>> {
    let (next, last) = (((axis + 1) % 3) as usize, ((axis + 2) % 3) as usize);
    seq![
        (T::count(1), seq![Factor::R(next), Factor::P(last)]),
        (T::neg(T::count(1)), seq![Factor::R(last), Factor::P(next)]),
    ]
}

/// The two other axes follow an axis in cyclic order.
pub proof fn law_axes_are_cyclic(axis: int)
    requires
        0 <= axis < 3,
    ensures
        others(axis as usize).0 == (axis + 1) % 3,
        others(axis as usize).1 == (axis + 2) % 3,
{
}

/// Whether `i^n` is imaginary, and whether its sign is negative.
pub open spec fn phase_of(n: int) -> (bool, bool) {
    (n % 2 == 1, n % 4 >= 2)
}

/// One more momentum factor multiplies by the imaginary unit: a real phase becomes
/// imaginary with the same sign, an imaginary one real with the opposite sign. No
/// factor is no phase.
pub proof fn law_phase_is_a_power(n: int)
    requires
        n >= 0,
    ensures
        phase_of(0) == (false, false),
        phase_of(n + 1).0 == !phase_of(n).0,
        phase_of(n + 1).1 == (phase_of(n).1 != phase_of(n).0),
        phase_of(n + 4) == phase_of(n),
{
}

/// The scalar of a sign.
pub open spec fn sign_scalar<T: Scalar>(negative: bool) -> T {
    if negative {
        T::neg(T::count(1))
    } else {
        T::count(1)
    }
}

/// Whether `i^n` is imaginary, and its sign.
fn phase<T: Scalar>(n: usize) -> (r: (bool, T))
    ensures
        r == (phase_of(n as int).0, sign_scalar::<T>(phase_of(n as int).1)),
{
    let m: usize = n % 4;
    if m == 0 {
        (false, T::from_count(1))
    } else if m == 1 {
        (true, T::from_count(1))
    } else if m == 2 {
        (false, T::from_count(1).negated())
    } else {
        (true, T::from_count(1).negated())
    }
}

/// A Cartesian Gaussian with a coefficient.
pub type Monomial<T> = (Powers, T);

/// What a factor makes of one Gaussian of exponent `beta`; `bo` is the offset of its
/// center from the origin.
pub open spec fn factor_terms<T: Scalar>(f: Factor, beta: T, bo: Vec3<T>, m: Monomial<T>) -> Seq<
    Monomial<T>,
> {
    match f {
        Factor::R(ax) => seq![
            (shifted(m.0, ax as int, 1), m.1),
            (m.0, T::prod(m.1, bo[ax as int])),
        ],
        Factor::P(ax) => {
            let up = (shifted(m.0, ax as int, 1), T::prod(T::prod(m.1, T::count(2)), beta));
            if power(m.0, ax as int) >= 1 {
                seq![
                    up,
                    (
                        shifted(m.0, ax as int, -1),
                        T::prod(T::neg(m.1), T::count(power(m.0, ax as int) as u64)),
                    ),
                ]
            } else {
                seq![up]
            }
        },
    }
}

/// What a factor makes of the first `n` Gaussians of a sum.
pub open spec fn applied<T: Scalar>(
    f: Factor,
    beta: T,
    bo: Vec3<T>,
    src: Seq<Monomial<T>>,
    n: int,
) -> Seq<Monomial<T>>
    decreases n,
{
    if n <= 0 {
        Seq::empty()
    } else {
        applied(f, beta, bo, src, n - 1) + factor_terms(f, beta, bo, src[n - 1])
    }
}

/// What the factors from number `k` on make of the Gaussian of powers `m`.
pub open spec fn expansion<T: Scalar>(
    factors: Seq<Factor>,
    beta: T,
    bo: Vec3<T>,
    m: Powers,
    k: int,
) -> Seq<Monomial<T>>
    decreases factors.len() - k,
{
    if k >= factors.len() {
        seq![(m, T::count(1))]
    } else {
        let src = expansion(factors, beta, bo, m, k + 1);
        applied(factors[k], beta, bo, src, src.len() as int)
    }
}

/// The Gaussians of an executable list.
pub open spec fn monomials<T: Scalar>(list: Seq<([usize; 3], T)>) -> Seq<Monomial<T>> {
    Seq::new(list.len(), |i: int| (powers(list[i].0), list[i].1))
}

/// Whether every Gaussian has a degree of at most `d`.
pub open spec fn bounded<T: Scalar>(list: Seq<([usize; 3], T)>, d: int) -> bool {
    forall|i: int| 0 <= i < list.len() ==> degree(powers((#[trigger] list[i]).0)) <= d
}

/// Apply one factor to a sum of Gaussians.
fn apply_factor<T: Scalar>(
    factor: Factor,
    beta: T,
    bo: Vec3<T>,
    src: &Vec<([usize; 3], T)>,
    Ghost(d): Ghost<int>,
) -> (out: Vec<([usize; 3], T)>)
    requires
        has_axis(factor),
        bounded(src@, d),
        d < usize::MAX,
    ensures
        monomials(out@) == applied(factor, beta, bo, monomials(src@), src@.len() as int),
        bounded(out@, d + 1),
{
    let mut out: Vec<([usize; 3], T)> = Vec::new();
    let ghost all = monomials(src@);
    assert(monomials(out@) =~= applied(factor, beta, bo, all, 0));
    let mut i: usize = 0;
    while i < src.len()
        invariant
            i <= src@.len(),
            has_axis(factor),
            bounded(src@, d),
            d < usize::MAX,
            all == monomials(src@),
            monomials(out@) == applied(factor, beta, bo, all, i as int),
            bounded(out@, d + 1),
        decreases src@.len() - i,
    {
        let (m, c) = src[i];
        let ghost was = out@;
        assert(degree(powers(src@[i as int].0)) <= d);
        match factor {
            Factor::R(ax) => {
                out.push((inc(m, ax), c));
                out.push((m, c.times(bo[ax])));
            },
            Factor::P(ax) => {
                out.push((inc(m, ax), c.times(T::from_count(2)).times(beta)));
                let pw = power_of(m, ax);
                if pw >= 1 {
                    out.push((dec(m, ax), c.negated().times(T::from_count(pw as u64))));
                }
            },
        }
        proof {
            assert(all[i as int] == (powers(m), c));
            assert(monomials(out@) =~= monomials(was) + factor_terms(factor, beta, bo, all[i as int]));
            assert forall|k: int| 0 <= k < out@.len() implies degree(
                powers((#[trigger] out@[k]).0),
            ) <= d + 1 by {
                if k < was.len() {
                    assert(out@[k] == was[k]);
                }
            }
        }
        i = i + 1;
    }
    out
}

/// Apply all factors to a Gaussian, the last first.
fn expand<T: Scalar>(factors: &Vec<Factor>, beta: T, bo: Vec3<T>, m: [usize; 3]) -> (out: Vec<
    ([usize; 3], T),
>)
    requires
        forall|i: int| 0 <= i < factors@.len() ==> has_axis(#[trigger] factors@[i]),
        degree(powers(m)) + factors@.len() <= usize::MAX,
    ensures
        monomials(out@) == expansion(factors@, beta, bo, powers(m), 0),
        bounded(out@, degree(powers(m)) + factors@.len()),
{
    let mut out: Vec<([usize; 3], T)> = Vec::new();
    out.push((m, T::from_count(1)));
    let n = factors.len();
    let mut k: usize = n;
    assert(monomials(out@) =~= expansion(factors@, beta, bo, powers(m), n as int));
    while k > 0
        invariant
            k <= n,
            n == factors@.len(),
            forall|i: int| 0 <= i < factors@.len() ==> has_axis(#[trigger] factors@[i]),
            degree(powers(m)) + factors@.len() <= usize::MAX,
            monomials(out@) == expansion(factors@, beta, bo, powers(m), k as int),
            bounded(out@, degree(powers(m)) + n - k),
        decreases k,
    {
        k = k - 1;
        out = apply_factor(factors[k], beta, bo, &out, Ghost(degree(powers(m)) + n - k - 1));
    }
    out
}

/// The overlap of component `ca` of `a` with a Gaussian of powers `m` that has the
/// exponent and center of `b`.
pub open spec fn ket_overlap<T: Real>(a: Prim<T>, b: Prim<T>, ca: Powers, m: Powers) -> T {
    let ket = Prim { exp: b.exp, center: b.center, l: degree(m) as usize };
    T::sum(T::count(0), T::prod(T::count(1), overlap_value(a, ket, ca, m)))
}

/// `start` plus the overlaps of the first `n` Gaussians of a sum, each times its
/// coefficient and `w`.
pub open spec fn overlaps_added<T: Real>(
    start: T,
    w: T,
    a: Prim<T>,
    b: Prim<T>,
    ca: Powers,
    list: Seq<Monomial<T>>,
    n: int,
) -> T
    decreases n,
{
    if n <= 0 {
        start
    } else {
        T::sum(
            overlaps_added(start, w, a, b, ca, list, n - 1),
            T::prod(T::prod(w, list[n - 1].1), ket_overlap(a, b, ca, list[n - 1].0)),
        )
    }
}

/// What one term of an operator with origin `o` makes of an entry of the real or the
/// imaginary block.
pub open spec fn term_value<T: Real>(
    start: T,
    term: TermView<T>,
    o: Vec3<T>,
    a: Prim<T>,
    b: Prim<T>,
    scale: T,
    imag: bool,
    ca: Powers,
    cb: Powers,
) -> T {
    let ph = phase_of(momenta(term.1, term.1.len() as int));
    if ph.0 == imag {
        let list = expansion(term.1, b.exp, difference(b.center, o), cb, 0);
        overlaps_added(
            start,
            T::prod(T::prod(scale, sign_scalar::<T>(ph.1)), term.0),
            a,
            b,
            ca,
            list,
            list.len() as int,
        )
    } else {
        start
    }
}

/// What the first `n` terms make of an entry.
pub open spec fn terms_value<T: Real>(
    start: T,
    terms: Seq<TermView<T>>,
    o: Vec3<T>,
    a: Prim<T>,
    b: Prim<T>,
    scale: T,
    imag: bool,
    ca: Powers,
    cb: Powers,
    n: int,
) -> T
    decreases n,
{
    if n <= 0 {
        start
    } else {
        term_value(
            terms_value(start, terms, o, a, b, scale, imag, ca, cb, n - 1),
            terms[n - 1],
            o,
            a,
            b,
            scale,
            imag,
            ca,
            cb,
        )
    }
}

/// A block of two primitives, of which the first `n` terms of an operator have been
/// added to the real or to the imaginary part.
pub open spec fn operated<T: Real>(
    old: Seq<T>,
    terms: Seq<TermView<T>>,
    o: Vec3<T>,
    a: Prim<T>,
    b: Prim<T>,
    scale: T,
    imag: bool,
    n: int,
) -> Seq<T> {
    let nb = cart_count(b.l as int);
    Seq::new(
        old.len(),
        |k: int|
            terms_value(
                old[k],
                terms,
                o,
                a,
                b,
                scale,
                imag,
                component_at(a.l as int, k / nb),
                component_at(b.l as int, k % nb),
                n,
            ),
    )
}

/// Whether the blocks hold the overlaps with every Gaussian of degree at most `d`.
spec fn holds_overlaps<T: Real>(ov: Seq<Vec<T>>, a: Prim<T>, b: Prim<T>, d: int) -> bool {
    &&& ov.len() == d + 1
    &&& forall|lp: int| 0 <= lp <= d ==> (#[trigger] ov[lp])@.len() == block_size(a.l as int, lp)
    &&& forall|lp: int, ia: int, m: Powers|
        0 <= lp <= d && 0 <= ia < cart_count(a.l as int) && is_component(m, lp)
            ==> #[trigger] ov[lp]@[pair(ia, cart_count(lp), cart_position(m))] == ket_overlap(
            a,
            b,
            component_at(a.l as int, ia),
            m,
        )
}

/// The overlaps with every Gaussian of degree at most `d`.
fn ket_overlaps<T: Real>(a: Prim<T>, b: Prim<T>, d: usize) -> (ov: Vec<Vec<T>>)
    requires
        a.l <= MAX_L,
        d <= MAX_L,
    ensures
        holds_overlaps(ov@, a, b, d as int),
{
    let mut ov: Vec<Vec<T>> = Vec::new();
    let mut lp: usize = 0;
    while lp <= d
        invariant
            lp <= d + 1,
            a.l <= MAX_L,
            d <= MAX_L,
            holds_overlaps(ov@, a, b, lp - 1),
        decreases d + 1 - lp,
    {
        proof {
            lemma_block_bounds(a.l as int, lp as int);
        }
        let ket = Prim::new(b.exp, b.center, lp);
        let mut block = filled(n_cart(a.l) * n_cart(lp), T::from_count(0));
        let ghost zero = block@;
        overlap_into(a, ket, T::from_count(1), block.as_mut_slice());
        let ghost before = ov@;
        ov.push(block);
        proof {
            assert forall|l: int, ia: int, m: Powers|
                0 <= l <= lp && 0 <= ia < cart_count(a.l as int) && is_component(
                    m,
                    l,
                ) implies #[trigger] ov@[l]@[pair(ia, cart_count(l), cart_position(m))]
                == ket_overlap(a, b, component_at(a.l as int, ia), m) by {
                if l < lp {
                    assert(ov@[l] == before[l]);
                } else {
                    crate::math::am::law_positions_order_components(m, m, l);
                    crate::engine::os::lemma_pair_at(a.l as int, l, ia, cart_position(m));
                    crate::math::am::law_positions_order_components(
                        component_at(l, cart_position(m)),
                        m,
                        l,
                    );
                    crate::math::am::law_every_position_is_taken(l, cart_position(m));
                    assert(component_at(l, cart_position(m)) == m);
                }
            }
        }
        lp = lp + 1;
    }
    ov
}

/// Column `ib` of a block, with the first `n` Gaussians of a sum added to the first
/// `rows` rows and one less to the others.
spec fn column_added<T: Real>(
    old: Seq<T>,
    new: Seq<T>,
    w: T,
    a: Prim<T>,
    b: Prim<T>,
    list: Seq<Monomial<T>>,
    n: int,
    ib: int,
    rows: int,
) -> bool {
    let na = cart_count(a.l as int);
    let nb = cart_count(b.l as int);
    &&& new.len() == old.len()
    &&& forall|r: int, c: int|
        0 <= r < na && 0 <= c < nb ==> #[trigger] new[pair(r, nb, c)] == (if c == ib {
            overlaps_added(
                old[pair(r, nb, c)],
                w,
                a,
                b,
                component_at(a.l as int, r),
                list,
                if r < rows {
                    n
                } else {
                    n - 1
                },
            )
        } else {
            old[pair(r, nb, c)]
        })
}

/// Add a sum of Gaussians, overlapped with the bra, to column `ib` of a block.
#[verifier::spinoff_prover]
#[verifier::rlimit(40)]
fn add_column<T: Real>(
    list: &Vec<([usize; 3], T)>,
    w: T,
    a: Prim<T>,
    b: Prim<T>,
    ov: &Vec<Vec<T>>,
    ib: usize,
    out: &mut [T],
    Ghost(d): Ghost<int>,
)
    requires
        a.l <= MAX_L,
        b.l <= MAX_L,
        d <= MAX_L,
        ib < cart_count(b.l as int),
        holds_overlaps(ov@, a, b, d),
        bounded(list@, d),
        old(out)@.len() == block_size(a.l as int, b.l as int),
    ensures
        column_added(
            old(out)@,
            final(out)@,
            w,
            a,
            b,
            monomials(list@),
            list@.len() as int,
            ib as int,
            cart_count(a.l as int),
        ),
{
    proof {
        lemma_block_bounds(a.l as int, b.l as int);
    }
    let (na, nb) = (n_cart(a.l), n_cart(b.l));
    let ghost was = out@;
    let ghost all = monomials(list@);
    let mut j: usize = 0;
    while j < list.len()
        invariant
            j <= list@.len(),
            a.l <= MAX_L,
            b.l <= MAX_L,
            d <= MAX_L,
            na == cart_count(a.l as int),
            nb == cart_count(b.l as int),
            na * nb == block_size(a.l as int, b.l as int),
            na <= 351,
            nb <= 351,
            ib < nb,
            holds_overlaps(ov@, a, b, d),
            bounded(list@, d),
            all == monomials(list@),
            was.len() == na * nb,
            column_added(was, out@, w, a, b, all, j as int, ib as int, na as int),
        decreases list@.len() - j,
    {
        let (m, rc) = list[j];
        assert(degree(powers(list@[j as int].0)) <= d);
        assert(all[j as int] == (powers(m), rc));
        let lp: usize = m[0] + m[1] + m[2];
        proof {
            lemma_block_bounds(a.l as int, lp as int);
            let e = powers(m).1 + powers(m).2;
            assert(e * (e + 1) <= 42) by (nonlinear_arith)
                requires
                    0 <= e <= 6,
            ;
            crate::math::am::law_positions_order_components(powers(m), powers(m), lp as int);
        }
        let idx = cart_index(m);
        let np = n_cart(lp);
        let wc = w.times(rc);
        let ghost before = out@;
        let mut ia: usize = 0;
        while ia < na
            invariant
                ia <= na,
                j < list@.len(),
                a.l <= MAX_L,
                b.l <= MAX_L,
                d <= MAX_L,
                lp <= d,
                lp == degree(powers(m)),
                np == cart_count(lp as int),
                np <= 351,
                idx < np,
                idx == cart_position(powers(m)),
                wc == T::prod(w, rc),
                na == cart_count(a.l as int),
                nb == cart_count(b.l as int),
                na <= 351,
                nb <= 351,
                ib < nb,
                holds_overlaps(ov@, a, b, d),
                all[j as int] == (powers(m), rc),
                was.len() == na * nb,
                column_added(was, out@, w, a, b, all, j + 1, ib as int, ia as int),
            decreases na - ia,
        {
            proof {
                lemma_pair_in_range(ia as int, na as int, nb as int, ib as int);
                lemma_pair_in_range(ia as int, na as int, np as int, idx as int);
                assert(na * nb <= 351 * 351) by (nonlinear_arith)
                    requires
                        na <= 351,
                        nb <= 351,
                ;
                assert(na * np <= 351 * 351) by (nonlinear_arith)
                    requires
                        na <= 351,
                        np <= 351,
                ;
                assert(ov@[lp as int]@.len() == block_size(a.l as int, lp as int));
                assert(is_component(powers(m), lp as int));
            }
            let v = ov[lp][ia * np + idx];
            assert(v == ket_overlap(a, b, component_at(a.l as int, ia as int), powers(m)));
            let ghost mid = out@;
            let at: usize = ia * nb + ib;
            out[at] = out[at].plus(wc.times(v));
            proof {
                let (pn, pa, pb) = (nb as int, ia as int, ib as int);
                assert forall|r: int, c: int|
                    0 <= r < na && 0 <= c < nb implies #[trigger] out@[pair(r, pn, c)] == (if c
                    == pb {
                    overlaps_added(
                        was[pair(r, pn, c)],
                        w,
                        a,
                        b,
                        component_at(a.l as int, r),
                        all,
                        if r < pa + 1 {
                            j + 1
                        } else {
                            j as int
                        },
                    )
                } else {
                    was[pair(r, pn, c)]
                }) by {
                    lemma_pair_in_range(r, na as int, pn, c);
                    lemma_pair_order(r, c, pa, pb, pn);
                    assert(mid[pair(r, pn, c)] == out@[pair(r, pn, c)] || (r == pa && c == pb));
                    assert(mid[pair(pa, pn, pb)] == overlaps_added(
                        was[pair(pa, pn, pb)],
                        w,
                        a,
                        b,
                        component_at(a.l as int, pa),
                        all,
                        j as int,
                    ));
                }
            }
            ia = ia + 1;
        }
        j = j + 1;
    }
}

/// Whether the columns before `ib` have been given one term.
spec fn term_added<T: Real>(
    old: Seq<T>,
    new: Seq<T>,
    term: TermView<T>,
    o: Vec3<T>,
    a: Prim<T>,
    b: Prim<T>,
    scale: T,
    imag: bool,
    ib: int,
) -> bool {
    let na = cart_count(a.l as int);
    let nb = cart_count(b.l as int);
    &&& new.len() == old.len()
    &&& forall|r: int, c: int|
        0 <= r < na && 0 <= c < nb ==> #[trigger] new[pair(r, nb, c)] == (if c < ib {
            term_value(
                old[pair(r, nb, c)],
                term,
                o,
                a,
                b,
                scale,
                imag,
                component_at(a.l as int, r),
                component_at(b.l as int, c),
            )
        } else {
            old[pair(r, nb, c)]
        })
}

/// Add one term to the block that its phase names.
fn add_term<T: Real>(
    term: &Term<T>,
    o: Vec3<T>,
    a: Prim<T>,
    b: Prim<T>,
    scale: T,
    imag: bool,
    psign: T,
    ov: &Vec<Vec<T>>,
    out: &mut [T],
    Ghost(d): Ghost<int>,
)
    requires
        a.l <= MAX_L,
        b.l + term.factors@.len() <= d <= MAX_L,
        forall|i: int| 0 <= i < term.factors@.len() ==> has_axis(#[trigger] term.factors@[i]),
        holds_overlaps(ov@, a, b, d),
        imag == phase_of(momenta(term.factors@, term.factors@.len() as int)).0,
        psign == sign_scalar::<T>(phase_of(momenta(term.factors@, term.factors@.len() as int)).1),
        old(out)@.len() == block_size(a.l as int, b.l as int),
    ensures
        term_added(
            old(out)@,
            final(out)@,
            term.shown(),
            o,
            a,
            b,
            scale,
            imag,
            cart_count(b.l as int),
        ),
{
    let bo = [
        b.center[0].minus(o[0]),
        b.center[1].minus(o[1]),
        b.center[2].minus(o[2]),
    ];
    assert(bo =~= difference(b.center, o));
    let w = scale.times(psign).times(term.coeff);
    proof {
        lemma_block_bounds(a.l as int, b.l as int);
    }
    let comps = cart_components(b.l);
    let ghost was = out@;
    proof {
        lemma_listed_components(comps@, b.l as int);
    }
    let mut ib: usize = 0;
    while ib < comps.len()
        invariant
            ib <= comps@.len(),
            a.l <= MAX_L,
            b.l + term.factors@.len() <= d <= MAX_L,
            forall|i: int| 0 <= i < term.factors@.len() ==> has_axis(#[trigger] term.factors@[i]),
            holds_overlaps(ov@, a, b, d),
            imag == phase_of(momenta(term.factors@, term.factors@.len() as int)).0,
            psign == sign_scalar::<T>(
                phase_of(momenta(term.factors@, term.factors@.len() as int)).1,
            ),
            w == T::prod(T::prod(scale, psign), term.coeff),
            bo == difference(b.center, o),
            comps@.len() == cart_count(b.l as int),
            forall|i: int|
                0 <= i < comps@.len() ==> is_component(#[trigger] powers(comps@[i]), b.l as int),
            forall|i: int|
                0 <= i < comps@.len() ==> #[trigger] powers(comps@[i]) == component_at(
                    b.l as int,
                    i,
                ),
            was.len() == block_size(a.l as int, b.l as int),
            term_added(was, out@, term.shown(), o, a, b, scale, imag, ib as int),
        decreases comps@.len() - ib,
    {
        let m = comps[ib];
        assert(powers(comps@[ib as int]) == component_at(b.l as int, ib as int));
        let list = expand(&term.factors, b.exp, bo, m);
        assert(bounded(list@, d));
        add_column(&list, w, a, b, ov, ib, out, Ghost(d));
        ib = ib + 1;
    }
}

/// Add `scale <a| op |b>` of two primitives to the real and imaginary blocks.
#[verifier::spinoff_prover]
#[verifier::rlimit(40)]
pub fn operator_into<T: Real>(
    op: &Operator<T>,
    a: Prim<T>,
    b: Prim<T>,
    scale: T,
    out_re: &mut [T],
    out_im: &mut [T],
)
    requires
        op.valid(),
        a.l <= MAX_L,
        b.l + op.order() <= MAX_L,
        old(out_re)@.len() == block_size(a.l as int, b.l as int),
        old(out_im)@.len() == block_size(a.l as int, b.l as int),
    ensures
        final(out_re)@ == operated(
            old(out_re)@,
            op.shown(),
            op.origin,
            a,
            b,
            scale,
            false,
            op.shown().len() as int,
        ),
        final(out_im)@ == operated(
            old(out_im)@,
            op.shown(),
            op.origin,
            a,
            b,
            scale,
            true,
            op.shown().len() as int,
        ),
        final(out_re)@.len() == old(out_re)@.len(),
        final(out_im)@.len() == old(out_im)@.len(),
{
    let deg = op.degree();
    proof {
        lemma_longest(op.shown(), op.shown().len() as int);
    }
    let ov = ket_overlaps(a, b, b.l + deg);
    let ghost (re, im) = (out_re@, out_im@);
    let ghost terms = op.shown();
    let ghost size = block_size(a.l as int, b.l as int);
    assert(re =~= operated(re, terms, op.origin, a, b, scale, false, 0));
    assert(im =~= operated(im, terms, op.origin, a, b, scale, true, 0));
    let mut t: usize = 0;
    while t < op.terms.len()
        invariant
            t <= op.terms@.len(),
            terms == op.shown(),
            op.valid(),
            a.l <= MAX_L,
            deg == op.order(),
            b.l + deg <= MAX_L,
            forall|i: int| 0 <= i < terms.len() ==> (#[trigger] terms[i]).1.len() <= deg,
            holds_overlaps(ov@, a, b, b.l + deg),
            size == block_size(a.l as int, b.l as int),
            re.len() == size,
            im.len() == size,
            out_re@ == operated(re, terms, op.origin, a, b, scale, false, t as int),
            out_im@ == operated(im, terms, op.origin, a, b, scale, true, t as int),
        decreases op.terms@.len() - t,
    {
        let term = &op.terms[t];
        let ghost (r0, i0) = (out_re@, out_im@);
        assert(terms[t as int] == term.shown());
        assert forall|i: int| 0 <= i < term.factors@.len() implies has_axis(
            #[trigger] term.factors@[i],
        ) by {
            assert(has_axis(op.shown()[t as int].1[i]));
        }
        let (imag, psign) = phase::<T>(term.n_momentum());
        if imag {
            add_term(term, op.origin, a, b, scale, true, psign, &ov, out_im, Ghost(b.l + deg));
        } else {
            add_term(term, op.origin, a, b, scale, false, psign, &ov, out_re, Ghost(b.l + deg));
        }
        proof {
            let nb = cart_count(b.l as int);
            let na = cart_count(a.l as int);
            lemma_block_bounds(a.l as int, b.l as int);
            assert forall|k: int| 0 <= k < size implies #[trigger] out_re@[k] == operated(
                re,
                terms,
                op.origin,
                a,
                b,
                scale,
                false,
                t + 1,
            )[k] by {
                crate::flat::lemma_index_parts(k, na, nb);
                assert(r0[pair(k / nb, nb, k % nb)] == r0[k]);
                assert(out_re@[pair(k / nb, nb, k % nb)] == out_re@[k]);
            }
            assert forall|k: int| 0 <= k < size implies #[trigger] out_im@[k] == operated(
                im,
                terms,
                op.origin,
                a,
                b,
                scale,
                true,
                t + 1,
            )[k] by {
                crate::flat::lemma_index_parts(k, na, nb);
                assert(i0[pair(k / nb, nb, k % nb)] == i0[k]);
                assert(out_im@[pair(k / nb, nb, k % nb)] == out_im@[k]);
            }
            assert(out_re@ =~= operated(re, terms, op.origin, a, b, scale, false, t + 1));
            assert(out_im@ =~= operated(im, terms, op.origin, a, b, scale, true, t + 1));
        }
        t = t + 1;
    }
}

/// No term has more factors than the longest.
pub proof fn lemma_longest<T>(terms: Seq<TermView<T>>, n: int)
    requires
        0 <= n <= terms.len(),
    ensures
        forall|i: int| 0 <= i < n ==> (#[trigger] terms[i]).1.len() <= longest(terms, n),
        0 <= longest(terms, n),
    decreases n,
{
    if n > 0 {
        lemma_longest(terms, n - 1);
    }
}

} // verus!
