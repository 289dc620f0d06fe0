//! Contracted shells and the basis they make up.
use vstd::prelude::*;

use crate::engine::os::Prim;
use crate::engine::os_eri::MAX_L;
use crate::engine::pairs::Vec3;
use crate::engine::triples::lemma_small_degree;
use crate::error::IntegralError;
use crate::math::am::{cart_count, n_cart};
use crate::math::norm::{primitive_norm, shell_norm};
use crate::math::solid_harmonics::{is_zero, vanishes};
use crate::offsets::{are_lengths, lemma_start_grows, start};
use crate::scalar::Real;

verus! {

/// Which components a shell has.
#[derive(Clone, Copy, Debug, PartialEq, Eq, Structural)]
pub enum ShellKind {
    /// All Cartesian components of its degree.
    Cartesian,
    /// The `2l+1` real solid harmonics.
    Spherical,
}

/// A contracted shell: its primitives share a center and an angular momentum.
#[derive(Clone, Debug)]
pub struct Shell<T> {
    pub l: usize,
    pub center: Vec3<T>,
    pub exponents: Vec<T>,
    pub coefficients: Vec<T>,
    pub kind: ShellKind,
}

/// Number of components of a shell of angular momentum `l`.
pub open spec fn function_count(kind: ShellKind, l: int) -> int {
    match kind {
        ShellKind::Cartesian => cart_count(l),
        ShellKind::Spherical => 2 * l + 1,
    }
}

impl<T: Real> Shell<T> {
    /// Whether the shell has primitives, each with a coefficient, and a supported
    /// angular momentum.
    pub open spec fn valid(self) -> bool {
        &&& self.l <= MAX_L
        &&& self.exponents@.len() >= 1
        &&& self.coefficients@.len() == self.exponents@.len()
    }

    /// Number of components.
    pub open spec fn functions(self) -> int {
        function_count(self.kind, self.l as int)
    }

    /// Coefficient of primitive `i`, normalized: `d_i N(alpha_i, l)`. A primitive of
    /// exponent zero is a constant and is left as it is.
    pub open spec fn effective(self, i: int) -> T {
        if vanishes(self.exponents@[i]) {
            self.coefficients@[i]
        } else {
            T::prod(
                self.coefficients@[i],
                primitive_norm(self.exponents@[i], self.l as int, 0, 0),
            )
        }
    }

    /// The normalized coefficients.
    pub open spec fn effectives(self) -> Seq<T> {
        Seq::new(self.exponents@.len(), |i: int| self.effective(i))
    }

    /// Primitive `i`.
    pub open spec fn primitive(self, i: int) -> Prim<T> {
        Prim { exp: self.exponents@[i], center: self.center, l: self.l }
    }

    /// A shell of the given kind.
    fn of_kind(
        kind: ShellKind,
        l: usize,
        center: Vec3<T>,
        exponents: Vec<T>,
        coefficients: Vec<T>,
    ) -> (r: Result<Self, IntegralError<T>>)
        ensures
            match r {
                Ok(s) => s.valid() && s == (Shell { l, center, exponents, coefficients, kind }),
                Err(e) => true,
            },
            r is Ok <==> exponents@.len() == coefficients@.len() && l <= MAX_L && exponents@.len()
                >= 1,
            exponents@.len() != coefficients@.len() ==> r == Err::<Self, IntegralError<T>>(
                IntegralError::MismatchedContraction {
                    exponents: exponents.len(),
                    coefficients: coefficients.len(),
                },
            ),
            exponents@.len() == coefficients@.len() && l > MAX_L ==> r == Err::<
                Self,
                IntegralError<T>,
            >(IntegralError::AngularMomentumTooHigh { l, max: MAX_L }),
            exponents@.len() == coefficients@.len() && l <= MAX_L && exponents@.len() == 0 ==> r
                == Err::<Self, IntegralError<T>>(IntegralError::EmptyContraction),
    {
        if exponents.len() != coefficients.len() {
            return Err(
                IntegralError::MismatchedContraction {
                    exponents: exponents.len(),
                    coefficients: coefficients.len(),
                },
            );
        }
        if l > MAX_L {
            return Err(IntegralError::AngularMomentumTooHigh { l, max: MAX_L });
        }
        if exponents.len() == 0 {
            return Err(IntegralError::EmptyContraction);
        }
        Ok(Shell { l, center, exponents, coefficients, kind })
    }

    /// A shell of Cartesian components.
    pub fn new(l: usize, center: Vec3<T>, exponents: Vec<T>, coefficients: Vec<T>) -> (r: Result<
        Self,
        IntegralError<T>,
    >)
        ensures
            match r {
                Ok(s) => s.valid() && s == (Shell {
                    l,
                    center,
                    exponents,
                    coefficients,
                    kind: ShellKind::Cartesian,
                }),
                Err(e) => true,
            },
            r is Ok <==> exponents@.len() == coefficients@.len() && l <= MAX_L && exponents@.len()
                >= 1,
            exponents@.len() != coefficients@.len() ==> r == Err::<Self, IntegralError<T>>(
                IntegralError::MismatchedContraction {
                    exponents: exponents.len(),
                    coefficients: coefficients.len(),
                },
            ),
            exponents@.len() == coefficients@.len() && l > MAX_L ==> r == Err::<
                Self,
                IntegralError<T>,
            >(IntegralError::AngularMomentumTooHigh { l, max: MAX_L }),
            exponents@.len() == coefficients@.len() && l <= MAX_L && exponents@.len() == 0 ==> r
                == Err::<Self, IntegralError<T>>(IntegralError::EmptyContraction),
    {
        Self::of_kind(ShellKind::Cartesian, l, center, exponents, coefficients)
    }

    /// A shell of real solid harmonics.
    pub fn new_spherical(
        l: usize,
        center: Vec3<T>,
        exponents: Vec<T>,
        coefficients: Vec<T>,
    ) -> (r: Result<Self, IntegralError<T>>)
        ensures
            match r {
                Ok(s) => s.valid() && s == (Shell {
                    l,
                    center,
                    exponents,
                    coefficients,
                    kind: ShellKind::Spherical,
                }),
                Err(e) => true,
            },
            r is Ok <==> exponents@.len() == coefficients@.len() && l <= MAX_L && exponents@.len()
                >= 1,
            exponents@.len() != coefficients@.len() ==> r == Err::<Self, IntegralError<T>>(
                IntegralError::MismatchedContraction {
                    exponents: exponents.len(),
                    coefficients: coefficients.len(),
                },
            ),
            exponents@.len() == coefficients@.len() && l > MAX_L ==> r == Err::<
                Self,
                IntegralError<T>,
            >(IntegralError::AngularMomentumTooHigh { l, max: MAX_L }),
            exponents@.len() == coefficients@.len() && l <= MAX_L && exponents@.len() == 0 ==> r
                == Err::<Self, IntegralError<T>>(IntegralError::EmptyContraction),
    {
        Self::of_kind(ShellKind::Spherical, l, center, exponents, coefficients)
    }

    /// Number of Cartesian components.
    #[must_use]
    pub fn n_cart(&self) -> (n: usize)
        requires
            self.valid(),
        ensures
            n == cart_count(self.l as int),
            1 <= n <= 28,
    {
        proof {
            lemma_small_degree(self.l as int);
            crate::engine::hrr::lemma_shell_counts(self.l as int);
        }
        n_cart(self.l)
    }

    /// Number of components.
    #[must_use]
    pub fn n_func(&self) -> (n: usize)
        requires
            self.valid(),
        ensures
            n == self.functions(),
            1 <= n <= 28,
    {
        match self.kind {
            ShellKind::Cartesian => self.n_cart(),
            ShellKind::Spherical => 2 * self.l + 1,
        }
    }

    /// Number of primitives.
    #[must_use]
    pub fn n_prim(&self) -> (n: usize)
        ensures
            n == self.exponents@.len(),
    {
        self.exponents.len()
    }

    /// Coefficient of primitive `i`, normalized.
    #[must_use]
    pub fn primitive_coeff(&self, i: usize) -> (r: T)
        requires
            self.valid(),
            i < self.exponents@.len(),
        ensures
            r == self.effective(i as int),
    {
        if is_zero(self.exponents[i]) {
            return self.coefficients[i];
        }
        self.coefficients[i].times(shell_norm(self.exponents[i], self.l))
    }

    /// Primitive `i`.
    #[must_use]
    pub fn prim(&self, i: usize) -> (r: Prim<T>)
        requires
            i < self.exponents@.len(),
        ensures
            r == self.primitive(i as int),
    {
        Prim { exp: self.exponents[i], center: self.center, l: self.l }
    }
}

/// The normalized coefficients of a shell.
pub fn effective_coeffs<T: Real>(s: &Shell<T>) -> (r: Vec<T>)
    requires
        s.valid(),
    ensures
        r@ == s.effectives(),
{
    let mut r: Vec<T> = Vec::new();
    let mut i: usize = 0;
    while i < s.n_prim()
        invariant
            i <= s.exponents@.len(),
            s.valid(),
            r@.len() == i,
            forall|k: int| 0 <= k < i ==> #[trigger] r@[k] == s.effective(k),
        decreases s.exponents@.len() - i,
    {
        r.push(s.primitive_coeff(i));
        i = i + 1;
    }
    assert(r@ =~= s.effectives());
    r
}

/// A basis: shells one after another.
#[derive(Clone, Debug)]
pub struct Basis<T> {
    pub shells: Vec<Shell<T>>,
}

/// Whether two points have equal coordinates.
pub open spec fn same_point<T: Real>(u: Vec3<T>, v: Vec3<T>) -> bool {
    &&& T::le(u[0], v[0]) && T::le(v[0], u[0])
    &&& T::le(u[1], v[1]) && T::le(v[1], u[1])
    &&& T::le(u[2], v[2]) && T::le(v[2], u[2])
}

/// Whether two points have equal coordinates.
pub fn coincide<T: Real>(u: Vec3<T>, v: Vec3<T>) -> (r: bool)
    ensures
        r == same_point(u, v),
{
    u[0].at_most(v[0]) && v[0].at_most(u[0]) && u[1].at_most(v[1]) && v[1].at_most(u[1])
        && u[2].at_most(v[2]) && v[2].at_most(u[2])
}

/// The first of the points `from` on that is `c`; their number if there is none.
pub open spec fn first_match<T: Real>(points: Seq<Vec3<T>>, c: Vec3<T>, from: int) -> int
    decreases points.len() - from,
{
    if from >= points.len() || same_point(points[from], c) {
        from
    } else {
        first_match(points, c, from + 1)
    }
}

/// The first of the points that is `c`; their number if there is none.
pub fn find_point<T: Real>(points: &Vec<Vec3<T>>, c: Vec3<T>) -> (i: usize)
    ensures
        i == first_match(points@, c, 0),
        i <= points@.len(),
{
    let mut i: usize = 0;
    while i < points.len() && !coincide(points[i], c)
        invariant
            i <= points@.len(),
            first_match(points@, c, 0) == first_match(points@, c, i as int),
        decreases points@.len() - i,
    {
        i = i + 1;
    }
    i
}

/// The first match is at most the number of points, and matches if below it.
pub proof fn lemma_first_match<T: Real>(points: Seq<Vec3<T>>, c: Vec3<T>, from: int)
    requires
        0 <= from <= points.len(),
    ensures
        from <= first_match(points, c, from) <= points.len(),
        first_match(points, c, from) < points.len() ==> same_point(
            points[first_match(points, c, from)],
            c,
        ),
        forall|k: int|
            from <= k < first_match(points, c, from) ==> !same_point(#[trigger] points[k], c),
    decreases points.len() - from,
{
    if from < points.len() && !same_point(points[from], c) {
        lemma_first_match(points, c, from + 1);
    }
}

/// The distinct centers of the first `n` shells, in the order of their first
/// appearance.
pub open spec fn distinct_centers<T: Real>(shells: Seq<Shell<T>>, n: int) -> Seq<Vec3<T>>
    decreases n,
{
    if n <= 0 {
        Seq::empty()
    } else {
        let before = distinct_centers(shells, n - 1);
        if first_match(before, shells[n - 1].center, 0) < before.len() {
            before
        } else {
            before.push(shells[n - 1].center)
        }
    }
}

/// The atom of shell `s`: the first of the distinct centers before it that is its
/// center, or else the next.
pub open spec fn atom_of<T: Real>(shells: Seq<Shell<T>>, s: int) -> int {
    first_match(distinct_centers(shells, s), shells[s].center, 0)
}

/// Numbers of components of the shells.
pub open spec fn function_counts<T: Real>(shells: Seq<Shell<T>>) -> Seq<int> {
    Seq::new(shells.len(), |s: int| shells[s].functions())
}

impl<T: Real> Basis<T> {
    /// Whether every shell is valid.
    pub open spec fn valid(self) -> bool {
        forall|s: int| 0 <= s < self.shells@.len() ==> (#[trigger] self.shells@[s]).valid()
    }

    /// Number of functions.
    pub open spec fn size(self) -> int {
        start(function_counts(self.shells@), self.shells@.len() as int)
    }

    /// Where the functions of shell `s` start.
    pub open spec fn offset(self, s: int) -> int {
        start(function_counts(self.shells@), s)
    }

    /// Number of components of shell `s`.
    pub open spec fn width(self, s: int) -> int {
        self.shells@[s].functions()
    }

    /// The basis of the given shells.
    pub fn new(shells: Vec<Shell<T>>) -> (r: Self)
        ensures
            r.shells == shells,
    {
        Basis { shells }
    }

    /// Number of functions.
    #[must_use]
    pub fn nao(&self) -> (n: usize)
        requires
            self.valid(),
            self.size() <= usize::MAX,
        ensures
            n == self.size(),
    {
        let mut n: usize = 0;
        let mut s: usize = 0;
        proof {
            lemma_function_counts(self.shells@);
        }
        while s < self.shells.len()
            invariant
                s <= self.shells@.len(),
                self.valid(),
                self.size() <= usize::MAX,
                are_lengths(function_counts(self.shells@)),
                n == self.offset(s as int),
            decreases self.shells@.len() - s,
        {
            proof {
                lemma_start_grows(
                    function_counts(self.shells@),
                    s + 1,
                    self.shells@.len() as int,
                );
            }
            n = n + self.shells[s].n_func();
            s = s + 1;
        }
        n
    }

    /// Where the functions of each shell start.
    #[must_use]
    pub fn offsets(&self) -> (offs: Vec<usize>)
        requires
            self.valid(),
            self.size() <= usize::MAX,
        ensures
            offs@.len() == self.shells@.len(),
            forall|s: int| 0 <= s < offs@.len() ==> #[trigger] offs@[s] == self.offset(s),
    {
        let mut offs: Vec<usize> = Vec::new();
        let mut n: usize = 0;
        let mut s: usize = 0;
        proof {
            lemma_function_counts(self.shells@);
        }
        while s < self.shells.len()
            invariant
                s <= self.shells@.len(),
                self.valid(),
                self.size() <= usize::MAX,
                are_lengths(function_counts(self.shells@)),
                n == self.offset(s as int),
                offs@.len() == s,
                forall|k: int| 0 <= k < s ==> #[trigger] offs@[k] == self.offset(k),
            decreases self.shells@.len() - s,
        {
            proof {
                lemma_start_grows(
                    function_counts(self.shells@),
                    s + 1,
                    self.shells@.len() as int,
                );
            }
            offs.push(n);
            n = n + self.shells[s].n_func();
            s = s + 1;
        }
        offs
    }

    /// The distinct centers of the shells, in the order of their first appearance.
    #[must_use]
    pub fn atoms(&self) -> (r: Vec<Vec3<T>>)
        ensures
            r@ == distinct_centers(self.shells@, self.shells@.len() as int),
    {
        let mut r: Vec<Vec3<T>> = Vec::new();
        let mut s: usize = 0;
        while s < self.shells.len()
            invariant
                s <= self.shells@.len(),
                r@ == distinct_centers(self.shells@, s as int),
            decreases self.shells@.len() - s,
        {
            let c = self.shells[s].center;
            let i = find_point(&r, c);
            if i >= r.len() {
                r.push(c);
            }
            s = s + 1;
        }
        r
    }

    /// The atom of each shell.
    #[must_use]
    pub fn shell_atom(&self) -> (r: Vec<usize>)
        ensures
            r@.len() == self.shells@.len(),
            forall|s: int| 0 <= s < r@.len() ==> #[trigger] r@[s] == atom_of(self.shells@, s),
    {
        let mut seen: Vec<Vec3<T>> = Vec::new();
        let mut r: Vec<usize> = Vec::new();
        let mut s: usize = 0;
        while s < self.shells.len()
            invariant
                s <= self.shells@.len(),
                seen@ == distinct_centers(self.shells@, s as int),
                r@.len() == s,
                forall|k: int| 0 <= k < s ==> #[trigger] r@[k] == atom_of(self.shells@, k),
            decreases self.shells@.len() - s,
        {
            let c = self.shells[s].center;
            let i = find_point(&seen, c);
            if i >= seen.len() {
                seen.push(c);
            }
            r.push(i);
            s = s + 1;
        }
        r
    }
}

/// The numbers of components are lengths.
pub proof fn lemma_function_counts<T: Real>(shells: Seq<Shell<T>>)
    requires
        forall|s: int| 0 <= s < shells.len() ==> (#[trigger] shells[s]).valid(),
    ensures
        are_lengths(function_counts(shells)),
        function_counts(shells).len() == shells.len(),
        forall|s: int|
            0 <= s < shells.len() ==> 1 <= #[trigger] function_counts(shells)[s] <= 28,
{
    assert forall|s: int| 0 <= s < shells.len() implies 1 <= #[trigger] function_counts(shells)[s]
        <= 28 by {
        assert(shells[s].valid());
        crate::engine::hrr::lemma_shell_counts(shells[s].l as int);
    }
}

/// Every shell has an atom, whose center is its own or the one it was found equal to;
/// and the atoms of a longer list of shells begin with those of a shorter one.
pub proof fn law_every_shell_has_an_atom<T: Real>(shells: Seq<Shell<T>>, s: int, n: int)
    requires
        0 <= s < n <= shells.len(),
    ensures
        0 <= atom_of(shells, s) < distinct_centers(shells, n).len(),
        distinct_centers(shells, n)[atom_of(shells, s)] == shells[s].center || same_point(
            distinct_centers(shells, n)[atom_of(shells, s)],
            shells[s].center,
        ),
{
    let before = distinct_centers(shells, s);
    lemma_first_match(before, shells[s].center, 0);
    lemma_centers_extend(shells, s + 1, n);
    let a = atom_of(shells, s);
    assert(distinct_centers(shells, s + 1)[a] == distinct_centers(shells, n)[a]);
}

/// No two atoms have one position, and every atom is the center of a shell.
pub proof fn law_atoms_are_distinct<T: Real>(shells: Seq<Shell<T>>, n: int, i: int, j: int)
    requires
        0 <= n <= shells.len(),
        0 <= i < distinct_centers(shells, n).len(),
    ensures
        i < j < distinct_centers(shells, n).len() ==> !same_point(
            distinct_centers(shells, n)[i],
            distinct_centers(shells, n)[j],
        ),
        exists|s: int|
            0 <= s < n && distinct_centers(shells, n)[i] == (#[trigger] shells[s]).center,
    decreases n,
{
    if n > 0 {
        let before = distinct_centers(shells, n - 1);
        let c = shells[n - 1].center;
        lemma_first_match(before, c, 0);
        if i < before.len() {
            law_atoms_are_distinct(shells, n - 1, i, j);
            let s = choose|s: int| 0 <= s < n - 1 && before[i] == (#[trigger] shells[s]).center;
            assert(distinct_centers(shells, n)[i] == shells[s].center);
        } else {
            assert(distinct_centers(shells, n)[i] == shells[n - 1].center);
        }
    }
}

/// The atoms of a longer list of shells begin with those of a shorter one.
pub proof fn lemma_centers_extend<T: Real>(shells: Seq<Shell<T>>, m: int, n: int)
    requires
        0 <= m <= n,
    ensures
        distinct_centers(shells, m).len() <= distinct_centers(shells, n).len(),
        forall|k: int|
            0 <= k < distinct_centers(shells, m).len() ==> #[trigger] distinct_centers(shells, m)[k]
                == distinct_centers(shells, n)[k],
    decreases n,
{
    if m < n {
        lemma_centers_extend(shells, m, n - 1);
    }
}

} // verus!
