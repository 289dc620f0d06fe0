//! Real spherical harmonics as polynomials on the unit sphere, and their integrals.
use vstd::prelude::*;

use crate::engine::pairs::Vec3;
use crate::math::norm::{double_factorial, odd_factorial};
use crate::math::solid_harmonics::{is_zero, vanishes};
use crate::scalar::{filled, fraction, ratio, Real, Scalar};

verus! {

/// The highest degree of a harmonic: the last whose number of orders an `i32` can count
/// from zero.
pub const MAX_DEGREE: usize = 0x3fff_ffff;

/// The number of ways to choose `k` of `n`, as a product of quotients.
pub open spec fn binomial<T: Scalar>(n: int, k: int) -> T
    decreases k,
{
    if k <= 0 {
        T::count(1)
    } else {
        T::quot(
            T::prod(binomial(n, k - 1), T::count((n - (k - 1)) as u64)),
            T::count(k as u64),
        )
    }
}

/// The number of ways to choose `k` of `n`.
pub fn binom<T: Scalar>(n: usize, k: usize) -> (r: T)
    requires
        k <= n,
    ensures
        r == binomial::<T>(n as int, k as int),
{
    let mut acc = T::from_count(1);
    let mut i: usize = 0;
    while i < k
        invariant
            i <= k <= n,
            acc == binomial::<T>(n as int, i as int),
        decreases k - i,
    {
        acc = acc.times(T::from_count((n - i) as u64)).over(T::from_count((i + 1) as u64));
        i = i + 1;
    }
    acc
}

/// The product of the numbers up to `n`.
pub open spec fn factorial_of<T: Scalar>(n: int) -> T
    decreases n,
{
    if n <= 0 {
        T::count(1)
    } else {
        T::prod(factorial_of(n - 1), T::count(n as u64))
    }
}

/// The product of the numbers up to `n`.
pub fn factorial<T: Scalar>(n: usize) -> (r: T)
    requires
        n < usize::MAX,
    ensures
        r == factorial_of::<T>(n as int),
{
    let mut acc = T::from_count(1);
    let mut i: usize = 1;
    while i <= n
        invariant
            1 <= i <= n + 1,
            n < usize::MAX,
            acc == factorial_of::<T>(i - 1),
        decreases n + 1 - i,
    {
        acc = acc.times(T::from_count(i as u64));
        i = i + 1;
    }
    acc
}

/// One, or minus one if `odd`.
pub open spec fn sign_of<T: Scalar>(odd: bool) -> T {
    if odd {
        T::neg(T::count(1))
    } else {
        T::count(1)
    }
}

fn sign<T: Scalar>(odd: bool) -> (r: T)
    ensures
        r == sign_of::<T>(odd),
{
    if odd {
        T::from_count(1).negated()
    } else {
        T::from_count(1)
    }
}

/// The coefficient of `z^p` in the Legendre polynomial of degree `l`.
pub open spec fn legendre_coefficient<T: Real>(l: int, p: int) -> T {
    let k = (l - p) / 2;
    if (l - p) % 2 != 0 {
        T::count(0)
    } else {
        T::prod(
            T::prod(
                T::prod(
                    T::raised(fraction(1, 2), l as u64),
                    sign_of(k % 2 != 0),
                ),
                binomial(l, k),
            ),
            binomial(2 * l - 2 * k, l),
        )
    }
}

/// The coefficients of the Legendre polynomial of degree `l`.
pub open spec fn legendre<T: Real>(l: int) -> Seq<T> {
    Seq::new((l + 1) as nat, |p: int| legendre_coefficient::<T>(l, p))
}

/// The coefficients of the Legendre polynomial of degree `l`.
pub fn legendre_coeffs<T: Real>(l: usize) -> (c: Vec<T>)
    requires
        l <= MAX_DEGREE,
    ensures
        c@ == legendre::<T>(l as int),
{
    let mut c = filled(l + 1, T::from_count(0));
    let scale = ratio::<T>(1, 2).powi(l as u64);
    let mut k: usize = 0;
    while k <= l / 2
        invariant
            k <= l / 2 + 1,
            l <= MAX_DEGREE,
            c@.len() == l + 1,
            scale == T::raised(fraction(1, 2), l as u64),
            forall|p: int|
                0 <= p <= l ==> #[trigger] c@[p] == (if (l - p) / 2 < k {
                    legendre_coefficient::<T>(l as int, p)
                } else {
                    T::count(0)
                }),
        decreases l / 2 + 1 - k,
    {
        let at: usize = l - 2 * k;
        c[at] = scale.times(sign(k % 2 != 0)).times(binom(l, k)).times(binom(2 * l - 2 * k, l));
        assert forall|p: int| 0 <= p <= l implies #[trigger] c@[p] == (if (l - p) / 2 < k + 1 {
            legendre_coefficient::<T>(l as int, p)
        } else {
            T::count(0)
        }) by {
            if (l - p) / 2 == k && p != at {
                assert((l - p) % 2 != 0);
            }
        }
        k = k + 1;
    }
    c
}

/// The coefficients of the derivative of a polynomial.
pub open spec fn derived<T: Scalar>(c: Seq<T>) -> Seq<T> {
    Seq::new(
        if c.len() == 0 {
            0
        } else {
            (c.len() - 1) as nat
        },
        |p: int| T::prod(c[p + 1], T::count((p + 1) as u64)),
    )
}

/// The coefficients of the `n`-th derivative of a polynomial.
pub open spec fn derived_times<T: Scalar>(c: Seq<T>, n: int) -> Seq<T>
    decreases n,
{
    if n <= 0 {
        c
    } else {
        derived(derived_times(c, n - 1))
    }
}

/// A coefficient with the powers of the three coordinates.
pub type Term<T> = (T, [usize; 3]);

/// A polynomial in the coordinates.
pub type Poly<T> = Vec<Term<T>>;

/// The terms of `f x^i y^j` times the first `n` terms of a polynomial in `z`, those that
/// vanish left out.
pub open spec fn column<T: Real>(f: T, c: Seq<T>, i: int, j: int, n: int) -> Seq<Term<T>>
    decreases n,
{
    if n <= 0 {
        Seq::empty()
    } else if vanishes(c[n - 1]) {
        column(f, c, i, j, n - 1)
    } else {
        column(f, c, i, j, n - 1).push(
            (T::prod(f, c[n - 1]), [i as usize, j as usize, (n - 1) as usize]),
        )
    }
}

/// The terms of the real part of `(x + iy)^m`, or of its imaginary part, before the
/// `n`-th, times `f` and a polynomial in `z`.
pub open spec fn plane<T: Real>(f: T, c: Seq<T>, m: int, first: int, n: int) -> Seq<Term<T>>
    decreases n,
{
    if n <= 0 {
        Seq::empty()
    } else {
        let p = first + 2 * (n - 1);
        plane(f, c, m, first, n - 1) + column(
            T::prod(f, T::prod(sign_of((p / 2) % 2 != 0), binomial(m, p))),
            c,
            m - p,
            p,
            c.len() as int,
        )
    }
}

/// The magnitude of an order.
pub open spec fn order_size(m: int) -> int {
    if m < 0 {
        -m
    } else {
        m
    }
}

/// The power of `y` that the terms of an order start with.
pub open spec fn first_power(m: int) -> int {
    if m < 0 {
        1
    } else {
        0
    }
}

/// The normalization of the harmonics of degree `l` and order `m`.
pub open spec fn harmonic_norm<T: Real>(l: int, m: int) -> T {
    let a = order_size(m);
    if m == 0 {
        T::root(T::quot(T::count((2 * l + 1) as u64), T::prod(T::count(4), T::circle())))
    } else {
        T::root(
            T::quot(
                T::prod(
                    T::quot(
                        T::count((2 * l + 1) as u64),
                        T::prod(T::count(2), T::circle()),
                    ),
                    factorial_of(l - a),
                ),
                factorial_of(l + a),
            ),
        )
    }
}

/// The terms of the real spherical harmonic of degree `l` and order `m`.
pub open spec fn harmonic<T: Real>(l: int, m: int) -> Seq<Term<T>> {
    let a = order_size(m);
    let c = derived_times(legendre::<T>(l), a);
    if m == 0 {
        column(harmonic_norm(l, m), c, 0, 0, c.len() as int)
    } else {
        plane(harmonic_norm(l, m), c, a, first_power(m), (a - first_power(m)) / 2 + 1)
    }
}

/// Whether the powers of no term add up to more than `l`.
pub open spec fn powers_within<T>(p: Seq<Term<T>>, l: int) -> bool {
    forall|k: int|
        0 <= k < p.len() ==> (#[trigger] p[k]).1[0] + p[k].1[1] + p[k].1[2] <= l
}

proof fn lemma_column_powers<T: Real>(f: T, c: Seq<T>, i: int, j: int, n: int, l: int)
    requires
        0 <= i,
        0 <= j,
        i + j + n <= l + 1,
        l <= MAX_DEGREE,
    ensures
        powers_within(column(f, c, i, j, n), l),
    decreases n,
{
    if n > 0 {
        lemma_column_powers(f, c, i, j, n - 1, l);
    }
}

proof fn lemma_plane_powers<T: Real>(f: T, c: Seq<T>, m: int, first: int, n: int, l: int)
    requires
        0 <= first,
        first + 2 * (n - 1) <= m,
        m + c.len() <= l + 1,
        l <= MAX_DEGREE,
    ensures
        powers_within(plane(f, c, m, first, n), l),
    decreases n,
{
    if n > 0 {
        lemma_plane_powers(f, c, m, first, n - 1, l);
        let p = first + 2 * (n - 1);
        lemma_column_powers(
            T::prod(f, T::prod(sign_of((p / 2) % 2 != 0), binomial(m, p))),
            c,
            m - p,
            p,
            c.len() as int,
            l,
        );
    }
}

proof fn lemma_derived_len<T: Scalar>(c: Seq<T>, n: int)
    requires
        0 <= n <= c.len(),
    ensures
        derived_times(c, n).len() == c.len() - n,
    decreases n,
{
    if n > 0 {
        lemma_derived_len(c, n - 1);
    }
}

/// The powers of a term of a harmonic do not add up to more than its degree.
pub proof fn law_harmonic_powers<T: Real>(l: int, m: int)
    requires
        0 <= l <= MAX_DEGREE,
        -l <= m <= l,
    ensures
        powers_within(harmonic::<T>(l, m), l),
{
    let a = order_size(m);
    let c = derived_times(legendre::<T>(l), a);
    lemma_derived_len(legendre::<T>(l), a);
    if m == 0 {
        lemma_column_powers(harmonic_norm(l, m), c, 0, 0, c.len() as int, l);
    } else {
        lemma_plane_powers(
            harmonic_norm(l, m),
            c,
            a,
            first_power(m),
            (a - first_power(m)) / 2 + 1,
            l,
        );
    }
}

/// The derivative of a polynomial.
fn derive<T: Scalar>(c: &Vec<T>) -> (r: Vec<T>)
    ensures
        r@ == derived(c@),
{
    let mut r: Vec<T> = Vec::new();
    let mut p: usize = 1;
    while p < c.len()
        invariant
            1 <= p,
            c@.len() > 0 ==> p <= c@.len(),
            c@.len() == 0 ==> p == 1,
            r@.len() == p - 1,
            forall|q: int|
                0 <= q < p - 1 ==> #[trigger] r@[q] == T::prod(c@[q + 1], T::count((q + 1) as u64)),
        decreases c@.len() - p,
    {
        r.push(c[p].times(T::from_count(p as u64)));
        p = p + 1;
    }
    assert(r@ =~= derived(c@));
    r
}

/// Append `f x^i y^j` times a polynomial in `z`.
fn push_column<T: Real>(out: &mut Poly<T>, f: T, c: &Vec<T>, i: usize, j: usize)
    ensures
        final(out)@ == old(out)@ + column(f, c@, i as int, j as int, c@.len() as int),
{
    let ghost was = out@;
    let mut q: usize = 0;
    assert(was + column(f, c@, i as int, j as int, 0) =~= was);
    while q < c.len()
        invariant
            q <= c@.len(),
            out@ == was + column(f, c@, i as int, j as int, q as int),
        decreases c@.len() - q,
    {
        if !is_zero(c[q]) {
            out.push((f.times(c[q]), [i, j, q]));
        }
        assert(out@ =~= was + column(f, c@, i as int, j as int, q + 1));
        q = q + 1;
    }
}

/// The real spherical harmonic of degree `l` and order `m`.
pub fn rsh_poly<T: Real>(l: usize, m: i32, pl: &Vec<T>) -> (out: Poly<T>)
    requires
        l <= MAX_DEGREE,
        -(l as int) <= m <= l,
        pl@ == legendre::<T>(l as int),
    ensures
        out@ == harmonic::<T>(l as int, m as int),
        powers_within(out@, l as int),
{
    proof {
        law_harmonic_powers::<T>(l as int, m as int);
    }
    let ma: usize = if m < 0 {
        (-m) as usize
    } else {
        m as usize
    };
    let mut pi_lm: Vec<T> = Vec::new();
    let mut p: usize = 0;
    while p < pl.len()
        invariant
            p <= pl@.len(),
            pi_lm@ == pl@.take(p as int),
        decreases pl@.len() - p,
    {
        assert(pl@.take(p + 1) =~= pl@.take(p as int).push(pl@[p as int]));
        pi_lm.push(pl[p]);
        p = p + 1;
    }
    assert(pl@.take(p as int) =~= pl@);
    let mut t: usize = 0;
    while t < ma
        invariant
            t <= ma,
            pi_lm@ == derived_times(pl@, t as int),
        decreases ma - t,
    {
        pi_lm = derive(&pi_lm);
        t = t + 1;
    }
    let mut out: Poly<T> = Vec::new();
    let degree = T::from_count((2 * l + 1) as u64);
    if m == 0 {
        let nrm = degree.over(T::from_count(4).times(T::pi())).sqrt();
        push_column(&mut out, nrm, &pi_lm, 0, 0);
        assert(out@ =~= harmonic::<T>(l as int, m as int));
        return out;
    }
    let nrm = degree.over(T::from_count(2).times(T::pi())).times(factorial(l - ma)).over(
        factorial(l + ma),
    ).sqrt();
    let first: usize = if m < 0 {
        1
    } else {
        0
    };
    let mut p: usize = first;
    let ghost mut n: int = 0;
    while p <= ma
        invariant
            ma <= l <= MAX_DEGREE,
            1 <= ma,
            first <= 1,
            n >= 0,
            p == first + 2 * n,
            n <= (ma - first) / 2 + 1,
            out@ == plane(nrm, pi_lm@, ma as int, first as int, n),
        decreases ma + 2 - p,
    {
        let ct = sign::<T>((p / 2) % 2 != 0).times(binom(ma, p));
        push_column(&mut out, nrm.times(ct), &pi_lm, ma - p, p);
        proof {
            n = n + 1;
        }
        p = p + 2;
    }
    assert(n == (ma - first) / 2 + 1);
    out
}

/// The harmonics of all orders of the degrees up to a maximum.
pub struct Rsh<T> {
    pub tables: Vec<Vec<Poly<T>>>,
}

impl<T: Real> Rsh<T> {
    /// The highest degree.
    pub open spec fn top(self) -> int {
        self.tables@.len() - 1
    }

    /// Whether the tables hold the harmonics of their degrees.
    pub open spec fn valid(self) -> bool {
        &&& 0 <= self.top() <= MAX_DEGREE
        &&& forall|l: int|
            0 <= l <= self.top() ==> (#[trigger] self.tables@[l])@.len() == 2 * l + 1
        &&& forall|l: int, i: int|
            0 <= l <= self.top() && 0 <= i <= 2 * l ==> (#[trigger] self.tables@[l]@[i])@
                == harmonic::<T>(l, i - l)
    }

    /// The harmonics of the degrees up to `lmax`.
    pub fn new(lmax: usize) -> (r: Self)
        requires
            lmax <= MAX_DEGREE,
        ensures
            r.valid(),
            r.top() == lmax,
    {
        let mut tables: Vec<Vec<Poly<T>>> = Vec::new();
        let mut l: usize = 0;
        while l <= lmax
            invariant
                l <= lmax + 1,
                lmax <= MAX_DEGREE,
                tables@.len() == l,
                forall|k: int| 0 <= k < l ==> (#[trigger] tables@[k])@.len() == 2 * k + 1,
                forall|k: int, i: int|
                    0 <= k < l && 0 <= i <= 2 * k ==> (#[trigger] tables@[k]@[i])@ == harmonic::<T>(
                        k,
                        i - k,
                    ),
            decreases lmax + 1 - l,
        {
            let pl = legendre_coeffs::<T>(l);
            let mut row: Vec<Poly<T>> = Vec::new();
            let mut i: usize = 0;
            while i <= 2 * l
                invariant
                    i <= 2 * l + 1,
                    l <= MAX_DEGREE,
                    pl@ == legendre::<T>(l as int),
                    row@.len() == i,
                    forall|k: int|
                        0 <= k < i ==> (#[trigger] row@[k])@ == harmonic::<T>(l as int, k - l),
                decreases 2 * l + 1 - i,
            {
                row.push(rsh_poly(l, i as i32 - l as i32, &pl));
                i = i + 1;
            }
            tables.push(row);
            l = l + 1;
        }
        Rsh { tables }
    }

    /// The harmonic of degree `l` and order `m`.
    pub fn poly(&self, l: usize, m: i32) -> (r: &Poly<T>)
        requires
            self.valid(),
            l <= self.top(),
            -(l as int) <= m <= l,
        ensures
            r@ == harmonic::<T>(l as int, m as int),
            powers_within(r@, l as int),
    {
        proof {
            law_harmonic_powers::<T>(l as int, m as int);
        }
        assert(self.tables@[l as int]@.len() == 2 * l + 1);
        assert(self.tables@[l as int]@[m + l]@ == harmonic::<T>(l as int, m as int));
        &self.tables[l][(m + l as i32) as usize]
    }
}

/// The integral of a monomial over the unit sphere.
pub open spec fn sphere_integral<T: Real>(i: int, j: int, k: int) -> T {
    if i % 2 == 1 || j % 2 == 1 || k % 2 == 1 {
        T::count(0)
    } else {
        T::quot(
            T::prod(
                T::prod(
                    T::prod(T::prod(T::count(4), T::circle()), odd_factorial(i - 1)),
                    odd_factorial(j - 1),
                ),
                odd_factorial(k - 1),
            ),
            odd_factorial(i + j + k + 1),
        )
    }
}

/// The integral of a monomial over the unit sphere.
pub fn sphere_monomial<T: Real>(i: usize, j: usize, k: usize) -> (r: T)
    requires
        i + j + k <= usize::MAX,
        i + j + k < i64::MAX,
    ensures
        r == sphere_integral::<T>(i as int, j as int, k as int),
{
    if i % 2 == 1 || j % 2 == 1 || k % 2 == 1 {
        return T::from_count(0);
    }
    T::from_count(4).times(T::pi()).times(double_factorial(i as i64 - 1)).times(
        double_factorial(j as i64 - 1),
    ).times(double_factorial(k as i64 - 1)).over(double_factorial((i + j + k) as i64 + 1))
}

/// The integral of the first `n` terms of a polynomial times a monomial.
pub open spec fn single_integral<T: Real>(p: Seq<Term<T>>, t: (int, int, int), n: int) -> T
    decreases n,
{
    if n <= 0 {
        T::count(0)
    } else {
        let (c, m) = p[n - 1];
        T::sum(
            single_integral(p, t, n - 1),
            T::prod(c, sphere_integral(t.0 + m[0], t.1 + m[1], t.2 + m[2])),
        )
    }
}

/// The integral of a polynomial times a monomial over the unit sphere.
pub fn omega1<T: Real>(p: &Poly<T>, t: [usize; 3]) -> (r: T)
    requires
        powers_within(p@, MAX_DEGREE as int),
        t[0] + t[1] + t[2] <= MAX_DEGREE,
    ensures
        r == single_integral(p@, (t[0] as int, t[1] as int, t[2] as int), p@.len() as int),
{
    let mut acc = T::from_count(0);
    let mut n: usize = 0;
    while n < p.len()
        invariant
            n <= p@.len(),
            powers_within(p@, MAX_DEGREE as int),
            t[0] + t[1] + t[2] <= MAX_DEGREE,
            acc == single_integral(p@, (t[0] as int, t[1] as int, t[2] as int), n as int),
        decreases p@.len() - n,
    {
        assert(p@[n as int].1[0] + p@[n as int].1[1] + p@[n as int].1[2] <= MAX_DEGREE);
        let (c, m) = p[n];
        acc = acc.plus(c.times(sphere_monomial(t[0] + m[0], t[1] + m[1], t[2] + m[2])));
        n = n + 1;
    }
    acc
}

/// The integral of term `a` of one polynomial with the first `n` terms of another and a
/// monomial, after `acc`.
pub open spec fn term_integral<T: Real>(
    acc: T,
    a: Term<T>,
    q: Seq<Term<T>>,
    t: (int, int, int),
    n: int,
) -> T
    decreases n,
{
    if n <= 0 {
        acc
    } else {
        let before = term_integral(acc, a, q, t, n - 1);
        let b = q[n - 1];
        let i = t.0 + a.1[0] + b.1[0];
        let j = t.1 + a.1[1] + b.1[1];
        let k = t.2 + a.1[2] + b.1[2];
        if i % 2 == 0 && j % 2 == 0 && k % 2 == 0 {
            T::sum(before, T::prod(T::prod(a.0, b.0), sphere_integral(i, j, k)))
        } else {
            before
        }
    }
}

/// The integral of the first `n` terms of one polynomial with another and a monomial.
pub open spec fn double_integral<T: Real>(
    p: Seq<Term<T>>,
    q: Seq<Term<T>>,
    t: (int, int, int),
    n: int,
) -> T
    decreases n,
{
    if n <= 0 {
        T::count(0)
    } else {
        term_integral(double_integral(p, q, t, n - 1), p[n - 1], q, t, q.len() as int)
    }
}

/// The integral of two polynomials and a monomial over the unit sphere.
pub fn omega2<T: Real>(p1: &Poly<T>, p2: &Poly<T>, t: [usize; 3]) -> (r: T)
    requires
        powers_within(p1@, MAX_DEGREE as int),
        powers_within(p2@, MAX_DEGREE as int),
        t[0] + t[1] + t[2] <= MAX_DEGREE,
    ensures
        r == double_integral(p1@, p2@, (t[0] as int, t[1] as int, t[2] as int), p1@.len() as int),
{
    let ghost tt = (t[0] as int, t[1] as int, t[2] as int);
    let mut acc = T::from_count(0);
    let mut a: usize = 0;
    while a < p1.len()
        invariant
            a <= p1@.len(),
            powers_within(p1@, MAX_DEGREE as int),
            powers_within(p2@, MAX_DEGREE as int),
            t[0] + t[1] + t[2] <= MAX_DEGREE,
            tt == (t[0] as int, t[1] as int, t[2] as int),
            acc == double_integral(p1@, p2@, tt, a as int),
        decreases p1@.len() - a,
    {
        assert(p1@[a as int].1[0] + p1@[a as int].1[1] + p1@[a as int].1[2] <= MAX_DEGREE);
        let (c1, m1) = p1[a];
        let ghost start = acc;
        let mut b: usize = 0;
        while b < p2.len()
            invariant
                a < p1@.len(),
                b <= p2@.len(),
                powers_within(p2@, MAX_DEGREE as int),
                t[0] + t[1] + t[2] <= MAX_DEGREE,
                m1[0] + m1[1] + m1[2] <= MAX_DEGREE,
                (c1, m1) == p1@[a as int],
                tt == (t[0] as int, t[1] as int, t[2] as int),
                acc == term_integral(start, p1@[a as int], p2@, tt, b as int),
            decreases p2@.len() - b,
        {
            assert(p2@[b as int].1[0] + p2@[b as int].1[1] + p2@[b as int].1[2] <= MAX_DEGREE);
            let (c2, m2) = p2[b];
            let i: usize = t[0] + m1[0] + m2[0];
            let j: usize = t[1] + m1[1] + m2[1];
            let k: usize = t[2] + m1[2] + m2[2];
            if i % 2 == 0 && j % 2 == 0 && k % 2 == 0 {
                acc = acc.plus(c1.times(c2).times(sphere_monomial(i, j, k)));
            }
            b = b + 1;
        }
        a = a + 1;
    }
    acc
}

/// The first `n` terms of a polynomial at a point.
pub open spec fn evaluated<T: Real>(p: Seq<Term<T>>, u: Vec3<T>, n: int) -> T
    decreases n,
{
    if n <= 0 {
        T::count(0)
    } else {
        let (c, m) = p[n - 1];
        T::sum(
            evaluated(p, u, n - 1),
            T::prod(
                T::prod(
                    T::prod(c, T::raised(u[0], m[0] as u64)),
                    T::raised(u[1], m[1] as u64),
                ),
                T::raised(u[2], m[2] as u64),
            ),
        )
    }
}

/// A polynomial at a point.
pub fn eval_poly<T: Real>(p: &Poly<T>, u: Vec3<T>) -> (r: T)
    ensures
        r == evaluated(p@, u, p@.len() as int),
{
    let mut acc = T::from_count(0);
    let mut n: usize = 0;
    while n < p.len()
        invariant
            n <= p@.len(),
            acc == evaluated(p@, u, n as int),
        decreases p@.len() - n,
    {
        let (c, m) = p[n];
        acc = acc.plus(
            c.times(u[0].powi(m[0] as u64)).times(u[1].powi(m[1] as u64)).times(
                u[2].powi(m[2] as u64),
            ),
        );
        n = n + 1;
    }
    acc
}

} // verus!
