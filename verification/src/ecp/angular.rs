//! The angular factors of the integrals of effective core potentials.
//!
//! A Gaussian about another center is a polynomial in the coordinates times an
//! exponential, which is expanded in harmonics. The tables hold the integrals of harmonics
//! with monomials; the factors gather them by the degree of the monomials.
use vstd::prelude::*;

use crate::ecp::harmonics::{
    binom, binomial, double_integral, eval_poly, evaluated, harmonic, omega1, omega2, powers_within,
    single_integral, Rsh,
};
use crate::engine::pairs::Vec3;
use crate::flat::{
    cell, lemma_cell_in_range, lemma_index_parts, lemma_pair_in_range, lemma_pair_order, pair,
};
use crate::math::solid_harmonics::{is_zero, vanishes};
use crate::scalar::{filled, Real, Scalar};

verus! {

/// The coefficients of `(u - c)^p` by the powers of `u`.
pub open spec fn shifted_powers<T: Real>(p: int, c: T) -> Seq<T> {
    Seq::new(
        (p + 1) as nat,
        |i: int| T::prod(binomial(p, i), T::raised(T::neg(c), (p - i) as u64)),
    )
}

/// The coefficients of `(u - c)^p` by the powers of `u`.
pub fn coord_coeffs<T: Real>(p: usize, c: T) -> (out: Vec<T>)
    requires
        p <= 100,
    ensures
        out@ == shifted_powers(p as int, c),
        out@.len() == p + 1,
{
    let mut out: Vec<T> = Vec::new();
    let mut i: usize = 0;
    while i <= p
        invariant
            i <= p + 1,
            p <= 100,
            out@.len() == i,
            forall|k: int| 0 <= k < i ==> #[trigger] out@[k] == shifted_powers(p as int, c)[k],
        decreases p + 1 - i,
    {
        out.push(binom::<T>(p, i).times(c.negated().powi((p - i) as u64)));
        i = i + 1;
    }
    assert(out@ =~= shifted_powers(p as int, c));
    out
}

/// The coefficient of degree `s` of the product of two polynomials, over the first `k`
/// pairs of their coefficients.
pub open spec fn convolved<T: Scalar>(a: Seq<T>, b: Seq<T>, s: int, k: int) -> T
    decreases k,
{
    if k <= 0 {
        T::count(0)
    } else {
        let before = convolved(a, b, s, k - 1);
        let (i, j) = ((k - 1) / (b.len() as int), (k - 1) % (b.len() as int));
        if i + j == s {
            T::sum(before, T::prod(a[i], b[j]))
        } else {
            before
        }
    }
}

/// The coefficients of the product of two polynomials.
pub open spec fn convolution<T: Scalar>(a: Seq<T>, b: Seq<T>) -> Seq<T> {
    Seq::new(
        (a.len() + b.len() - 1) as nat,
        |s: int| convolved(a, b, s, (a.len() * b.len()) as int),
    )
}

/// The coefficients of the product of two polynomials.
pub fn convolve<T: Scalar>(a: &Vec<T>, b: &Vec<T>) -> (out: Vec<T>)
    requires
        1 <= a@.len() <= 100,
        1 <= b@.len() <= 100,
    ensures
        out@ == convolution(a@, b@),
        out@.len() == a@.len() + b@.len() - 1,
{
    let (na, nb) = (a.len(), b.len());
    assert(na * nb <= 10000) by (nonlinear_arith)
        requires
            na <= 100,
            nb <= 100,
    ;
    let mut out = filled(na + nb - 1, T::from_count(0));
    let mut k: usize = 0;
    while k < na * nb
        invariant
            k <= na * nb,
            na * nb <= 10000,
            na == a@.len(),
            nb == b@.len(),
            1 <= nb,
            na <= 100,
            nb <= 100,
            out@.len() == na + nb - 1,
            forall|s: int|
                0 <= s < out@.len() ==> #[trigger] out@[s] == convolved(a@, b@, s, k as int),
        decreases na * nb - k,
    {
        proof {
            lemma_index_parts(k as int, na as int, nb as int);
        }
        let (i, j) = (k / nb, k % nb);
        let at: usize = i + j;
        assert(out@[at as int] == convolved(a@, b@, at as int, k as int));
        out[at] = out[at].plus(a[i].times(b[j]));
        k = k + 1;
    }
    assert(out@ =~= convolution(a@, b@));
    out
}

/// The powers at a place of a table of shape `(_, ny, nz)`.
pub open spec fn powers_at(k: int, ny: int, nz: int) -> (int, int, int) {
    (k / nz / ny, k / nz % ny, k % nz)
}

/// The powers at a place lie within the table.
pub proof fn lemma_powers_at(k: int, nx: int, ny: int, nz: int)
    requires
        0 <= k < nx * ny * nz,
        0 <= nx,
        0 <= ny,
        0 <= nz,
    ensures
        0 <= powers_at(k, ny, nz).0 < nx,
        0 <= powers_at(k, ny, nz).1 < ny,
        0 <= powers_at(k, ny, nz).2 < nz,
        ny > 0,
        nz > 0,
{
    assert(0 <= nx * ny) by (nonlinear_arith)
        requires
            0 <= nx,
            0 <= ny,
    ;
    lemma_index_parts(k, nx * ny, nz);
    lemma_index_parts(k / nz, nx, ny);
    assert(ny > 0 && nz > 0) by (nonlinear_arith)
        requires
            0 <= k < nx * ny * nz,
            0 <= nx,
            0 <= ny,
            0 <= nz,
    ;
}

/// The values of the harmonics of degree `lam` at a point.
pub open spec fn harmonic_values<T: Real>(lam: int, u: Vec3<T>) -> Seq<T> {
    Seq::new(
        (2 * lam + 1) as nat,
        |i: int|
            evaluated(
                harmonic::<T>(lam, i - lam),
                u,
                harmonic::<T>(lam, i - lam).len() as int,
            ),
    )
}

fn values_at<T: Real>(rsh: &Rsh<T>, lam: usize, u: Vec3<T>) -> (r: Vec<T>)
    requires
        rsh.valid(),
        lam <= rsh.top(),
    ensures
        r@ == harmonic_values(lam as int, u),
{
    let mut r: Vec<T> = Vec::new();
    let mut i: usize = 0;
    while i <= 2 * lam
        invariant
            i <= 2 * lam + 1,
            rsh.valid(),
            lam <= rsh.top(),
            r@.len() == i,
            forall|k: int| 0 <= k < i ==> #[trigger] r@[k] == harmonic_values(lam as int, u)[k],
        decreases 2 * lam + 1 - i,
    {
        r.push(eval_poly(rsh.poly(lam, i as i32 - lam as i32), u));
        i = i + 1;
    }
    assert(r@ =~= harmonic_values(lam as int, u));
    r
}

/// The sum over the first `n` harmonics of degree `lam` of their value at a direction and
/// their integral with a monomial.
pub open spec fn local_sum<T: Real>(
    lam: int,
    t: (int, int, int),
    values: Seq<T>,
    n: int,
) -> T
    decreases n,
{
    if n <= 0 {
        T::count(0)
    } else {
        let before = local_sum(lam, t, values, n - 1);
        let p = harmonic::<T>(lam, n - 1 - lam);
        if vanishes(values[n - 1]) {
            before
        } else {
            T::sum(before, T::prod(values[n - 1], single_integral(p, t, p.len() as int)))
        }
    }
}

/// The angular integral of degree `lam` with a monomial of degree up to `ltot`; it
/// vanishes unless the degrees have the same parity and `lam` is not above.
pub open spec fn local_angle<T: Real>(
    ltot: int,
    lam: int,
    t: (int, int, int),
    u: Vec3<T>,
) -> T {
    let ts = t.0 + t.1 + t.2;
    if ts > ltot || ts < lam || (ts + lam) % 2 == 1 {
        T::count(0)
    } else {
        local_sum(lam, t, harmonic_values(lam, u), 2 * lam + 1)
    }
}

/// The angular integrals of degree `lam` with all monomials.
pub open spec fn local_table<T: Real>(ltot: int, lam: int, u: Vec3<T>) -> Seq<T> {
    let d = ltot + 1;
    Seq::new((d * d * d) as nat, |k: int| local_angle(ltot, lam, powers_at(k, d, d), u))
}

fn sum_local<T: Real>(rsh: &Rsh<T>, lam: usize, t: [usize; 3], values: &Vec<T>) -> (acc: T)
    requires
        rsh.valid(),
        lam <= rsh.top(),
        t[0] <= 100,
        t[1] <= 100,
        t[2] <= 100,
        values@.len() == 2 * lam + 1,
    ensures
        acc == local_sum(
            lam as int,
            (t[0] as int, t[1] as int, t[2] as int),
            values@,
            2 * lam + 1,
        ),
{
    let mut acc = T::from_count(0);
    let mut i: usize = 0;
    while i <= 2 * lam
        invariant
            i <= 2 * lam + 1,
            rsh.valid(),
            lam <= rsh.top(),
            t[0] <= 100,
            t[1] <= 100,
            t[2] <= 100,
            values@.len() == 2 * lam + 1,
            acc == local_sum(
                lam as int,
                (t[0] as int, t[1] as int, t[2] as int),
                values@,
                i as int,
            ),
        decreases 2 * lam + 1 - i,
    {
        if !is_zero(values[i]) {
            let p = rsh.poly(lam, i as i32 - lam as i32);
            acc = acc.plus(values[i].times(omega1(p, t)));
        }
        i = i + 1;
    }
    acc
}

/// The angular integrals of a local potential, by degree.
pub fn build_ang1<T: Real>(rsh: &Rsh<T>, ltot: usize, khat: Vec3<T>) -> (ang: Vec<Vec<T>>)
    requires
        rsh.valid(),
        ltot <= rsh.top(),
        ltot <= 20,
    ensures
        ang@.len() == ltot + 1,
        forall|lam: int|
            0 <= lam <= ltot ==> (#[trigger] ang@[lam])@ == local_table(ltot as int, lam, khat),
{
    let d: usize = ltot + 1;
    assert(d * d * d <= 9261) by (nonlinear_arith)
        requires
            d <= 21,
    ;
    assert(d * d <= 441) by (nonlinear_arith)
        requires
            d <= 21,
    ;
    let mut ang: Vec<Vec<T>> = Vec::new();
    let mut lam: usize = 0;
    while lam < d
        invariant
            lam <= d,
            d == ltot + 1,
            d <= 21,
            d * d <= 441,
            d * d * d <= 9261,
            rsh.valid(),
            ltot <= rsh.top(),
            ang@.len() == lam,
            forall|m: int|
                0 <= m < lam ==> (#[trigger] ang@[m])@ == local_table(ltot as int, m, khat),
        decreases d - lam,
    {
        let values = values_at(rsh, lam, khat);
        let mut slot: Vec<T> = Vec::new();
        let mut k: usize = 0;
        while k < d * d * d
            invariant
                k <= d * d * d,
                lam < d,
                d == ltot + 1,
                d <= 21,
                d * d <= 441,
                d * d * d <= 9261,
                rsh.valid(),
                ltot <= rsh.top(),
                values@ == harmonic_values(lam as int, khat),
                slot@.len() == k,
                forall|m: int|
                    0 <= m < k ==> #[trigger] slot@[m] == local_table(
                        ltot as int,
                        lam as int,
                        khat,
                    )[m],
            decreases d * d * d - k,
        {
            proof {
                lemma_powers_at(k as int, d as int, d as int, d as int);
            }
            let (tx, ty, tz) = (k / d / d, k / d % d, k % d);
            let ts: usize = tx + ty + tz;
            if ts > ltot || ts < lam || (ts + lam) % 2 == 1 {
                slot.push(T::from_count(0));
            } else {
                slot.push(sum_local(rsh, lam, [tx, ty, tz], &values));
            }
            k = k + 1;
        }
        assert(slot@ =~= local_table(ltot as int, lam as int, khat));
        ang.push(slot);
        lam = lam + 1;
    }
    ang
}

/// The sum over the first `n` harmonics of degree `lam` of their value at a direction and
/// their integral with the harmonic of degree `l` and order `m` and a monomial.
pub open spec fn projected_sum<T: Real>(
    l: int,
    m: int,
    lam: int,
    t: (int, int, int),
    values: Seq<T>,
    n: int,
) -> T
    decreases n,
{
    if n <= 0 {
        T::count(0)
    } else {
        let before = projected_sum(l, m, lam, t, values, n - 1);
        let p = harmonic::<T>(l, m);
        let q = harmonic::<T>(lam, n - 1 - lam);
        if vanishes(values[n - 1]) {
            before
        } else {
            T::sum(before, T::prod(values[n - 1], double_integral(p, q, t, p.len() as int)))
        }
    }
}

/// The angular integral of a projector with degree `lam` and a monomial of degree up to
/// `lside`; it vanishes outside the triangle of the degrees and for odd sums.
pub open spec fn projected_angle<T: Real>(
    l: int,
    m: int,
    lside: int,
    lam: int,
    t: (int, int, int),
    u: Vec3<T>,
) -> T {
    let ts = t.0 + t.1 + t.2;
    if ts > lside || lam + ts < l || lam > l + ts || (l + ts + lam) % 2 == 1 {
        T::count(0)
    } else {
        projected_sum(l, m, lam, t, harmonic_values(lam, u), 2 * lam + 1)
    }
}

/// The angular integrals of a projector with degree `lam` and all monomials.
pub open spec fn projected_table<T: Real>(
    l: int,
    m: int,
    lside: int,
    lam: int,
    u: Vec3<T>,
) -> Seq<T> {
    let d = lside + 1;
    Seq::new(
        (d * d * d) as nat,
        |k: int| projected_angle(l, m, lside, lam, powers_at(k, d, d), u),
    )
}

fn sum_projected<T: Real>(
    rsh: &Rsh<T>,
    l: usize,
    m: i32,
    lam: usize,
    t: [usize; 3],
    values: &Vec<T>,
) -> (acc: T)
    requires
        rsh.valid(),
        l <= rsh.top(),
        -(l as int) <= m <= l,
        lam <= rsh.top(),
        t[0] <= 100,
        t[1] <= 100,
        t[2] <= 100,
        values@.len() == 2 * lam + 1,
    ensures
        acc == projected_sum(
            l as int,
            m as int,
            lam as int,
            (t[0] as int, t[1] as int, t[2] as int),
            values@,
            2 * lam + 1,
        ),
{
    let mut acc = T::from_count(0);
    let p = rsh.poly(l, m);
    let mut i: usize = 0;
    while i <= 2 * lam
        invariant
            i <= 2 * lam + 1,
            rsh.valid(),
            l <= rsh.top(),
            lam <= rsh.top(),
            p@ == harmonic::<T>(l as int, m as int),
            powers_within(p@, l as int),
            t[0] <= 100,
            t[1] <= 100,
            t[2] <= 100,
            values@.len() == 2 * lam + 1,
            acc == projected_sum(
                l as int,
                m as int,
                lam as int,
                (t[0] as int, t[1] as int, t[2] as int),
                values@,
                i as int,
            ),
        decreases 2 * lam + 1 - i,
    {
        if !is_zero(values[i]) {
            let q = rsh.poly(lam, i as i32 - lam as i32);
            acc = acc.plus(values[i].times(omega2(p, q, t)));
        }
        i = i + 1;
    }
    acc
}

fn projected_slot<T: Real>(
    rsh: &Rsh<T>,
    l: usize,
    m: i32,
    lside: usize,
    lam: usize,
    values: &Vec<T>,
    Ghost(u): Ghost<Vec3<T>>,
) -> (slot: Vec<T>)
    requires
        rsh.valid(),
        l <= rsh.top(),
        -(l as int) <= m <= l,
        lam <= rsh.top(),
        lside <= 20,
        values@ == harmonic_values(lam as int, u),
    ensures
        slot@ == projected_table(l as int, m as int, lside as int, lam as int, u),
{
    let d: usize = lside + 1;
    assert(d * d * d <= 9261) by (nonlinear_arith)
        requires
            d <= 21,
    ;
    assert(d * d <= 441) by (nonlinear_arith)
        requires
            d <= 21,
    ;
    let mut slot: Vec<T> = Vec::new();
    let mut k: usize = 0;
    while k < d * d * d
        invariant
            k <= d * d * d,
            d == lside + 1,
            d <= 21,
            d * d <= 441,
            d * d * d <= 9261,
            rsh.valid(),
            l <= rsh.top(),
            -(l as int) <= m <= l,
            lam <= rsh.top(),
            values@ == harmonic_values(lam as int, u),
            slot@.len() == k,
            forall|q: int|
                0 <= q < k ==> #[trigger] slot@[q] == projected_table(
                    l as int,
                    m as int,
                    lside as int,
                    lam as int,
                    u,
                )[q],
        decreases d * d * d - k,
    {
        proof {
            lemma_powers_at(k as int, d as int, d as int, d as int);
        }
        let (tx, ty, tz) = (k / d / d, k / d % d, k % d);
        let ts: usize = tx + ty + tz;
        if ts > lside || lam + ts < l || lam > l + ts || (l + ts + lam) % 2 == 1 {
            slot.push(T::from_count(0));
        } else {
            slot.push(sum_projected(rsh, l, m, lam, [tx, ty, tz], values));
        }
        k = k + 1;
    }
    assert(slot@ =~= projected_table(l as int, m as int, lside as int, lam as int, u));
    slot
}

/// The angular integrals of a projector of degree `l` on one side, by order and degree.
pub fn build_f2<T: Real>(rsh: &Rsh<T>, l: usize, lside: usize, khat: Vec3<T>) -> (f: Vec<Vec<T>>)
    requires
        rsh.valid(),
        lside <= 20,
        l + lside <= rsh.top(),
    ensures
        f@.len() == (2 * l + 1) * (l + lside + 1),
        forall|mi: int, lam: int|
            0 <= mi <= 2 * l && 0 <= lam <= l + lside ==> (#[trigger] f@[pair(
                mi,
                l + lside + 1,
                lam,
            )])@ == projected_table(l as int, mi - l, lside as int, lam, khat),
{
    let lam_n: usize = l + lside + 1;
    let mut values: Vec<Vec<T>> = Vec::new();
    let mut lam: usize = 0;
    while lam < lam_n
        invariant
            lam <= lam_n,
            lam_n == l + lside + 1,
            rsh.valid(),
            l + lside <= rsh.top(),
            values@.len() == lam,
            forall|m: int|
                0 <= m < lam ==> (#[trigger] values@[m])@ == harmonic_values(m, khat),
        decreases lam_n - lam,
    {
        values.push(values_at(rsh, lam, khat));
        lam = lam + 1;
    }
    let mut f: Vec<Vec<T>> = Vec::new();
    let mut mi: usize = 0;
    while mi <= 2 * l
        invariant
            mi <= 2 * l + 1,
            lside <= 20,
            lam_n == l + lside + 1,
            rsh.valid(),
            l + lside <= rsh.top(),
            values@.len() == lam_n,
            forall|m: int|
                0 <= m < lam_n ==> (#[trigger] values@[m])@ == harmonic_values(m, khat),
            f@.len() == mi * lam_n,
            forall|m: int, lam: int|
                0 <= m < mi && 0 <= lam < lam_n ==> (#[trigger] f@[pair(m, lam_n as int, lam)])@
                    == projected_table(l as int, m - l, lside as int, lam, khat),
        decreases 2 * l + 1 - mi,
    {
        let mut lam: usize = 0;
        while lam < lam_n
            invariant
                mi <= 2 * l,
                lam <= lam_n,
                lside <= 20,
                lam_n == l + lside + 1,
                rsh.valid(),
                l + lside <= rsh.top(),
                values@.len() == lam_n,
                forall|m: int|
                    0 <= m < lam_n ==> (#[trigger] values@[m])@ == harmonic_values(m, khat),
                f@.len() == pair(mi as int, lam_n as int, lam as int),
                forall|m: int, k: int|
                    0 <= m && 0 <= k < lam_n && (m < mi || (m == mi && k < lam))
                        ==> (#[trigger] f@[pair(m, lam_n as int, k)])@ == projected_table(
                        l as int,
                        m - l,
                        lside as int,
                        k,
                        khat,
                    ),
            decreases lam_n - lam,
        {
            let ghost before = f@;
            assert(values@[lam as int]@ == harmonic_values(lam as int, khat));
            f.push(
                projected_slot(
                    rsh,
                    l,
                    mi as i32 - l as i32,
                    lside,
                    lam,
                    &values[lam],
                    Ghost(khat),
                ),
            );
            proof {
                assert forall|m: int, k: int|
                    0 <= m && 0 <= k < lam_n && (m < mi || (m == mi && k < lam + 1)) implies (
                #[trigger] f@[pair(m, lam_n as int, k)])@ == projected_table(
                    l as int,
                    m - l,
                    lside as int,
                    k,
                    khat,
                ) by {
                    lemma_pair_order(m, k, mi as int, lam as int, lam_n as int);
                    lemma_pair_in_range(m, mi as int + 1, lam_n as int, k);
                    if !(m == mi && k == lam) {
                        assert(f@[pair(m, lam_n as int, k)] == before[pair(m, lam_n as int, k)]);
                    }
                }
            }
            lam = lam + 1;
        }
        assert(mi * lam_n + lam_n == (mi + 1) * lam_n) by (nonlinear_arith);
        mi = mi + 1;
    }
    f
}

/// The sum over the first `k` monomials of a product of three polynomials, those of degree
/// `s`, of their coefficient and their entry in a table of shape `(d, d, d)`.
pub open spec fn gathered<T: Real>(
    c: (Seq<T>, Seq<T>, Seq<T>),
    table: Seq<T>,
    d: int,
    s: int,
    k: int,
) -> T
    decreases k,
{
    if k <= 0 {
        T::count(0)
    } else {
        let before = gathered(c, table, d, s, k - 1);
        let t = powers_at(k - 1, c.1.len() as int, c.2.len() as int);
        let coef = T::prod(T::prod(c.0[t.0], c.1[t.1]), c.2[t.2]);
        let entry = table[cell(t.0, d, t.1, d, t.2)];
        if t.0 + t.1 + t.2 == s && !vanishes(coef) && !vanishes(entry) {
            T::sum(before, T::prod(coef, entry))
        } else {
            before
        }
    }
}

/// The number of monomials of a product of three polynomials.
pub open spec fn monomials<T>(c: (Seq<T>, Seq<T>, Seq<T>)) -> int {
    (c.0.len() * c.1.len() * c.2.len()) as int
}

/// Whether `v` holds the sums over the first `k` monomials for all tables and degrees, and
/// for the tables before `q` also the next.
spec fn holds_gathered<T: Real>(
    v: Seq<T>,
    c: (Seq<T>, Seq<T>, Seq<T>),
    tables: Seq<Vec<T>>,
    d: int,
    k: int,
    q: int,
) -> bool {
    &&& v.len() == tables.len() * d
    &&& forall|lam: int, s: int|
        0 <= lam < tables.len() && 0 <= s < d ==> #[trigger] v[pair(lam, d, s)] == gathered(
            c,
            tables[lam]@,
            d,
            s,
            if lam < q {
                k + 1
            } else {
                k
            },
        )
}

/// Gather tables by the degree of the monomials of a product of three polynomials.
#[verifier::spinoff_prover]
#[verifier::rlimit(40)]
pub fn gather<T: Real>(
    cx: &Vec<T>,
    cy: &Vec<T>,
    cz: &Vec<T>,
    tables: &Vec<Vec<T>>,
    d: usize,
) -> (v: Vec<T>)
    requires
        1 <= d <= 21,
        cx@.len() >= 1,
        cy@.len() >= 1,
        cz@.len() >= 1,
        cx@.len() + cy@.len() + cz@.len() <= d + 2,
        tables@.len() * d <= usize::MAX,
        forall|lam: int|
            0 <= lam < tables@.len() ==> (#[trigger] tables@[lam])@.len() == d * d * d,
    ensures
        v@.len() == tables@.len() * d,
        forall|lam: int, s: int|
            0 <= lam < tables@.len() && 0 <= s < d ==> #[trigger] v@[pair(lam, d as int, s)]
                == gathered(
                (cx@, cy@, cz@),
                tables@[lam]@,
                d as int,
                s,
                monomials((cx@, cy@, cz@)),
            ),
{
    let ghost c = (cx@, cy@, cz@);
    let (nx, ny, nz) = (cx.len(), cy.len(), cz.len());
    assert(nx * ny <= 441 && nx * ny * nz <= 9261) by (nonlinear_arith)
        requires
            0 <= nx <= 21,
            0 <= ny <= 21,
            0 <= nz <= 21,
    ;
    let mut v = filled(tables.len() * d, T::from_count(0));
    proof {
        assert forall|lam: int, s: int|
            0 <= lam < tables@.len() && 0 <= s < d implies #[trigger] v@[pair(lam, d as int, s)]
            == gathered(c, tables@[lam]@, d as int, s, 0) by {
            lemma_pair_in_range(lam, tables@.len() as int, d as int, s);
        }
    }
    let mut k: usize = 0;
    while k < nx * ny * nz
        invariant
            k <= nx * ny * nz,
            nx * ny <= 441,
            nx * ny * nz <= 9261,
            nx == cx@.len(),
            ny == cy@.len(),
            nz == cz@.len(),
            nx + ny + nz <= d + 2,
            1 <= d <= 21,
            tables@.len() * d <= usize::MAX,
            c == (cx@, cy@, cz@),
            forall|lam: int|
                0 <= lam < tables@.len() ==> (#[trigger] tables@[lam])@.len() == d * d * d,
            holds_gathered(v@, c, tables@, d as int, k as int, 0),
        decreases nx * ny * nz - k,
    {
        proof {
            lemma_powers_at(k as int, nx as int, ny as int, nz as int);
        }
        let (tx, ty, tz) = (k / nz / ny, k / nz % ny, k % nz);
        assert(powers_at(k as int, ny as int, nz as int) == (tx as int, ty as int, tz as int));
        let coef = cx[tx].times(cy[ty]).times(cz[tz]);
        let s: usize = tx + ty + tz;
        assert(s < d);
        proof {
            lemma_cell_in_range(
                tx as int,
                d as int,
                d as int,
                ty as int,
                d as int,
                tz as int,
            );
            assert(d * d * d <= 9261) by (nonlinear_arith)
                requires
                    d <= 21,
            ;
        }
        let tidx: usize = (tx * d + ty) * d + tz;
        if !is_zero(coef) {
            let mut lam: usize = 0;
            while lam < tables.len()
                invariant
                    lam <= tables@.len(),
                    k < nx * ny * nz,
                    ny == cy@.len(),
                    nz == cz@.len(),
                    1 <= d <= 21,
                    tables@.len() * d <= usize::MAX,
                    c == (cx@, cy@, cz@),
                    s < d,
                    s == tx + ty + tz,
                    tidx == cell(tx as int, d as int, ty as int, d as int, tz as int),
                    tidx < d * d * d,
                    powers_at(k as int, ny as int, nz as int) == (tx as int, ty as int, tz as int),
                    coef == T::prod(T::prod(cx@[tx as int], cy@[ty as int]), cz@[tz as int]),
                    !vanishes(coef),
                    forall|q: int|
                        0 <= q < tables@.len() ==> (#[trigger] tables@[q])@.len() == d * d * d,
                    holds_gathered(v@, c, tables@, d as int, k as int, lam as int),
                decreases tables@.len() - lam,
            {
                assert(tables@[lam as int]@.len() == d * d * d);
                let entry = tables[lam][tidx];
                proof {
                    lemma_pair_in_range(lam as int, tables@.len() as int, d as int, s as int);
                }
                let ghost before = v@;
                if !is_zero(entry) {
                    let at: usize = lam * d + s;
                    assert(before[pair(lam as int, d as int, s as int)] == gathered(
                        c,
                        tables@[lam as int]@,
                        d as int,
                        s as int,
                        k as int,
                    ));
                    v[at] = v[at].plus(coef.times(entry));
                }
                proof {
                    assert forall|q: int, t: int|
                        0 <= q < tables@.len() && 0 <= t < d implies #[trigger] v@[pair(
                        q,
                        d as int,
                        t,
                    )] == gathered(
                        c,
                        tables@[q]@,
                        d as int,
                        t,
                        if q < lam + 1 {
                            k + 1
                        } else {
                            k as int
                        },
                    ) by {
                        lemma_pair_order(q, t, lam as int, s as int, d as int);
                        lemma_pair_in_range(q, tables@.len() as int, d as int, t);
                        assert(before[pair(q, d as int, t)] == gathered(
                            c,
                            tables@[q]@,
                            d as int,
                            t,
                            if q < lam {
                                k + 1
                            } else {
                                k as int
                            },
                        ));
                        if !(q == lam && t == s) {
                            assert(v@[pair(q, d as int, t)] == before[pair(q, d as int, t)]);
                        }
                    }
                }
                lam = lam + 1;
            }
        }
        proof {
            assert forall|q: int, t: int|
                0 <= q < tables@.len() && 0 <= t < d implies #[trigger] v@[pair(q, d as int, t)]
                == gathered(c, tables@[q]@, d as int, t, k + 1) by {}
        }
        k = k + 1;
    }
    v
}

} // verus!
