//! The Boys function
//!
//! ```text
//!   F_m(T) = integral over t in [0, 1] of t^(2m) exp(-T t^2)
//! ```
//!
//! the radial kernel of the nuclear-attraction and electron-repulsion integrals.
//! The whole ladder `F_0 .. F_mmax` is evaluated at once: the top order first, the
//! lower ones by the downward recurrence
//! `F_(m-1) = (2T F_m + exp(-T)) / (2m-1)`, which is the stable direction.
//!
//! The top order comes from a series of positive terms or, for large `T`, from the
//! closed form `F_m = (2m-1)/(2T) F_(m-1)`, `F_0 = sqrt(pi/T)/2`. That is the
//! reference ladder. Where `T` and the order are in its range, a table of reference
//! ladders on a grid of `T` gives the top order by a short Taylor expansion about
//! the nearest grid point instead.
use vstd::prelude::*;

use crate::exact::divides_exactly;
use crate::flat::{lemma_pair_in_range, lemma_pair_order, pair};
use crate::scalar::{filled, fraction, ratio, Lanes, Real, Scalar};

verus! {

/// Highest order that a quartet of shells needs.
pub const BOYS_MAX_M: usize = 24;

/// Order of the Taylor expansion about a grid point.
pub const BOYS_K: usize = 8;

/// Orders stored per grid point.
pub const BOYS_STRIDE: usize = 33;

/// Length of a row of the table: the orders and `exp(-T)` of its grid point.
pub const BOYS_ROW: usize = 34;

/// Number of grid intervals.
pub const BOYS_NGRID: usize = 930;

/// Most terms of the series.
pub const BOYS_TERMS: usize = 1000;

/// `T` from which the closed form is used for order `m`: `33 + 5/2 m`.
pub open spec fn boundary<T: Scalar>(m: int) -> T {
    T::sum(T::count(33), T::prod(fraction::<T>(5, 2), T::count(m as u64)))
}

/// `T` from which the closed form is used for order `m`: `33 + 5/2 m`.
pub fn asymptotic_boundary<T: Scalar>(m: usize) -> (r: T)
    ensures
        r == boundary::<T>(m as int),
{
    T::from_count(33).plus(ratio::<T>(5, 2).times(T::from_count(m as u64)))
}

/// The sum of the series from its term `k` on, where the previous term is `term`
/// and the sum so far is `acc`. It ends with the first term that is at most 1e-17
/// of the sum.
pub open spec fn series_from<T: Real>(m: int, two_t: T, term: T, acc: T, k: int) -> T
    decreases BOYS_TERMS - k,
{
    let next = T::prod(term, T::quot(two_t, T::count((2 * m + 2 * k + 1) as u64)));
    let total = T::sum(acc, next);
    if T::le(next, T::prod(total, fraction::<T>(1, 100_000_000_000_000_000))) || k + 1
        >= BOYS_TERMS {
        total
    } else {
        series_from(m, two_t, next, total, k + 1)
    }
}

/// `F_m(t)` by the series `exp(-t) sum_k (2t)^k (2m-1)!!/(2m+2k+1)!!`, with
/// `et = exp(-t)`.
pub open spec fn series<T: Real>(m: int, t: T, et: T) -> T {
    let first = T::quot(T::count(1), T::count((2 * m + 1) as u64));
    T::prod(et, series_from(m, T::prod(T::count(2), t), first, first, 1))
}

/// `F_m(t)` by the closed form for large `t`.
pub open spec fn closed_form<T: Real>(m: int, t: T) -> T
    decreases m,
{
    if m <= 0 {
        T::prod(fraction::<T>(1, 2), T::root(T::quot(T::circle(), t)))
    } else {
        T::prod(
            closed_form(m - 1, t),
            T::quot(T::count((2 * m - 1) as u64), T::prod(T::count(2), t)),
        )
    }
}

/// The top order of the reference ladder.
pub open spec fn reference_top<T: Real>(m: int, t: T) -> T {
    if T::lt(t, boundary::<T>(m)) {
        series(m, t, T::expo(T::neg(t)))
    } else {
        closed_form(m, t)
    }
}

/// `F_m(t)` of the reference ladder with top order `m_max`.
pub open spec fn reference<T: Real>(m_max: int, t: T, m: int) -> T
    decreases m_max - m,
{
    if m >= m_max {
        reference_top(m_max, t)
    } else {
        T::quot(
            T::sum(
                T::prod(T::prod(T::count(2), t), reference(m_max, t, m + 1)),
                T::expo(T::neg(t)),
            ),
            T::count((2 * (m + 1) - 1) as u64),
        )
    }
}

/// The grid point `i`.
pub open spec fn grid_point<T: Scalar>(i: int) -> T {
    T::prod(T::count(i as u64), fraction::<T>(1, 10))
}

/// Whether `rows` is the table of reference ladders.
pub open spec fn is_boys_table<T: Real>(rows: Seq<T>) -> bool {
    &&& rows.len() == (BOYS_NGRID + 1) * BOYS_ROW
    &&& forall|i: int, m: int|
        0 <= i <= BOYS_NGRID && 0 <= m < BOYS_ROW ==> #[trigger] rows[pair(i, BOYS_ROW as int, m)]
            == table_entry::<T>(i, m)
}

/// Entry `m` of the row of grid point `i`: `F_m` there, and `exp(-T)` behind the
/// last order.
pub open spec fn table_entry<T: Real>(i: int, m: int) -> T {
    if m < BOYS_STRIDE {
        reference(BOYS_STRIDE - 1, grid_point::<T>(i), m)
    } else {
        T::expo(T::neg(grid_point::<T>(i)))
    }
}

/// `1/k!`.
pub open spec fn inverse_factorial<T: Scalar>(k: int) -> T
    decreases k,
{
    if k <= 0 {
        T::count(1)
    } else {
        T::quot(inverse_factorial::<T>(k - 1), T::count(k as u64))
    }
}

/// `sum over j >= 0 of coef(k+j) x^j / (k+j)!` up to order `BOYS_K`, by Horner's
/// rule.
pub open spec fn taylor<T: Scalar>(coef: spec_fn(int) -> T, x: T, k: int) -> T
    decreases BOYS_K - k,
{
    if k >= BOYS_K {
        coef(BOYS_K as int)
    } else {
        T::sum(T::prod(taylor(coef, x, k + 1), x), coef(k))
    }
}

/// The grid point nearest to `t`.
pub open spec fn nearest_point<T: Real>(t: T) -> int {
    T::nearest(T::prod(t, T::quot(T::count(1), fraction::<T>(1, 10)))) as int
}

/// `T0 - t` for the nearest grid point `T0`.
pub open spec fn offset<T: Real>(t: T) -> T {
    T::diff(grid_point::<T>(nearest_point(t)), t)
}

/// Whether the table serves the ladder up to `m_max` at `t`.
pub open spec fn on_table<T: Real>(m_max: int, t: T) -> bool {
    T::lt(t, boundary::<T>(BOYS_MAX_M as int)) && m_max + BOYS_K < BOYS_STRIDE && nearest_point(t)
        <= BOYS_NGRID
}

/// Taylor coefficients of the top order about the grid point `i`.
pub open spec fn top_coefficients<T: Real>(m_max: int, i: int) -> spec_fn(int) -> T {
    |k: int| T::prod(table_entry::<T>(i, m_max + k), inverse_factorial::<T>(k))
}

/// Taylor coefficients of the exponential.
pub open spec fn exp_coefficients<T: Real>() -> spec_fn(int) -> T {
    |k: int| inverse_factorial::<T>(k)
}

/// The top order from the table.
pub open spec fn table_top<T: Real>(m_max: int, t: T) -> T {
    taylor(top_coefficients::<T>(m_max, nearest_point(t)), offset(t), 0)
}

/// `exp(-t)` from the table.
pub open spec fn table_exp<T: Real>(t: T) -> T {
    T::prod(
        table_entry::<T>(nearest_point(t), BOYS_STRIDE as int),
        taylor(exp_coefficients::<T>(), offset(t), 0),
    )
}

/// `F_m(t)` of the ladder from the table with top order `m_max`.
pub open spec fn table_ladder<T: Real>(m_max: int, t: T, m: int) -> T
    decreases m_max - m,
{
    if m >= m_max {
        table_top(m_max, t)
    } else {
        T::prod(
            T::sum(
                T::prod(T::prod(T::count(2), t), table_ladder(m_max, t, m + 1)),
                table_exp(t),
            ),
            T::quot(T::count(1), T::count((2 * (m + 1) - 1) as u64)),
        )
    }
}

/// `F_m(t)` of the ladder with top order `m_max`.
pub open spec fn ladder<T: Real>(m_max: int, t: T, m: int) -> T {
    if on_table(m_max, t) {
        table_ladder(m_max, t, m)
    } else {
        reference(m_max, t, m)
    }
}

/// `s = omega^2 / (rho + omega^2)`.
pub open spec fn attenuation<T: Scalar>(rho: T, omega: T) -> T {
    T::quot(T::prod(omega, omega), T::sum(rho, T::prod(omega, omega)))
}

/// `s^(m+1/2)`, built up order by order.
pub open spec fn half_power<T: Real>(s: T, m: int) -> T
    decreases m,
{
    if m <= 0 {
        T::root(s)
    } else {
        T::prod(half_power(s, m - 1), s)
    }
}

/// `F_m` of the attenuated kernel: `s^(m+1/2) F_m(s t)`.
pub open spec fn attenuated_ladder<T: Real>(m_max: int, t: T, rho: T, omega: T, m: int) -> T {
    let s = attenuation(rho, omega);
    T::prod(ladder(m_max, T::prod(s, t), m), half_power(s, m))
}

/// `exp(-t)` as the ladder with top order `m_max` takes it.
pub open spec fn ladder_exp<T: Real>(m_max: int, t: T) -> T {
    if on_table(m_max, t) {
        table_exp(t)
    } else {
        T::expo(T::neg(t))
    }
}

/// Neighbouring orders of a ladder are tied by `(2m+1) F_m = 2t F_(m+1) + exp(-t)`, in any
/// arithmetic that divides exactly.
pub proof fn law_ladder_recurrence<T: Real>(m_max: int, t: T, m: int)
    requires
        divides_exactly::<T>(),
        0 <= m < m_max,
        2 * m_max <= u64::MAX,
    ensures
        T::prod(T::count((2 * m + 1) as u64), ladder(m_max, t, m)) == T::sum(
            T::prod(T::prod(T::count(2), t), ladder(m_max, t, m + 1)),
            ladder_exp(m_max, t),
        ),
{
    let n = (2 * m + 1) as u64;
    let a = T::sum(
        T::prod(T::prod(T::count(2), t), ladder(m_max, t, m + 1)),
        ladder_exp(m_max, t),
    );
    assert(2 * (m + 1) - 1 == n);
    assert(T::prod(T::count(n), T::quot(a, T::count(n))) == a);
}

/// [`series`], computed.
fn boys_series<T: Real>(m: usize, t: T, et: T) -> (r: T)
    requires
        2 * m + 2 * BOYS_TERMS + 1 <= usize::MAX,
    ensures
        r == series(m as int, t, et),
{
    let two_t = T::from_count(2).times(t);
    let mut term = T::from_count(1).over(T::from_count((2 * m + 1) as u64));
    let mut acc = term;
    let mut k: usize = 1;
    let ghost goal = series_from(m as int, two_t, term, acc, 1);
    loop
        invariant_except_break
            1 <= k < BOYS_TERMS,
            2 * m + 2 * BOYS_TERMS + 1 <= usize::MAX,
            goal == series_from(m as int, two_t, term, acc, k as int),
        ensures
            acc == goal,
        decreases BOYS_TERMS - k,
    {
        term = term.times(two_t.over(T::from_count((2 * m + 2 * k + 1) as u64)));
        acc = acc.plus(term);
        if term.at_most(acc.times(ratio::<T>(1, 100_000_000_000_000_000))) {
            break;
        }
        k = k + 1;
        if k >= BOYS_TERMS {
            break;
        }
    }
    et.times(acc)
}

/// [`closed_form`], computed.
fn boys_asymptotic<T: Real>(m: usize, t: T) -> (r: T)
    requires
        2 * m <= usize::MAX,
    ensures
        r == closed_form(m as int, t),
{
    let mut val = ratio::<T>(1, 2).times(T::pi().over(t).sqrt());
    let two_t = T::from_count(2).times(t);
    let mut k: usize = 1;
    while k <= m
        invariant
            1 <= k <= m + 1,
            2 * m <= usize::MAX,
            two_t == T::prod(T::count(2), t),
            val == closed_form(k - 1, t),
        decreases m + 1 - k,
    {
        val = val.times(T::from_count((2 * k - 1) as u64).over(two_t));
        k = k + 1;
    }
    val
}

/// The reference ladder `F_0(t) .. F_mmax(t)`, into the first entries of `out`.
pub fn boys_reference<T: Real>(m_max: usize, t: T, out: &mut [T])
    requires
        old(out)@.len() > m_max,
        2 * m_max + 2 * BOYS_TERMS + 1 <= usize::MAX,
    ensures
        final(out)@.len() == old(out)@.len(),
        forall|m: int|
            0 <= m <= m_max ==> #[trigger] final(out)@[m] == reference(m_max as int, t, m),
        forall|m: int| m_max < m < old(out)@.len() ==> #[trigger] final(out)@[m] == old(out)@[m],
{
    let et = t.negated().exp();
    let top = if t.less(asymptotic_boundary::<T>(m_max)) {
        boys_series(m_max, t, et)
    } else {
        boys_asymptotic(m_max, t)
    };
    out[m_max] = top;
    let mut m: usize = m_max;
    while m > 0
        invariant
            m <= m_max,
            out@.len() == old(out)@.len(),
            out@.len() > m_max,
            2 * m_max + 2 * BOYS_TERMS + 1 <= usize::MAX,
            et == T::expo(T::neg(t)),
            forall|k: int|
                m <= k <= m_max ==> #[trigger] out@[k] == reference(m_max as int, t, k),
            forall|k: int| m_max < k < out@.len() ==> #[trigger] out@[k] == old(out)@[k],
        decreases m,
    {
        let up = out[m];
        out[m - 1] = T::from_count(2).times(t).times(up).plus(et).over(
            T::from_count((2 * m - 1) as u64),
        );
        m = m - 1;
    }
}

/// The table of reference ladders on the grid.
pub struct BoysTable<T> {
    rows: Vec<T>,
    inv_fact: Vec<T>,
}

impl<T: Real> BoysTable<T> {
    /// The rows of the table hold the reference ladders; beside them stand the
    /// inverse factorials.
    pub closed spec fn valid(&self) -> bool {
        &&& is_boys_table(self.rows@)
        &&& self.inv_fact@.len() == BOYS_K + 1
        &&& forall|k: int|
            0 <= k <= BOYS_K ==> #[trigger] self.inv_fact@[k] == inverse_factorial::<T>(k)
    }

    /// Build the table from the reference ladders.
    pub fn new() -> (b: Self)
        ensures
            b.valid(),
    {
        let zero = T::from_count(0);
        let mut rows: Vec<T> = filled(31_654, zero);
        let mut row: Vec<T> = filled(BOYS_ROW, zero);
        let mut i: usize = 0;
        while i <= BOYS_NGRID
            invariant
                i <= BOYS_NGRID + 1,
                rows@.len() == (BOYS_NGRID + 1) * BOYS_ROW,
                row@.len() == BOYS_ROW,
                forall|j: int, m: int|
                    0 <= j < i && 0 <= m < BOYS_ROW ==> #[trigger] rows@[pair(
                        j,
                        BOYS_ROW as int,
                        m,
                    )] == table_entry::<T>(j, m),
            decreases BOYS_NGRID + 1 - i,
        {
            let t0 = T::from_count(i as u64).times(ratio::<T>(1, 10));
            boys_reference(BOYS_STRIDE - 1, t0, &mut row);
            row[BOYS_STRIDE] = t0.negated().exp();
            let mut m: usize = 0;
            while m < BOYS_ROW
                invariant
                    m <= BOYS_ROW,
                    i <= BOYS_NGRID,
                    rows@.len() == (BOYS_NGRID + 1) * BOYS_ROW,
                    row@.len() == BOYS_ROW,
                    forall|k: int|
                        0 <= k < BOYS_ROW ==> #[trigger] row@[k] == table_entry::<T>(i as int, k),
                    forall|j: int, k: int|
                        0 <= j <= i && 0 <= k < BOYS_ROW && (j < i || k < m)
                            ==> #[trigger] rows@[pair(j, BOYS_ROW as int, k)] == table_entry::<T>(
                            j,
                            k,
                        ),
                decreases BOYS_ROW - m,
            {
                proof {
                    lemma_pair_in_range(
                        i as int,
                        BOYS_NGRID + 1,
                        BOYS_ROW as int,
                        m as int,
                    );
                }
                let ghost before = rows@;
                rows[i * BOYS_ROW + m] = row[m];
                proof {
                    assert forall|j: int, k: int|
                        0 <= j <= i && 0 <= k < BOYS_ROW && (j < i || k < m
                            + 1) implies #[trigger] rows@[pair(j, BOYS_ROW as int, k)]
                        == table_entry::<T>(j, k) by {
                        lemma_pair_order(j, k, i as int, m as int, BOYS_ROW as int);
                        lemma_pair_in_range(j, BOYS_NGRID + 1, BOYS_ROW as int, k);
                        assert(before[pair(j, BOYS_ROW as int, k)] == rows@[pair(
                            j,
                            BOYS_ROW as int,
                            k,
                        )] || (j == i && k == m));
                    }
                }
                m = m + 1;
            }
            i = i + 1;
        }
        let mut inv_fact: Vec<T> = Vec::new();
        inv_fact.push(T::from_count(1));
        let mut k: usize = 1;
        while k <= BOYS_K
            invariant
                1 <= k <= BOYS_K + 1,
                inv_fact@.len() == k,
                forall|j: int|
                    0 <= j < k ==> #[trigger] inv_fact@[j] == inverse_factorial::<T>(j),
            decreases BOYS_K + 1 - k,
        {
            let last = inv_fact[k - 1];
            assert(last == inverse_factorial::<T>(k - 1));
            inv_fact.push(last.over(T::from_count(k as u64)));
            k = k + 1;
        }
        BoysTable { rows, inv_fact }
    }

    /// Whether the table serves the ladder up to `m_max` at `t`, with the nearest
    /// grid point.
    fn locate(&self, m_max: usize, t: T) -> (r: (bool, usize))
        requires
            m_max + BOYS_K <= usize::MAX,
        ensures
            r.0 == on_table(m_max as int, t),
            r.0 ==> r.1 == nearest_point(t),
    {
        if t.less(asymptotic_boundary::<T>(BOYS_MAX_M)) && m_max + BOYS_K < BOYS_STRIDE {
            let i: usize = t.times(T::from_count(1).over(ratio::<T>(1, 10))).round();
            (i <= BOYS_NGRID, i)
        } else {
            (false, 0)
        }
    }

    /// `T0 - t` for the grid point `i`.
    fn offset_from(&self, i: usize, t: T) -> (d: T)
        ensures
            d == T::diff(grid_point::<T>(i as int), t),
    {
        T::from_count(i as u64).times(ratio::<T>(1, 10)).minus(t)
    }

    /// Entry `m` of the row of grid point `i`.
    fn entry(&self, i: usize, m: usize) -> (r: T)
        requires
            self.valid(),
            i <= BOYS_NGRID,
            m < BOYS_ROW,
        ensures
            r == table_entry::<T>(i as int, m as int),
    {
        proof {
            lemma_pair_in_range(i as int, BOYS_NGRID + 1, BOYS_ROW as int, m as int);
        }
        assert(self.rows@[pair(i as int, BOYS_ROW as int, m as int)] == table_entry::<T>(
            i as int,
            m as int,
        ));
        self.rows[i * BOYS_ROW + m]
    }

    /// The coefficient `k` of the top order about the grid point `i`.
    fn coefficient(&self, i: usize, m_max: usize, k: usize) -> (r: T)
        requires
            self.valid(),
            i <= BOYS_NGRID,
            m_max + BOYS_K < BOYS_STRIDE,
            k <= BOYS_K,
        ensures
            r == top_coefficients::<T>(m_max as int, i as int)(k as int),
    {
        self.entry(i, m_max + k).times(self.inverse(k))
    }

    /// `1/k!`.
    fn inverse(&self, k: usize) -> (r: T)
        requires
            self.valid(),
            k <= BOYS_K,
        ensures
            r == inverse_factorial::<T>(k as int),
    {
        assert(self.inv_fact@[k as int] == inverse_factorial::<T>(k as int));
        self.inv_fact[k]
    }

    /// `exp(d)` by its Taylor series.
    fn short_exp(&self, d: T) -> (r: T)
        requires
            self.valid(),
        ensures
            r == taylor(exp_coefficients::<T>(), d, 0),
    {
        let mut ep = self.inverse(BOYS_K);
        let mut k: usize = BOYS_K;
        while k > 0
            invariant
                k <= BOYS_K,
                self.valid(),
                ep == taylor(exp_coefficients::<T>(), d, k as int),
            decreases k,
        {
            ep = ep.times(d).plus(self.inverse(k - 1));
            k = k - 1;
        }
        ep
    }
}

/// `1/(2m-1)`.
fn inverse_odd<T: Scalar>(m: usize) -> (r: T)
    requires
        1 <= m,
        2 * m <= usize::MAX,
    ensures
        r == T::quot(T::count(1), T::count((2 * m - 1) as u64)),
{
    T::from_count(1).over(T::from_count((2 * m - 1) as u64))
}

/// The ladder `F_0(t) .. F_mmax(t)`, into the first entries of `out`: from the
/// table where it serves, else the reference ladder.
pub fn boys_array<T: Real>(table: &BoysTable<T>, m_max: usize, t: T, out: &mut [T])
    requires
        table.valid(),
        old(out)@.len() > m_max,
        2 * m_max + 2 * BOYS_TERMS + 1 <= usize::MAX,
    ensures
        final(out)@.len() == old(out)@.len(),
        forall|m: int| 0 <= m <= m_max ==> #[trigger] final(out)@[m] == ladder(m_max as int, t, m),
        forall|m: int| m_max < m < old(out)@.len() ==> #[trigger] final(out)@[m] == old(out)@[m],
{
    let (served, i) = table.locate(m_max, t);
    if !served {
        boys_reference(m_max, t, out);
        return ;
    }
    let d = table.offset_from(i, t);
    let mut top = table.coefficient(i, m_max, BOYS_K);
    let mut k: usize = BOYS_K;
    while k > 0
        invariant
            k <= BOYS_K,
            table.valid(),
            i <= BOYS_NGRID,
            m_max + BOYS_K < BOYS_STRIDE,
            top == taylor(top_coefficients::<T>(m_max as int, i as int), d, k as int),
        decreases k,
    {
        top = top.times(d).plus(table.coefficient(i, m_max, k - 1));
        k = k - 1;
    }
    out[m_max] = top;
    if m_max > 0 {
        let et = table.entry(i, BOYS_STRIDE).times(table.short_exp(d));
        let two_t = T::from_count(2).times(t);
        let mut m: usize = m_max;
        while m > 0
            invariant
                m <= m_max,
                out@.len() == old(out)@.len(),
                out@.len() > m_max,
                2 * m_max + 2 * BOYS_TERMS + 1 <= usize::MAX,
                et == table_exp(t),
                two_t == T::prod(T::count(2), t),
                forall|c: int|
                    m <= c <= m_max ==> #[trigger] out@[c] == table_ladder(m_max as int, t, c),
                forall|c: int| m_max < c < out@.len() ==> #[trigger] out@[c] == old(out)@[c],
            decreases m,
        {
            let up = out[m];
            out[m - 1] = two_t.times(up).plus(et).times(inverse_odd::<T>(m));
            m = m - 1;
        }
    }
}

/// Two ladders at once, with their chains of operations interleaved. Each is the
/// ladder of [`boys_array`].
pub fn boys_array2<T: Real>(
    table: &BoysTable<T>,
    m_max: usize,
    t0: T,
    t1: T,
    out0: &mut [T],
    out1: &mut [T],
)
    requires
        table.valid(),
        old(out0)@.len() > m_max,
        old(out1)@.len() > m_max,
        2 * m_max + 2 * BOYS_TERMS + 1 <= usize::MAX,
    ensures
        final(out0)@.len() == old(out0)@.len(),
        final(out1)@.len() == old(out1)@.len(),
        forall|m: int|
            0 <= m <= m_max ==> #[trigger] final(out0)@[m] == ladder(m_max as int, t0, m),
        forall|m: int|
            0 <= m <= m_max ==> #[trigger] final(out1)@[m] == ladder(m_max as int, t1, m),
        forall|m: int| m_max < m < old(out0)@.len() ==> #[trigger] final(out0)@[m] == old(out0)@[m],
        forall|m: int| m_max < m < old(out1)@.len() ==> #[trigger] final(out1)@[m] == old(out1)@[m],
{
    let (served0, i0) = table.locate(m_max, t0);
    let (served1, i1) = table.locate(m_max, t1);
    if !(served0 && served1) {
        boys_array(table, m_max, t0, out0);
        boys_array(table, m_max, t1, out1);
        return ;
    }
    let d0 = table.offset_from(i0, t0);
    let d1 = table.offset_from(i1, t1);
    let mut top0 = table.coefficient(i0, m_max, BOYS_K);
    let mut top1 = table.coefficient(i1, m_max, BOYS_K);
    let mut k: usize = BOYS_K;
    while k > 0
        invariant
            k <= BOYS_K,
            table.valid(),
            i0 <= BOYS_NGRID,
            i1 <= BOYS_NGRID,
            m_max + BOYS_K < BOYS_STRIDE,
            top0 == taylor(top_coefficients::<T>(m_max as int, i0 as int), d0, k as int),
            top1 == taylor(top_coefficients::<T>(m_max as int, i1 as int), d1, k as int),
        decreases k,
    {
        top0 = top0.times(d0).plus(table.coefficient(i0, m_max, k - 1));
        top1 = top1.times(d1).plus(table.coefficient(i1, m_max, k - 1));
        k = k - 1;
    }
    out0[m_max] = top0;
    out1[m_max] = top1;
    if m_max > 0 {
        let et0 = table.entry(i0, BOYS_STRIDE).times(table.short_exp(d0));
        let et1 = table.entry(i1, BOYS_STRIDE).times(table.short_exp(d1));
        let two_t0 = T::from_count(2).times(t0);
        let two_t1 = T::from_count(2).times(t1);
        let mut m: usize = m_max;
        while m > 0
            invariant
                m <= m_max,
                out0@.len() == old(out0)@.len(),
                out1@.len() == old(out1)@.len(),
                out0@.len() > m_max,
                out1@.len() > m_max,
                2 * m_max + 2 * BOYS_TERMS + 1 <= usize::MAX,
                et0 == table_exp(t0),
                et1 == table_exp(t1),
                two_t0 == T::prod(T::count(2), t0),
                two_t1 == T::prod(T::count(2), t1),
                forall|c: int|
                    m <= c <= m_max ==> #[trigger] out0@[c] == table_ladder(m_max as int, t0, c),
                forall|c: int|
                    m <= c <= m_max ==> #[trigger] out1@[c] == table_ladder(m_max as int, t1, c),
                forall|c: int| m_max < c < out0@.len() ==> #[trigger] out0@[c] == old(out0)@[c],
                forall|c: int| m_max < c < out1@.len() ==> #[trigger] out1@[c] == old(out1)@[c],
            decreases m,
        {
            let up0 = out0[m];
            let up1 = out1[m];
            out0[m - 1] = two_t0.times(up0).plus(et0).times(inverse_odd::<T>(m));
            out1[m - 1] = two_t1.times(up1).plus(et1).times(inverse_odd::<T>(m));
            m = m - 1;
        }
    }
}

/// Four ladders in lockstep, one per lane: `out[m]` holds `F_m` of all four. Each
/// lane is the ladder of [`boys_array`].
pub fn boys_array4<T: Real>(
    table: &BoysTable<T>,
    m_max: usize,
    t: Lanes<T>,
    out: &mut [Lanes<T>],
)
    requires
        table.valid(),
        old(out)@.len() > m_max,
        2 * m_max + 2 * BOYS_TERMS + 1 <= usize::MAX,
    ensures
        final(out)@.len() == old(out)@.len(),
        forall|m: int, lane: int|
            0 <= m <= m_max && 0 <= lane < 4 ==> (#[trigger] final(out)@[m].at(lane)) == ladder(
                m_max as int,
                t.at(lane),
                m,
            ),
        forall|m: int| m_max < m < old(out)@.len() ==> #[trigger] final(out)@[m] == old(out)@[m],
{
    let (s0, i0) = table.locate(m_max, t.x0);
    let (s1, i1) = table.locate(m_max, t.x1);
    let (s2, i2) = table.locate(m_max, t.x2);
    let (s3, i3) = table.locate(m_max, t.x3);
    if !(s0 && s1 && s2 && s3) {
        let zero = T::from_count(0);
        let mut r0: Vec<T> = filled(m_max + 1, zero);
        let mut r1: Vec<T> = filled(m_max + 1, zero);
        let mut r2: Vec<T> = filled(m_max + 1, zero);
        let mut r3: Vec<T> = filled(m_max + 1, zero);
        boys_array(table, m_max, t.x0, &mut r0);
        boys_array(table, m_max, t.x1, &mut r1);
        boys_array(table, m_max, t.x2, &mut r2);
        boys_array(table, m_max, t.x3, &mut r3);
        let mut m: usize = 0;
        while m <= m_max
            invariant
                m <= m_max + 1,
                m_max < usize::MAX,
                out@.len() == old(out)@.len(),
                out@.len() > m_max,
                r0@.len() == m_max + 1,
                r1@.len() == m_max + 1,
                r2@.len() == m_max + 1,
                r3@.len() == m_max + 1,
                forall|c: int|
                    0 <= c <= m_max ==> #[trigger] r0@[c] == ladder(m_max as int, t.x0, c),
                forall|c: int|
                    0 <= c <= m_max ==> #[trigger] r1@[c] == ladder(m_max as int, t.x1, c),
                forall|c: int|
                    0 <= c <= m_max ==> #[trigger] r2@[c] == ladder(m_max as int, t.x2, c),
                forall|c: int|
                    0 <= c <= m_max ==> #[trigger] r3@[c] == ladder(m_max as int, t.x3, c),
                forall|c: int, lane: int|
                    0 <= c < m && 0 <= lane < 4 ==> (#[trigger] out@[c].at(lane)) == ladder(
                        m_max as int,
                        t.at(lane),
                        c,
                    ),
                forall|c: int| m_max < c < out@.len() ==> #[trigger] out@[c] == old(out)@[c],
            decreases m_max + 1 - m,
        {
            out[m] = Lanes { x0: r0[m], x1: r1[m], x2: r2[m], x3: r3[m] };
            m = m + 1;
        }
        return ;
    }
    let d = Lanes {
        x0: table.offset_from(i0, t.x0),
        x1: table.offset_from(i1, t.x1),
        x2: table.offset_from(i2, t.x2),
        x3: table.offset_from(i3, t.x3),
    };
    let mut top = Lanes {
        x0: table.coefficient(i0, m_max, BOYS_K),
        x1: table.coefficient(i1, m_max, BOYS_K),
        x2: table.coefficient(i2, m_max, BOYS_K),
        x3: table.coefficient(i3, m_max, BOYS_K),
    };
    let mut k: usize = BOYS_K;
    while k > 0
        invariant
            k <= BOYS_K,
            table.valid(),
            i0 <= BOYS_NGRID,
            i1 <= BOYS_NGRID,
            i2 <= BOYS_NGRID,
            i3 <= BOYS_NGRID,
            m_max + BOYS_K < BOYS_STRIDE,
            top.x0 == taylor(top_coefficients::<T>(m_max as int, i0 as int), d.x0, k as int),
            top.x1 == taylor(top_coefficients::<T>(m_max as int, i1 as int), d.x1, k as int),
            top.x2 == taylor(top_coefficients::<T>(m_max as int, i2 as int), d.x2, k as int),
            top.x3 == taylor(top_coefficients::<T>(m_max as int, i3 as int), d.x3, k as int),
        decreases k,
    {
        let c = Lanes {
            x0: table.coefficient(i0, m_max, k - 1),
            x1: table.coefficient(i1, m_max, k - 1),
            x2: table.coefficient(i2, m_max, k - 1),
            x3: table.coefficient(i3, m_max, k - 1),
        };
        top = top.times(d).plus(c);
        k = k - 1;
    }
    out[m_max] = top;
    if m_max > 0 {
        let et = Lanes {
            x0: table.entry(i0, BOYS_STRIDE).times(table.short_exp(d.x0)),
            x1: table.entry(i1, BOYS_STRIDE).times(table.short_exp(d.x1)),
            x2: table.entry(i2, BOYS_STRIDE).times(table.short_exp(d.x2)),
            x3: table.entry(i3, BOYS_STRIDE).times(table.short_exp(d.x3)),
        };
        let two_t = <Lanes<T> as Scalar>::from_count(2).times(t);
        let mut m: usize = m_max;
        while m > 0
            invariant
                m <= m_max,
                out@.len() == old(out)@.len(),
                out@.len() > m_max,
                2 * m_max + 2 * BOYS_TERMS + 1 <= usize::MAX,
                forall|lane: int| 0 <= lane < 4 ==> #[trigger] et.at(lane) == table_exp(t.at(lane)),
                forall|lane: int|
                    0 <= lane < 4 ==> #[trigger] two_t.at(lane) == T::prod(
                        T::count(2),
                        t.at(lane),
                    ),
                forall|c: int, lane: int|
                    m <= c <= m_max && 0 <= lane < 4 ==> (#[trigger] out@[c].at(lane))
                        == table_ladder(m_max as int, t.at(lane), c),
                forall|c: int| m_max < c < out@.len() ==> #[trigger] out@[c] == old(out)@[c],
            decreases m,
        {
            let up = out[m];
            let lower = two_t.times(up).plus(et).times(inverse_odd::<Lanes<T>>(m));
            proof {
                assert forall|lane: int| 0 <= lane < 4 implies #[trigger] lower.at(lane)
                    == table_ladder(m_max as int, t.at(lane), m - 1) by {
                    assert(up.at(lane) == table_ladder(m_max as int, t.at(lane), m as int));
                    assert(et.at(lane) == table_exp(t.at(lane)));
                    assert(two_t.at(lane) == T::prod(T::count(2), t.at(lane)));
                }
            }
            out[m - 1] = lower;
            m = m - 1;
        }
    }
}

/// The ladder of the attenuated kernel `erf(omega r)/r`, into the first entries of
/// `out`: `s^(m+1/2) F_m(s t)` with `s = omega^2/(rho + omega^2)`.
pub fn boys_array_erf<T: Real>(
    table: &BoysTable<T>,
    m_max: usize,
    t: T,
    rho: T,
    omega: T,
    out: &mut [T],
)
    requires
        table.valid(),
        old(out)@.len() > m_max,
        2 * m_max + 2 * BOYS_TERMS + 1 <= usize::MAX,
    ensures
        final(out)@.len() == old(out)@.len(),
        forall|m: int|
            0 <= m <= m_max ==> #[trigger] final(out)@[m] == attenuated_ladder(
                m_max as int,
                t,
                rho,
                omega,
                m,
            ),
        forall|m: int| m_max < m < old(out)@.len() ==> #[trigger] final(out)@[m] == old(out)@[m],
{
    let s = omega.times(omega).over(rho.plus(omega.times(omega)));
    boys_array(table, m_max, s.times(t), out);
    let ghost plain = out@;
    let mut factor = s.sqrt();
    let mut m: usize = 0;
    while m <= m_max
        invariant
            m <= m_max + 1,
            m_max < usize::MAX,
            s == attenuation(rho, omega),
            factor == half_power(s, m as int),
            out@.len() == old(out)@.len(),
            out@.len() > m_max,
            forall|c: int|
                m <= c <= m_max ==> #[trigger] out@[c] == ladder(m_max as int, T::prod(s, t), c),
            forall|c: int|
                0 <= c < m ==> #[trigger] out@[c] == attenuated_ladder(
                    m_max as int,
                    t,
                    rho,
                    omega,
                    c,
                ),
            forall|c: int| m_max < c < out@.len() ==> #[trigger] out@[c] == old(out)@[c],
        decreases m_max + 1 - m,
    {
        let v = out[m];
        out[m] = v.times(factor);
        factor = factor.times(s);
        m = m + 1;
    }
}

/// `F_m(t)`.
#[must_use]
pub fn boys<T: Real>(table: &BoysTable<T>, m: usize, t: T) -> (r: T)
    requires
        table.valid(),
        2 * m + 2 * BOYS_TERMS + 1 <= usize::MAX,
    ensures
        r == ladder(m as int, t, m as int),
{
    let mut buf: Vec<T> = filled(m + 1, T::from_count(0));
    boys_array(table, m, t, &mut buf);
    buf[m]
}

} // verus!
