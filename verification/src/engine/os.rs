//! One-electron integrals over primitive Cartesian Gaussians.
//!
//! A primitive is `(x-A_x)^lx (y-A_y)^ly (z-A_z)^lz exp(-alpha |r-A|^2)`, without
//! normalization. For a pair `(alpha, A)`, `(beta, B)`:
//!
//! ```text
//!   p = alpha + beta,   P = (alpha A + beta B)/p,   mu = alpha beta / p,
//!   K_AB = exp(-mu |A-B|^2).
//! ```
//!
//! Every routine adds its values, times a scale, to a block of shape
//! `(n_cart(la), n_cart(lb))`, row-major, in the component order of
//! [`crate::math::am`].
use vstd::prelude::*;

use crate::engine::os_eri::MAX_L;
use crate::engine::pairs::{combine, difference, square, weighted_center, Vec3};
use crate::engine::triples::lemma_small_degree;
use crate::flat::{
    added, lemma_added_step, lemma_pair_in_range, lemma_pair_order, lemma_pair_parts, pair,
};
use crate::math::am::{
    cart_components, cart_count, component_at, is_component, lemma_listed_components, n_cart,
    powers, Powers,
};
use crate::scalar::{filled, fraction, ratio, Real, Scalar};

verus! {

/// One primitive Gaussian: exponent, center and angular momentum.
#[derive(Clone, Copy, Debug)]
pub struct Prim<T> {
    pub exp: T,
    pub center: Vec3<T>,
    pub l: usize,
}

impl<T: Copy> Prim<T> {
    /// A primitive of the given exponent, center and angular momentum.
    #[must_use]
    pub fn new(exp: T, center: Vec3<T>, l: usize) -> (r: Self)
        ensures
            r == (Prim { exp, center, l }),
    {
        Prim { exp, center, l }
    }
}

/// What the product of two primitives is made of.
#[derive(Clone, Copy, Debug)]
pub struct Pair<T> {
    /// `alpha + beta`.
    pub p: T,
    /// `1/2p`.
    pub one_over_2p: T,
    /// Product center.
    pub p_center: Vec3<T>,
    /// `alpha beta / p`.
    pub mu: T,
    /// `|A-B|^2`.
    pub ab2: T,
}

/// The product of a primitive of exponent `alpha` at `a` with one of exponent `beta`
/// at `b`.
pub open spec fn product_of<T: Scalar>(alpha: T, a: Vec3<T>, beta: T, b: Vec3<T>) -> Pair<T> {
    let p = T::sum(alpha, beta);
    Pair {
        p,
        one_over_2p: T::quot(fraction::<T>(1, 2), p),
        p_center: weighted_center(alpha, a, beta, b, p),
        mu: T::quot(T::prod(alpha, beta), p),
        ab2: square(difference(a, b)),
    }
}

/// The product of a primitive of exponent `alpha` at `a` with one of exponent `beta`
/// at `b`.
pub fn make_pair<T: Scalar>(alpha: T, a: Vec3<T>, beta: T, b: Vec3<T>) -> (r: Pair<T>)
    ensures
        r == product_of(alpha, a, beta, b),
{
    let p = alpha.plus(beta);
    Pair {
        p,
        one_over_2p: ratio::<T>(1, 2).over(p),
        p_center: combine(alpha, a, beta, b, p),
        mu: alpha.times(beta).over(p),
        ab2: crate::engine::pairs::dist2(a, b),
    }
}

/// What the overlap recurrence along one axis runs on: `1/2p`, `P-A`, `P-B` and
/// the overlap of the two lowest functions.
#[derive(Clone, Copy, Debug)]
pub struct Axis<T> {
    pub h: T,
    pub pa: T,
    pub pb: T,
    pub base: T,
}

/// The overlap of powers `i` and `j` along one axis:
///
/// ```text
///   S(i, 0) = pa S(i-1, 0) + h (i-1) S(i-2, 0)
///   S(i, j) = pb S(i, j-1) + h [ i S(i-1, j-1) + (j-1) S(i, j-2) ]
/// ```
pub open spec fn axis_overlap<T: Scalar>(x: Axis<T>, i: int, j: int) -> T
    decreases j, i,
{
    if j <= 0 {
        if i <= 0 {
            x.base
        } else {
            T::sum(
                T::prod(x.pa, axis_overlap(x, i - 1, j)),
                T::prod(
                    x.h,
                    if i >= 2 {
                        T::prod(T::count((i - 1) as u64), axis_overlap(x, i - 2, j))
                    } else {
                        T::count(0)
                    },
                ),
            )
        }
    } else {
        T::sum(
            T::prod(x.pb, axis_overlap(x, i, j - 1)),
            T::prod(
                x.h,
                T::sum(
                    if i >= 1 {
                        T::prod(T::count(i as u64), axis_overlap(x, i - 1, j - 1))
                    } else {
                        T::count(0)
                    },
                    if j >= 2 {
                        T::prod(T::count((j - 1) as u64), axis_overlap(x, i, j - 2))
                    } else {
                        T::count(0)
                    },
                ),
            ),
        )
    }
}

/// The overlap of the two lowest functions along an axis on which the centers are
/// `d` apart: `sqrt(pi/p) exp(-mu d^2)`.
pub open spec fn lowest_overlap<T: Real>(pair: Pair<T>, d: T) -> T {
    T::prod(
        T::root(T::quot(T::circle(), pair.p)),
        T::expo(T::prod(T::prod(T::neg(pair.mu), d), d)),
    )
}

/// The overlap of the two lowest functions along an axis on which the centers are
/// `d` apart.
fn axis_base<T: Real>(pair: &Pair<T>, d: T) -> (r: T)
    ensures
        r == lowest_overlap(*pair, d),
{
    T::pi().over(pair.p).sqrt().times(pair.mu.negated().times(d).times(d).exp())
}

/// The overlap recurrence of two primitives along axis `k`.
pub open spec fn axis_of<T: Real>(a: Prim<T>, b: Prim<T>, k: int) -> Axis<T> {
    let pr = product_of(a.exp, a.center, b.exp, b.center);
    Axis {
        h: pr.one_over_2p,
        pa: T::diff(pr.p_center[k], a.center[k]),
        pb: T::diff(pr.p_center[k], b.center[k]),
        base: lowest_overlap(pr, T::diff(a.center[k], b.center[k])),
    }
}

/// The overlap recurrence of two primitives along axis `k`.
fn axis_between<T: Real>(a: Prim<T>, b: Prim<T>, pr: &Pair<T>, k: usize) -> (r: Axis<T>)
    requires
        *pr == product_of(a.exp, a.center, b.exp, b.center),
        k < 3,
    ensures
        r == axis_of(a, b, k as int),
{
    Axis {
        h: pr.one_over_2p,
        pa: pr.p_center[k].minus(a.center[k]),
        pb: pr.p_center[k].minus(b.center[k]),
        base: axis_base(pr, a.center[k].minus(b.center[k])),
    }
}

/// Whether `s` holds the overlaps of powers up to `i_max` and `j_max` along one
/// axis, row by row.
pub open spec fn overlaps_listed<T: Scalar>(s: Seq<T>, x: Axis<T>, i_max: int, j_max: int) -> bool {
    &&& s.len() == (i_max + 1) * (j_max + 1)
    &&& forall|i: int, j: int|
        0 <= i <= i_max && 0 <= j <= j_max ==> #[trigger] s[pair(i, j_max + 1, j)] == axis_overlap(
            x,
            i,
            j,
        )
}

/// The overlaps of powers up to `i_max` and `j_max` along one axis.
pub fn overlap_1d<T: Scalar>(x: Axis<T>, i_max: usize, j_max: usize) -> (s: Vec<T>)
    requires
        i_max < 256,
        j_max < 256,
    ensures
        overlaps_listed(s@, x, i_max as int, j_max as int),
{
    let n: usize = j_max + 1;
    let zero = T::from_count(0);
    assert((i_max + 1) * (j_max + 1) <= 65536) by (nonlinear_arith)
        requires
            i_max < 256,
            j_max < 256,
    ;
    let mut s = filled((i_max + 1) * n, zero);
    let ghost (im, jm) = (i_max as int, j_max as int);
    proof {
        lemma_pair_in_range(0, im + 1, jm + 1, 0);
    }
    s[0] = x.base;
    let mut i: usize = 1;
    while i <= i_max
        invariant
            1 <= i <= i_max + 1,
            n == j_max + 1,
            im == i_max,
            jm == j_max,
            i_max < 256,
            j_max < 256,
            zero == T::count(0),
            s@.len() == (im + 1) * (jm + 1),
            (i_max + 1) * (j_max + 1) <= 65536,
            forall|r: int|
                0 <= r < i ==> #[trigger] s@[pair(r, jm + 1, 0)] == axis_overlap(x, r, 0),
        decreases i_max + 1 - i,
    {
        proof {
            lemma_pair_in_range(i as int, im + 1, jm + 1, 0);
            lemma_pair_in_range(i - 1, im + 1, jm + 1, 0);
            assert(s@[pair(i - 1, jm + 1, 0)] == axis_overlap(x, i - 1, 0));
            if i >= 2 {
                lemma_pair_in_range(i - 2, im + 1, jm + 1, 0);
                assert(s@[pair(i - 2, jm + 1, 0)] == axis_overlap(x, i - 2, 0));
            }
        }
        let prev2 = if i >= 2 {
            T::from_count((i - 1) as u64).times(s[(i - 2) * n])
        } else {
            zero
        };
        let ghost before = s@;
        let v = x.pa.times(s[(i - 1) * n]).plus(x.h.times(prev2));
        s[i * n] = v;
        proof {
            assert(v == axis_overlap(x, i as int, 0));
            assert forall|r: int| 0 <= r < i + 1 implies #[trigger] s@[pair(r, jm + 1, 0)]
                == axis_overlap(x, r, 0) by {
                lemma_pair_in_range(r, im + 1, jm + 1, 0);
                lemma_pair_order(r, 0, i as int, 0, jm + 1);
                assert(before[pair(r, jm + 1, 0)] == s@[pair(r, jm + 1, 0)] || r == i);
            }
        }
        i = i + 1;
    }
    let mut j: usize = 1;
    while j <= j_max
        invariant
            1 <= j <= j_max + 1,
            n == j_max + 1,
            im == i_max,
            jm == j_max,
            i_max < 256,
            j_max < 256,
            zero == T::count(0),
            s@.len() == (im + 1) * (jm + 1),
            (i_max + 1) * (j_max + 1) <= 65536,
            forall|r: int, c: int|
                0 <= r <= im && 0 <= c < j ==> #[trigger] s@[pair(r, jm + 1, c)] == axis_overlap(
                    x,
                    r,
                    c,
                ),
        decreases j_max + 1 - j,
    {
        let mut i: usize = 0;
        while i <= i_max
            invariant
                0 <= i <= i_max + 1,
                1 <= j <= j_max,
                n == j_max + 1,
                im == i_max,
                jm == j_max,
                i_max < 256,
                j_max < 256,
                zero == T::count(0),
                s@.len() == (im + 1) * (jm + 1),
                (i_max + 1) * (j_max + 1) <= 65536,
                forall|r: int, c: int|
                    0 <= r <= im && 0 <= c && (c < j || (c == j && r < i)) ==> #[trigger] s@[pair(
                        r,
                        jm + 1,
                        c,
                    )] == axis_overlap(x, r, c),
            decreases i_max + 1 - i,
        {
            proof {
                lemma_pair_in_range(i as int, im + 1, jm + 1, j as int);
                lemma_pair_in_range(i as int, im + 1, jm + 1, j - 1);
                assert(s@[pair(i as int, jm + 1, j - 1)] == axis_overlap(x, i as int, j - 1));
                if i >= 1 {
                    lemma_pair_in_range(i - 1, im + 1, jm + 1, j - 1);
                    assert(s@[pair(i - 1, jm + 1, j - 1)] == axis_overlap(x, i - 1, j - 1));
                }
                if j >= 2 {
                    lemma_pair_in_range(i as int, im + 1, jm + 1, j - 2);
                    assert(s@[pair(i as int, jm + 1, j - 2)] == axis_overlap(x, i as int, j - 2));
                }
            }
            let from_i = if i >= 1 {
                T::from_count(i as u64).times(s[(i - 1) * n + (j - 1)])
            } else {
                zero
            };
            let from_j = if j >= 2 {
                T::from_count((j - 1) as u64).times(s[i * n + (j - 2)])
            } else {
                zero
            };
            let ghost before = s@;
            let v = x.pb.times(s[i * n + (j - 1)]).plus(x.h.times(from_i.plus(from_j)));
            s[i * n + j] = v;
            proof {
                assert(v == axis_overlap(x, i as int, j as int));
                assert forall|r: int, c: int|
                    0 <= r <= im && 0 <= c && (c < j || (c == j && r < i + 1)) implies #[trigger] s@[pair(
                    r,
                    jm + 1,
                    c,
                )] == axis_overlap(x, r, c) by {
                    lemma_pair_in_range(r, im + 1, jm + 1, c);
                    lemma_pair_order(r, c, i as int, j as int, jm + 1);
                    assert(before[pair(r, jm + 1, c)] == s@[pair(r, jm + 1, c)] || (r == i && c
                        == j));
                }
            }
            i = i + 1;
        }
        j = j + 1;
    }
    s
}

/// Number of component pairs of two shells.
pub open spec fn block_size(la: int, lb: int) -> int {
    cart_count(la) * cart_count(lb)
}

/// The component pair at index `k` of the block of two shells.
pub open spec fn pair_at(la: int, lb: int, k: int) -> (Powers, Powers) {
    (component_at(la, k / cart_count(lb)), component_at(lb, k % cart_count(lb)))
}

/// The overlap of component `ca` of `a` with component `cb` of `b`.
pub open spec fn overlap_value<T: Real>(a: Prim<T>, b: Prim<T>, ca: Powers, cb: Powers) -> T {
    T::prod(
        T::prod(
            axis_overlap(axis_of(a, b, 0), ca.0, cb.0),
            axis_overlap(axis_of(a, b, 1), ca.1, cb.1),
        ),
        axis_overlap(axis_of(a, b, 2), ca.2, cb.2),
    )
}

/// The scaled overlaps of two primitives, by index in their block.
pub open spec fn overlap_entries<T: Real>(a: Prim<T>, b: Prim<T>, scale: T) -> spec_fn(int) -> T {
    |k: int|
        {
            let (ca, cb) = pair_at(a.l as int, b.l as int, k);
            T::prod(scale, overlap_value(a, b, ca, cb))
        }
}

/// The kinetic factor of powers `i` and `j` along one axis, for a ket exponent
/// `beta`: `beta (2j+1) S(i,j) - 2 beta^2 S(i,j+2) - 1/2 j (j-1) S(i,j-2)`.
pub open spec fn axis_kinetic<T: Scalar>(x: Axis<T>, beta: T, i: int, j: int) -> T {
    T::diff(
        T::diff(
            T::prod(T::prod(beta, T::count((2 * j + 1) as u64)), axis_overlap(x, i, j)),
            T::prod(T::prod(T::prod(T::count(2), beta), beta), axis_overlap(x, i, j + 2)),
        ),
        if j >= 2 {
            T::prod(
                T::prod(fraction::<T>(1, 2), T::count((j * (j - 1)) as u64)),
                axis_overlap(x, i, j - 2),
            )
        } else {
            T::count(0)
        },
    )
}

/// The kinetic energy between component `ca` of `a` and component `cb` of `b`:
/// `Tx Sy Sz + Sx Ty Sz + Sx Sy Tz`.
pub open spec fn kinetic_value<T: Real>(a: Prim<T>, b: Prim<T>, ca: Powers, cb: Powers) -> T {
    let (x, y, z) = (axis_of(a, b, 0), axis_of(a, b, 1), axis_of(a, b, 2));
    let (sx, sy, sz) = (
        axis_overlap(x, ca.0, cb.0),
        axis_overlap(y, ca.1, cb.1),
        axis_overlap(z, ca.2, cb.2),
    );
    let (tx, ty, tz) = (
        axis_kinetic(x, b.exp, ca.0, cb.0),
        axis_kinetic(y, b.exp, ca.1, cb.1),
        axis_kinetic(z, b.exp, ca.2, cb.2),
    );
    T::sum(
        T::sum(T::prod(T::prod(tx, sy), sz), T::prod(T::prod(sx, ty), sz)),
        T::prod(T::prod(sx, sy), tz),
    )
}

/// The scaled kinetic energies of two primitives, by index in their block.
pub open spec fn kinetic_entries<T: Real>(a: Prim<T>, b: Prim<T>, scale: T) -> spec_fn(int) -> T {
    |k: int|
        {
            let (ca, cb) = pair_at(a.l as int, b.l as int, k);
            T::prod(scale, kinetic_value(a, b, ca, cb))
        }
}

/// The first moment of powers `i` and `j` along one axis about an origin that is
/// `po` from the product center: `po S(i,j) + h [ i S(i-1,j) + j S(i,j-1) ]`.
pub open spec fn axis_moment<T: Scalar>(x: Axis<T>, po: T, i: int, j: int) -> T {
    T::sum(
        T::prod(po, axis_overlap(x, i, j)),
        T::prod(
            x.h,
            T::sum(
                if i >= 1 {
                    T::prod(T::count(i as u64), axis_overlap(x, i - 1, j))
                } else {
                    T::count(0)
                },
                if j >= 1 {
                    T::prod(T::count(j as u64), axis_overlap(x, i, j - 1))
                } else {
                    T::count(0)
                },
            ),
        ),
    )
}

/// Axis `m` of the pair of components: the first moment where `m` is the axis `k`
/// of the dipole, the overlap elsewhere.
pub open spec fn dipole_factor<T: Real>(
    a: Prim<T>,
    b: Prim<T>,
    o: Vec3<T>,
    k: int,
    m: int,
    i: int,
    j: int,
) -> T {
    let x = axis_of(a, b, m);
    if m == k {
        let pr = product_of(a.exp, a.center, b.exp, b.center);
        axis_moment(x, T::diff(pr.p_center[m], o[m]), i, j)
    } else {
        axis_overlap(x, i, j)
    }
}

/// The scaled dipoles along axis `k` of two primitives, by index in their block.
pub open spec fn dipole_entries<T: Real>(
    a: Prim<T>,
    b: Prim<T>,
    o: Vec3<T>,
    scale: T,
    k: int,
) -> spec_fn(int) -> T {
    |i: int|
        {
            let (ca, cb) = pair_at(a.l as int, b.l as int, i);
            T::prod(
                T::prod(
                    T::prod(scale, dipole_factor(a, b, o, k, 0, ca.0, cb.0)),
                    dipole_factor(a, b, o, k, 1, ca.1, cb.1),
                ),
                dipole_factor(a, b, o, k, 2, ca.2, cb.2),
            )
        }
}

/// Bounds on the blocks of two shells.
pub proof fn lemma_block_bounds(la: int, lb: int)
    requires
        0 <= la <= 12,
        0 <= lb <= 12,
    ensures
        1 <= cart_count(la) <= 351,
        1 <= cart_count(lb) <= 351,
        1 <= (la + 1) * (la + 2) <= 702,
        1 <= (lb + 1) * (lb + 2) <= 702,
        1 <= block_size(la, lb) <= 351 * 351,
{
    lemma_small_degree(la);
    lemma_small_degree(lb);
    let (x, y) = (cart_count(la), cart_count(lb));
    assert(1 <= x * y <= 351 * 351) by (nonlinear_arith)
        requires
            1 <= x <= 351,
            1 <= y <= 351,
    ;
}

/// The component pair at row `ia`, column `ib`, of the block of two shells.
pub proof fn lemma_pair_at(la: int, lb: int, ia: int, ib: int)
    requires
        0 <= la <= 12,
        0 <= lb <= 12,
        0 <= ia < cart_count(la),
        0 <= ib < cart_count(lb),
    ensures
        0 <= ia * cart_count(lb),
        0 <= pair(ia, cart_count(lb), ib) < block_size(la, lb),
        pair_at(la, lb, pair(ia, cart_count(lb), ib)) == (component_at(la, ia), component_at(lb, ib)),
        is_component(component_at(la, ia), la),
        is_component(component_at(lb, ib), lb),
{
    lemma_pair_in_range(ia, cart_count(la), cart_count(lb), ib);
    lemma_pair_parts(ia, cart_count(lb), ib);
    crate::math::am::law_every_position_is_taken(la, ia);
    crate::math::am::law_every_position_is_taken(lb, ib);
}

/// The entry of powers `i` and `j` of a table of overlaps.
fn overlap_of<T: Scalar>(
    s: &Vec<T>,
    Ghost(x): Ghost<Axis<T>>,
    i_max: usize,
    j_max: usize,
    i: usize,
    j: usize,
) -> (r: T)
    requires
        overlaps_listed(s@, x, i_max as int, j_max as int),
        i <= i_max < 100,
        j <= j_max < 100,
    ensures
        r == axis_overlap(x, i as int, j as int),
{
    proof {
        lemma_pair_in_range(i as int, i_max + 1, j_max + 1, j as int);
        assert(s@[pair(i as int, j_max + 1, j as int)] == axis_overlap(x, i as int, j as int));
        assert(i * (j_max + 1) <= 10000) by (nonlinear_arith)
            requires
                i < 100,
                j_max < 100,
        ;
    }
    s[i * (j_max + 1) + j]
}

/// Add `scale <a|b>` to `out` for all component pairs.
pub fn overlap_into<T: Real>(a: Prim<T>, b: Prim<T>, scale: T, out: &mut [T])
    requires
        a.l <= MAX_L,
        b.l <= MAX_L,
        old(out)@.len() >= block_size(a.l as int, b.l as int),
    ensures
        final(out)@ == added(
            old(out)@,
            block_size(a.l as int, b.l as int),
            overlap_entries(a, b, scale),
        ),
{
    let (la, lb) = (a.l, b.l);
    proof {
        lemma_block_bounds(la as int, lb as int);
    }
    let pr = make_pair(a.exp, a.center, b.exp, b.center);
    let sx = overlap_1d(axis_between(a, b, &pr, 0), la, lb);
    let sy = overlap_1d(axis_between(a, b, &pr, 1), la, lb);
    let sz = overlap_1d(axis_between(a, b, &pr, 2), la, lb);
    let comps_a = cart_components(la);
    let comps_b = cart_components(lb);
    let (na, nb) = (n_cart(la), n_cart(lb));
    let ghost old_out = out@;
    let ghost g = overlap_entries(a, b, scale);
    proof {
        lemma_listed_components(comps_a@, la as int);
        lemma_listed_components(comps_b@, lb as int);
        assert(added(old_out, 0, g) =~= old_out);
    }
    let mut ia: usize = 0;
    while ia < na
        invariant
            ia <= na,
            la == a.l,
            lb == b.l,
            la <= MAX_L,
            lb <= MAX_L,
            na == cart_count(la as int),
            nb == cart_count(lb as int),
            comps_a@.len() == na,
            comps_b@.len() == nb,
            forall|i: int|
                0 <= i < na ==> #[trigger] powers(comps_a@[i]) == component_at(la as int, i),
            forall|i: int|
                0 <= i < nb ==> #[trigger] powers(comps_b@[i]) == component_at(lb as int, i),
            overlaps_listed(sx@, axis_of(a, b, 0), la as int, lb as int),
            overlaps_listed(sy@, axis_of(a, b, 1), la as int, lb as int),
            overlaps_listed(sz@, axis_of(a, b, 2), la as int, lb as int),
            g == overlap_entries(a, b, scale),
            old_out.len() >= block_size(la as int, lb as int),
            out@ == added(old_out, ia * nb, g),
        decreases na - ia,
    {
        let mut ib: usize = 0;
        while ib < nb
            invariant
                ia < na,
                ib <= nb,
                la == a.l,
                lb == b.l,
                la <= MAX_L,
                lb <= MAX_L,
                na == cart_count(la as int),
                nb == cart_count(lb as int),
                comps_a@.len() == na,
                comps_b@.len() == nb,
                forall|i: int|
                    0 <= i < na ==> #[trigger] powers(comps_a@[i]) == component_at(la as int, i),
                forall|i: int|
                    0 <= i < nb ==> #[trigger] powers(comps_b@[i]) == component_at(lb as int, i),
                overlaps_listed(sx@, axis_of(a, b, 0), la as int, lb as int),
                overlaps_listed(sy@, axis_of(a, b, 1), la as int, lb as int),
                overlaps_listed(sz@, axis_of(a, b, 2), la as int, lb as int),
                g == overlap_entries(a, b, scale),
                old_out.len() >= block_size(la as int, lb as int),
                out@ == added(old_out, pair(ia as int, nb as int, ib as int), g),
            decreases nb - ib,
        {
            let ca = comps_a[ia];
            let cb = comps_b[ib];
            proof {
                lemma_block_bounds(la as int, lb as int);
                lemma_pair_at(la as int, lb as int, ia as int, ib as int);
                assert(powers(ca) == component_at(la as int, ia as int));
                assert(powers(cb) == component_at(lb as int, ib as int));
            }
            let v = overlap_of(&sx, Ghost(axis_of(a, b, 0)), la, lb, ca[0], cb[0]).times(
                overlap_of(&sy, Ghost(axis_of(a, b, 1)), la, lb, ca[1], cb[1]),
            ).times(overlap_of(&sz, Ghost(axis_of(a, b, 2)), la, lb, ca[2], cb[2]));
            let idx: usize = ia * nb + ib;
            out[idx] = out[idx].plus(scale.times(v));
            proof {
                assert(T::prod(scale, v) == g(idx as int));
                lemma_added_step(old_out, idx as int, g);
            }
            ib = ib + 1;
        }
        proof {
            assert(ia * nb + nb == (ia + 1) * nb) by (nonlinear_arith);
        }
        ia = ia + 1;
    }
}

/// The kinetic factor of powers `i` and `j` from a table of overlaps.
fn kinetic_of<T: Scalar>(
    s: &Vec<T>,
    Ghost(x): Ghost<Axis<T>>,
    beta: T,
    la: usize,
    lb: usize,
    i: usize,
    j: usize,
) -> (r: T)
    requires
        overlaps_listed(s@, x, la as int, lb + 2),
        i <= la < 50,
        j <= lb < 50,
    ensures
        r == axis_kinetic(x, beta, i as int, j as int),
{
    let term_plus = T::from_count(2).times(beta).times(beta).times(
        overlap_of(s, Ghost(x), la, lb + 2, i, j + 2),
    );
    let term_mid = beta.times(T::from_count((2 * j + 1) as u64)).times(
        overlap_of(s, Ghost(x), la, lb + 2, i, j),
    );
    let term_minus = if j >= 2 {
        assert(0 <= j * (j - 1) <= 2500) by (nonlinear_arith)
            requires
                2 <= j < 50,
        ;
        ratio::<T>(1, 2).times(T::from_count((j * (j - 1)) as u64)).times(
            overlap_of(s, Ghost(x), la, lb + 2, i, j - 2),
        )
    } else {
        T::from_count(0)
    };
    term_mid.minus(term_plus).minus(term_minus)
}

/// Add `scale <a| -1/2 laplacian |b>` to `out` for all component pairs.
pub fn kinetic_into<T: Real>(a: Prim<T>, b: Prim<T>, scale: T, out: &mut [T])
    requires
        a.l <= MAX_L,
        b.l <= MAX_L,
        old(out)@.len() >= block_size(a.l as int, b.l as int),
    ensures
        final(out)@ == added(
            old(out)@,
            block_size(a.l as int, b.l as int),
            kinetic_entries(a, b, scale),
        ),
{
    let (la, lb) = (a.l, b.l);
    proof {
        lemma_block_bounds(la as int, lb as int);
    }
    let pr = make_pair(a.exp, a.center, b.exp, b.center);
    let sx = overlap_1d(axis_between(a, b, &pr, 0), la, lb + 2);
    let sy = overlap_1d(axis_between(a, b, &pr, 1), la, lb + 2);
    let sz = overlap_1d(axis_between(a, b, &pr, 2), la, lb + 2);
    let comps_a = cart_components(la);
    let comps_b = cart_components(lb);
    let (na, nb) = (n_cart(la), n_cart(lb));
    let ghost old_out = out@;
    let ghost g = kinetic_entries(a, b, scale);
    proof {
        lemma_listed_components(comps_a@, la as int);
        lemma_listed_components(comps_b@, lb as int);
        assert(added(old_out, 0, g) =~= old_out);
    }
    let mut ia: usize = 0;
    while ia < na
        invariant
            ia <= na,
            la == a.l,
            lb == b.l,
            la <= MAX_L,
            lb <= MAX_L,
            na == cart_count(la as int),
            nb == cart_count(lb as int),
            comps_a@.len() == na,
            comps_b@.len() == nb,
            forall|i: int|
                0 <= i < na ==> #[trigger] powers(comps_a@[i]) == component_at(la as int, i),
            forall|i: int|
                0 <= i < nb ==> #[trigger] powers(comps_b@[i]) == component_at(lb as int, i),
            overlaps_listed(sx@, axis_of(a, b, 0), la as int, lb + 2),
            overlaps_listed(sy@, axis_of(a, b, 1), la as int, lb + 2),
            overlaps_listed(sz@, axis_of(a, b, 2), la as int, lb + 2),
            g == kinetic_entries(a, b, scale),
            old_out.len() >= block_size(la as int, lb as int),
            out@ == added(old_out, ia * nb, g),
        decreases na - ia,
    {
        let mut ib: usize = 0;
        while ib < nb
            invariant
                ia < na,
                ib <= nb,
                la == a.l,
                lb == b.l,
                la <= MAX_L,
                lb <= MAX_L,
                na == cart_count(la as int),
                nb == cart_count(lb as int),
                comps_a@.len() == na,
                comps_b@.len() == nb,
                forall|i: int|
                    0 <= i < na ==> #[trigger] powers(comps_a@[i]) == component_at(la as int, i),
                forall|i: int|
                    0 <= i < nb ==> #[trigger] powers(comps_b@[i]) == component_at(lb as int, i),
                overlaps_listed(sx@, axis_of(a, b, 0), la as int, lb + 2),
                overlaps_listed(sy@, axis_of(a, b, 1), la as int, lb + 2),
                overlaps_listed(sz@, axis_of(a, b, 2), la as int, lb + 2),
                g == kinetic_entries(a, b, scale),
                old_out.len() >= block_size(la as int, lb as int),
                out@ == added(old_out, pair(ia as int, nb as int, ib as int), g),
            decreases nb - ib,
        {
            let ca = comps_a[ia];
            let cb = comps_b[ib];
            proof {
                lemma_block_bounds(la as int, lb as int);
                lemma_pair_at(la as int, lb as int, ia as int, ib as int);
                assert(powers(ca) == component_at(la as int, ia as int));
                assert(powers(cb) == component_at(lb as int, ib as int));
            }
            let (x, y, z) = (
                Ghost(axis_of(a, b, 0)),
                Ghost(axis_of(a, b, 1)),
                Ghost(axis_of(a, b, 2)),
            );
            let vx = overlap_of(&sx, x, la, lb + 2, ca[0], cb[0]);
            let vy = overlap_of(&sy, y, la, lb + 2, ca[1], cb[1]);
            let vz = overlap_of(&sz, z, la, lb + 2, ca[2], cb[2]);
            let tx = kinetic_of(&sx, x, b.exp, la, lb, ca[0], cb[0]);
            let ty = kinetic_of(&sy, y, b.exp, la, lb, ca[1], cb[1]);
            let tz = kinetic_of(&sz, z, b.exp, la, lb, ca[2], cb[2]);
            let v = tx.times(vy).times(vz).plus(vx.times(ty).times(vz)).plus(
                vx.times(vy).times(tz),
            );
            let idx: usize = ia * nb + ib;
            out[idx] = out[idx].plus(scale.times(v));
            proof {
                assert(T::prod(scale, v) == g(idx as int));
                lemma_added_step(old_out, idx as int, g);
            }
            ib = ib + 1;
        }
        proof {
            assert(ia * nb + nb == (ia + 1) * nb) by (nonlinear_arith);
        }
        ia = ia + 1;
    }
}

/// The first moment of powers `i` and `j` from a table of overlaps.
fn moment_of<T: Scalar>(
    s: &Vec<T>,
    Ghost(x): Ghost<Axis<T>>,
    h: T,
    po: T,
    la: usize,
    lb: usize,
    i: usize,
    j: usize,
) -> (r: T)
    requires
        overlaps_listed(s@, x, la as int, lb as int),
        h == x.h,
        i <= la < 50,
        j <= lb < 50,
    ensures
        r == axis_moment(x, po, i as int, j as int),
{
    let from_i = if i >= 1 {
        T::from_count(i as u64).times(overlap_of(s, Ghost(x), la, lb, i - 1, j))
    } else {
        T::from_count(0)
    };
    let from_j = if j >= 1 {
        T::from_count(j as u64).times(overlap_of(s, Ghost(x), la, lb, i, j - 1))
    } else {
        T::from_count(0)
    };
    po.times(overlap_of(s, Ghost(x), la, lb, i, j)).plus(h.times(from_i.plus(from_j)))
}

/// Add `scale <a| (r-O)_k |b>` for all component pairs: the axis `x` to `out_x`, and
/// so on.
#[verifier::spinoff_prover]
#[verifier::rlimit(40)]
pub fn dipole_into<T: Real>(
    a: Prim<T>,
    b: Prim<T>,
    o: Vec3<T>,
    scale: T,
    out_x: &mut [T],
    out_y: &mut [T],
    out_z: &mut [T],
)
    requires
        a.l <= MAX_L,
        b.l <= MAX_L,
        old(out_x)@.len() >= block_size(a.l as int, b.l as int),
        old(out_y)@.len() >= block_size(a.l as int, b.l as int),
        old(out_z)@.len() >= block_size(a.l as int, b.l as int),
    ensures
        final(out_x)@ == added(
            old(out_x)@,
            block_size(a.l as int, b.l as int),
            dipole_entries(a, b, o, scale, 0),
        ),
        final(out_y)@ == added(
            old(out_y)@,
            block_size(a.l as int, b.l as int),
            dipole_entries(a, b, o, scale, 1),
        ),
        final(out_z)@ == added(
            old(out_z)@,
            block_size(a.l as int, b.l as int),
            dipole_entries(a, b, o, scale, 2),
        ),
{
    let (la, lb) = (a.l, b.l);
    proof {
        lemma_block_bounds(la as int, lb as int);
    }
    let pr = make_pair(a.exp, a.center, b.exp, b.center);
    let sx = overlap_1d(axis_between(a, b, &pr, 0), la, lb);
    let sy = overlap_1d(axis_between(a, b, &pr, 1), la, lb);
    let sz = overlap_1d(axis_between(a, b, &pr, 2), la, lb);
    let comps_a = cart_components(la);
    let comps_b = cart_components(lb);
    let (na, nb) = (n_cart(la), n_cart(lb));
    let ghost (ox, oy, oz) = (out_x@, out_y@, out_z@);
    let ghost gx = dipole_entries(a, b, o, scale, 0);
    let ghost gy = dipole_entries(a, b, o, scale, 1);
    let ghost gz = dipole_entries(a, b, o, scale, 2);
    let po = crate::engine::pairs::sub(pr.p_center, o);
    proof {
        lemma_listed_components(comps_a@, la as int);
        lemma_listed_components(comps_b@, lb as int);
        assert(added(ox, 0, gx) =~= ox);
        assert(added(oy, 0, gy) =~= oy);
        assert(added(oz, 0, gz) =~= oz);
    }
    let mut ia: usize = 0;
    while ia < na
        invariant
            ia <= na,
            la == a.l,
            lb == b.l,
            la <= MAX_L,
            lb <= MAX_L,
            na == cart_count(la as int),
            nb == cart_count(lb as int),
            comps_a@.len() == na,
            comps_b@.len() == nb,
            forall|i: int|
                0 <= i < na ==> #[trigger] powers(comps_a@[i]) == component_at(la as int, i),
            forall|i: int|
                0 <= i < nb ==> #[trigger] powers(comps_b@[i]) == component_at(lb as int, i),
            overlaps_listed(sx@, axis_of(a, b, 0), la as int, lb as int),
            overlaps_listed(sy@, axis_of(a, b, 1), la as int, lb as int),
            overlaps_listed(sz@, axis_of(a, b, 2), la as int, lb as int),
            po == difference(pr.p_center, o),
            pr == product_of(a.exp, a.center, b.exp, b.center),
            gx == dipole_entries(a, b, o, scale, 0),
            gy == dipole_entries(a, b, o, scale, 1),
            gz == dipole_entries(a, b, o, scale, 2),
            ox.len() >= block_size(la as int, lb as int),
            oy.len() >= block_size(la as int, lb as int),
            oz.len() >= block_size(la as int, lb as int),
            out_x@ == added(ox, ia * nb, gx),
            out_y@ == added(oy, ia * nb, gy),
            out_z@ == added(oz, ia * nb, gz),
        decreases na - ia,
    {
        let mut ib: usize = 0;
        while ib < nb
            invariant
                ia < na,
                ib <= nb,
                la == a.l,
                lb == b.l,
                la <= MAX_L,
                lb <= MAX_L,
                na == cart_count(la as int),
                nb == cart_count(lb as int),
                comps_a@.len() == na,
                comps_b@.len() == nb,
                forall|i: int|
                    0 <= i < na ==> #[trigger] powers(comps_a@[i]) == component_at(la as int, i),
                forall|i: int|
                    0 <= i < nb ==> #[trigger] powers(comps_b@[i]) == component_at(lb as int, i),
                overlaps_listed(sx@, axis_of(a, b, 0), la as int, lb as int),
                overlaps_listed(sy@, axis_of(a, b, 1), la as int, lb as int),
                overlaps_listed(sz@, axis_of(a, b, 2), la as int, lb as int),
                po == difference(pr.p_center, o),
            pr == product_of(a.exp, a.center, b.exp, b.center),
            gx == dipole_entries(a, b, o, scale, 0),
            gy == dipole_entries(a, b, o, scale, 1),
            gz == dipole_entries(a, b, o, scale, 2),
                ox.len() >= block_size(la as int, lb as int),
            oy.len() >= block_size(la as int, lb as int),
            oz.len() >= block_size(la as int, lb as int),
                out_x@ == added(ox, pair(ia as int, nb as int, ib as int), gx),
                out_y@ == added(oy, pair(ia as int, nb as int, ib as int), gy),
                out_z@ == added(oz, pair(ia as int, nb as int, ib as int), gz),
            decreases nb - ib,
        {
            let ca = comps_a[ia];
            let cb = comps_b[ib];
            proof {
                lemma_block_bounds(la as int, lb as int);
                lemma_pair_at(la as int, lb as int, ia as int, ib as int);
                assert(powers(ca) == component_at(la as int, ia as int));
                assert(powers(cb) == component_at(lb as int, ib as int));
            }
            let (x, y, z) = (
                Ghost(axis_of(a, b, 0)),
                Ghost(axis_of(a, b, 1)),
                Ghost(axis_of(a, b, 2)),
            );
            let vx = overlap_of(&sx, x, la, lb, ca[0], cb[0]);
            let vy = overlap_of(&sy, y, la, lb, ca[1], cb[1]);
            let vz = overlap_of(&sz, z, la, lb, ca[2], cb[2]);
            let mx = moment_of(&sx, x, pr.one_over_2p, po[0], la, lb, ca[0], cb[0]);
            let my = moment_of(&sy, y, pr.one_over_2p, po[1], la, lb, ca[1], cb[1]);
            let mz = moment_of(&sz, z, pr.one_over_2p, po[2], la, lb, ca[2], cb[2]);
            let idx: usize = ia * nb + ib;
            out_x[idx] = out_x[idx].plus(scale.times(mx).times(vy).times(vz));
            out_y[idx] = out_y[idx].plus(scale.times(vx).times(my).times(vz));
            out_z[idx] = out_z[idx].plus(scale.times(vx).times(vy).times(mz));
            proof {
                lemma_added_step(ox, idx as int, gx);
                lemma_added_step(oy, idx as int, gy);
                lemma_added_step(oz, idx as int, gz);
            }
            ib = ib + 1;
        }
        proof {
            assert(ia * nb + nb == (ia + 1) * nb) by (nonlinear_arith);
        }
        ia = ia + 1;
    }
}

} // verus!
