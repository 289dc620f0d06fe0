//! Gauss quadratures from the recurrence coefficients of orthogonal polynomials.
//!
//! The nodes are the eigenvalues of a symmetric tridiagonal matrix, and the weights come
//! from the first components of its eigenvectors.
use vstd::prelude::*;

use crate::dense::{larger, larger_of};
use crate::math::solid_harmonics::{is_zero, vanishes};
use crate::scalar::{filled, fraction, ratio, Real, Scalar};

verus! {

/// A symmetric tridiagonal matrix with its diagonal and what stands beside it, and the
/// first row of the rotations applied to it.
#[verifier::ext_equal]
pub struct Tridiagonal<T> {
    pub d: Seq<T>,
    pub e: Seq<T>,
    pub z: Seq<T>,
}

/// A step within a sweep: the matrix, and the rotation that is carried on.
#[verifier::ext_equal]
pub struct Sweep<T> {
    pub q: Tridiagonal<T>,
    pub g: T,
    pub s: T,
    pub c: T,
    pub p: T,
    /// Whether the sweep was cut short.
    pub cut: bool,
}

/// Whether what stands beside the diagonal at `m` is negligible.
pub open spec fn is_split<T: Real>(q: Tridiagonal<T>, m: int) -> bool {
    T::le(
        T::magnitude(q.e[m]),
        T::prod(T::gap(), T::sum(T::magnitude(q.d[m]), T::magnitude(q.d[m + 1]))),
    )
}

/// The first place from `m` on where the matrix splits; the last if it does not.
pub open spec fn split_from<T: Real>(q: Tridiagonal<T>, m: int) -> int
    decreases q.d.len() - m,
{
    if m >= q.d.len() - 1 || is_split(q, m) {
        m
    } else {
        split_from(q, m + 1)
    }
}

/// The sweep after the rotation of rows `i` and `i + 1`, of a block that ends at `m`.
pub open spec fn rotated<T: Real>(x: Sweep<T>, i: int, m: int) -> Sweep<T> {
    let f = T::prod(x.s, x.q.e[i]);
    let b = T::prod(x.c, x.q.e[i]);
    let r2 = T::hypotenuse(f, x.g);
    let e = x.q.e.update(i + 1, r2);
    if vanishes(r2) {
        Sweep {
            q: Tridiagonal {
                d: x.q.d.update(i + 1, T::diff(x.q.d[i + 1], x.p)),
                e: e.update(m, T::count(0)),
                z: x.q.z,
            },
            g: x.g,
            s: x.s,
            c: x.c,
            p: x.p,
            cut: true,
        }
    } else {
        let s = T::quot(f, r2);
        let c = T::quot(x.g, r2);
        let dd = T::diff(x.q.d[i + 1], x.p);
        let r3 = T::sum(
            T::prod(T::diff(x.q.d[i], dd), s),
            T::prod(T::prod(T::count(2), c), b),
        );
        let p = T::prod(s, r3);
        let h = x.q.z[i + 1];
        let k = x.q.z[i];
        Sweep {
            q: Tridiagonal {
                d: x.q.d.update(i + 1, T::sum(dd, p)),
                e,
                z: x.q.z.update(i + 1, T::sum(T::prod(s, k), T::prod(c, h))).update(
                    i,
                    T::diff(T::prod(c, k), T::prod(s, h)),
                ),
            },
            g: T::diff(T::prod(c, r3), b),
            s,
            c,
            p,
            cut: false,
        }
    }
}

/// The sweep of a block from `m` down to `i`.
pub open spec fn swept<T: Real>(x: Sweep<T>, i: int, m: int) -> Sweep<T>
    decreases m - i,
{
    if i >= m {
        x
    } else {
        let before = swept(x, i + 1, m);
        if before.cut {
            before
        } else {
            rotated(before, i, m)
        }
    }
}

/// The sweep at its start: with the shift of the block from `l` to `m`.
pub open spec fn shifted_start<T: Real>(q: Tridiagonal<T>, l: int, m: int) -> Sweep<T> {
    let g = T::quot(T::diff(q.d[l + 1], q.d[l]), T::prod(T::count(2), q.e[l]));
    let r = T::hypotenuse(g, T::count(1));
    Sweep {
        q,
        g: T::sum(
            T::diff(q.d[m], q.d[l]),
            T::quot(q.e[l], T::sum(g, T::signed(r, g))),
        ),
        s: T::count(1),
        c: T::count(1),
        p: T::count(0),
        cut: false,
    }
}

/// The matrix after one sweep of the block from `l` to `m`.
pub open spec fn after_sweep<T: Real>(q: Tridiagonal<T>, l: int, m: int) -> Tridiagonal<T> {
    let x = swept(shifted_start(q, l, m), l, m);
    if x.cut {
        x.q
    } else {
        Tridiagonal {
            d: x.q.d.update(l, T::diff(x.q.d[l], x.p)),
            e: x.q.e.update(l, x.g).update(m, T::count(0)),
            z: x.q.z,
        }
    }
}

/// The matrix once its entry `l` has settled, by at most `left` sweeps.
pub open spec fn settled<T: Real>(q: Tridiagonal<T>, l: int, left: int) -> Tridiagonal<T>
    decreases left,
{
    let m = split_from(q, l);
    if left <= 0 || m == l {
        q
    } else {
        settled(after_sweep(q, l, m), l, left - 1)
    }
}

/// The matrix once the entries before `n` have settled.
pub open spec fn diagonalized<T: Real>(q: Tridiagonal<T>, n: int) -> Tridiagonal<T>
    decreases n,
{
    if n <= 0 {
        q
    } else {
        settled(diagonalized(q, n - 1), n - 1, 60)
    }
}

/// What the three lists hold.
pub open spec fn matrix_of<T>(d: Seq<T>, e: Seq<T>, z: Seq<T>) -> Tridiagonal<T> {
    Tridiagonal { d, e, z }
}

/// One sweep of the block from `l` to `m`.
#[verifier::spinoff_prover]
fn sweep<T: Real>(d: &mut Vec<T>, e: &mut Vec<T>, z0: &mut Vec<T>, l: usize, m: usize)
    requires
        l < m < old(d)@.len(),
        old(e)@.len() == old(d)@.len(),
        old(z0)@.len() == old(d)@.len(),
    ensures
        matrix_of(final(d)@, final(e)@, final(z0)@) == after_sweep(
            matrix_of(old(d)@, old(e)@, old(z0)@),
            l as int,
            m as int,
        ),
        final(d)@.len() == old(d)@.len(),
        final(e)@.len() == old(d)@.len(),
        final(z0)@.len() == old(d)@.len(),
{
    let ghost q = matrix_of(d@, e@, z0@);
    let ghost n = d@.len() as int;
    let ghost x0 = shifted_start(q, l as int, m as int);
    let shift = d[l + 1].minus(d[l]).over(T::from_count(2).times(e[l]));
    let r = shift.hypot(T::from_count(1));
    let mut g = d[m].minus(d[l]).plus(e[l].over(shift.plus(r.copysign(shift))));
    let mut s = T::from_count(1);
    let mut c = T::from_count(1);
    let mut p = T::from_count(0);
    let mut underflow = false;
    let mut i: usize = m;
    while i > l && !underflow
        invariant
            l <= i <= m < n,
            d@.len() == n,
            e@.len() == n,
            z0@.len() == n,
            swept(x0, i as int, m as int) == (Sweep {
                q: matrix_of(d@, e@, z0@),
                g,
                s,
                c,
                p,
                cut: underflow,
            }),
        decreases i,
    {
        let ghost x = swept(x0, i as int, m as int);
        i = i - 1;
        let f = s.times(e[i]);
        let b = c.times(e[i]);
        let r2 = f.hypot(g);
        e[i + 1] = r2;
        if is_zero(r2) {
            d[i + 1] = d[i + 1].minus(p);
            e[m] = T::from_count(0);
            underflow = true;
        } else {
            s = f.over(r2);
            c = g.over(r2);
            let dd = d[i + 1].minus(p);
            let r3 = d[i].minus(dd).times(s).plus(T::from_count(2).times(c).times(b));
            p = s.times(r3);
            d[i + 1] = dd.plus(p);
            g = c.times(r3).minus(b);
            let h = z0[i + 1];
            let k = z0[i];
            z0[i + 1] = s.times(k).plus(c.times(h));
            z0[i] = c.times(k).minus(s.times(h));
        }
        assert(rotated(x, i as int, m as int) == (Sweep {
            q: matrix_of(d@, e@, z0@),
            g,
            s,
            c,
            p,
            cut: underflow,
        }));
        assert(swept(x0, i as int, m as int) == rotated(x, i as int, m as int));
    }
    if underflow {
        proof {
            lemma_cut(x0, l as int, i as int, m as int);
        }
        return ;
    }
    d[l] = d[l].minus(p);
    e[l] = g;
    e[m] = T::from_count(0);
}

/// A sweep that was cut short stays as it is.
proof fn lemma_cut<T: Real>(x: Sweep<T>, l: int, i: int, m: int)
    requires
        l <= i <= m,
        swept(x, i, m).cut,
    ensures
        swept(x, l, m) == swept(x, i, m),
    decreases i - l,
{
    if l < i {
        lemma_cut(x, l + 1, i, m);
    }
}

/// Diagonalize a symmetric tridiagonal matrix: `d` becomes its eigenvalues, and `z0` is
/// turned along with its rows.
pub fn tridiagonal_ql<T: Real>(d: &mut Vec<T>, e: &mut Vec<T>, z0: &mut Vec<T>)
    requires
        old(e)@.len() == old(d)@.len(),
        old(z0)@.len() == old(d)@.len(),
    ensures
        matrix_of(final(d)@, final(e)@, final(z0)@) == diagonalized(
            matrix_of(old(d)@, old(e)@, old(z0)@),
            old(d)@.len() as int,
        ),
        final(d)@.len() == old(d)@.len(),
        final(e)@.len() == old(d)@.len(),
        final(z0)@.len() == old(d)@.len(),
{
    let n = d.len();
    let ghost start = matrix_of(d@, e@, z0@);
    let mut l: usize = 0;
    while l < n
        invariant
            l <= n,
            d@.len() == n,
            e@.len() == n,
            z0@.len() == n,
            matrix_of(d@, e@, z0@) == diagonalized(start, l as int),
        decreases n - l,
    {
        let ghost entry = matrix_of(d@, e@, z0@);
        let mut left: usize = 60;
        let mut done = false;
        while !done
            invariant
                l < n,
                left <= 60,
                d@.len() == n,
                e@.len() == n,
                z0@.len() == n,
                !done ==> settled(matrix_of(d@, e@, z0@), l as int, left as int) == settled(
                    entry,
                    l as int,
                    60,
                ),
                done ==> matrix_of(d@, e@, z0@) == settled(entry, l as int, 60),
            decreases
                    (if done {
                        0
                    } else {
                        left + 1
                    }),
        {
            let ghost q = matrix_of(d@, e@, z0@);
            let mut m: usize = l;
            let mut found = false;
            while m < n - 1 && !found
                invariant
                    l <= m < n,
                    d@.len() == n,
                    e@.len() == n,
                    z0@.len() == n,
                    q == matrix_of(d@, e@, z0@),
                    found ==> is_split(q, m as int) && m < n - 1,
                    split_from(q, m as int) == split_from(q, l as int),
                decreases
                        n - m + (if found {
                            0int
                        } else {
                            1int
                        }),
            {
                let dd = d[m].abs().plus(d[m + 1].abs());
                if e[m].abs().at_most(T::epsilon().times(dd)) {
                    found = true;
                } else {
                    m = m + 1;
                }
            }
            assert(m == split_from(q, l as int));
            if m == l || left == 0 {
                done = true;
            } else {
                sweep(d, e, z0, l, m);
                left = left - 1;
            }
        }
        l = l + 1;
    }
}

/// Where a new number belongs among the first `n` of a list of numbers that is ordered by
/// their values: after those whose values are not greater.
pub open spec fn place_among<T: Real>(list: Seq<int>, d: Seq<T>, v: int, n: int) -> int
    decreases n,
{
    if n <= 0 {
        0
    } else if T::lt(d[v], d[list[n - 1]]) {
        place_among(list, d, v, n - 1)
    } else {
        n
    }
}

/// The first `n` numbers, ordered by their values; equal values keep their order.
pub open spec fn ordering<T: Real>(d: Seq<T>, n: int) -> Seq<int>
    decreases n,
{
    if n <= 0 {
        Seq::empty()
    } else {
        let list = ordering(d, n - 1);
        list.insert(place_among(list, d, n - 1, n - 1), n - 1)
    }
}

/// Whether values are ordered: what is not below is transitive, and no value is below
/// itself.
pub open spec fn is_order<T: Real>() -> bool {
    &&& forall|a: T, b: T, c: T|
        !(#[trigger] T::lt(b, a)) && !(#[trigger] T::lt(c, b)) ==> !T::lt(c, a)
    &&& forall|a: T, b: T| #[trigger] T::lt(a, b) ==> !T::lt(b, a)
}

proof fn lemma_place<T: Real>(list: Seq<int>, d: Seq<T>, v: int, n: int)
    requires
        0 <= n <= list.len(),
    ensures
        0 <= place_among(list, d, v, n) <= n,
        forall|k: int|
            place_among(list, d, v, n) <= k < n ==> T::lt(d[v], d[#[trigger] list[k]]),
        place_among(list, d, v, n) > 0 ==> !T::lt(
            d[v],
            d[list[place_among(list, d, v, n) - 1]],
        ),
    decreases n,
{
    if n > 0 && T::lt(d[v], d[list[n - 1]]) {
        lemma_place(list, d, v, n - 1);
    }
}

/// Every number stands once in the ordering, and the values ascend.
pub proof fn law_ordering<T: Real>(d: Seq<T>, n: int)
    requires
        0 <= n,
    ensures
        ordering(d, n).len() == n,
        forall|k: int| 0 <= k < n ==> 0 <= #[trigger] ordering(d, n)[k] < n,
        forall|v: int| 0 <= v < n ==> #[trigger] ordering(d, n).contains(v),
        is_order::<T>() ==> forall|i: int, j: int|
            0 <= i <= j < n ==> !T::lt(
                d[#[trigger] ordering(d, n)[j]],
                d[#[trigger] ordering(d, n)[i]],
            ),
    decreases n,
{
    if n <= 0 {
        if is_order::<T>() {
        }
    } else {
        law_ordering(d, n - 1);
        let list = ordering(d, n - 1);
        let at = place_among(list, d, n - 1, n - 1);
        lemma_place(list, d, n - 1, n - 1);
        let r = ordering(d, n);
        assert(r == list.insert(at, n - 1));
        assert forall|k: int| 0 <= k < n implies 0 <= #[trigger] r[k] < n by {
            if k > at {
                assert(r[k] == list[k - 1]);
            }
        }
        assert forall|v: int| 0 <= v < n implies #[trigger] r.contains(v) by {
            if v == n - 1 {
                assert(r[at] == v);
            } else {
                assert(list.contains(v));
                let k = choose|k: int| 0 <= k < list.len() && list[k] == v;
                if k < at {
                    assert(r[k] == v);
                } else {
                    assert(r[k + 1] == v);
                }
            }
        }
        if is_order::<T>() {
            assert forall|i: int, j: int| 0 <= i <= j < n implies !T::lt(
                d[#[trigger] r[j]],
                d[#[trigger] r[i]],
            ) by {
                if j < at {
                    assert(r[i] == list[i] && r[j] == list[j]);
                } else if i > at {
                    assert(r[i] == list[i - 1] && r[j] == list[j - 1]);
                } else if i == at && j > at {
                    assert(r[j] == list[j - 1]);
                    assert(T::lt(d[n - 1], d[list[j - 1]]));
                } else if j == at && i < at {
                    assert(r[i] == list[i]);
                    let last = list[at - 1];
                    assert(!T::lt(d[last], d[list[i]]));
                    assert(!T::lt(d[n - 1], d[last]));
                } else if i < at && j > at {
                    assert(r[i] == list[i] && r[j] == list[j - 1]);
                } else {
                    assert(i == at && j == at);
                    if T::lt(d[r[j]], d[r[i]]) {
                        assert(!T::lt(d[r[i]], d[r[j]]));
                    }
                }
            }
        }
    }
}

/// The numbers of a list, ordered by their values.
fn order_by<T: Real>(d: &Vec<T>) -> (r: Vec<usize>)
    ensures
        r@.len() == d@.len(),
        forall|k: int| 0 <= k < r@.len() ==> #[trigger] r@[k] == ordering(d@, d@.len() as int)[k],
{
    let mut r: Vec<usize> = Vec::new();
    let mut v: usize = 0;
    while v < d.len()
        invariant
            v <= d@.len(),
            r@.len() == v,
            ordering(d@, v as int).len() == v,
            forall|k: int| 0 <= k < v ==> #[trigger] r@[k] == ordering(d@, v as int)[k],
            forall|k: int| 0 <= k < v ==> 0 <= #[trigger] r@[k] < v,
        decreases d@.len() - v,
    {
        let ghost list = ordering(d@, v as int);
        let mut at: usize = v;
        while at > 0 && d[v].less(d[r[at - 1]])
            invariant
                at <= v < d@.len(),
                r@.len() == v,
                list == ordering(d@, v as int),
                list.len() == v,
                forall|k: int| 0 <= k < v ==> #[trigger] r@[k] == list[k],
                forall|k: int| 0 <= k < v ==> 0 <= #[trigger] r@[k] < v,
                place_among(list, d@, v as int, at as int) == place_among(
                    list,
                    d@,
                    v as int,
                    v as int,
                ),
            decreases at,
        {
            at = at - 1;
        }
        assert(place_among(list, d@, v as int, v as int) == at);
        let ghost before = r@;
        r.insert(at, v);
        proof {
            assert(ordering(d@, v + 1) == list.insert(at as int, v as int));
            assert forall|k: int| 0 <= k < v + 1 implies #[trigger] r@[k] == ordering(d@, v + 1)[k]
                && 0 <= r@[k] < v + 1 by {
                if k < at {
                    assert(r@[k] == before[k]);
                } else if k > at {
                    assert(r@[k] == before[k - 1]);
                }
            }
        }
        v = v + 1;
    }
    r
}

/// The matrix of recurrence coefficients.
pub open spec fn jacobi_matrix<T: Real>(alpha: Seq<T>, beta: Seq<T>) -> Tridiagonal<T> {
    Tridiagonal {
        d: alpha,
        e: Seq::new(
            alpha.len(),
            |i: int|
                if i + 1 < alpha.len() {
                    T::root(larger(beta[i + 1], T::count(0)))
                } else {
                    T::count(0)
                },
        ),
        z: first_unit(alpha.len() as int),
    }
}

/// The first unit vector.
pub open spec fn first_unit<T: Scalar>(n: int) -> Seq<T> {
    Seq::new(
        n as nat,
        |i: int|
            if i == 0 {
                T::count(1)
            } else {
                T::count(0)
            },
    )
}

/// The nodes of the quadrature of recurrence coefficients, ascending.
pub open spec fn gauss_nodes<T: Real>(alpha: Seq<T>, beta: Seq<T>) -> Seq<T> {
    let n = alpha.len() as int;
    let q = diagonalized(jacobi_matrix(alpha, beta), n);
    if n == 1 {
        alpha
    } else {
        Seq::new(n as nat, |i: int| q.d[ordering(q.d, n)[i]])
    }
}

/// The weights of the quadrature of recurrence coefficients, in the order of the nodes.
pub open spec fn gauss_weights<T: Real>(alpha: Seq<T>, beta: Seq<T>) -> Seq<T> {
    let n = alpha.len() as int;
    let q = diagonalized(jacobi_matrix(alpha, beta), n);
    if n == 1 {
        seq![beta[0]]
    } else {
        Seq::new(
            n as nat,
            |i: int|
                {
                    let z = q.z[ordering(q.d, n)[i]];
                    T::prod(T::prod(beta[0], z), z)
                },
        )
    }
}

/// The nodes of a quadrature ascend, where values are ordered.
pub proof fn law_nodes_ascend<T: Real>(alpha: Seq<T>, beta: Seq<T>, i: int, j: int)
    requires
        is_order::<T>(),
        0 <= i <= j < alpha.len(),
    ensures
        !T::lt(gauss_nodes(alpha, beta)[j], gauss_nodes(alpha, beta)[i]),
{
    let n = alpha.len() as int;
    let q = diagonalized(jacobi_matrix(alpha, beta), n);
    law_ordering(q.d, n);
    if n == 1 {
        let a = alpha[0];
        if T::lt(a, a) {
            assert(!T::lt(a, a));
        }
    } else {
        assert(!T::lt(q.d[ordering(q.d, n)[j]], q.d[ordering(q.d, n)[i]]));
    }
}

/// The first unit vector.
fn unit_row<T: Scalar>(n: usize) -> (z: Vec<T>)
    requires
        n >= 1,
    ensures
        z@ == first_unit::<T>(n as int),
{
    let mut z = filled(n, T::from_count(0));
    z[0] = T::from_count(1);
    assert(z@ =~= first_unit::<T>(n as int));
    z
}

/// The quadrature of recurrence coefficients.
pub fn golub_welsch<T: Real>(alpha: &Vec<T>, beta: &Vec<T>) -> (r: (Vec<T>, Vec<T>))
    requires
        alpha@.len() >= 1,
        beta@.len() == alpha@.len(),
    ensures
        r.0@ == gauss_nodes(alpha@, beta@),
        r.1@ == gauss_weights(alpha@, beta@),
        r.0@.len() == alpha@.len(),
        r.1@.len() == alpha@.len(),
{
    let n = alpha.len();
    let mu0 = beta[0];
    let mut roots: Vec<T> = Vec::new();
    let mut weights: Vec<T> = Vec::new();
    if n == 1 {
        roots.push(alpha[0]);
        weights.push(mu0);
        assert(roots@ =~= gauss_nodes(alpha@, beta@));
        assert(weights@ =~= gauss_weights(alpha@, beta@));
        return (roots, weights);
    }
    let ghost q0 = jacobi_matrix(alpha@, beta@);
    let mut d: Vec<T> = Vec::new();
    let mut e: Vec<T> = Vec::new();
    let mut i: usize = 0;
    while i < n
        invariant
            i <= n,
            n == alpha@.len(),
            n == beta@.len(),
            q0 == jacobi_matrix(alpha@, beta@),
            d@.len() == i,
            e@.len() == i,
            forall|k: int| 0 <= k < i ==> #[trigger] d@[k] == alpha@[k],
            forall|k: int| 0 <= k < i ==> #[trigger] e@[k] == q0.e[k],
        decreases n - i,
    {
        d.push(alpha[i]);
        if i + 1 < n {
            e.push(larger_of(beta[i + 1], T::from_count(0)).sqrt());
        } else {
            e.push(T::from_count(0));
        }
        i = i + 1;
    }
    let mut z0 = unit_row::<T>(n);
    assert(matrix_of(d@, e@, z0@) =~= q0);
    tridiagonal_ql(&mut d, &mut e, &mut z0);
    let ghost q = diagonalized(q0, n as int);
    let idx = order_by(&d);
    proof {
        law_ordering(q.d, n as int);
    }
    let mut out: usize = 0;
    while out < n
        invariant
            out <= n,
            d@ == q.d,
            z0@ == q.z,
            d@.len() == n,
            z0@.len() == n,
            mu0 == beta@[0],
            idx@.len() == n,
            forall|k: int| 0 <= k < n ==> #[trigger] idx@[k] == ordering(q.d, n as int)[k],
            forall|k: int| 0 <= k < n ==> 0 <= #[trigger] ordering(q.d, n as int)[k] < n,
            roots@.len() == out,
            weights@.len() == out,
            forall|k: int|
                0 <= k < out ==> #[trigger] roots@[k] == q.d[ordering(q.d, n as int)[k]],
            forall|k: int|
                0 <= k < out ==> #[trigger] weights@[k] == T::prod(
                    T::prod(mu0, q.z[ordering(q.d, n as int)[k]]),
                    q.z[ordering(q.d, n as int)[k]],
                ),
        decreases n - out,
    {
        let i = idx[out];
        assert(i == ordering(q.d, n as int)[out as int]);
        roots.push(d[i]);
        weights.push(mu0.times(z0[i]).times(z0[i]));
        out = out + 1;
    }
    assert(roots@ =~= gauss_nodes(alpha@, beta@));
    assert(weights@ =~= gauss_weights(alpha@, beta@));
    (roots, weights)
}

/// The matrix of the shifted Legendre polynomials on `[0, 1]`.
pub open spec fn legendre_matrix<T: Real>(n: int) -> Tridiagonal<T> {
    Tridiagonal {
        d: Seq::new(n as nat, |i: int| fraction(1, 2)),
        e: Seq::new(
            n as nat,
            |i: int|
                if i + 1 < n {
                    let l = T::count((i + 1) as u64);
                    T::root(
                        T::quot(
                            T::prod(T::prod(fraction(1, 4), l), l),
                            T::diff(T::prod(T::prod(T::count(4), l), l), T::count(1)),
                        ),
                    )
                } else {
                    T::count(0)
                },
        ),
        z: first_unit(n),
    }
}

/// A Gauss-Legendre rule on `[0, 1]`: nodes and weights.
pub struct UnitRule<T> {
    pub nodes: Vec<T>,
    pub weights: Vec<T>,
}

impl<T: Real> UnitRule<T> {
    /// Whether the lists are those of the rule with `n` nodes.
    pub open spec fn is_rule(self, n: int) -> bool {
        let q = diagonalized(legendre_matrix::<T>(n), n);
        &&& self.nodes@ == Seq::new(n as nat, |i: int| q.d[ordering(q.d, n)[i]])
        &&& self.weights@ == Seq::new(
            n as nat,
            |i: int| T::prod(q.z[ordering(q.d, n)[i]], q.z[ordering(q.d, n)[i]]),
        )
    }

    /// The rule with `n` nodes.
    pub fn new(n: usize) -> (r: Self)
        requires
            n >= 1,
        ensures
            r.is_rule(n as int),
    {
        let mut d = filled(n, ratio::<T>(1, 2));
        let mut e: Vec<T> = Vec::new();
        let ghost q0 = legendre_matrix::<T>(n as int);
        let mut i: usize = 0;
        while i < n
            invariant
                i <= n,
                q0 == legendre_matrix::<T>(n as int),
                e@.len() == i,
                forall|k: int| 0 <= k < i ==> #[trigger] e@[k] == q0.e[k],
            decreases n - i,
        {
            if i + 1 < n {
                let l = T::from_count((i + 1) as u64);
                let b = ratio::<T>(1, 4).times(l).times(l).over(
                    T::from_count(4).times(l).times(l).minus(T::from_count(1)),
                );
                e.push(b.sqrt());
            } else {
                e.push(T::from_count(0));
            }
            i = i + 1;
        }
        let mut z0 = unit_row::<T>(n);
        assert(matrix_of(d@, e@, z0@) =~= q0);
        tridiagonal_ql(&mut d, &mut e, &mut z0);
        let ghost q = diagonalized(q0, n as int);
        let idx = order_by(&d);
        proof {
            law_ordering(q.d, n as int);
        }
        let mut nodes: Vec<T> = Vec::new();
        let mut weights: Vec<T> = Vec::new();
        let mut out: usize = 0;
        while out < n
            invariant
                out <= n,
                d@ == q.d,
                z0@ == q.z,
                d@.len() == n,
                z0@.len() == n,
                idx@.len() == n,
                forall|k: int| 0 <= k < n ==> #[trigger] idx@[k] == ordering(q.d, n as int)[k],
                forall|k: int| 0 <= k < n ==> 0 <= #[trigger] ordering(q.d, n as int)[k] < n,
                nodes@.len() == out,
                weights@.len() == out,
                forall|k: int|
                    0 <= k < out ==> #[trigger] nodes@[k] == q.d[ordering(q.d, n as int)[k]],
                forall|k: int|
                    0 <= k < out ==> #[trigger] weights@[k] == T::prod(
                        q.z[ordering(q.d, n as int)[k]],
                        q.z[ordering(q.d, n as int)[k]],
                    ),
            decreases n - out,
        {
            let i = idx[out];
            assert(i == ordering(q.d, n as int)[out as int]);
            nodes.push(d[i]);
            weights.push(z0[i].times(z0[i]));
            out = out + 1;
        }
        let r = UnitRule { nodes, weights };
        assert(r.nodes@ =~= Seq::new(n as nat, |i: int| q.d[ordering(q.d, n as int)[i]]));
        assert(r.weights@ =~= Seq::new(
            n as nat,
            |i: int|
                T::prod(q.z[ordering(q.d, n as int)[i]], q.z[ordering(q.d, n as int)[i]]),
        ));
        r
    }
}

} // verus!
