//! Angular-momentum bookkeeping: Cartesian component counts and orderings.
//!
//! For a shell of angular momentum `l`, the `(l+1)(l+2)/2` Cartesian components
//! `(lx, ly, lz)` with `lx + ly + lz = l` are enumerated with `lx` descending in
//! the outer loop and `ly` descending in the inner loop. Examples:
//!
//! - `p`: `x, y, z`
//! - `d`: `xx, xy, xz, yy, yz, zz`
//! - `f`: `xxx, xxy, xxz, xyy, xyz, xzz, yyy, yyz, yzz, zzz`
use vstd::prelude::*;

verus! {

/// The powers `(lx, ly, lz)` of a Cartesian component.
pub type Powers = (int, int, int);

/// The powers held in an array.
pub open spec fn powers(c: [usize; 3]) -> Powers {
    (c[0] as int, c[1] as int, c[2] as int)
}

/// Total degree of a component.
pub open spec fn degree(c: Powers) -> int {
    c.0 + c.1 + c.2
}

/// Whether `c` is a component of degree `l`.
pub open spec fn is_component(c: Powers, l: int) -> bool {
    c.0 >= 0 && c.1 >= 0 && c.2 >= 0 && degree(c) == l
}

/// `0 + 1 + ... + n`, in closed form.
pub open spec fn triangle(n: int) -> int {
    n * (n + 1) / 2
}

/// Number of Cartesian components of degree `l`.
pub open spec fn cart_count(l: int) -> int {
    triangle(l + 1)
}

/// Position of a component among those of its degree.
pub open spec fn cart_position(c: Powers) -> int {
    triangle(c.1 + c.2) + c.2
}

/// The triangular numbers, one after another.
pub proof fn lemma_triangle_step(n: int)
    ensures
        triangle(n + 1) == triangle(n) + n + 1,
        triangle(0) == 0,
        n * (n + 1) % 2 == 0,
        2 * triangle(n) == n * (n + 1),
{
    assert(n * (n + 1) % 2 == 0) by (nonlinear_arith) {
        let k = n / 2;
        assert(n == 2 * k || n == 2 * k + 1);
        if n == 2 * k {
            assert(n * (n + 1) == 2 * (k * (2 * k + 1))) by (nonlinear_arith)
                requires
                    n == 2 * k,
            ;
        } else {
            assert(n * (n + 1) == 2 * ((2 * k + 1) * (k + 1))) by (nonlinear_arith)
                requires
                    n == 2 * k + 1,
            ;
        }
    }
    assert((n + 1) * (n + 2) == n * (n + 1) + 2 * (n + 1)) by (nonlinear_arith);
    assert(0 * (0 + 1) == 0) by (nonlinear_arith);
}

/// Triangular numbers grow with their index.
pub proof fn lemma_triangle_grows(m: int, n: int)
    requires
        0 <= m <= n,
    ensures
        0 <= triangle(m) <= triangle(n),
        triangle(m) + m + 1 <= triangle(n) || m == n,
    decreases n - m,
{
    lemma_triangle_step(n - 1);
    lemma_triangle_step(m);
    if m < n {
        lemma_triangle_grows(m, n - 1);
    } else {
        assert(m * (m + 1) >= 0) by (nonlinear_arith)
            requires
                m >= 0,
        ;
    }
}

/// Position and degree determine a component, the positions of degree `l` are
/// `0..cart_count(l)`, and they follow the order `lx` descending, then `ly`
/// descending.
pub proof fn law_positions_order_components(a: Powers, b: Powers, l: int)
    requires
        is_component(a, l),
        is_component(b, l),
    ensures
        0 <= cart_position(a) < cart_count(l),
        cart_position(a) < cart_position(b) <==> a.0 > b.0 || (a.0 == b.0 && a.1 > b.1),
        cart_position(a) == cart_position(b) <==> a == b,
{
    let da = a.1 + a.2;
    let db = b.1 + b.2;
    lemma_triangle_grows(da, l);
    lemma_triangle_grows(db, l);
    lemma_triangle_step(l);
    if da < db {
        lemma_triangle_grows(da, db);
    } else {
        lemma_triangle_grows(db, da);
    }
}

/// The component of degree `l` at position `i`.
pub open spec fn component_at(l: int, i: int) -> Powers {
    choose|c: Powers| is_component(c, l) && cart_position(c) == i
}

/// Every position below `cart_count(l)` is taken by a component of degree `l`.
pub proof fn law_every_position_is_taken(l: int, i: int)
    requires
        0 <= i < cart_count(l),
        l >= 0,
    ensures
        is_component(component_at(l, i), l),
        cart_position(component_at(l, i)) == i,
{
    let d = lemma_find_row(l, i);
    let c: Powers = (l - d, d - (i - triangle(d)), i - triangle(d));
    lemma_triangle_step(d);
    assert(is_component(c, l) && cart_position(c) == i);
}

/// The row `d` of the triangle that holds position `i`.
proof fn lemma_find_row(l: int, i: int) -> (d: int)
    requires
        0 <= i < triangle(l + 1),
        l >= 0,
    ensures
        0 <= d <= l,
        triangle(d) <= i < triangle(d + 1),
    decreases l,
{
    lemma_triangle_step(l);
    if i >= triangle(l) {
        l
    } else {
        assert(l > 0);
        lemma_find_row(l - 1, i)
    }
}

/// Number of Cartesian components for angular momentum `l`: `(l+1)(l+2)/2`.
#[must_use]
pub fn n_cart(l: usize) -> (n: usize)
    requires
        (l + 1) * (l + 2) <= usize::MAX,
    ensures
        n == cart_count(l as int),
{
    proof {
        assert(l + 2 <= (l + 1) * (l + 2)) by (nonlinear_arith);
    }
    (l + 1) * (l + 2) / 2
}

/// Cartesian powers `(lx, ly, lz)` for shell `l`, in the canonical order: the
/// component at each index is the one whose position that index is.
#[must_use]
pub fn cart_components(l: usize) -> (out: Vec<[usize; 3]>)
    requires
        (l + 1) * (l + 2) <= usize::MAX,
    ensures
        out@.len() == cart_count(l as int),
        forall|i: int|
            0 <= i < out@.len() ==> is_component(#[trigger] powers(out@[i]), l as int)
                && cart_position(powers(out@[i])) == i,
{
    let mut out: Vec<[usize; 3]> = Vec::new();
    let mut d: usize = 0;
    proof {
        lemma_triangle_step(0);
        assert(l + 2 <= (l + 1) * (l + 2)) by (nonlinear_arith);
    }
    while d <= l
        invariant
            d <= l + 1,
            l + 2 <= usize::MAX,
            out@.len() == triangle(d as int),
            forall|i: int|
                0 <= i < out@.len() ==> is_component(#[trigger] powers(out@[i]), l as int)
                    && cart_position(powers(out@[i])) == i,
        decreases l + 1 - d,
    {
        let mut lz: usize = 0;
        while lz <= d
            invariant
                lz <= d + 1,
                d <= l,
                l + 2 <= usize::MAX,
                out@.len() == triangle(d as int) + lz,
                forall|i: int|
                    0 <= i < out@.len() ==> is_component(#[trigger] powers(out@[i]), l as int)
                        && cart_position(powers(out@[i])) == i,
            decreases d + 1 - lz,
        {
            out.push([l - d, d - lz, lz]);
            lz = lz + 1;
        }
        proof {
            lemma_triangle_step(d as int);
        }
        d = d + 1;
    }
    out
}

/// Index of the Cartesian component `[lx, ly, lz]` within [`cart_components`] of
/// its degree `l`: the components with a larger `lx` number
/// `(l-lx)(l-lx+1)/2`, and within a fixed `lx` the offset is `lz`.
#[must_use]
pub fn cart_index(c: [usize; 3]) -> (i: usize)
    requires
        c[0] + c[1] + c[2] <= usize::MAX,
        (c[1] + c[2]) * (c[1] + c[2] + 1) <= usize::MAX,
        cart_position(powers(c)) <= usize::MAX,
    ensures
        i == cart_position(powers(c)),
{
    let l: usize = c[0] + c[1] + c[2];
    let d: usize = l - c[0];
    proof {
        lemma_triangle_step(d as int);
        assert(d * (d + 1) >= 2 * d || d <= 0) by (nonlinear_arith);
        assert(d + 1 <= usize::MAX) by {
            if d >= 2 {
                assert(d * (d + 1) >= d + 1) by (nonlinear_arith)
                    requires
                        d >= 1,
                ;
            }
        }
    }
    d * (d + 1) / 2 + c[2]
}

/// A list of the components of degree `l` by position holds at each index the
/// component of that position.
pub proof fn lemma_listed_components(list: Seq<[usize; 3]>, l: int)
    requires
        l >= 0,
        list.len() == cart_count(l),
        forall|i: int|
            0 <= i < list.len() ==> is_component(#[trigger] powers(list[i]), l) && cart_position(
                powers(list[i]),
            ) == i,
    ensures
        forall|i: int| 0 <= i < list.len() ==> #[trigger] powers(list[i]) == component_at(l, i),
{
    assert forall|i: int| 0 <= i < list.len() implies #[trigger] powers(list[i]) == component_at(
        l,
        i,
    ) by {
        law_every_position_is_taken(l, i);
        law_positions_order_components(powers(list[i]), component_at(l, i), l);
    }
}

} // verus!
