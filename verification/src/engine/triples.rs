//! Addresses of Cartesian triples across degrees, and the raise and lower steps
//! that the recurrences take on them.
use vstd::prelude::*;

use crate::math::am::{
    cart_count, cart_position, degree, is_component, law_every_position_is_taken,
    law_positions_order_components, lemma_triangle_grows, lemma_triangle_step, powers, Powers,
};

verus! {

/// Number of triples of degree below `d`, in closed form.
pub open spec fn tetrahedron(d: int) -> int {
    d * (d + 1) * (d + 2) / 6
}

/// Address of a triple: all lower degrees first, then its place in its own degree.
pub open spec fn address(c: Powers) -> int {
    tetrahedron(degree(c)) + cart_position(c)
}

/// Whether `c` is a triple of powers of degree at most `lmax`.
pub open spec fn is_triple(c: Powers, lmax: int) -> bool {
    c.0 >= 0 && c.1 >= 0 && c.2 >= 0 && degree(c) <= lmax
}

/// Power of `c` along axis `i`.
pub open spec fn power(c: Powers, i: int) -> int {
    if i == 0 {
        c.0
    } else if i == 1 {
        c.1
    } else {
        c.2
    }
}

/// `c` with `by` added to its power along axis `i`.
pub open spec fn shifted(c: Powers, i: int, by: int) -> Powers {
    if i == 0 {
        (c.0 + by, c.1, c.2)
    } else if i == 1 {
        (c.0, c.1 + by, c.2)
    } else {
        (c.0, c.1, c.2 + by)
    }
}

/// First axis along which `c` has a power; the last one if it has none.
pub open spec fn first_axis(c: Powers) -> int {
    if c.0 > 0 {
        0
    } else if c.1 > 0 {
        1
    } else {
        2
    }
}

/// The tetrahedral numbers, one after another.
pub proof fn lemma_tetrahedron_step(d: int)
    requires
        d >= 0,
    ensures
        tetrahedron(d + 1) == tetrahedron(d) + cart_count(d),
        tetrahedron(0) == 0,
        tetrahedron(d) >= 0,
        6 * tetrahedron(d) == d * (d + 1) * (d + 2),
        d * (d + 1) * (d + 2) % 6 == 0,
    decreases d,
{
    assert(0int * (0 + 1) * (0 + 2) == 0) by (nonlinear_arith);
    if d > 0 {
        lemma_tetrahedron_step(d - 1);
        lemma_triangle_step(d);
        lemma_triangle_step(d - 1);
        assert(d * (d + 1) * (d + 2) == (d - 1) * d * (d + 1) + 3 * (d * (d + 1)))
            by (nonlinear_arith);
        assert((d - 1) * (d - 1 + 1) * (d - 1 + 2) == (d - 1) * d * (d + 1)) by (nonlinear_arith);
    }
    lemma_triangle_step(d + 1);
    assert((d + 1) * (d + 1 + 1) * (d + 1 + 2) == d * (d + 1) * (d + 2) + 3 * ((d + 1) * (d + 1
        + 1))) by (nonlinear_arith);
    assert(d * (d + 1) * (d + 2) >= 0) by (nonlinear_arith)
        requires
            d >= 0,
    ;
}

/// Tetrahedral numbers grow with their index.
pub proof fn lemma_tetrahedron_grows(m: int, n: int)
    requires
        0 <= m <= n,
    ensures
        0 <= tetrahedron(m) <= tetrahedron(n),
        m < n ==> tetrahedron(m) + cart_count(m) <= tetrahedron(n),
    decreases n - m,
{
    lemma_tetrahedron_step(m);
    if m < n {
        lemma_tetrahedron_step(n - 1);
        lemma_tetrahedron_grows(m, n - 1);
        lemma_triangle_grows(0, n);
        lemma_triangle_grows(0, m + 1);
        lemma_triangle_step(0);
    }
}

/// Addresses of triples of degree at most `lmax` lie in `0..tetrahedron(lmax+1)`
/// and no two triples share one.
pub proof fn law_addresses_are_distinct(a: Powers, b: Powers, lmax: int)
    requires
        is_triple(a, lmax),
        is_triple(b, lmax),
    ensures
        0 <= address(a) < tetrahedron(lmax + 1),
        address(a) == address(b) <==> a == b,
        degree(a) < degree(b) ==> address(a) < address(b),
{
    let (da, db) = (degree(a), degree(b));
    law_positions_order_components(a, a, da);
    law_positions_order_components(b, b, db);
    lemma_tetrahedron_grows(da, lmax + 1);
    if da < db {
        lemma_tetrahedron_grows(da, db);
    } else if db < da {
        lemma_tetrahedron_grows(db, da);
    } else {
        law_positions_order_components(a, b, da);
    }
}

/// The triple of degree at most `lmax` at address `n`.
pub open spec fn triple_at(lmax: int, n: int) -> Powers {
    choose|c: Powers| is_triple(c, lmax) && address(c) == n
}

/// Every address below `tetrahedron(lmax+1)` is taken by a triple of degree at
/// most `lmax`.
pub proof fn law_every_address_is_taken(lmax: int, n: int)
    requires
        lmax >= 0,
        0 <= n < tetrahedron(lmax + 1),
    ensures
        is_triple(triple_at(lmax, n), lmax),
        address(triple_at(lmax, n)) == n,
{
    let d = lemma_find_degree(lmax, n);
    lemma_tetrahedron_step(d);
    law_every_position_is_taken(d, n - tetrahedron(d));
    let c = crate::math::am::component_at(d, n - tetrahedron(d));
    assert(is_triple(c, lmax) && address(c) == n);
}

/// The degree whose block of addresses holds `n`.
proof fn lemma_find_degree(lmax: int, n: int) -> (d: int)
    requires
        lmax >= 0,
        0 <= n < tetrahedron(lmax + 1),
    ensures
        0 <= d <= lmax,
        tetrahedron(d) <= n < tetrahedron(d + 1),
    decreases lmax,
{
    lemma_tetrahedron_step(lmax);
    if n >= tetrahedron(lmax) {
        lmax
    } else {
        assert(lmax > 0);
        lemma_find_degree(lmax - 1, n)
    }
}

/// Number of Cartesian triples of degree `0..=lmax`: `(L+1)(L+2)(L+3)/6`.
pub fn n_addr(lmax: usize) -> (n: usize)
    requires
        (lmax + 1) * (lmax + 2) * (lmax + 3) <= usize::MAX,
    ensures
        n == tetrahedron(lmax + 1),
{
    proof {
        let a = lmax + 1;
        let b = lmax + 2;
        let c = lmax + 3;
        assert(a * b * c >= a * b && a * b >= b && a * b * c >= c) by (nonlinear_arith)
            requires
                a >= 1,
                b >= 1,
                c >= 1,
        ;
    }
    (lmax + 1) * (lmax + 2) * (lmax + 3) / 6
}

/// Number of Cartesian triples of degree strictly less than `d`:
/// `d(d+1)(d+2)/6`, the first address of degree `d`.
pub fn tri_below(d: usize) -> (n: usize)
    requires
        d * (d + 1) * (d + 2) <= usize::MAX,
        d + 2 <= usize::MAX,
    ensures
        n == tetrahedron(d as int),
{
    proof {
        assert(d * (d + 1) * (d + 2) >= d * (d + 1)) by (nonlinear_arith);
    }
    d * (d + 1) * (d + 2) / 6
}

/// Address of a Cartesian triple within the cumulative ordering by degree, then
/// by [`crate::math::am::cart_index`].
pub fn addr(t: [usize; 3]) -> (n: usize)
    requires
        degree(powers(t)) + 2 <= usize::MAX,
        degree(powers(t)) * (degree(powers(t)) + 1) * (degree(powers(t)) + 2) <= usize::MAX,
        tetrahedron(degree(powers(t)) + 1) <= usize::MAX,
    ensures
        n == address(powers(t)),
{
    let n: usize = t[0] + t[1] + t[2];
    let ghost d: int = t[1] + t[2];
    proof {
        assert(n * (n + 1) * (n + 2) >= n * (n + 1)) by (nonlinear_arith);
        assert(n * (n + 1) >= d * (d + 1)) by (nonlinear_arith)
            requires
                0 <= d <= n,
        ;
        law_positions_order_components(powers(t), powers(t), n as int);
        lemma_tetrahedron_step(n as int);
    }
    let base: usize = n * (n + 1) * (n + 2) / 6;
    let within: usize = (n - t[0]) * (n - t[0] + 1) / 2 + t[2];
    base + within
}

/// First nonzero axis of a triple: the axis it is lowered along.
pub fn lower_axis(t: [usize; 3]) -> (i: usize)
    ensures
        i == first_axis(powers(t)),
        i < 3,
{
    if t[0] > 0 {
        0
    } else if t[1] > 0 {
        1
    } else {
        2
    }
}

/// `t` lowered by one along axis `i`.
pub fn dec(t: [usize; 3], i: usize) -> (r: [usize; 3])
    requires
        i < 3,
        power(powers(t), i as int) >= 1,
    ensures
        powers(r) == shifted(powers(t), i as int, -1),
{
    if i == 0 {
        [t[0] - 1, t[1], t[2]]
    } else if i == 1 {
        [t[0], t[1] - 1, t[2]]
    } else {
        [t[0], t[1], t[2] - 1]
    }
}

/// `t` raised by one along axis `i`.
pub fn inc(t: [usize; 3], i: usize) -> (r: [usize; 3])
    requires
        i < 3,
        power(powers(t), i as int) < usize::MAX,
    ensures
        powers(r) == shifted(powers(t), i as int, 1),
{
    if i == 0 {
        [t[0] + 1, t[1], t[2]]
    } else if i == 1 {
        [t[0], t[1] + 1, t[2]]
    } else {
        [t[0], t[1], t[2] + 1]
    }
}

/// Power of `t` along axis `i`.
pub fn power_of(t: [usize; 3], i: usize) -> (p: usize)
    requires
        i < 3,
    ensures
        p == power(powers(t), i as int),
{
    if i == 0 {
        t[0]
    } else if i == 1 {
        t[1]
    } else {
        t[2]
    }
}

/// Degrees that the engines reach keep every count small.
pub proof fn lemma_small_degree(k: int)
    requires
        0 <= k <= 25,
    ensures
        1 <= (k + 1) * (k + 2) <= 702,
        0 <= k * (k + 1) <= 650,
        (k + 1) * (k + 2) * (k + 3) <= 19656,
        k * (k + 1) * (k + 2) <= 17550,
        1 <= cart_count(k) <= 351,
        0 <= tetrahedron(k) <= 2925,
        1 <= tetrahedron(k + 1) <= 3276,
        tetrahedron(k + 1) == tetrahedron(k) + cart_count(k),
{
    assert(1 <= (k + 1) * (k + 2) <= 702 && 0 <= k * (k + 1) <= 650) by (nonlinear_arith)
        requires
            0 <= k <= 25,
    ;
    let u = (k + 1) * (k + 2);
    let w = k * (k + 1);
    assert(u * (k + 3) <= 19656) by (nonlinear_arith)
        requires
            0 <= k <= 25,
            1 <= u <= 702,
    ;
    assert(w * (k + 2) <= 17550) by (nonlinear_arith)
        requires
            0 <= k <= 25,
            0 <= w <= 650,
    ;
    lemma_triangle_step(k + 1);
    lemma_triangle_step(0);
    lemma_triangle_grows(1, k + 1);
    lemma_tetrahedron_step(k);
    lemma_tetrahedron_step(k + 1);
    assert((k + 1) * (k + 1 + 1) * (k + 1 + 2) == u * (k + 3)) by (nonlinear_arith)
        requires
            u == (k + 1) * (k + 2),
    ;
}

/// Whether `tri` lists the triples of degree at most `lmax` by address.
pub open spec fn lists_triples(tri: Seq<[usize; 3]>, lmax: int) -> bool {
    &&& lmax >= 0
    &&& tri.len() == tetrahedron(lmax + 1)
    &&& forall|n: int|
        0 <= n < tri.len() ==> is_triple(#[trigger] powers(tri[n]), lmax) && address(
            powers(tri[n]),
        ) == n
}

/// A triple stands in the list at its address.
pub proof fn lemma_listed_at_address(tri: Seq<[usize; 3]>, lmax: int, c: Powers)
    requires
        lists_triples(tri, lmax),
        is_triple(c, lmax),
    ensures
        0 <= address(c) < tri.len(),
        powers(tri[address(c)]) == c,
{
    law_addresses_are_distinct(c, c, lmax);
    law_addresses_are_distinct(powers(tri[address(c)]), c, lmax);
}

/// The entries from `tetrahedron(k)` on are the components of degree `k`, in
/// order.
pub proof fn lemma_listed_by_degree(tri: Seq<[usize; 3]>, lmax: int, k: int, i: int)
    requires
        lists_triples(tri, lmax),
        0 <= k <= lmax,
        0 <= i < cart_count(k),
    ensures
        0 <= tetrahedron(k) + i < tetrahedron(k + 1) <= tri.len(),
        is_component(powers(tri[tetrahedron(k) + i]), k),
        cart_position(powers(tri[tetrahedron(k) + i])) == i,
{
    lemma_tetrahedron_step(k);
    lemma_tetrahedron_grows(k + 1, lmax + 1);
    law_every_position_is_taken(k, i);
    let c = crate::math::am::component_at(k, i);
    lemma_listed_at_address(tri, lmax, c);
}

/// Degrees in the list.
pub proof fn lemma_listed_degree_bound(tri: Seq<[usize; 3]>, lmax: int, k: int, n: int)
    requires
        lists_triples(tri, lmax),
        0 <= k <= lmax,
        0 <= n < tri.len(),
    ensures
        n < tetrahedron(k + 1) <==> degree(powers(tri[n])) <= k,
        tetrahedron(k + 1) <= tri.len(),
{
    let c = powers(tri[n]);
    let d = degree(c);
    lemma_tetrahedron_grows(k + 1, lmax + 1);
    law_addresses_are_distinct(c, c, d);
    if d > k {
        lemma_tetrahedron_grows(k + 1, d);
        law_positions_order_components(c, c, d);
    } else {
        lemma_tetrahedron_grows(d + 1, k + 1);
    }
}

/// The triples of degree at most `lmax`, by address.
pub fn triple_table(lmax: usize) -> (tri: Vec<[usize; 3]>)
    requires
        (lmax + 1) * (lmax + 2) * (lmax + 3) <= usize::MAX,
    ensures
        lists_triples(tri@, lmax as int),
{
    let mut tri: Vec<[usize; 3]> = Vec::new();
    let mut d: usize = 0;
    proof {
        lemma_tetrahedron_step(0);
        let a = lmax + 1;
        let b = lmax + 2;
        let c = lmax + 3;
        assert(a * b * c >= a * b && a * b * c >= c) by (nonlinear_arith)
            requires
                a >= 1,
                b >= 1,
                c >= 1,
        ;
    }
    while d <= lmax
        invariant
            d <= lmax + 1,
            lmax + 3 <= usize::MAX,
            (lmax + 1) * (lmax + 2) <= usize::MAX,
            tri@.len() == tetrahedron(d as int),
            forall|n: int|
                0 <= n < tri@.len() ==> is_triple(#[trigger] powers(tri@[n]), lmax as int)
                    && address(powers(tri@[n])) == n,
        decreases lmax + 1 - d,
    {
        proof {
            assert((d + 1) * (d + 2) <= (lmax + 1) * (lmax + 2)) by (nonlinear_arith)
                requires
                    0 <= d <= lmax,
            ;
        }
        let comps = crate::math::am::cart_components(d);
        let mut i: usize = 0;
        while i < comps.len()
            invariant
                i <= comps@.len(),
                d <= lmax,
                comps@.len() == cart_count(d as int),
                forall|j: int|
                    0 <= j < comps@.len() ==> is_component(#[trigger] powers(comps@[j]), d as int)
                        && cart_position(powers(comps@[j])) == j,
                tri@.len() == tetrahedron(d as int) + i,
                forall|n: int|
                    0 <= n < tri@.len() ==> is_triple(#[trigger] powers(tri@[n]), lmax as int)
                        && address(powers(tri@[n])) == n,
            decreases comps@.len() - i,
        {
            let ghost c = powers(comps@[i as int]);
            tri.push(comps[i]);
            i = i + 1;
        }
        proof {
            lemma_tetrahedron_step(d as int);
        }
        d = d + 1;
    }
    tri
}

} // verus!
