//! The builder and the dense tensor agree: blocks do not depend on which pair of shells is
//! the bra.
use vstd::prelude::*;

use crate::dense::blocks_of;
use crate::engine::os_eri::MAX_L;
use crate::engine::rys::{lemma_quartet_sizes, quadruple_at};
use crate::engine::tower_mirror::exchanged;
use crate::engine_agreement::{has_both_engines, law_engines_agree};
use crate::eri_batch::four_of;
use crate::eri_builder::fourfold_entry;
use crate::exact::{counts_exactly, halves_exactly, is_ring, lemma_same_sum};
use crate::flat::{
    cell, lemma_cell_in_range, lemma_pair_in_range, lemma_pair_parts, lemma_quad_in_range,
    lemma_quad_parts, pair, quad,
};
use crate::grad::repulsion_invariance::lemma_cell_is_quad;
use crate::integrals::Engine;
use crate::math::am::{cart_count, law_every_position_is_taken};
use crate::math::rys::RysTables;
use crate::quartet::{cart_block, recurs, Four};
use crate::repulsion_symmetry::{law_bra_and_ket_exchange, turned};
use crate::scalar::{Real, Scalar};
use crate::shell::{function_count, function_counts, Shell};
use crate::spherical::{component_block4, contracted_axis, shell_matrix, Shape};
use crate::tensor::{in_block, is_function, ordered, tensor_entry, At};
use crate::transposition::{lemma_row_sum, lemma_taken_exchanged, taken};

verus! {

/// An entry of a block with an axis contracted.
proof fn lemma_axis_entry<T: Scalar>(
    m: Option<Seq<T>>,
    rows: int,
    block: Seq<T>,
    outer: int,
    n: int,
    inner: int,
    o: int,
    r: int,
    i: int,
)
    requires
        0 <= o < outer,
        0 <= r < rows,
        0 <= i < inner,
        m is None ==> rows == n,
    ensures
        contracted_axis(m, rows, block, outer, n, inner)[cell(o, rows, r, inner, i)] == taken(
            m,
            n,
            |c: int| block[cell(o, n, c, inner, i)],
            r,
        ),
{
    if let Some(t) = m {
        lemma_cell_in_range(o, outer, rows, r, inner, i);
        lemma_pair_in_range(o, outer, rows, r);
        lemma_pair_parts(o, rows, r);
        lemma_pair_parts(pair(o, rows, r), inner, i);
        let f = |c: int| block[cell(o, n, c, inner, i)];
        let g = |c: int| T::prod(t[pair(r, n, c)], f(c));
        lemma_row_sum(t, block, n, inner, o, r, i, g, n);
    }
}

/// Equal vectors give equal entries.
proof fn lemma_taken_same<T: Scalar>(
    m: Option<Seq<T>>,
    n: int,
    f: spec_fn(int) -> T,
    g: spec_fn(int) -> T,
    r: int,
)
    requires
        m is None ==> 0 <= r < n,
        forall|c: int| 0 <= c < n ==> #[trigger] g(c) == f(c),
    ensures
        taken(m, n, g, r) == taken(m, n, f, r),
{
    if let Some(t) = m {
        let u = |c: int| T::prod(t[pair(r, n, c)], f(c));
        let v = |c: int| T::prod(t[pair(r, n, c)], g(c));
        assert forall|c: int| 0 <= c < n implies #[trigger] v(c) == u(c) by {
            assert(g(c) == f(c));
        }
        lemma_same_sum(u, v, n);
    } else {
        assert(g(r) == f(r));
    }
}

/// A matrix, the length of its rows and a row, or a length and an entry if there is no
/// matrix.
pub type Row<T> = (Option<Seq<T>>, int, int);

/// Whether a row without a matrix is within the length.
pub open spec fn is_row<T>(a: Row<T>) -> bool {
    a.0 is None ==> 0 <= a.2 < a.1
}

/// A row times a vector.
pub open spec fn across<T: Scalar>(a: Row<T>, f: spec_fn(int) -> T) -> T {
    taken(a.0, a.1, f, a.2)
}

/// A vector of four coordinates.
pub type Grid<T> = spec_fn(int, int, int, int) -> T;

/// The rows of four axes applied to a block, the first innermost.
pub open spec fn reduced<T: Scalar>(
    a: Row<T>,
    b: Row<T>,
    c: Row<T>,
    d: Row<T>,
    f: Grid<T>,
) -> T {
    across(
        d,
        |l: int|
            across(
                c,
                |k: int| across(b, |j: int| across(a, |i: int| f(i, j, k, l))),
            ),
    )
}

/// Two neighbouring axes of four may change places: the inner two.
proof fn lemma_inner_exchanged<T: Scalar>(a: Row<T>, b: Row<T>, f: spec_fn(int, int) -> T)
    requires
        is_ring::<T>(),
        is_row(a),
        is_row(b),
    ensures
        across(b, |j: int| across(a, |i: int| f(i, j))) == across(
            a,
            |i: int| across(b, |j: int| f(i, j)),
        ),
{
    lemma_taken_exchanged(a.0, a.1, a.2, b.0, b.1, b.2, f);
    assert((|j: int| across(a, |i: int| f(i, j))) =~= (|j: int|
        taken(a.0, a.1, |i: int| f(i, j), a.2)));
    assert((|i: int| across(b, |j: int| f(i, j))) =~= (|i: int|
        taken(b.0, b.1, |j: int| f(i, j), b.2)));
}

/// The pair of the first two axes and that of the last two may change places.
proof fn lemma_reduced_exchanged<T: Scalar>(
    a: Row<T>,
    b: Row<T>,
    c: Row<T>,
    d: Row<T>,
    f: Grid<T>,
)
    requires
        is_ring::<T>(),
        is_row(a),
        is_row(b),
        is_row(c),
        is_row(d),
    ensures
        reduced(a, b, c, d, f) == reduced(
            c,
            d,
            a,
            b,
            |k: int, l: int, i: int, j: int| f(i, j, k, l),
        ),
{
    // Innermost a, then b, c, d.
    let ab = |k: int, l: int| across(b, |j: int| across(a, |i: int| f(i, j, k, l)));
    let fa = |j: int, k: int, l: int| across(a, |i: int| f(i, j, k, l));
    let fca = |j: int, l: int| across(c, |k: int| fa(j, k, l));
    let step = |l: int| across(c, |k: int| ab(k, l));
    let next = |l: int| across(b, |j: int| fca(j, l));
    assert forall|l: int| 0 <= l < d.1 implies #[trigger] step(l) == next(l) by {
        let g = |j: int, k: int| fa(j, k, l);
        lemma_inner_exchanged(b, c, g);
        let u = |k: int| across(b, |j: int| g(j, k));
        let v = |k: int| ab(k, l);
        assert forall|k: int| 0 <= k < c.1 implies #[trigger] v(k) == u(k) by {
            lemma_taken_same(
                b.0,
                b.1,
                |j: int| g(j, k),
                |j: int| across(a, |i: int| f(i, j, k, l)),
                b.2,
            );
        }
        lemma_taken_same(c.0, c.1, u, v, c.2);
        let p = |j: int| across(c, |k: int| g(j, k));
        let q = |j: int| fca(j, l);
        assert forall|j: int| 0 <= j < b.1 implies #[trigger] q(j) == p(j) by {
            lemma_taken_same(c.0, c.1, |k: int| g(j, k), |k: int| fa(j, k, l), c.2);
        }
        lemma_taken_same(b.0, b.1, p, q, b.2);
    }
    lemma_taken_same(d.0, d.1, next, step, d.2);
    let start = |l: int|
        across(c, |k: int| across(b, |j: int| across(a, |i: int| f(i, j, k, l))));
    assert forall|l: int| 0 <= l < d.1 implies #[trigger] start(l) == step(l) by {
        lemma_taken_same(
            c.0,
            c.1,
            |k: int| across(b, |j: int| across(a, |i: int| f(i, j, k, l))),
            |k: int| ab(k, l),
            c.2,
        );
    }
    lemma_taken_same(d.0, d.1, step, start, d.2);
    assert(reduced(a, b, c, d, f) == across(d, start));
    // Now b outside d.
    lemma_inner_exchanged(b, d, fca);
    // For each j: a, c, d to c, d, a.
    let outer = |j: int| across(d, |l: int| fca(j, l));
    let want = |j: int|
        across(a, |i: int| across(d, |l: int| across(c, |k: int| f(i, j, k, l))));
    assert forall|j: int| 0 <= j < b.1 implies #[trigger] outer(j) == want(j) by {
        let fc = |i: int, l: int| across(c, |k: int| f(i, j, k, l));
        let x = |l: int| fca(j, l);
        let y = |l: int| across(a, |i: int| fc(i, l));
        assert forall|l: int| 0 <= l < d.1 implies #[trigger] x(l) == y(l) by {
            let h = |i: int, k: int| f(i, j, k, l);
            lemma_inner_exchanged(a, c, h);
            let (p, q) = (|k: int| across(a, |i: int| h(i, k)), |k: int| fa(j, k, l));
            assert forall|k: int| 0 <= k < c.1 implies #[trigger] q(k) == p(k) by {
                lemma_taken_same(a.0, a.1, |i: int| h(i, k), |i: int| f(i, j, k, l), a.2);
            }
            lemma_taken_same(c.0, c.1, p, q, c.2);
            let (u, v) = (|i: int| across(c, |k: int| h(i, k)), |i: int| fc(i, l));
            assert forall|i: int| 0 <= i < a.1 implies #[trigger] v(i) == u(i) by {
                lemma_taken_same(c.0, c.1, |k: int| h(i, k), |k: int| f(i, j, k, l), c.2);
            }
            lemma_taken_same(a.0, a.1, u, v, a.2);
        }
        lemma_taken_same(d.0, d.1, y, x, d.2);
        lemma_inner_exchanged(a, d, fc);
        let u = |i: int| across(d, |l: int| across(c, |k: int| f(i, j, k, l)));
        let v = |i: int| across(d, |l: int| fc(i, l));
        assert forall|i: int| 0 <= i < a.1 implies #[trigger] v(i) == u(i) by {
            lemma_taken_same(
                d.0,
                d.1,
                |l: int| across(c, |k: int| f(i, j, k, l)),
                |l: int| fc(i, l),
                d.2,
            );
        }
        lemma_taken_same(a.0, a.1, u, v, a.2);
    }
    lemma_taken_same(b.0, b.1, want, outer, b.2);
    let h = |k: int, l: int, i: int, j: int| f(i, j, k, l);
    let end = |j: int|
        across(a, |i: int| across(d, |l: int| across(c, |k: int| h(k, l, i, j))));
    assert forall|j: int| 0 <= j < b.1 implies #[trigger] end(j) == want(j) by {
        let u = |i: int| across(d, |l: int| across(c, |k: int| f(i, j, k, l)));
        let v = |i: int| across(d, |l: int| across(c, |k: int| h(k, l, i, j)));
        assert forall|i: int| 0 <= i < a.1 implies #[trigger] v(i) == u(i) by {
            let p = |l: int| across(c, |k: int| f(i, j, k, l));
            let q = |l: int| across(c, |k: int| h(k, l, i, j));
            assert forall|l: int| 0 <= l < d.1 implies #[trigger] q(l) == p(l) by {
                lemma_taken_same(
                    c.0,
                    c.1,
                    |k: int| f(i, j, k, l),
                    |k: int| h(k, l, i, j),
                    c.2,
                );
            }
            lemma_taken_same(d.0, d.1, p, q, d.2);
        }
        lemma_taken_same(a.0, a.1, u, v, a.2);
    }
    lemma_taken_same(b.0, b.1, want, end, b.2);
    assert(reduced(c, d, a, b, h) == across(b, end));
}

/// The row of a shell's transform for one of its components.
pub open spec fn row_of<T: Real>(a: Shape, x: int) -> Row<T> {
    (shell_matrix::<T>(a.0, a.1), cart_count(a.1), x)
}

/// Whether a number names a component of a shell of supported angular momentum.
pub open spec fn is_place(a: Shape, x: int) -> bool {
    0 <= a.1 <= MAX_L && 0 <= x < function_count(a.0, a.1)
}

/// An entry of a block of four shells in their components.
#[verifier::spinoff_prover]
#[verifier::rlimit(60)]
proof fn lemma_block4_entry<T: Real>(
    a: Shape,
    b: Shape,
    c: Shape,
    d: Shape,
    block: Seq<T>,
    at: (int, int, int, int),
)
    requires
        is_place(a, at.0),
        is_place(b, at.1),
        is_place(c, at.2),
        is_place(d, at.3),
    ensures
        ({
            let (nb, nc, nd) = (cart_count(b.1), cart_count(c.1), cart_count(d.1));
            let (fb, fc) = (function_count(b.0, b.1), function_count(c.0, c.1));
            let fd = function_count(d.0, d.1);
            component_block4(a, b, c, d, block)[quad(at.0, fb, at.1, fc, at.2, fd, at.3)]
                == reduced(
                row_of(a, at.0),
                row_of(b, at.1),
                row_of(c, at.2),
                row_of(d, at.3),
                |i: int, j: int, k: int, l: int| block[quad(i, nb, j, nc, k, nd, l)],
            )
        }),
{
    let (na, nb, nc, nd) = (cart_count(a.1), cart_count(b.1), cart_count(c.1), cart_count(d.1));
    let (fa, fb) = (function_count(a.0, a.1), function_count(b.0, b.1));
    let (fc, fd) = (function_count(c.0, c.1), function_count(d.0, d.1));
    let (x, y, z, w) = at;
    lemma_quartet_sizes(a.1, b.1, c.1, d.1);
    let (ra, rb) = (row_of::<T>(a, x), row_of::<T>(b, y));
    let (rc, rd) = (row_of::<T>(c, z), row_of::<T>(d, w));
    let f = |i: int, j: int, k: int, l: int| block[quad(i, nb, j, nc, k, nd, l)];
    let b1 = contracted_axis(ra.0, fa, block, 1, na, nb * nc * nd);
    let b2 = contracted_axis(rb.0, fb, b1, fa, nb, nc * nd);
    let b3 = contracted_axis(rc.0, fc, b2, fa * fb, nc, nd);
    let b4 = contracted_axis(rd.0, fd, b3, fa * fb * fc, nd, 1);
    let v1 = |j: int, k: int, l: int| across(ra, |i: int| f(i, j, k, l));
    let v2 = |k: int, l: int| across(rb, |j: int| across(ra, |i: int| f(i, j, k, l)));
    let v3 = |l: int|
        across(rc, |k: int| across(rb, |j: int| across(ra, |i: int| f(i, j, k, l))));
    assert forall|j: int, k: int, l: int|
        0 <= j < nb && 0 <= k < nc && 0 <= l < nd implies b1[quad(x, nb, j, nc, k, nd, l)]
        == #[trigger] v1(j, k, l) by {
        let inside = pair(pair(j, nc, k), nd, l);
        lemma_pair_in_range(j, nb, nc, k);
        lemma_pair_in_range(pair(j, nc, k), nb * nc, nd, l);
        lemma_axis_entry(ra.0, fa, block, 1, na, nb * nc * nd, 0, x, inside);
        lemma_cell_is_quad((x, j, k, l), nb, nc, nd, 0, fa, x);
        let p = |i: int| block[cell(0, na, i, nb * nc * nd, inside)];
        let q = |i: int| f(i, j, k, l);
        assert forall|i: int| 0 <= i < na implies #[trigger] q(i) == p(i) by {
            lemma_cell_is_quad((x, j, k, l), nb, nc, nd, 0, na, i);
        }
        lemma_taken_same(ra.0, na, p, q, x);
    }
    assert forall|k: int, l: int| 0 <= k < nc && 0 <= l < nd implies b2[quad(
        x,
        fb,
        y,
        nc,
        k,
        nd,
        l,
    )] == #[trigger] v2(k, l) by {
        let inside = pair(k, nd, l);
        lemma_pair_in_range(k, nc, nd, l);
        lemma_axis_entry(rb.0, fb, b1, fa, nb, nc * nd, x, y, inside);
        lemma_cell_is_quad((x, y, k, l), nb, nc, nd, 1, fb, y);
        let p = |j: int| b1[cell(x, nb, j, nc * nd, inside)];
        let q = |j: int| across(ra, |i: int| f(i, j, k, l));
        assert forall|j: int| 0 <= j < nb implies #[trigger] q(j) == p(j) by {
            lemma_cell_is_quad((x, j, k, l), nb, nc, nd, 1, nb, j);
            assert(b1[quad(x, nb, j, nc, k, nd, l)] == v1(j, k, l));
        }
        lemma_taken_same(rb.0, nb, p, q, y);
    }
    assert forall|l: int| 0 <= l < nd implies b3[quad(x, fb, y, fc, z, nd, l)] == #[trigger] v3(
        l,
    ) by {
        lemma_pair_in_range(x, fa, fb, y);
        lemma_axis_entry(rc.0, fc, b2, fa * fb, nc, nd, pair(x, fb, y), z, l);
        let p = |k: int| b2[cell(pair(x, fb, y), nc, k, nd, l)];
        let q = |k: int| across(rb, |j: int| across(ra, |i: int| f(i, j, k, l)));
        assert forall|k: int| 0 <= k < nc implies #[trigger] q(k) == p(k) by {
            assert(b2[quad(x, fb, y, nc, k, nd, l)] == v2(k, l));
        }
        lemma_taken_same(rc.0, nc, p, q, z);
    }
    let o = pair(pair(x, fb, y), fc, z);
    lemma_pair_in_range(x, fa, fb, y);
    lemma_pair_in_range(pair(x, fb, y), fa * fb, fc, z);
    lemma_axis_entry(rd.0, fd, b3, fa * fb * fc, nd, 1, o, w, 0);
    assert(cell(o, fd, w, 1, 0) == pair(o, fd, w));
    let p = |l: int| b3[cell(o, nd, l, 1, 0)];
    assert forall|l: int| 0 <= l < nd implies #[trigger] v3(l) == p(l) by {
        assert(cell(o, nd, l, 1, 0) == pair(o, nd, l));
        assert(b3[quad(x, fb, y, fc, z, nd, l)] == v3(l));
    }
    lemma_taken_same(rd.0, nd, p, v3, w);
    assert(b4[quad(x, fb, y, fc, z, fd, w)] == across(rd, v3));
    assert(reduced(ra, rb, rc, rd, f) == across(rd, v3));
}

/// Whether a block is that of the recurrences: their engine is taken, or it agrees with the
/// quadrature.
pub open spec fn goes_by_recurrences<T: Real>(
    rys: RysTables<T>,
    engine: Engine,
    q: Four<T>,
) -> bool {
    recurs(engine, q) || halves_exactly::<T>() && has_both_engines(rys, q)
}

/// A Cartesian block with bra and ket exchanged.
proof fn lemma_cart_exchanged<T: Real>(
    rys: RysTables<T>,
    engine: Engine,
    q: Four<T>,
    i: int,
    j: int,
    k: int,
    l: int,
)
    requires
        is_ring::<T>(),
        counts_exactly::<T>(),
        goes_by_recurrences(rys, engine, q),
        goes_by_recurrences(rys, engine, turned(q)),
        0 <= q.0.0 <= MAX_L && 0 <= q.1.0 <= MAX_L && 0 <= q.2.0 <= MAX_L && 0 <= q.3.0 <= MAX_L,
        0 <= i < cart_count(q.0.0),
        0 <= j < cart_count(q.1.0),
        0 <= k < cart_count(q.2.0),
        0 <= l < cart_count(q.3.0),
    ensures
        ({
            let (na, nb) = (cart_count(q.0.0), cart_count(q.1.0));
            let (nc, nd) = (cart_count(q.2.0), cart_count(q.3.0));
            cart_block(rys, engine, None, q)[quad(i, nb, j, nc, k, nd, l)] == cart_block(
                rys,
                engine,
                None,
                turned(q),
            )[quad(k, nd, l, na, i, nb, j)]
        }),
{
    let (la, lb, lc, ld) = (q.0.0, q.1.0, q.2.0, q.3.0);
    let (na, nb, nc, nd) = (cart_count(la), cart_count(lb), cart_count(lc), cart_count(ld));
    lemma_quartet_sizes(la, lb, lc, ld);
    lemma_quartet_sizes(lc, ld, la, lb);
    lemma_quad_in_range(i, na, j, nb, k, nc, l, nd);
    lemma_quad_in_range(k, nc, l, nd, i, na, j, nb);
    lemma_quad_parts(i, nb, j, nc, k, nd, l);
    lemma_quad_parts(k, nd, l, na, i, nb, j);
    law_every_position_is_taken(la, i);
    law_every_position_is_taken(lb, j);
    law_every_position_is_taken(lc, k);
    law_every_position_is_taken(ld, l);
    if !recurs(engine, q) {
        law_engines_agree(rys, engine, Engine::OsHgp, q);
    }
    if !recurs(engine, turned(q)) {
        law_engines_agree(rys, engine, Engine::OsHgp, turned(q));
    }
    let n = quadruple_at(la, lb, lc, ld, quad(i, nb, j, nc, k, nd, l));
    law_bra_and_ket_exchange(q, n);
    assert(quadruple_at(lc, ld, la, lb, quad(k, nd, l, na, i, nb, j)) == exchanged(n));
}

/// The block of two pairs of shells does not depend on which of them is the bra, where it is
/// that of the recurrences, in any commutative ring in which counts add up.
pub proof fn law_blocks_exchange<T: Real>(
    rys: RysTables<T>,
    engine: Engine,
    shells: Seq<Shell<T>>,
    x: At,
    y: At,
    z: At,
    w: At,
)
    requires
        is_ring::<T>(),
        counts_exactly::<T>(),
        is_function(function_counts(shells), x),
        is_function(function_counts(shells), y),
        is_function(function_counts(shells), z),
        is_function(function_counts(shells), w),
        shells[x.0].valid() && shells[y.0].valid() && shells[z.0].valid() && shells[w.0].valid(),
        goes_by_recurrences(rys, engine, four_of(shells, x.0, y.0, z.0, w.0)),
        goes_by_recurrences(rys, engine, four_of(shells, z.0, w.0, x.0, y.0)),
    ensures
        ({
            let lens = function_counts(shells);
            let blocks = blocks_of(rys, engine, None, shells);
            in_block(blocks(x.0, y.0, z.0, w.0), lens, (x, y, z, w)) == in_block(
                blocks(z.0, w.0, x.0, y.0),
                lens,
                (z, w, x, y),
            )
        }),
{
    let shape = |p: At| (shells[p.0].kind, shells[p.0].l as int);
    let (a, b, c, d) = (shape(x), shape(y), shape(z), shape(w));
    let (na, nb, nc, nd) = (cart_count(a.1), cart_count(b.1), cart_count(c.1), cart_count(d.1));
    let q = four_of(shells, x.0, y.0, z.0, w.0);
    let here = cart_block(rys, engine, None, q);
    let there = cart_block(rys, engine, None, turned(q));
    lemma_block4_entry(a, b, c, d, here, (x.1, y.1, z.1, w.1));
    lemma_block4_entry(c, d, a, b, there, (z.1, w.1, x.1, y.1));
    let f = |i: int, j: int, k: int, l: int| here[quad(i, nb, j, nc, k, nd, l)];
    let g = |k: int, l: int, i: int, j: int| there[quad(k, nd, l, na, i, nb, j)];
    let h = |k: int, l: int, i: int, j: int| f(i, j, k, l);
    let (ra, rb) = (row_of::<T>(a, x.1), row_of::<T>(b, y.1));
    let (rc, rd) = (row_of::<T>(c, z.1), row_of::<T>(d, w.1));
    lemma_reduced_exchanged(ra, rb, rc, rd, f);
    // The two Cartesian blocks hold the same entries.
    let u = |j: int| across(ra, |i: int| across(rd, |l: int| across(rc, |k: int| h(k, l, i, j))));
    let v = |j: int| across(ra, |i: int| across(rd, |l: int| across(rc, |k: int| g(k, l, i, j))));
    assert forall|j: int| 0 <= j < nb implies #[trigger] v(j) == u(j) by {
        let u1 = |i: int| across(rd, |l: int| across(rc, |k: int| h(k, l, i, j)));
        let v1 = |i: int| across(rd, |l: int| across(rc, |k: int| g(k, l, i, j)));
        assert forall|i: int| 0 <= i < na implies #[trigger] v1(i) == u1(i) by {
            let u2 = |l: int| across(rc, |k: int| h(k, l, i, j));
            let v2 = |l: int| across(rc, |k: int| g(k, l, i, j));
            assert forall|l: int| 0 <= l < nd implies #[trigger] v2(l) == u2(l) by {
                let u3 = |k: int| h(k, l, i, j);
                let v3 = |k: int| g(k, l, i, j);
                assert forall|k: int| 0 <= k < nc implies #[trigger] v3(k) == u3(k) by {
                    lemma_cart_exchanged(rys, engine, q, i, j, k, l);
                }
                lemma_taken_same(rc.0, nc, u3, v3, rc.2);
            }
            lemma_taken_same(rd.0, nd, u2, v2, rd.2);
        }
        lemma_taken_same(ra.0, na, u1, v1, ra.2);
    }
    lemma_taken_same(rb.0, nb, u, v, rb.2);
    assert(reduced(rc, rd, ra, rb, h) == across(rb, u));
    assert(reduced(rc, rd, ra, rb, g) == across(rb, v));
}

/// The builder gives the value of the dense tensor, also where the bra pair of shells comes
/// before the ket pair, where it is that of the recurrences, in any commutative ring in
/// which counts add up.
pub proof fn law_builder_agrees_with_the_dense_tensor<T: Real>(
    rys: RysTables<T>,
    engine: Engine,
    shells: Seq<Shell<T>>,
    x: At,
    y: At,
    z: At,
    w: At,
)
    requires
        is_ring::<T>(),
        counts_exactly::<T>(),
        is_function(function_counts(shells), x),
        is_function(function_counts(shells), y),
        is_function(function_counts(shells), z),
        is_function(function_counts(shells), w),
        shells[x.0].valid() && shells[y.0].valid() && shells[z.0].valid() && shells[w.0].valid(),
        ({
            let ((p, q), (r, s)) = (ordered(x, y), ordered(z, w));
            &&& goes_by_recurrences(rys, engine, four_of(shells, p.0, q.0, r.0, s.0))
            &&& goes_by_recurrences(rys, engine, four_of(shells, r.0, s.0, p.0, q.0))
        }),
    ensures
        ({
            let lens = function_counts(shells);
            let blocks = blocks_of(rys, engine, None, shells);
            fourfold_entry(blocks, lens, x, y, z, w) == tensor_entry(blocks, lens, x, y, z, w)
        }),
{
    let ((p, q), (r, s)) = (ordered(x, y), ordered(z, w));
    law_blocks_exchange(rys, engine, shells, p, q, r, s);
}

} // verus!
