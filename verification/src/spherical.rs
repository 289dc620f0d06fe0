//! From Cartesian blocks to the components of the shells.
//!
//! A block has one axis per shell. The axis of a shell of real solid harmonics is
//! contracted with the transform of its degree; that of a Cartesian shell is left as
//! it is.
use vstd::prelude::*;

use crate::flat::{cell, lemma_cell_in_range, lemma_pair_in_range, pair};
use crate::math::am::cart_count;
use crate::math::solid_harmonics::{c2s_matrix, monomial_to_raw_factor, raw_factor, transform_entry};
use crate::scalar::{Real, Scalar};
use crate::shell::{function_count, Shell, ShellKind};

verus! {

/// The transform of a shell, row by row; nothing for a Cartesian shell.
pub open spec fn shell_matrix<T: Real>(kind: ShellKind, l: int) -> Option<Seq<T>> {
    match kind {
        ShellKind::Cartesian => None,
        ShellKind::Spherical => Some(
            Seq::new(
                ((2 * l + 1) * cart_count(l)) as nat,
                |k: int|
                    T::prod(
                        raw_factor::<T>(l),
                        transform_entry::<T>(l, k / cart_count(l), k % cart_count(l)),
                    ),
            ),
        ),
    }
}

/// The contents of an optional list.
pub open spec fn held<T>(m: Option<Vec<T>>) -> Option<Seq<T>> {
    match m {
        None => None,
        Some(v) => Some(v@),
    }
}

/// The transform of a shell; nothing for a Cartesian shell.
pub fn shell_transform<T: Real>(s: &Shell<T>) -> (r: Option<Vec<T>>)
    requires
        s.valid(),
    ensures
        held(r) == shell_matrix::<T>(s.kind, s.l as int),
{
    match s.kind {
        ShellKind::Cartesian => None,
        ShellKind::Spherical => {
            let l = s.l;
            proof {
                crate::engine::triples::lemma_small_degree(l as int);
                let c = cart_count(l as int);
                assert((2 * l + 1) * c <= 13 * 351) by (nonlinear_arith)
                    requires
                        0 <= l <= 6,
                        0 <= c <= 351,
                ;
            }
            let factor = monomial_to_raw_factor::<T>(l);
            let c2s = c2s_matrix::<T>(l);
            let mut m: Vec<T> = Vec::new();
            let mut k: usize = 0;
            while k < c2s.len()
                invariant
                    k <= c2s@.len(),
                    m@.len() == k,
                    forall|i: int| 0 <= i < k ==> #[trigger] m@[i] == T::prod(factor, c2s@[i]),
                decreases c2s@.len() - k,
            {
                m.push(factor.times(c2s[k]));
                k = k + 1;
            }
            let ghost ll = l as int;
            assert(m@ =~= Seq::new(
                ((2 * ll + 1) * cart_count(ll)) as nat,
                |k: int|
                    T::prod(
                        raw_factor::<T>(ll),
                        transform_entry::<T>(ll, k / cart_count(ll), k % cart_count(ll)),
                    ),
            ));
            Some(m)
        },
    }
}

/// The sum over the first `c` columns of row `r` of `m` times the entries of `block`
/// along the middle axis of a shape `(_, n, inner)`, at `(o, _, i)`.
pub open spec fn row_sum<T: Scalar>(
    m: Seq<T>,
    block: Seq<T>,
    n: int,
    inner: int,
    o: int,
    r: int,
    i: int,
    c: int,
) -> T
    decreases c,
{
    if c <= 0 {
        T::count(0)
    } else {
        T::sum(
            row_sum(m, block, n, inner, o, r, i, c - 1),
            T::prod(m[pair(r, n, c - 1)], block[cell(o, n, c - 1, inner, i)]),
        )
    }
}

/// A block of shape `(outer, n, inner)` with its middle axis contracted with `m`, of
/// `rows` rows; the block itself if there is no `m`.
pub open spec fn contracted_axis<T: Scalar>(
    m: Option<Seq<T>>,
    rows: int,
    block: Seq<T>,
    outer: int,
    n: int,
    inner: int,
) -> Seq<T> {
    match m {
        None => block,
        Some(m) => Seq::new(
            (outer * rows * inner) as nat,
            |k: int|
                row_sum(m, block, n, inner, k / inner / rows, k / inner % rows, k % inner, n),
        ),
    }
}

/// The block of two shells, from its Cartesian block.
pub open spec fn function_block2<T: Real>(a: Shell<T>, b: Shell<T>, block: Seq<T>) -> Seq<T> {
    let (na, nb) = (cart_count(a.l as int), cart_count(b.l as int));
    let (fa, fb) = (a.functions(), b.functions());
    let b1 = contracted_axis(shell_matrix::<T>(a.kind, a.l as int), fa, block, 1, na, nb);
    contracted_axis(shell_matrix::<T>(b.kind, b.l as int), fb, b1, fa, nb, 1)
}

/// The kind and the angular momentum of a shell.
pub type Shape = (ShellKind, int);

/// A Cartesian block of four shells brought to their components, one index after the
/// other.
pub open spec fn component_block4<T: Real>(
    a: Shape,
    b: Shape,
    c: Shape,
    d: Shape,
    block: Seq<T>,
) -> Seq<T> {
    let (na, nb, nc, nd) = (cart_count(a.1), cart_count(b.1), cart_count(c.1), cart_count(d.1));
    let fa = function_count(a.0, a.1);
    let fb = function_count(b.0, b.1);
    let fc = function_count(c.0, c.1);
    let fd = function_count(d.0, d.1);
    let b1 = contracted_axis(shell_matrix::<T>(a.0, a.1), fa, block, 1, na, nb * nc * nd);
    let b2 = contracted_axis(shell_matrix::<T>(b.0, b.1), fb, b1, fa, nb, nc * nd);
    let b3 = contracted_axis(shell_matrix::<T>(c.0, c.1), fc, b2, fa * fb, nc, nd);
    contracted_axis(shell_matrix::<T>(d.0, d.1), fd, b3, fa * fb * fc, nd, 1)
}

/// A Cartesian block of four shells brought to their components.
pub open spec fn function_block4<T: Real>(
    a: Shell<T>,
    b: Shell<T>,
    c: Shell<T>,
    d: Shell<T>,
    block: Seq<T>,
) -> Seq<T> {
    component_block4(
        (a.kind, a.l as int),
        (b.kind, b.l as int),
        (c.kind, c.l as int),
        (d.kind, d.l as int),
        block,
    )
}

/// The index at `(o, r, i)` of a shape `(_, rows, inner)` has these coordinates.
pub proof fn lemma_cell_parts(o: int, rows: int, r: int, inner: int, i: int)
    requires
        0 <= o,
        0 <= r < rows,
        0 <= i < inner,
    ensures
        cell(o, rows, r, inner, i) / inner / rows == o,
        cell(o, rows, r, inner, i) / inner % rows == r,
        cell(o, rows, r, inner, i) % inner == i,
{
    lemma_pair_in_range(o, o + 1, rows, r);
    crate::flat::lemma_pair_parts(pair(o, rows, r), inner, i);
    crate::flat::lemma_pair_parts(o, rows, r);
}

/// Contract the middle axis of a block of shape `(outer, n, inner)` with `m`, into
/// `out`.
#[verifier::spinoff_prover]
#[verifier::rlimit(30)]
fn contract_axis_into<T: Real>(
    m: &Vec<T>,
    rows: usize,
    block: &Vec<T>,
    outer: usize,
    n: usize,
    inner: usize,
    out: &mut Vec<T>,
)
    requires
        1 <= rows <= 28,
        1 <= n <= 28,
        1 <= inner <= 21952,
        1 <= outer <= 21952,
        outer * n * inner <= 614656,
        outer * rows * inner <= 614656,
        m@.len() == rows * n,
        block@.len() == outer * n * inner,
    ensures
        final(out)@ == contracted_axis(
            Some(m@),
            rows as int,
            block@,
            outer as int,
            n as int,
            inner as int,
        ),
{
    out.clear();
    let ghost goal = contracted_axis(
        Some(m@),
        rows as int,
        block@,
        outer as int,
        n as int,
        inner as int,
    );
    let ghost (oo, rr, nn, ii) = (outer as int, rows as int, n as int, inner as int);
    let mut o: usize = 0;
    while o < outer
        invariant
            o <= outer,
            oo == outer,
            rr == rows,
            nn == n,
            ii == inner,
            1 <= rows <= 28,
            1 <= n <= 28,
            1 <= inner <= 21952,
            1 <= outer <= 21952,
            oo * nn * ii <= 614656,
            oo * rr * ii <= 614656,
            m@.len() == rr * nn,
            block@.len() == oo * nn * ii,
            goal == contracted_axis(Some(m@), rr, block@, oo, nn, ii),
            out@.len() == o * rr * ii,
            forall|k: int| 0 <= k < out@.len() ==> #[trigger] out@[k] == goal[k],
        decreases outer - o,
    {
        let mut r: usize = 0;
        proof {
            assert(pair(o as int, rr, 0) * ii == o * rr * ii);
        }
        while r < rows
            invariant
                o < outer,
                r <= rows,
                oo == outer,
                rr == rows,
                nn == n,
                ii == inner,
                1 <= rows <= 28,
                1 <= n <= 28,
                1 <= inner <= 21952,
                1 <= outer <= 21952,
                oo * nn * ii <= 614656,
                oo * rr * ii <= 614656,
                m@.len() == rr * nn,
                block@.len() == oo * nn * ii,
                goal == contracted_axis(Some(m@), rr, block@, oo, nn, ii),
                out@.len() == pair(o as int, rr, r as int) * ii,
                forall|k: int| 0 <= k < out@.len() ==> #[trigger] out@[k] == goal[k],
            decreases rows - r,
        {
            let mut i: usize = 0;
            while i < inner
                invariant
                    o < outer,
                    r < rows,
                    i <= inner,
                    oo == outer,
                    rr == rows,
                    nn == n,
                    ii == inner,
                    1 <= rows <= 28,
                    1 <= n <= 28,
                    1 <= inner <= 21952,
                    1 <= outer <= 21952,
                    oo * nn * ii <= 614656,
                    oo * rr * ii <= 614656,
                    m@.len() == rr * nn,
                    block@.len() == oo * nn * ii,
                    goal == contracted_axis(Some(m@), rr, block@, oo, nn, ii),
                    out@.len() == cell(o as int, rr, r as int, ii, i as int),
                    forall|k: int| 0 <= k < out@.len() ==> #[trigger] out@[k] == goal[k],
                decreases inner - i,
            {
                let ghost (po, pr, pi) = (o as int, r as int, i as int);
                let mut acc = T::from_count(0);
                let mut c: usize = 0;
                while c < n
                    invariant
                        o < outer,
                        r < rows,
                        i < inner,
                        c <= n,
                        po == o,
                        pr == r,
                        pi == i,
                        oo == outer,
                        rr == rows,
                        nn == n,
                        ii == inner,
                        1 <= rows <= 28,
                        1 <= n <= 28,
                        1 <= inner <= 21952,
                        1 <= outer <= 21952,
                        oo * nn * ii <= 614656,
                        m@.len() == rr * nn,
                        block@.len() == oo * nn * ii,
                        acc == row_sum(m@, block@, nn, ii, po, pr, pi, c as int),
                    decreases n - c,
                {
                    proof {
                        lemma_pair_in_range(pr, rr, nn, c as int);
                        lemma_cell_in_range(po, oo, nn, c as int, ii, pi);
                        assert(rr * nn <= 784) by (nonlinear_arith)
                            requires
                                1 <= rr <= 28,
                                1 <= nn <= 28,
                        ;
                    }
                    acc = acc.plus(m[r * n + c].times(block[(o * n + c) * inner + i]));
                    c = c + 1;
                }
                proof {
                    lemma_cell_parts(po, rr, pr, ii, pi);
                    lemma_cell_in_range(po, oo, rr, pr, ii, pi);
                }
                out.push(acc);
                i = i + 1;
            }
            proof {
                let q = pair(o as int, rr, r as int);
                assert(q * ii + ii == (q + 1) * ii) by (nonlinear_arith);
                assert(pair(o as int, rr, r + 1) == q + 1);
            }
            r = r + 1;
        }
        proof {
            assert(pair(o as int, rr, rr) == (o + 1) * rr) by (nonlinear_arith)
                requires
                    pair(o as int, rr, rr) == o * rr + rr,
            ;
        }
        o = o + 1;
    }
    assert(out@ =~= goal);
}

/// Contract the middle axis of `block`, of shape `(outer, n, inner)`, with the
/// transform of a shell. `tmp` is working space.
fn apply_axis<T: Real>(
    s: &Shell<T>,
    m: &Option<Vec<T>>,
    outer: usize,
    n: usize,
    inner: usize,
    block: &mut Vec<T>,
    tmp: &mut Vec<T>,
)
    requires
        s.valid(),
        held(*m) == shell_matrix::<T>(s.kind, s.l as int),
        n == cart_count(s.l as int),
        1 <= inner <= 21952,
        1 <= outer <= 21952,
        outer * 28 * inner <= 614656,
        old(block)@.len() == outer * n * inner,
    ensures
        final(block)@ == contracted_axis(
            shell_matrix::<T>(s.kind, s.l as int),
            s.functions(),
            old(block)@,
            outer as int,
            n as int,
            inner as int,
        ),
        final(block)@.len() == outer * s.functions() * inner,
{
    let rows = s.n_func();
    proof {
        crate::engine::hrr::lemma_shell_counts(s.l as int);
        let (o, r, k, i) = (outer as int, rows as int, n as int, inner as int);
        assert(0 <= o * r * i <= o * 28 * i) by (nonlinear_arith)
            requires
                1 <= o,
                1 <= r <= 28,
                1 <= i,
        ;
        assert(0 <= o * k * i <= o * 28 * i) by (nonlinear_arith)
            requires
                1 <= o,
                1 <= k <= 28,
                1 <= i,
        ;
    }
    match m {
        None => {},
        Some(v) => {
            contract_axis_into(v, rows, block, outer, n, inner, tmp);
            std::mem::swap(block, tmp);
        },
    }
}

/// Transform the Cartesian block of two shells.
pub fn transform_block2<T: Real>(
    a: &Shell<T>,
    b: &Shell<T>,
    ma: &Option<Vec<T>>,
    mb: &Option<Vec<T>>,
    block: &mut Vec<T>,
)
    requires
        a.valid(),
        b.valid(),
        held(*ma) == shell_matrix::<T>(a.kind, a.l as int),
        held(*mb) == shell_matrix::<T>(b.kind, b.l as int),
        old(block)@.len() == cart_count(a.l as int) * cart_count(b.l as int),
    ensures
        final(block)@ == function_block2(*a, *b, old(block)@),
        final(block)@.len() == a.functions() * b.functions(),
{
    let (na, nb) = (a.n_cart(), b.n_cart());
    let fa = a.n_func();
    let mut tmp: Vec<T> = Vec::new();
    assert(1 * na * nb == na * nb);
    apply_axis(a, ma, 1, na, nb, block, &mut tmp);
    apply_axis(b, mb, fa, nb, 1, block, &mut tmp);
}

/// Bounds on the shapes that the block of four shells goes through.
proof fn lemma_shapes(na: int, nb: int, nc: int, nd: int, fa: int, fb: int, fc: int)
    requires
        1 <= na <= 28,
        1 <= nb <= 28,
        1 <= nc <= 28,
        1 <= nd <= 28,
        1 <= fa <= 28,
        1 <= fb <= 28,
        1 <= fc <= 28,
    ensures
        1 <= nc * nd <= 784,
        1 <= nb * nc <= 784,
        1 <= nb * nc * nd <= 21952,
        nb * nc * nd == nb * (nc * nd),
        1 * na * (nb * nc * nd) == na * nb * nc * nd,
        fa * (nb * nc * nd) == fa * nb * (nc * nd),
        fa * 28 * (nc * nd) <= 614656,
        1 <= fa * fb <= 784,
        fa * fb * (nc * nd) == fa * fb * nc * nd,
        fa * fb * 28 * nd <= 614656,
        1 <= fa * fb * fc <= 21952,
        fa * fb * fc * nd == fa * fb * fc * nd * 1,
{
    assert(1 <= nc * nd <= 784) by (nonlinear_arith)
        requires
            1 <= nc <= 28,
            1 <= nd <= 28,
    ;
    assert(1 <= nb * nc <= 784) by (nonlinear_arith)
        requires
            1 <= nc <= 28,
            1 <= nb <= 28,
    ;
    let p = nc * nd;
    assert(nb * nc * nd == nb * (nc * nd)) by (nonlinear_arith);
    assert(1 <= nb * p <= 21952) by (nonlinear_arith)
        requires
            1 <= nb <= 28,
            1 <= p <= 784,
    ;
    assert(1 * na * (nb * nc * nd) == na * nb * nc * nd) by (nonlinear_arith);
    assert(fa * (nb * nc * nd) == fa * nb * (nc * nd)) by (nonlinear_arith);
    assert(fa * 28 * p <= 614656) by (nonlinear_arith)
        requires
            1 <= fa <= 28,
            1 <= p <= 784,
    ;
    assert(1 <= fa * fb <= 784) by (nonlinear_arith)
        requires
            1 <= fa <= 28,
            1 <= fb <= 28,
    ;
    let q = fa * fb;
    assert(q * (nc * nd) == q * nc * nd) by (nonlinear_arith);
    assert(q * 28 * nd <= 614656) by (nonlinear_arith)
        requires
            1 <= q <= 784,
            1 <= nd <= 28,
    ;
    assert(1 <= q * fc <= 21952) by (nonlinear_arith)
        requires
            1 <= q <= 784,
            1 <= fc <= 28,
    ;
}

/// Transform the Cartesian block of four shells. `tmp` is working space.
#[verifier::spinoff_prover]
#[verifier::rlimit(30)]
pub fn transform_block4_into<T: Real>(
    s: [&Shell<T>; 4],
    mats: [&Option<Vec<T>>; 4],
    block: &mut Vec<T>,
    tmp: &mut Vec<T>,
)
    requires
        forall|i: int| 0 <= i < 4 ==> (#[trigger] s[i]).valid(),
        forall|i: int|
            0 <= i < 4 ==> held(*#[trigger] mats[i]) == shell_matrix::<T>(
                s[i].kind,
                s[i].l as int,
            ),
        old(block)@.len() == cart_count(s[0].l as int) * cart_count(s[1].l as int) * cart_count(
            s[2].l as int,
        ) * cart_count(s[3].l as int),
    ensures
        final(block)@ == function_block4(*s[0], *s[1], *s[2], *s[3], old(block)@),
        final(block)@.len() == s[0].functions() * s[1].functions() * s[2].functions()
            * s[3].functions(),
{
    assert(s[0].valid() && s[1].valid() && s[2].valid() && s[3].valid());
    assert(held(*mats[0]) == shell_matrix::<T>(s[0].kind, s[0].l as int));
    assert(held(*mats[1]) == shell_matrix::<T>(s[1].kind, s[1].l as int));
    assert(held(*mats[2]) == shell_matrix::<T>(s[2].kind, s[2].l as int));
    assert(held(*mats[3]) == shell_matrix::<T>(s[3].kind, s[3].l as int));
    let (na, nb, nc, nd) = (s[0].n_cart(), s[1].n_cart(), s[2].n_cart(), s[3].n_cart());
    let (fa, fb, fc) = (s[0].n_func(), s[1].n_func(), s[2].n_func());
    proof {
        lemma_shapes(
            na as int,
            nb as int,
            nc as int,
            nd as int,
            fa as int,
            fb as int,
            fc as int,
        );
    }
    apply_axis(s[0], mats[0], 1, na, nb * nc * nd, block, tmp);
    proof {
        assert(1 * fa * (nb * nc * nd) == fa * (nb * nc * nd));
    }
    apply_axis(s[1], mats[1], fa, nb, nc * nd, block, tmp);
    apply_axis(s[2], mats[2], fa * fb, nc, nd, block, tmp);
    apply_axis(s[3], mats[3], fa * fb * fc, nd, 1, block, tmp);
}

} // verus!
