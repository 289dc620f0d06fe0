//! Gradients of one-electron matrices.
//!
//! Derivatives are grouped by atom, that is, by distinct center of a shell. The block of
//! two shells contributes its derivative with respect to the bra to the atom of the bra,
//! and that with respect to the ket to the atom of the ket. Where the operator itself
//! moves with an atom, the derivative with respect to the operator is minus the sum of
//! the two, and lands on that atom.
use vstd::prelude::*;

use crate::engine::os::block_size;
use crate::engine::os_eri::MAX_L;
use crate::error::IntegralError;
use crate::flat::{lemma_pair_in_range, lemma_pair_order, pair};
use crate::grad::pair::{are_derivatives, derivative_step, pair_grad_1e};
use crate::offsets::{are_lengths, start};
use crate::one_electron::{
    lemma_in_range, lemma_ranges_fit, pair_block, pair_entries, PairOperator, PairStep,
};
use crate::operator::{find_exceeding, first_exceeding};
use crate::scalar::{filled, Real, Scalar};
use crate::shell::{
    atom_of, distinct_centers, function_counts, law_every_shell_has_an_atom, Basis, Shell,
};
use crate::shell_pairs::Prepared;
use crate::spherical::{held, shell_matrix, transform_block2};
use crate::tensor::{index_of, is_function, lemma_index, slot2, total, At};

verus! {

/// The largest angular momentum of a shell of which a gradient can be built: the
/// derivative raises it by one.
pub const MAX_GRAD_L: usize = 5;

/// `v`, with `factor` times `f` added to it if it lands here.
pub open spec fn landed<T: Scalar>(v: T, here: bool, factor: T, f: T) -> T {
    if here {
        T::sum(v, T::prod(factor, f))
    } else {
        v
    }
}

/// One summand of an operator: what it adds to a block, and the atom that it moves
/// with, if it moves.
pub type GradTerm<T> = (PairStep<T>, Option<int>);

/// The derivative with respect to atom `c` along `axis` of the entry of functions `x`
/// and `y`, from the first `n` summands of an operator.
pub open spec fn gradient_entry<T: Real>(
    terms: Seq<GradTerm<T>>,
    shells: Seq<Shell<T>>,
    c: int,
    axis: int,
    x: At,
    y: At,
    n: int,
) -> T
    decreases n,
{
    if n <= 0 {
        T::count(0)
    } else {
        let before = gradient_entry(terms, shells, c, axis, x, y, n - 1);
        let step = terms[n - 1].0;
        let bra = pair_entries(derivative_step(step, false, axis), shells)(x, y);
        let ket = pair_entries(derivative_step(step, true, axis), shells)(x, y);
        let own = landed(
            landed(before, atom_of(shells, x.0) == c, T::count(1), bra),
            atom_of(shells, y.0) == c,
            T::count(1),
            ket,
        );
        match terms[n - 1].1 {
            None => own,
            Some(carrier) => landed(
                landed(own, carrier == c, T::neg(T::count(1)), bra),
                carrier == c,
                T::neg(T::count(1)),
                ket,
            ),
        }
    }
}

/// Where the matrix of atom `c` and an axis starts, with `nn` entries to a matrix.
pub open spec fn grad_base(c: int, axis: int, nn: int) -> int {
    pair(c, 3, axis) * nn
}

/// Whether `data` holds the gradient with the given entries.
pub open spec fn is_gradient<T>(
    data: Seq<T>,
    natom: int,
    lens: Seq<int>,
    entries: spec_fn(int, int, At, At) -> T,
) -> bool {
    let nn = total(lens) * total(lens);
    &&& data.len() == natom * 3 * nn
    &&& forall|c: int, axis: int, x: At, y: At|
        0 <= c < natom && 0 <= axis < 3 && is_function(lens, x) && is_function(lens, y)
            ==> #[trigger] data[grad_base(c, axis, nn) + slot2(lens, x, y)] == entries(
            c,
            axis,
            x,
            y,
        )
}

/// The sum over the atoms before `n` of an entry of a gradient.
pub open spec fn atom_sum<T: Scalar>(data: Seq<T>, nn: int, axis: int, e: int, n: int) -> T
    decreases n,
{
    if n <= 0 {
        T::count(0)
    } else {
        T::sum(
            atom_sum(data, nn, axis, e, n - 1),
            data[grad_base(n - 1, axis, nn) + e],
        )
    }
}

/// The largest magnitude of a sum over the atoms, over the entries before `e` of the
/// given axis and all entries of the axes before it.
pub open spec fn residual<T: Real>(data: Seq<T>, nn: int, natom: int, axis: int, e: int) -> T
    decreases axis, e,
{
    if e > 0 {
        crate::dense::larger(
            residual(data, nn, natom, axis, e - 1),
            T::magnitude(atom_sum(data, nn, axis, e - 1, natom)),
        )
    } else if axis > 0 {
        residual(data, nn, natom, axis - 1, nn)
    } else {
        T::count(0)
    }
}

/// The largest magnitude of a sum over the atoms.
pub(crate) fn translational_residual<T: Real>(data: &Vec<T>, nn: usize, natom: usize) -> (r: T)
    requires
        data@.len() == natom * 3 * nn,
    ensures
        r == residual(data@, nn as int, natom as int, 3, 0),
{
    let len = data.len();
    let mut worst = T::from_count(0);
    let mut axis: usize = 0;
    while axis < 3
        invariant
            axis <= 3,
            data@.len() == natom * 3 * nn,
            data@.len() <= usize::MAX,
            worst == residual(data@, nn as int, natom as int, axis as int, 0),
        decreases 3 - axis,
    {
        let mut e: usize = 0;
        while e < nn
            invariant
                axis < 3,
                e <= nn,
                data@.len() == natom * 3 * nn,
                data@.len() <= usize::MAX,
                worst == residual(data@, nn as int, natom as int, axis as int, e as int),
            decreases nn - e,
        {
            let mut s = T::from_count(0);
            let mut c: usize = 0;
            while c < natom
                invariant
                    axis < 3,
                    e < nn,
                    c <= natom,
                    data@.len() == natom * 3 * nn,
                    data@.len() <= usize::MAX,
                    s == atom_sum(data@, nn as int, axis as int, e as int, c as int),
                decreases natom - c,
            {
                proof {
                    lemma_grad_base(c as int, natom as int, axis as int, nn as int, e as int);
                    lemma_product_bound(natom as int * 3, nn as int);
                }
                s = s.plus(data[(c * 3 + axis) * nn + e]);
                c = c + 1;
            }
            worst = crate::dense::larger_of(worst, s.abs());
            e = e + 1;
        }
        axis = axis + 1;
    }
    worst
}

/// An entry of the matrix of an atom and an axis lies in the gradient.
pub proof fn lemma_grad_base(c: int, natom: int, axis: int, nn: int, e: int)
    requires
        0 <= c < natom,
        0 <= axis < 3,
        0 <= e < nn,
    ensures
        0 <= c * 3 + axis < natom * 3,
        0 <= c * 3,
        grad_base(c, axis, nn) == (c * 3 + axis) * nn,
        0 <= grad_base(c, axis, nn),
        0 <= grad_base(c, axis, nn) + e < natom * 3 * nn,
        grad_base(c, axis, nn) + nn <= natom * 3 * nn,
{
    lemma_pair_in_range(c, natom, 3, axis);
    lemma_pair_in_range(pair(c, 3, axis), natom * 3, nn, e);
    assert(pair(c, 3, axis) * nn + nn <= natom * 3 * nn) by (nonlinear_arith)
        requires
            pair(c, 3, axis) + 1 <= natom * 3,
            nn > 0,
    ;
}

/// The matrices of different atoms or axes do not overlap.
pub proof fn lemma_grad_bases_apart(c: int, axis: int, d: int, bxis: int, nn: int, e: int)
    requires
        0 <= axis < 3,
        0 <= bxis < 3,
        0 <= c,
        0 <= d,
        0 <= e < nn,
        (c, axis) != (d, bxis),
    ensures
        grad_base(c, axis, nn) + e < grad_base(d, bxis, nn) || grad_base(c, axis, nn) + e
            >= grad_base(d, bxis, nn) + nn,
{
    lemma_pair_order(c, axis, d, bxis, 3);
    let (p, q) = (pair(c, 3, axis), pair(d, 3, bxis));
    if p < q {
        assert(p * nn + nn <= q * nn) by (nonlinear_arith)
            requires
                p + 1 <= q,
                nn > 0,
        ;
    } else {
        assert(q * nn + nn <= p * nn) by (nonlinear_arith)
            requires
                q + 1 <= p,
                nn > 0,
        ;
    }
}

/// The gradient of a one-electron matrix: for every atom and axis a matrix over the
/// functions.
#[derive(Clone, Debug)]
pub struct Gradient1e<T> {
    natom: usize,
    nao: usize,
    data: Vec<T>,
}

impl<T: Real> Gradient1e<T> {
    /// The number of atoms.
    pub closed spec fn atom_count(self) -> int {
        self.natom as int
    }

    /// The number of functions.
    pub closed spec fn size(self) -> int {
        self.nao as int
    }

    /// The entries, by atom, axis, row and column.
    pub closed spec fn values(self) -> Seq<T> {
        self.data@
    }

    /// The entries are as many as the atoms, axes and functions ask for.
    pub open spec fn valid(self) -> bool {
        &&& self.values().len() == self.atom_count() * 3 * (self.size() * self.size())
        &&& self.size() >= 0
        &&& self.atom_count() >= 0
        &&& self.size() * self.size() <= usize::MAX
    }

    /// The number of atoms.
    #[must_use]
    pub fn natom(&self) -> (n: usize)
        ensures
            n == self.atom_count(),
    {
        self.natom
    }

    /// The number of functions.
    #[must_use]
    pub fn nao(&self) -> (n: usize)
        ensures
            n == self.size(),
    {
        self.nao
    }

    /// The derivative of the matrix with respect to an atom along an axis.
    #[must_use]
    pub fn block(&self, atom: usize, axis: usize) -> (r: &[T])
        requires
            self.valid(),
            atom < self.atom_count(),
            axis < 3,
        ensures
            r@ == self.values().subrange(
                grad_base(atom as int, axis as int, self.size() * self.size()),
                grad_base(atom as int, axis as int, self.size() * self.size()) + self.size()
                    * self.size(),
            ),
    {
        let nn: usize = self.nao * self.nao;
        let len = self.data.len();
        if nn == 0 {
            proof {
                assert(grad_base(atom as int, axis as int, 0) == 0) by (nonlinear_arith)
                    requires
                        grad_base(atom as int, axis as int, 0) == pair(atom as int, 3, axis as int)
                            * 0,
                ;
            }
            return vstd::slice::slice_subrange(self.data.as_slice(), 0, 0);
        }
        proof {
            lemma_grad_base(atom as int, self.natom as int, axis as int, nn as int, 0);
            lemma_product_bound(self.natom as int * 3, nn as int);
        }
        let off: usize = (atom * 3 + axis) * nn;
        vstd::slice::slice_subrange(self.data.as_slice(), off, off + nn)
    }

    /// The largest magnitude of a sum of derivatives over all atoms.
    #[must_use]
    pub fn max_translational_residual(&self) -> (r: T)
        requires
            self.valid(),
        ensures
            r == residual(self.values(), self.size() * self.size(), self.atom_count(), 3, 0),
    {
        translational_residual(&self.data, self.nao * self.nao, self.natom)
    }
}

/// A factor is at most its product with a positive one.
pub proof fn lemma_product_bound(a: int, b: int)
    requires
        a >= 0,
        b >= 1,
    ensures
        a <= a * b,
{
    assert(a <= a * b) by (nonlinear_arith)
        requires
            a >= 0,
            b >= 1,
    ;
}

/// Whether `new` is `old` with `factor` times `block`, of `na` rows of length `nb`, added
/// at row `ro` and column `co` of the `n x n` matrix that starts at `base`.
pub open spec fn is_added<T: Scalar>(
    old: Seq<T>,
    new: Seq<T>,
    base: int,
    n: int,
    ro: int,
    co: int,
    block: Seq<T>,
    na: int,
    nb: int,
    factor: T,
) -> bool {
    &&& new.len() == old.len()
    &&& forall|i: int, j: int|
        0 <= i < n && 0 <= j < n ==> #[trigger] new[base + pair(i, n, j)] == (if ro <= i < ro + na
            && co <= j < co + nb {
            T::sum(
                old[base + pair(i, n, j)],
                T::prod(factor, block[pair(i - ro, nb, j - co)]),
            )
        } else {
            old[base + pair(i, n, j)]
        })
    &&& forall|k: int|
        0 <= k < old.len() && (k < base || k >= base + n * n) ==> #[trigger] new[k] == old[k]
}

/// Add `factor` times `block`, of `na` rows of length `nb`, at row `ro` and column `co` of
/// the `n x n` matrix that starts at `base`.
#[verifier::spinoff_prover]
#[verifier::rlimit(40)]
fn add_block_1e<T: Scalar>(
    data: &mut Vec<T>,
    base: usize,
    n: usize,
    ro: usize,
    co: usize,
    block: &Vec<T>,
    na: usize,
    nb: usize,
    factor: T,
)
    requires
        ro + na <= n,
        co + nb <= n,
        base + n * n <= old(data)@.len(),
        block@.len() == na * nb,
    ensures
        is_added(
            old(data)@,
            final(data)@,
            base as int,
            n as int,
            ro as int,
            co as int,
            block@,
            na as int,
            nb as int,
            factor,
        ),
{
    let ghost old_data = data@;
    let ghost (bb, nn, rr, cc, aa, bw) = (
        base as int,
        n as int,
        ro as int,
        co as int,
        na as int,
        nb as int,
    );
    let total_len = data.len();
    let block_len = block.len();
    let mut i: usize = 0;
    while i < na
        invariant
            i <= na,
            bb == base,
            nn == n,
            rr == ro,
            cc == co,
            aa == na,
            bw == nb,
            rr + aa <= nn,
            cc + bw <= nn,
            bb + nn * nn <= old_data.len(),
            old_data.len() <= usize::MAX,
            block@.len() == aa * bw,
            block@.len() <= usize::MAX,
            data@.len() == old_data.len(),
            forall|r: int, c: int|
                0 <= r < nn && 0 <= c < nn ==> #[trigger] data@[bb + pair(r, nn, c)] == (if rr <= r
                    < rr + i && cc <= c < cc + bw {
                    T::sum(
                        old_data[bb + pair(r, nn, c)],
                        T::prod(factor, block@[pair(r - rr, bw, c - cc)]),
                    )
                } else {
                    old_data[bb + pair(r, nn, c)]
                }),
            forall|k: int|
                0 <= k < old_data.len() && (k < bb || k >= bb + nn * nn) ==> #[trigger] data@[k]
                    == old_data[k],
        decreases na - i,
    {
        let mut j: usize = 0;
        while j < nb
            invariant
                i < na,
                j <= nb,
                bb == base,
                nn == n,
                rr == ro,
                cc == co,
                aa == na,
                bw == nb,
                rr + aa <= nn,
                cc + bw <= nn,
                bb + nn * nn <= old_data.len(),
                old_data.len() <= usize::MAX,
                block@.len() == aa * bw,
                block@.len() <= usize::MAX,
                data@.len() == old_data.len(),
                forall|r: int, c: int|
                    0 <= r < nn && 0 <= c < nn ==> #[trigger] data@[bb + pair(r, nn, c)] == (if rr
                        <= r && cc <= c < cc + bw && (r < rr + i || (r == rr + i && c < cc + j)) {
                        T::sum(
                            old_data[bb + pair(r, nn, c)],
                            T::prod(factor, block@[pair(r - rr, bw, c - cc)]),
                        )
                    } else {
                        old_data[bb + pair(r, nn, c)]
                    }),
                forall|k: int|
                    0 <= k < old_data.len() && (k < bb || k >= bb + nn * nn) ==> #[trigger] data@[k]
                        == old_data[k],
            decreases nb - j,
        {
            let ghost (r0, c0) = (rr + i, cc + j);
            proof {
                lemma_pair_in_range(r0, nn, nn, c0);
                lemma_pair_in_range(i as int, aa, bw, j as int);
            }
            let ghost before = data@;
            let at: usize = base + ((ro + i) * n + (co + j));
            assert(before[bb + pair(r0, nn, c0)] == old_data[bb + pair(r0, nn, c0)]);
            data[at] = data[at].plus(factor.times(block[i * nb + j]));
            proof {
                assert forall|r: int, c: int|
                    0 <= r < nn && 0 <= c < nn implies #[trigger] data@[bb + pair(r, nn, c)] == (
                if rr <= r && cc <= c < cc + bw && (r < rr + i || (r == rr + i && c < cc + j + 1)) {
                    T::sum(
                        old_data[bb + pair(r, nn, c)],
                        T::prod(factor, block@[pair(r - rr, bw, c - cc)]),
                    )
                } else {
                    old_data[bb + pair(r, nn, c)]
                }) by {
                    lemma_pair_in_range(r, nn, nn, c);
                    lemma_pair_order(r, c, r0, c0, nn);
                    assert(before[bb + pair(r, nn, c)] == data@[bb + pair(r, nn, c)] || (r == r0
                        && c == c0));
                }
            }
            j = j + 1;
        }
        i = i + 1;
    }
}

/// What adding the block of shells `si` and `sj` to the matrix of atom `d` along `bxis`
/// does to the places of functions.
proof fn lemma_added_place<T: Scalar>(
    old: Seq<T>,
    new: Seq<T>,
    lens: Seq<int>,
    natom: int,
    d: int,
    bxis: int,
    si: int,
    sj: int,
    block: Seq<T>,
    factor: T,
    c: int,
    axis: int,
    x: At,
    y: At,
)
    requires
        are_lengths(lens),
        0 <= si < lens.len(),
        0 <= sj < lens.len(),
        0 <= d < natom,
        0 <= bxis < 3,
        0 <= c < natom,
        0 <= axis < 3,
        old.len() == natom * 3 * (total(lens) * total(lens)),
        is_added(
            old,
            new,
            grad_base(d, bxis, total(lens) * total(lens)),
            total(lens),
            start(lens, si),
            start(lens, sj),
            block,
            lens[si],
            lens[sj],
            factor,
        ),
        is_function(lens, x),
        is_function(lens, y),
    ensures
        new[grad_base(c, axis, total(lens) * total(lens)) + slot2(lens, x, y)] == landed(
            old[grad_base(c, axis, total(lens) * total(lens)) + slot2(lens, x, y)],
            c == d && axis == bxis && x.0 == si && y.0 == sj,
            factor,
            block[pair(x.1, lens[sj], y.1)],
        ),
{
    let n = total(lens);
    lemma_index(lens, x, y);
    lemma_index(lens, y, x);
    let (i, j) = (index_of(lens, x), index_of(lens, y));
    lemma_pair_in_range(i, n, n, j);
    lemma_grad_base(c, natom, axis, n * n, pair(i, n, j));
    if (c, axis) == (d, bxis) {
        let base = grad_base(d, bxis, n * n);
        assert(new[base + pair(i, n, j)] == (if start(lens, si) <= i < start(lens, si) + lens[si]
            && start(lens, sj) <= j < start(lens, sj) + lens[sj] {
            T::sum(
                old[base + pair(i, n, j)],
                T::prod(factor, block[pair(i - start(lens, si), lens[sj], j - start(lens, sj))]),
            )
        } else {
            old[base + pair(i, n, j)]
        }));
        lemma_in_range(lens, x, si);
        lemma_in_range(lens, y, sj);
    } else {
        lemma_grad_bases_apart(c, axis, d, bxis, n * n, pair(i, n, j));
    }
}

/// The entries of the gradient of an operator.
pub open spec fn gradient_entries<T: Real>(
    terms: Seq<GradTerm<T>>,
    shells: Seq<Shell<T>>,
) -> spec_fn(int, int, At, At) -> T {
    |c: int, axis: int, x: At, y: At|
        gradient_entry(terms, shells, c, axis, x, y, terms.len() as int)
}

/// Bring the derivatives of a block to the components of the shells.
fn transform_axes<T: Real>(
    a: &Shell<T>,
    b: &Shell<T>,
    ma: &Option<Vec<T>>,
    mb: &Option<Vec<T>>,
    blocks: &mut Vec<Vec<T>>,
    Ghost(step): Ghost<PairStep<T>>,
    Ghost(ket): Ghost<bool>,
)
    requires
        a.valid(),
        b.valid(),
        held(*ma) == shell_matrix::<T>(a.kind, a.l as int),
        held(*mb) == shell_matrix::<T>(b.kind, b.l as int),
        are_derivatives(old(blocks)@, step, ket, *a, *b, a.exponents@.len() as int, 0),
    ensures
        are_blocks(final(blocks)@, step, ket, *a, *b),
{
    let ghost was = blocks@;
    let mut axis: usize = 0;
    while axis < 3
        invariant
            axis <= 3,
            a.valid(),
            b.valid(),
            held(*ma) == shell_matrix::<T>(a.kind, a.l as int),
            held(*mb) == shell_matrix::<T>(b.kind, b.l as int),
            are_derivatives(was, step, ket, *a, *b, a.exponents@.len() as int, 0),
            blocks@.len() == 3,
            forall|k: int| axis <= k < 3 ==> #[trigger] blocks@[k] == was[k],
            forall|k: int|
                0 <= k < axis ==> (#[trigger] blocks@[k])@ == pair_block(
                    derivative_step(step, ket, k),
                    *a,
                    *b,
                ) && blocks@[k]@.len() == a.functions() * b.functions(),
        decreases 3 - axis,
    {
        assert(blocks@[axis as int] == was[axis as int]);
        assert(block_size(a.l as int, b.l as int) == was[axis as int]@.len());
        let slot = &mut blocks[axis];
        transform_block2(a, b, ma, mb, slot);
        axis = axis + 1;
    }
}

/// Whether the three blocks are the derivatives of the block of two shells along the
/// axes, in the components of the shells.
spec fn are_blocks<T: Real>(
    blocks: Seq<Vec<T>>,
    step: PairStep<T>,
    ket: bool,
    a: Shell<T>,
    b: Shell<T>,
) -> bool {
    &&& blocks.len() == 3
    &&& forall|k: int|
        0 <= k < 3 ==> (#[trigger] blocks[k])@ == pair_block(derivative_step(step, ket, k), a, b)
            && blocks[k]@.len() == a.functions() * b.functions()
}

/// The summands of a list of operators, each with the atom it moves with.
pub open spec fn grad_terms<T: Real>(ops: Seq<(PairOperator<T>, Option<usize>)>) -> Seq<
    GradTerm<T>,
> {
    Seq::new(
        ops.len(),
        |k: int|
            (
                ops[k].0.step(),
                match ops[k].1 {
                    None => None,
                    Some(c) => Some(c as int),
                },
            ),
    )
}

/// The entry of a gradient after all shell pairs before `(si, sj)` and, for that pair,
/// the first `t` summands and of the next the axes before `ax`.
spec fn partial_entry<T: Real>(
    terms: Seq<GradTerm<T>>,
    shells: Seq<Shell<T>>,
    si: int,
    sj: int,
    t: int,
    ax: int,
    c: int,
    axis: int,
    x: At,
    y: At,
) -> T {
    if x.0 < si || (x.0 == si && y.0 < sj) {
        gradient_entry(terms, shells, c, axis, x, y, terms.len() as int)
    } else if x.0 == si && y.0 == sj {
        gradient_entry(
            terms,
            shells,
            c,
            axis,
            x,
            y,
            if axis < ax {
                t + 1
            } else {
                t
            },
        )
    } else {
        T::count(0)
    }
}

/// Whether the gradient holds the entries of `partial_entry`.
spec fn is_partial<T: Real>(
    data: Seq<T>,
    natom: int,
    terms: Seq<GradTerm<T>>,
    shells: Seq<Shell<T>>,
    si: int,
    sj: int,
    t: int,
    ax: int,
) -> bool {
    let lens = function_counts(shells);
    let nn = total(lens) * total(lens);
    &&& data.len() == natom * 3 * nn
    &&& forall|c: int, axis: int, x: At, y: At|
        0 <= c < natom && 0 <= axis < 3 && is_function(lens, x) && is_function(lens, y)
            ==> #[trigger] data[grad_base(c, axis, nn) + slot2(lens, x, y)] == partial_entry(
            terms,
            shells,
            si,
            sj,
            t,
            ax,
            c,
            axis,
            x,
            y,
        )
}

impl<T: Real> Basis<T> {
    /// The number of atoms.
    pub open spec fn atom_total(self) -> int {
        distinct_centers(self.shells@, self.shells@.len() as int).len() as int
    }

    /// Whether the gradient of a matrix over the basis can be indexed.
    pub open spec fn gradient_fits(self) -> bool {
        &&& self.matrix_fits()
        &&& self.atom_total() * 3 * (self.size() * self.size()) <= usize::MAX
    }

    /// Whether every shell can be raised by one.
    pub open spec fn can_differentiate(self) -> bool {
        forall|s: int| 0 <= s < self.shells@.len() ==> (#[trigger] self.shells@[s]).l < MAX_L
    }

    /// The error for the first shell that cannot be raised by one.
    pub open spec fn grad_error(self) -> IntegralError<T> {
        IntegralError::AngularMomentumTooHighForGradient {
            l: self.shells@[first_exceeding(self.shells@, 1, 0)].l,
            max: MAX_GRAD_L,
        }
    }

    /// Whether every shell can be raised by one.
    pub(crate) fn check_grad_l(&self) -> (r: Result<(), IntegralError<T>>)
        requires
            self.valid(),
        ensures
            r is Ok <==> self.can_differentiate(),
            r matches Err(e) ==> e == self.grad_error(),
    {
        let bad = find_exceeding(&self.shells, 1);
        if bad < self.shells.len() {
            assert(!(self.shells@[bad as int].l < MAX_L));
            return Err(
                IntegralError::AngularMomentumTooHighForGradient {
                    l: self.shells[bad].l,
                    max: MAX_GRAD_L,
                },
            );
        }
        assert forall|s: int| 0 <= s < self.shells@.len() implies (#[trigger] self.shells@[s]).l
            < MAX_L by {
            assert(self.shells@[s].l + 1 <= MAX_L);
        }
        Ok(())
    }

    /// Add what one summand of an operator contributes to the gradient, for one pair of
    /// shells.
    #[verifier::spinoff_prover]
    #[verifier::rlimit(80)]
    fn add_pair_term(
        &self,
        data: &mut Vec<T>,
        op: &PairOperator<T>,
        carrier: Option<usize>,
        prep: &Prepared<T>,
        offs: &Vec<usize>,
        satom: &Vec<usize>,
        n: usize,
        si: usize,
        sj: usize,
        Ghost(terms): Ghost<Seq<GradTerm<T>>>,
        Ghost(t): Ghost<int>,
    )
        requires
            self.valid(),
            self.can_differentiate(),
            self.gradient_fits(),
            op.valid(),
            op.l_max() == MAX_L,
            0 <= t < terms.len(),
            terms[t].0 == op.step(),
            match carrier {
                None => terms[t].1 is None,
                Some(c) => terms[t].1 == Some(c as int) && c < self.atom_total(),
            },
            prep.valid(),
            prep.shells@ == self.shells@,
            offs@.len() == self.shells@.len(),
            forall|s: int| 0 <= s < offs@.len() ==> #[trigger] offs@[s] == self.offset(s),
            satom@.len() == self.shells@.len(),
            forall|s: int|
                0 <= s < satom@.len() ==> #[trigger] satom@[s] == atom_of(self.shells@, s),
            n == self.size(),
            si < self.shells@.len(),
            sj < self.shells@.len(),
            is_partial(
                old(data)@,
                self.atom_total(),
                terms,
                self.shells@,
                si as int,
                sj as int,
                t,
                0,
            ),
        ensures
            is_partial(
                final(data)@,
                self.atom_total(),
                terms,
                self.shells@,
                si as int,
                sj as int,
                t + 1,
                0,
            ),
    {
        let ghost shells = self.shells@;
        let ghost lens = function_counts(shells);
        let ghost natom = self.atom_total();
        let ghost nn = total(lens) * total(lens);
        proof {
            self.lemma_size_fits();
            lemma_ranges_fit(lens, si as int);
            lemma_ranges_fit(lens, sj as int);
            law_every_shell_has_an_atom(shells, si as int, shells.len() as int);
            law_every_shell_has_an_atom(shells, sj as int, shells.len() as int);
            assert(shells[si as int].l < MAX_L);
            assert(shells[sj as int].l < MAX_L);
        }
        let (sa, sb) = (prep.side(si), prep.side(sj));
        let (na, nb) = (sa.shell.n_func(), sb.shell.n_func());
        let (mut da, mut db) = pair_grad_1e(op, sa.shell, sb.shell);
        transform_axes(
            sa.shell,
            sb.shell,
            sa.mat,
            sb.mat,
            &mut da,
            Ghost(op.step()),
            Ghost(false),
        );
        transform_axes(
            sa.shell,
            sb.shell,
            sa.mat,
            sb.mat,
            &mut db,
            Ghost(op.step()),
            Ghost(true),
        );
        assert(offs@[si as int] == start(lens, si as int));
        assert(offs@[sj as int] == start(lens, sj as int));
        let (ro, co) = (offs[si], offs[sj]);
        let (ca, cb) = (satom[si], satom[sj]);
        let one = T::from_count(1);
        let minus = T::from_count(1).negated();
        let sq: usize = n * n;
        let len = data.len();
        let mut axis: usize = 0;
        while axis < 3
            invariant
                axis <= 3,
                shells == self.shells@,
                lens == function_counts(shells),
                are_lengths(lens),
                natom == self.atom_total(),
                natom * 3 * nn <= usize::MAX,
                nn == total(lens) * total(lens),
                n == total(lens),
                sq == nn,
                0 <= t < terms.len(),
                terms[t].0 == op.step(),
                match carrier {
                    None => terms[t].1 is None,
                    Some(c) => terms[t].1 == Some(c as int) && c < natom,
                },
                si < shells.len(),
                sj < shells.len(),
                lens.len() == shells.len(),
                na == lens[si as int],
                nb == lens[sj as int],
                na == shells[si as int].functions(),
                nb == shells[sj as int].functions(),
                1 <= na,
                1 <= nb,
                ro == start(lens, si as int),
                co == start(lens, sj as int),
                ro + na <= n,
                co + nb <= n,
                ca == atom_of(shells, si as int),
                cb == atom_of(shells, sj as int),
                ca < natom,
                cb < natom,
                one == T::count(1),
                minus == T::neg(T::count(1)),
                are_blocks(da@, op.step(), false, shells[si as int], shells[sj as int]),
                are_blocks(db@, op.step(), true, shells[si as int], shells[sj as int]),
                is_partial(
                    data@,
                    natom,
                    terms,
                    shells,
                    si as int,
                    sj as int,
                    t,
                    axis as int,
                ),
            decreases 3 - axis,
        {
            proof {
                assert(da@[axis as int]@.len() == na * nb);
                assert(db@[axis as int]@.len() == na * nb);
                assert(nn >= 1) by (nonlinear_arith)
                    requires
                        nn == n * n,
                        n >= 1,
                ;
                lemma_product_bound(natom * 3, nn);
                lemma_grad_base(ca as int, natom, axis as int, nn, 0);
                lemma_grad_base(cb as int, natom, axis as int, nn, 0);
                if let Some(cx) = carrier {
                    lemma_grad_base(cx as int, natom, axis as int, nn, 0);
                }
            }
            let ghost d0 = data@;
            add_block_1e(data, (ca * 3 + axis) * sq, n, ro, co, &da[axis], na, nb, one);
            let ghost d1 = data@;
            add_block_1e(data, (cb * 3 + axis) * sq, n, ro, co, &db[axis], na, nb, one);
            let ghost d2 = data@;
            if let Some(cx) = carrier {
                add_block_1e(data, (cx * 3 + axis) * sq, n, ro, co, &da[axis], na, nb, minus);
            }
            let ghost d3 = data@;
            if let Some(cx) = carrier {
                add_block_1e(data, (cx * 3 + axis) * sq, n, ro, co, &db[axis], na, nb, minus);
            }
            proof {
                let (ba, bb) = (da@[axis as int]@, db@[axis as int]@);
                assert forall|c: int, ax: int, x: At, y: At|
                    0 <= c < natom && 0 <= ax < 3 && is_function(lens, x) && is_function(
                        lens,
                        y,
                    ) implies #[trigger] data@[grad_base(c, ax, nn) + slot2(lens, x, y)]
                    == partial_entry(
                    terms,
                    shells,
                    si as int,
                    sj as int,
                    t,
                    axis + 1,
                    c,
                    ax,
                    x,
                    y,
                ) by {
                    let (i, j, bx) = (si as int, sj as int, axis as int);
                    assert(d0[grad_base(c, ax, nn) + slot2(lens, x, y)] == partial_entry(
                        terms,
                        shells,
                        i,
                        j,
                        t,
                        bx,
                        c,
                        ax,
                        x,
                        y,
                    ));
                    lemma_added_place(
                        d0, d1, lens, natom, ca as int, bx, i, j, ba, one, c, ax, x, y,
                    );
                    lemma_added_place(
                        d1, d2, lens, natom, cb as int, bx, i, j, bb, one, c, ax, x, y,
                    );
                    if let Some(cx) = carrier {
                        lemma_added_place(
                            d2, d3, lens, natom, cx as int, bx, i, j, ba, minus, c, ax, x, y,
                        );
                        lemma_added_place(
                            d3, data@, lens, natom, cx as int, bx, i, j, bb, minus, c, ax, x, y,
                        );
                    }
                }
            }
            axis = axis + 1;
        }
        proof {
            assert forall|c: int, ax: int, x: At, y: At|
                0 <= c < natom && 0 <= ax < 3 && is_function(lens, x) && is_function(
                    lens,
                    y,
                ) implies #[trigger] data@[grad_base(c, ax, nn) + slot2(lens, x, y)]
                == partial_entry(terms, shells, si as int, sj as int, t + 1, 0, c, ax, x, y) by {
                assert(partial_entry(terms, shells, si as int, sj as int, t, 3, c, ax, x, y)
                    == partial_entry(terms, shells, si as int, sj as int, t + 1, 0, c, ax, x, y));
            }
        }
    }

    /// The gradient of a sum of operators.
    #[verifier::spinoff_prover]
    #[verifier::rlimit(60)]
    pub(crate) fn grad_1e(&self, ops: &Vec<(PairOperator<T>, Option<usize>)>) -> (g: Gradient1e<T>)
        requires
            self.valid(),
            self.can_differentiate(),
            self.gradient_fits(),
            forall|k: int|
                0 <= k < ops@.len() ==> (#[trigger] ops@[k]).0.valid() && ops@[k].0.l_max()
                    == MAX_L && (ops@[k].1 matches Some(c) ==> c < self.atom_total()),
        ensures
            g.valid(),
            g.atom_count() == self.atom_total(),
            g.size() == self.size(),
            is_gradient(
                g.values(),
                self.atom_total(),
                function_counts(self.shells@),
                gradient_entries(grad_terms(ops@), self.shells@),
            ),
    {
        let ghost shells = self.shells@;
        let ghost lens = function_counts(shells);
        let ghost terms = grad_terms(ops@);
        proof {
            self.lemma_size_fits();
        }
        let n = self.nao();
        let offs = self.offsets();
        let satom = self.shell_atom();
        let atoms = self.atoms();
        let prep = Prepared::new(&self.shells);
        let nsh = self.shells.len();
        let natom = atoms.len();
        let ghost nn = n * n;
        proof {
            if nn >= 1 {
                lemma_product_bound(natom * 3, nn);
            }
            if nn == 0 && nsh > 0 {
                lemma_ranges_fit(lens, 0);
                crate::shell::lemma_function_counts(shells);
                assert(lens[0] >= 1);
                assert(n * n >= 1) by (nonlinear_arith)
                    requires
                        n >= 1,
                ;
            }
            if nsh == 0 {
                assert(natom == 0);
            }
        }
        let mut data = filled(natom * 3 * (n * n), T::from_count(0));
        assert(is_partial(data@, natom as int, terms, shells, 0, 0, 0, 0)) by {
            assert forall|c: int, ax: int, x: At, y: At|
                0 <= c < natom && 0 <= ax < 3 && is_function(lens, x) && is_function(
                    lens,
                    y,
                ) implies #[trigger] data@[grad_base(c, ax, nn) + slot2(lens, x, y)]
                == partial_entry(terms, shells, 0, 0, 0, 0, c, ax, x, y) by {
                crate::tensor::lemma_slot2(lens, x, y, x, y);
                lemma_grad_base(c, natom as int, ax, nn, slot2(lens, x, y));
            }
        }
        let mut si: usize = 0;
        while si < nsh
            invariant
                si <= nsh,
                nsh == shells.len(),
                shells == self.shells@,
                lens == function_counts(shells),
                terms == grad_terms(ops@),
                self.valid(),
                self.can_differentiate(),
                self.gradient_fits(),
                forall|k: int|
                    0 <= k < ops@.len() ==> (#[trigger] ops@[k]).0.valid() && ops@[k].0.l_max()
                        == MAX_L && (ops@[k].1 matches Some(c) ==> c < self.atom_total()),
                prep.valid(),
                prep.shells@ == shells,
                offs@.len() == nsh,
                forall|s: int| 0 <= s < nsh ==> #[trigger] offs@[s] == self.offset(s),
                satom@.len() == nsh,
                forall|s: int| 0 <= s < nsh ==> #[trigger] satom@[s] == atom_of(shells, s),
                n == self.size(),
                is_partial(data@, self.atom_total(), terms, shells, si as int, 0, 0, 0),
            decreases nsh - si,
        {
            let mut sj: usize = 0;
            while sj < nsh
                invariant
                    si < nsh,
                    sj <= nsh,
                    nsh == shells.len(),
                    shells == self.shells@,
                    lens == function_counts(shells),
                    terms == grad_terms(ops@),
                    self.valid(),
                    self.can_differentiate(),
                    self.gradient_fits(),
                    forall|k: int|
                        0 <= k < ops@.len() ==> (#[trigger] ops@[k]).0.valid() && ops@[k].0.l_max()
                            == MAX_L && (ops@[k].1 matches Some(c) ==> c < self.atom_total()),
                    prep.valid(),
                    prep.shells@ == shells,
                    offs@.len() == nsh,
                    forall|s: int| 0 <= s < nsh ==> #[trigger] offs@[s] == self.offset(s),
                    satom@.len() == nsh,
                    forall|s: int| 0 <= s < nsh ==> #[trigger] satom@[s] == atom_of(shells, s),
                    n == self.size(),
                    is_partial(
                        data@,
                        self.atom_total(),
                        terms,
                        shells,
                        si as int,
                        sj as int,
                        0,
                        0,
                    ),
                decreases nsh - sj,
            {
                let mut t: usize = 0;
                while t < ops.len()
                    invariant
                        t <= ops@.len(),
                        si < nsh,
                        sj < nsh,
                        nsh == shells.len(),
                        shells == self.shells@,
                        lens == function_counts(shells),
                        terms == grad_terms(ops@),
                        self.valid(),
                        self.can_differentiate(),
                        self.gradient_fits(),
                        forall|k: int|
                            0 <= k < ops@.len() ==> (#[trigger] ops@[k]).0.valid()
                                && ops@[k].0.l_max() == MAX_L && (ops@[k].1 matches Some(c) ==> c
                                < self.atom_total()),
                        prep.valid(),
                        prep.shells@ == shells,
                        offs@.len() == nsh,
                        forall|s: int| 0 <= s < nsh ==> #[trigger] offs@[s] == self.offset(s),
                        satom@.len() == nsh,
                        forall|s: int| 0 <= s < nsh ==> #[trigger] satom@[s] == atom_of(shells, s),
                        n == self.size(),
                        is_partial(
                            data@,
                            self.atom_total(),
                            terms,
                            shells,
                            si as int,
                            sj as int,
                            t as int,
                            0,
                        ),
                    decreases ops@.len() - t,
                {
                    assert(ops@[t as int].0.valid());
                    self.add_pair_term(
                        &mut data,
                        &ops[t].0,
                        ops[t].1,
                        &prep,
                        &offs,
                        &satom,
                        n,
                        si,
                        sj,
                        Ghost(terms),
                        Ghost(t as int),
                    );
                    t = t + 1;
                }
                proof {
                    let len = terms.len() as int;
                    let sz = total(lens) * total(lens);
                    assert forall|c: int, ax: int, x: At, y: At|
                        0 <= c < self.atom_total() && 0 <= ax < 3 && is_function(lens, x)
                            && is_function(lens, y) implies #[trigger] data@[grad_base(c, ax, sz)
                        + slot2(lens, x, y)] == partial_entry(
                        terms,
                        shells,
                        si as int,
                        sj + 1,
                        0,
                        0,
                        c,
                        ax,
                        x,
                        y,
                    ) by {
                        assert(partial_entry(
                            terms,
                            shells,
                            si as int,
                            sj as int,
                            len,
                            0,
                            c,
                            ax,
                            x,
                            y,
                        ) == partial_entry(terms, shells, si as int, sj + 1, 0, 0, c, ax, x, y));
                    }
                }
                sj = sj + 1;
            }
            proof {
                let sz = total(lens) * total(lens);
                assert forall|c: int, ax: int, x: At, y: At|
                    0 <= c < self.atom_total() && 0 <= ax < 3 && is_function(lens, x)
                        && is_function(lens, y) implies #[trigger] data@[grad_base(c, ax, sz)
                    + slot2(lens, x, y)] == partial_entry(
                    terms,
                    shells,
                    si + 1,
                    0,
                    0,
                    0,
                    c,
                    ax,
                    x,
                    y,
                ) by {
                    assert(partial_entry(terms, shells, si as int, sj as int, 0, 0, c, ax, x, y)
                        == partial_entry(terms, shells, si + 1, 0, 0, 0, c, ax, x, y));
                }
            }
            si = si + 1;
        }
        Gradient1e { natom, nao: n, data }
    }
}

} // verus!
