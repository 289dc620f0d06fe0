//! Matrices of one-electron operators over a basis.
//!
//! The block of two shells is contracted over their primitives, brought to the
//! components of the shells, and placed at the offsets of the shells in the matrix.
use vstd::prelude::*;

use crate::engine::nuclear::{attracted, nuclear_into, pvp_entries, pvp_nuclear_into};
use crate::engine::os::{
    block_size, dipole_entries, dipole_into, kinetic_entries, kinetic_into, lemma_block_bounds,
    overlap_entries, overlap_into, Prim,
};
use crate::engine::os_eri::MAX_L;
use crate::engine::pairs::Vec3;
use crate::flat::{added, lemma_pair_in_range, lemma_pair_order, pair};
use crate::math::boys::BoysTable;
use crate::offsets::{are_lengths, lemma_start_grows, start};
use crate::scalar::{filled, fraction, ratio, Real, Scalar};
use crate::shell::{distinct_centers, function_counts, lemma_function_counts, Basis, Shell};
use crate::shell_pairs::Prepared;
use crate::spherical::{function_block2, transform_block2};
use crate::tensor::{index_of, is_function, lemma_index, slot2, total, At};

verus! {

/// What one pair of primitives, with the product of their coefficients, makes of a
/// block.
pub type PairStep<T> = spec_fn(Seq<T>, Prim<T>, Prim<T>, T) -> Seq<T>;

/// The Cartesian block of two shells over all primitive pairs before `(i, j)`, in
/// row-major order.
pub open spec fn contracted_pair<T: Real>(
    step: PairStep<T>,
    a: Shell<T>,
    b: Shell<T>,
    i: int,
    j: int,
) -> Seq<T>
    decreases i, j,
{
    if j > 0 {
        step(
            contracted_pair(step, a, b, i, j - 1),
            a.primitive(i),
            b.primitive(j - 1),
            T::prod(a.effective(i), b.effective(j - 1)),
        )
    } else if i > 0 {
        contracted_pair(step, a, b, i - 1, b.exponents@.len() as int)
    } else {
        Seq::new(block_size(a.l as int, b.l as int) as nat, |k: int| T::count(0))
    }
}

/// The block of two shells in their components.
pub open spec fn pair_block<T: Real>(step: PairStep<T>, a: Shell<T>, b: Shell<T>) -> Seq<T> {
    function_block2(a, b, contracted_pair(step, a, b, a.exponents@.len() as int, 0))
}

/// The step of the overlap.
pub open spec fn overlap_step<T: Real>() -> PairStep<T> {
    |old: Seq<T>, a: Prim<T>, b: Prim<T>, scale: T|
        added(old, block_size(a.l as int, b.l as int), overlap_entries(a, b, scale))
}

/// The step of the kinetic energy.
pub open spec fn kinetic_step<T: Real>() -> PairStep<T> {
    |old: Seq<T>, a: Prim<T>, b: Prim<T>, scale: T|
        added(old, block_size(a.l as int, b.l as int), kinetic_entries(a, b, scale))
}

/// The step of the attraction to charges.
pub open spec fn nuclear_step<T: Real>(charges: Seq<(Vec3<T>, T)>) -> PairStep<T> {
    |old: Seq<T>, a: Prim<T>, b: Prim<T>, scale: T|
        attracted(old, a, b, charges, charges.len() as int, scale)
}

/// The step of the attraction to charges between the gradients.
pub open spec fn pvp_step<T: Real>(charges: Seq<(Vec3<T>, T)>) -> PairStep<T> {
    |old: Seq<T>, a: Prim<T>, b: Prim<T>, scale: T|
        added(old, block_size(a.l as int, b.l as int), pvp_entries(a, b, charges, scale))
}

/// The step of the dipole along axis `k` about `o`.
pub open spec fn dipole_step<T: Real>(o: Vec3<T>, k: int) -> PairStep<T> {
    |old: Seq<T>, a: Prim<T>, b: Prim<T>, scale: T|
        added(old, block_size(a.l as int, b.l as int), dipole_entries(a, b, o, scale, k))
}

/// A one-electron operator.
#[derive(Clone, Copy)]
pub enum PairOperator<'a, T> {
    /// The identity.
    Overlap,
    /// Minus half the Laplacian.
    Kinetic,
    /// The attraction to point charges.
    Nuclear(&'a BoysTable<T>, &'a [(Vec3<T>, T)]),
    /// The attraction to point charges between the gradients.
    Pvp(&'a BoysTable<T>, &'a [(Vec3<T>, T)]),
}

impl<'a, T: Real> PairOperator<'a, T> {
    /// What one primitive pair adds.
    pub open spec fn step(self) -> PairStep<T> {
        match self {
            PairOperator::Overlap => overlap_step(),
            PairOperator::Kinetic => kinetic_step(),
            PairOperator::Nuclear(_, charges) => nuclear_step(charges@),
            PairOperator::Pvp(_, charges) => pvp_step(charges@),
        }
    }

    /// Whether the table it reads is valid.
    pub open spec fn valid(self) -> bool {
        match self {
            PairOperator::Nuclear(table, _) => table.valid(),
            PairOperator::Pvp(table, _) => table.valid(),
            _ => true,
        }
    }

    /// The largest angular momentum of a shell that the operator can take.
    pub open spec fn l_max(self) -> int {
        match self {
            PairOperator::Pvp(_, _) => MAX_L - 1,
            _ => MAX_L as int,
        }
    }

    /// Add what one primitive pair does.
    pub(crate) fn apply(&self, a: Prim<T>, b: Prim<T>, scale: T, out: &mut [T])
        requires
            self.valid(),
            a.l <= self.l_max(),
            b.l <= self.l_max(),
            old(out)@.len() >= block_size(a.l as int, b.l as int),
        ensures
            final(out)@ == (self.step())(old(out)@, a, b, scale),
            final(out)@.len() == old(out)@.len(),
    {
        match self {
            PairOperator::Overlap => overlap_into(a, b, scale, out),
            PairOperator::Kinetic => kinetic_into(a, b, scale, out),
            PairOperator::Nuclear(table, charges) => {
                proof {
                    crate::engine::nuclear::lemma_attracted_len(
                        out@,
                        a,
                        b,
                        charges@,
                        charges@.len() as int,
                        scale,
                    );
                }
                nuclear_into(table, a, b, charges, scale, out);
            },
            PairOperator::Pvp(table, charges) => pvp_nuclear_into(table, a, b, charges, scale, out),
        }
    }
}

/// The Cartesian block of two shells.
fn contract_pair<T: Real>(op: PairOperator<T>, a: &Shell<T>, b: &Shell<T>) -> (block: Vec<T>)
    requires
        op.valid(),
        a.valid(),
        b.valid(),
        a.l <= op.l_max(),
        b.l <= op.l_max(),
    ensures
        block@ == contracted_pair(op.step(), *a, *b, a.exponents@.len() as int, 0),
        block@.len() == block_size(a.l as int, b.l as int),
{
    let ghost step = op.step();
    let ghost size = block_size(a.l as int, b.l as int);
    proof {
        lemma_block_bounds(a.l as int, b.l as int);
    }
    let mut block = filled(a.n_cart() * b.n_cart(), T::from_count(0));
    assert(block@ =~= contracted_pair(step, *a, *b, 0, 0));
    let mut i: usize = 0;
    while i < a.n_prim()
        invariant
            i <= a.exponents@.len(),
            op.valid(),
            a.valid(),
            b.valid(),
            a.l <= op.l_max(),
            b.l <= op.l_max(),
            step == op.step(),
            size == block_size(a.l as int, b.l as int),
            block@.len() == size,
            block@ == contracted_pair(step, *a, *b, i as int, 0),
        decreases a.exponents@.len() - i,
    {
        let mut j: usize = 0;
        while j < b.n_prim()
            invariant
                i < a.exponents@.len(),
                j <= b.exponents@.len(),
                op.valid(),
                a.valid(),
                b.valid(),
                a.l <= op.l_max(),
                b.l <= op.l_max(),
                step == op.step(),
                size == block_size(a.l as int, b.l as int),
                block@.len() == size,
                block@ == contracted_pair(step, *a, *b, i as int, j as int),
            decreases b.exponents@.len() - j,
        {
            let scale = a.primitive_coeff(i).times(b.primitive_coeff(j));
            op.apply(a.prim(i), b.prim(j), scale, block.as_mut_slice());
            j = j + 1;
        }
        i = i + 1;
    }
    block
}

/// Whether `new` is `old` with `block`, of `na` rows of length `nb`, placed at row `ro`
/// and column `co` of the `n x n` matrix that starts at `base`.
pub open spec fn is_placed<T>(
    old: Seq<T>,
    new: Seq<T>,
    base: int,
    n: int,
    ro: int,
    co: int,
    block: Seq<T>,
    na: int,
    nb: int,
) -> bool {
    &&& new.len() == old.len()
    &&& forall|i: int, j: int|
        0 <= i < n && 0 <= j < n ==> #[trigger] new[base + pair(i, n, j)] == (if ro <= i < ro + na
            && co <= j < co + nb {
            block[pair(i - ro, nb, j - co)]
        } else {
            old[base + pair(i, n, j)]
        })
    &&& forall|k: int|
        0 <= k < old.len() && (k < base || k >= base + n * n) ==> #[trigger] new[k] == old[k]
}

/// Place `block`, of `na` rows of length `nb`, at row `ro` and column `co` of the
/// `n x n` matrix that starts at `base`; or its transpose.
#[verifier::spinoff_prover]
#[verifier::rlimit(40)]
pub fn place_block<T: Copy>(
    mat: &mut [T],
    base: usize,
    n: usize,
    ro: usize,
    co: usize,
    block: &Vec<T>,
    na: usize,
    nb: usize,
)
    requires
        ro + na <= n,
        co + nb <= n,
        base + n * n <= old(mat)@.len(),
        block@.len() == na * nb,
    ensures
        is_placed(
            old(mat)@,
            final(mat)@,
            base as int,
            n as int,
            ro as int,
            co as int,
            block@,
            na as int,
            nb as int,
        ),
{
    let ghost old_mat = mat@;
    let ghost (bb, nn, rr, cc, aa, bw) = (
        base as int,
        n as int,
        ro as int,
        co as int,
        na as int,
        nb as int,
    );
    let total_len = mat.len();
    let block_len = block.len();
    let mut i: usize = 0;
    while i < na
        invariant
            i <= na,
            bb == base,
            nn == n,
            rr == ro,
            cc == co,
            aa == na,
            bw == nb,
            rr + aa <= nn,
            cc + bw <= nn,
            bb + nn * nn <= old_mat.len(),
            old_mat.len() <= usize::MAX,
            block@.len() == aa * bw,
            block@.len() <= usize::MAX,
            mat@.len() == old_mat.len(),
            forall|r: int, c: int|
                0 <= r < nn && 0 <= c < nn ==> #[trigger] mat@[bb + pair(r, nn, c)] == (if rr <= r
                    < rr + i && cc <= c < cc + bw {
                    block@[pair(r - rr, bw, c - cc)]
                } else {
                    old_mat[bb + pair(r, nn, c)]
                }),
            forall|k: int|
                0 <= k < old_mat.len() && (k < bb || k >= bb + nn * nn) ==> #[trigger] mat@[k]
                    == old_mat[k],
        decreases na - i,
    {
        let mut j: usize = 0;
        while j < nb
            invariant
                i < na,
                j <= nb,
                bb == base,
                nn == n,
                rr == ro,
                cc == co,
                aa == na,
                bw == nb,
                rr + aa <= nn,
                cc + bw <= nn,
                bb + nn * nn <= old_mat.len(),
                old_mat.len() <= usize::MAX,
                block@.len() == aa * bw,
                block@.len() <= usize::MAX,
                mat@.len() == old_mat.len(),
                forall|r: int, c: int|
                    0 <= r < nn && 0 <= c < nn ==> #[trigger] mat@[bb + pair(r, nn, c)] == (if rr
                        <= r && cc <= c < cc + bw && (r < rr + i || (r == rr + i && c < cc + j)) {
                        block@[pair(r - rr, bw, c - cc)]
                    } else {
                        old_mat[bb + pair(r, nn, c)]
                    }),
                forall|k: int|
                    0 <= k < old_mat.len() && (k < bb || k >= bb + nn * nn) ==> #[trigger] mat@[k]
                        == old_mat[k],
            decreases nb - j,
        {
            let ghost (r0, c0) = (rr + i, cc + j);
            proof {
                lemma_pair_in_range(r0, nn, nn, c0);
                lemma_pair_in_range(i as int, aa, bw, j as int);
            }
            let ghost before = mat@;
            mat[base + ((ro + i) * n + (co + j))] = block[i * nb + j];
            proof {
                assert forall|r: int, c: int|
                    0 <= r < nn && 0 <= c < nn implies #[trigger] mat@[bb + pair(r, nn, c)] == (if rr
                    <= r && cc <= c < cc + bw && (r < rr + i || (r == rr + i && c < cc + j + 1)) {
                    block@[pair(r - rr, bw, c - cc)]
                } else {
                    old_mat[bb + pair(r, nn, c)]
                }) by {
                    lemma_pair_in_range(r, nn, nn, c);
                    lemma_pair_order(r, c, r0, c0, nn);
                    assert(before[bb + pair(r, nn, c)] == mat@[bb + pair(r, nn, c)] || (r == r0 && c
                        == c0));
                }
            }
            j = j + 1;
        }
        i = i + 1;
    }
}

/// Place the transpose of `block`, of `na` rows of length `nb`, at row `ro` and column
/// `co` of the `n x n` matrix that starts at `base`.
pub fn place_transpose<T: Copy>(
    mat: &mut [T],
    base: usize,
    n: usize,
    ro: usize,
    co: usize,
    block: &Vec<T>,
    na: usize,
    nb: usize,
)
    requires
        ro + nb <= n,
        co + na <= n,
        base + n * n <= old(mat)@.len(),
        block@.len() == na * nb,
        na * nb <= usize::MAX,
    ensures
        is_placed(
            old(mat)@,
            final(mat)@,
            base as int,
            n as int,
            ro as int,
            co as int,
            transposed(block@, na as int, nb as int),
            nb as int,
            na as int,
        ),
{
    let t = transpose(block, na, nb);
    place_block(mat, base, n, ro, co, &t, nb, na);
}

/// The transpose of a block of `na` rows of length `nb`.
pub open spec fn transposed<T>(block: Seq<T>, na: int, nb: int) -> Seq<T> {
    Seq::new((nb * na) as nat, |k: int| block[pair(k % na, nb, k / na)])
}

/// The transpose of a block of `na` rows of length `nb`.
fn transpose<T: Copy>(block: &Vec<T>, na: usize, nb: usize) -> (t: Vec<T>)
    requires
        block@.len() == na * nb,
    ensures
        t@ == transposed(block@, na as int, nb as int),
        t@.len() == nb * na,
{
    let block_len = block.len();
    let mut t: Vec<T> = Vec::new();
    let ghost goal = transposed(block@, na as int, nb as int);
    let mut j: usize = 0;
    while j < nb
        invariant
            j <= nb,
            block@.len() == na * nb,
            block@.len() <= usize::MAX,
            goal == transposed(block@, na as int, nb as int),
            t@.len() == j * na,
            forall|k: int| 0 <= k < t@.len() ==> #[trigger] t@[k] == goal[k],
        decreases nb - j,
    {
        let mut i: usize = 0;
        while i < na
            invariant
                j < nb,
                i <= na,
                block@.len() == na * nb,
                block@.len() <= usize::MAX,
                goal == transposed(block@, na as int, nb as int),
                t@.len() == pair(j as int, na as int, i as int),
                forall|k: int| 0 <= k < t@.len() ==> #[trigger] t@[k] == goal[k],
            decreases na - i,
        {
            proof {
                lemma_pair_in_range(i as int, na as int, nb as int, j as int);
                lemma_pair_in_range(j as int, nb as int, na as int, i as int);
                crate::flat::lemma_pair_parts(j as int, na as int, i as int);
            }
            t.push(block[i * nb + j]);
            i = i + 1;
        }
        proof {
            assert(j * na + na == (j + 1) * na) by (nonlinear_arith);
        }
        j = j + 1;
    }
    assert(nb * na == na * nb) by (nonlinear_arith);
    assert(t@ =~= goal);
    t
}

/// Whether `mat` is the matrix with the given entries.
pub open spec fn is_matrix<T>(mat: Seq<T>, entries: spec_fn(At, At) -> T, lens: Seq<int>) -> bool {
    &&& mat.len() == total(lens) * total(lens)
    &&& forall|x: At, y: At|
        is_function(lens, x) && is_function(lens, y) ==> #[trigger] mat[slot2(lens, x, y)]
            == entries(x, y)
}

/// The entries of the matrix of an operator: that of the block of two shells at two
/// components.
pub open spec fn pair_entries<T: Real>(step: PairStep<T>, shells: Seq<Shell<T>>) -> spec_fn(
    At,
    At,
) -> T {
    |x: At, y: At|
        pair_block(step, shells[x.0], shells[y.0])[pair(x.1, shells[y.0].functions(), y.1)]
}

/// What placing the block of shells `si` and `sj` does to the places of functions.
pub proof fn lemma_placed<T>(
    old: Seq<T>,
    new: Seq<T>,
    lens: Seq<int>,
    si: int,
    sj: int,
    block: Seq<T>,
    base: int,
    x: At,
    y: At,
)
    requires
        are_lengths(lens),
        0 <= si < lens.len(),
        0 <= sj < lens.len(),
        is_placed(
            old,
            new,
            base,
            total(lens),
            start(lens, si),
            start(lens, sj),
            block,
            lens[si],
            lens[sj],
        ),
        is_function(lens, x),
        is_function(lens, y),
    ensures
        new[base + slot2(lens, x, y)] == (if x.0 == si && y.0 == sj {
            block[pair(x.1, lens[sj], y.1)]
        } else {
            old[base + slot2(lens, x, y)]
        }),
{
    lemma_index(lens, x, y);
    lemma_index(lens, y, x);
    let (i, j) = (index_of(lens, x), index_of(lens, y));
    assert(new[base + pair(i, total(lens), j)] == (if start(lens, si) <= i < start(lens, si)
        + lens[si] && start(lens, sj) <= j < start(lens, sj) + lens[sj] {
        block[pair(i - start(lens, si), lens[sj], j - start(lens, sj))]
    } else {
        old[base + pair(i, total(lens), j)]
    }));
    lemma_in_range(lens, x, si);
    lemma_in_range(lens, y, sj);
}

/// A function's index lies in the range of its own shell only.
pub proof fn lemma_in_range(lens: Seq<int>, x: At, s: int)
    requires
        are_lengths(lens),
        is_function(lens, x),
        0 <= s < lens.len(),
    ensures
        start(lens, s) <= index_of(lens, x) < start(lens, s) + lens[s] <==> x.0 == s,
{
    if x.0 < s {
        lemma_start_grows(lens, x.0, s);
    } else if s < x.0 {
        lemma_start_grows(lens, s, x.0);
    }
}

/// The ranges of two shells lie in the matrix.
pub proof fn lemma_ranges_fit(lens: Seq<int>, s: int)
    requires
        are_lengths(lens),
        0 <= s < lens.len(),
    ensures
        0 <= start(lens, s),
        start(lens, s) + lens[s] <= total(lens),
        0 <= total(lens),
{
    lemma_start_grows(lens, s, lens.len() as int);
    lemma_start_grows(lens, 0, s);
}

impl<T: Real> Basis<T> {
    /// Whether a matrix over the basis can be indexed.
    pub open spec fn matrix_fits(self) -> bool {
        self.size() * self.size() <= usize::MAX
    }

    /// The functions of the basis can be counted if a matrix can be indexed.
    pub proof fn lemma_size_fits(self)
        requires
            self.valid(),
            self.matrix_fits(),
        ensures
            0 <= self.size() <= usize::MAX,
            are_lengths(function_counts(self.shells@)),
            function_counts(self.shells@).len() == self.shells@.len(),
            self.size() == total(function_counts(self.shells@)),
    {
        lemma_function_counts(self.shells@);
        lemma_start_grows(function_counts(self.shells@), 0, self.shells@.len() as int);
        crate::tensor::lemma_total_steps(self.size());
    }

    /// The matrix of an operator.
    #[verifier::spinoff_prover]
    #[verifier::rlimit(40)]
    fn operator_matrix(&self, op: PairOperator<T>) -> (mat: Vec<T>)
        requires
            op.valid(),
            self.valid(),
            self.matrix_fits(),
            forall|s: int|
                0 <= s < self.shells@.len() ==> (#[trigger] self.shells@[s]).l <= op.l_max(),
        ensures
            is_matrix(
                mat@,
                pair_entries(op.step(), self.shells@),
                function_counts(self.shells@),
            ),
    {
        let ghost lens = function_counts(self.shells@);
        let ghost shells = self.shells@;
        let ghost entries = pair_entries(op.step(), shells);
        proof {
            self.lemma_size_fits();
        }
        let n = self.nao();
        let offs = self.offsets();
        let prep = Prepared::new(&self.shells);
        let nsh = self.shells.len();
        let mut mat = filled(n * n, T::from_count(0));
        let mut si: usize = 0;
        while si < nsh
            invariant
                si <= nsh,
                nsh == shells.len(),
                shells == self.shells@,
                lens == function_counts(shells),
                are_lengths(lens),
                op.valid(),
                self.valid(),
                prep.valid(),
                prep.shells@ == shells,
                forall|s: int| 0 <= s < shells.len() ==> (#[trigger] shells[s]).l <= op.l_max(),
                entries == pair_entries(op.step(), shells),
                n == total(lens),
                n * n <= usize::MAX,
                offs@.len() == nsh,
                forall|s: int| 0 <= s < nsh ==> #[trigger] offs@[s] == start(lens, s),
                mat@.len() == n * n,
                forall|x: At, y: At|
                    is_function(lens, x) && is_function(lens, y) && x.0 < si
                        ==> #[trigger] mat@[slot2(lens, x, y)] == entries(x, y),
            decreases nsh - si,
        {
            let mut sj: usize = 0;
            while sj < nsh
                invariant
                    si < nsh,
                    sj <= nsh,
                    nsh == shells.len(),
                    shells == self.shells@,
                    lens == function_counts(shells),
                    are_lengths(lens),
                    op.valid(),
                    self.valid(),
                    prep.valid(),
                    prep.shells@ == shells,
                    forall|s: int| 0 <= s < shells.len() ==> (#[trigger] shells[s]).l <= op.l_max(),
                    entries == pair_entries(op.step(), shells),
                    n == total(lens),
                    n * n <= usize::MAX,
                    offs@.len() == nsh,
                    forall|s: int| 0 <= s < nsh ==> #[trigger] offs@[s] == start(lens, s),
                    mat@.len() == n * n,
                    forall|x: At, y: At|
                        is_function(lens, x) && is_function(lens, y) && (x.0 < si || (x.0 == si
                            && y.0 < sj)) ==> #[trigger] mat@[slot2(lens, x, y)] == entries(x, y),
                decreases nsh - sj,
            {
                let (sa, sb) = (prep.side(si), prep.side(sj));
                assert(shells[si as int].l <= op.l_max());
                assert(shells[sj as int].l <= op.l_max());
                let mut block = contract_pair(op, sa.shell, sb.shell);
                transform_block2(sa.shell, sb.shell, sa.mat, sb.mat, &mut block);
                let ghost before = mat@;
                proof {
                    lemma_ranges_fit(lens, si as int);
                    lemma_ranges_fit(lens, sj as int);
                    assert(offs@[si as int] == start(lens, si as int));
                    assert(offs@[sj as int] == start(lens, sj as int));
                }
                place_block(
                    mat.as_mut_slice(),
                    0,
                    n,
                    offs[si],
                    offs[sj],
                    &block,
                    sa.shell.n_func(),
                    sb.shell.n_func(),
                );
                proof {
                    assert forall|x: At, y: At|
                        is_function(lens, x) && is_function(lens, y) && (x.0 < si || (x.0 == si
                            && y.0 < sj + 1)) implies #[trigger] mat@[slot2(lens, x, y)]
                        == entries(x, y) by {
                        lemma_placed(
                            before,
                            mat@,
                            lens,
                            si as int,
                            sj as int,
                            block@,
                            0,
                            x,
                            y,
                        );
                        assert(before[slot2(lens, x, y)] == entries(x, y) || (x.0 == si && y.0
                            == sj));
                    }
                }
                sj = sj + 1;
            }
            si = si + 1;
        }
        mat
    }

    /// The overlap matrix.
    #[must_use]
    pub fn overlap(&self) -> (mat: Vec<T>)
        requires
            self.valid(),
            self.matrix_fits(),
        ensures
            is_matrix(
                mat@,
                pair_entries(overlap_step(), self.shells@),
                function_counts(self.shells@),
            ),
    {
        proof {
            self.lemma_momenta();
        }
        self.operator_matrix(PairOperator::Overlap)
    }

    /// Every shell has a supported angular momentum.
    proof fn lemma_momenta(self)
        requires
            self.valid(),
        ensures
            forall|s: int| 0 <= s < self.shells@.len() ==> (#[trigger] self.shells@[s]).l <= MAX_L,
    {
        assert forall|s: int| 0 <= s < self.shells@.len() implies (#[trigger] self.shells@[s]).l
            <= MAX_L by {
            assert(self.shells@[s].valid());
        }
    }

    /// The kinetic-energy matrix.
    #[must_use]
    pub fn kinetic(&self) -> (mat: Vec<T>)
        requires
            self.valid(),
            self.matrix_fits(),
        ensures
            is_matrix(
                mat@,
                pair_entries(kinetic_step(), self.shells@),
                function_counts(self.shells@),
            ),
    {
        proof {
            self.lemma_momenta();
        }
        self.operator_matrix(PairOperator::Kinetic)
    }

    /// The matrix of the attraction to the given charges.
    #[must_use]
    pub fn nuclear(&self, table: &BoysTable<T>, charges: &[(Vec3<T>, T)]) -> (mat: Vec<T>)
        requires
            table.valid(),
            self.valid(),
            self.matrix_fits(),
        ensures
            is_matrix(
                mat@,
                pair_entries(nuclear_step(charges@), self.shells@),
                function_counts(self.shells@),
            ),
    {
        proof {
            self.lemma_momenta();
        }
        self.operator_matrix(PairOperator::Nuclear(table, charges))
    }
}

/// Half the sum of two values.
pub open spec fn mean<T: Scalar>(a: T, b: T) -> T {
    T::prod(fraction::<T>(1, 2), T::sum(a, b))
}

/// The entries of a symmetric matrix: those of the block of the canonical shell pair;
/// within one shell the mean of the two entries that are transposes of one another.
pub open spec fn symmetric_entries<T: Real>(step: PairStep<T>, shells: Seq<Shell<T>>) -> spec_fn(
    At,
    At,
) -> T {
    |x: At, y: At|
        {
            let direct = pair_entries(step, shells);
            if x.0 > y.0 {
                direct(x, y)
            } else if x.0 < y.0 {
                direct(y, x)
            } else if x.1 > y.1 {
                mean(direct(x, y), direct(y, x))
            } else if x.1 < y.1 {
                mean(direct(y, x), direct(x, y))
            } else {
                direct(x, y)
            }
        }
}

/// A symmetric matrix has equal entries on both sides of the diagonal.
pub proof fn law_symmetric_entries<T: Real>(step: PairStep<T>, shells: Seq<Shell<T>>, x: At, y: At)
    ensures
        symmetric_entries(step, shells)(x, y) == symmetric_entries(step, shells)(y, x),
{
}

/// Replace the entries of a square block off its diagonal by the mean of the two that
/// are transposes of one another.
#[verifier::spinoff_prover]
#[verifier::rlimit(30)]
fn symmetrize<T: Scalar>(block: &mut Vec<T>, n: usize)
    requires
        n <= 28,
        old(block)@.len() == n * n,
    ensures
        final(block)@.len() == old(block)@.len(),
        forall|r: int, c: int|
            0 <= r < n && 0 <= c < n ==> #[trigger] final(block)@[pair(r, n as int, c)] == ({
                let b = old(block)@;
                if r > c {
                    mean(b[pair(r, n as int, c)], b[pair(c, n as int, r)])
                } else if r < c {
                    mean(b[pair(c, n as int, r)], b[pair(r, n as int, c)])
                } else {
                    b[pair(r, n as int, c)]
                }
            }),
{
    let ghost was = block@;
    let ghost nn = n as int;
    assert(n * n <= 784) by (nonlinear_arith)
        requires
            n <= 28,
    ;
    let mut i: usize = 0;
    while i < n
        invariant
            i <= n <= 28,
            nn == n,
            n * n <= 784,
            was.len() == nn * nn,
            block@.len() == nn * nn,
            forall|r: int, c: int|
                0 <= r < nn && 0 <= c < nn ==> #[trigger] block@[pair(r, nn, c)] == (if r > c && r
                    < i {
                    mean(was[pair(r, nn, c)], was[pair(c, nn, r)])
                } else if r < c && c < i {
                    mean(was[pair(c, nn, r)], was[pair(r, nn, c)])
                } else {
                    was[pair(r, nn, c)]
                }),
        decreases n - i,
    {
        let mut j: usize = 0;
        while j < i
            invariant
                j <= i < n <= 28,
                nn == n,
                n * n <= 784,
                was.len() == nn * nn,
                block@.len() == nn * nn,
                forall|r: int, c: int|
                    0 <= r < nn && 0 <= c < nn ==> #[trigger] block@[pair(r, nn, c)] == (if r > c
                        && (r < i || (r == i && c < j)) {
                        mean(was[pair(r, nn, c)], was[pair(c, nn, r)])
                    } else if r < c && (c < i || (c == i && r < j)) {
                        mean(was[pair(c, nn, r)], was[pair(r, nn, c)])
                    } else {
                        was[pair(r, nn, c)]
                    }),
            decreases i - j,
        {
            let ghost (pi, pj) = (i as int, j as int);
            proof {
                lemma_pair_in_range(pi, nn, nn, pj);
                lemma_pair_in_range(pj, nn, nn, pi);
                assert(block@[pair(pi, nn, pj)] == was[pair(pi, nn, pj)]);
                assert(block@[pair(pj, nn, pi)] == was[pair(pj, nn, pi)]);
            }
            let m = ratio::<T>(1, 2).times(block[i * n + j].plus(block[j * n + i]));
            let ghost before = block@;
            block[i * n + j] = m;
            block[j * n + i] = m;
            proof {
                assert forall|r: int, c: int|
                    0 <= r < nn && 0 <= c < nn implies #[trigger] block@[pair(r, nn, c)] == (if r
                    > c && (r < i || (r == i && c < j + 1)) {
                    mean(was[pair(r, nn, c)], was[pair(c, nn, r)])
                } else if r < c && (c < i || (c == i && r < j + 1)) {
                    mean(was[pair(c, nn, r)], was[pair(r, nn, c)])
                } else {
                    was[pair(r, nn, c)]
                }) by {
                    lemma_pair_in_range(r, nn, nn, c);
                    lemma_pair_order(r, c, pi, pj, nn);
                    lemma_pair_order(r, c, pj, pi, nn);
                    assert(before[pair(r, nn, c)] == block@[pair(r, nn, c)] || (r == pi && c == pj)
                        || (r == pj && c == pi));
                }
            }
            j = j + 1;
        }
        i = i + 1;
    }
}

impl<T: Real> Basis<T> {
    /// The matrix of the sum over axes of `<d_k m| V |d_k n>`, with `V` the attraction to
    /// the given charges. It is symmetric, entry by entry.
    #[verifier::spinoff_prover]
    #[verifier::rlimit(60)]
    #[must_use]
    pub fn pvp_charges(&self, table: &BoysTable<T>, charges: &[(Vec3<T>, T)]) -> (mat: Vec<T>)
        requires
            table.valid(),
            self.valid(),
            self.matrix_fits(),
            forall|s: int| 0 <= s < self.shells@.len() ==> (#[trigger] self.shells@[s]).l < MAX_L,
        ensures
            is_matrix(
                mat@,
                symmetric_entries(pvp_step(charges@), self.shells@),
                function_counts(self.shells@),
            ),
    {
        let op = PairOperator::Pvp(table, charges);
        let ghost lens = function_counts(self.shells@);
        let ghost shells = self.shells@;
        let ghost entries = symmetric_entries(pvp_step(charges@), shells);
        let ghost direct = pair_entries(pvp_step(charges@), shells);
        proof {
            self.lemma_size_fits();
        }
        let n = self.nao();
        let offs = self.offsets();
        let prep = Prepared::new(&self.shells);
        let nsh = self.shells.len();
        let mut mat = filled(n * n, T::from_count(0));
        let mut si: usize = 0;
        while si < nsh
            invariant
                si <= nsh,
                nsh == shells.len(),
                shells == self.shells@,
                lens == function_counts(shells),
                are_lengths(lens),
                op == PairOperator::Pvp(table, charges),
                op.valid(),
                self.valid(),
                prep.valid(),
                prep.shells@ == shells,
                forall|s: int| 0 <= s < shells.len() ==> (#[trigger] shells[s]).l < MAX_L,
                direct == pair_entries(pvp_step(charges@), shells),
                entries == symmetric_entries(pvp_step(charges@), shells),
                n == total(lens),
                n * n <= usize::MAX,
                offs@.len() == nsh,
                forall|s: int| 0 <= s < nsh ==> #[trigger] offs@[s] == start(lens, s),
                mat@.len() == n * n,
                forall|x: At, y: At|
                    is_function(lens, x) && is_function(lens, y) && x.0 < si && y.0 < si
                        ==> #[trigger] mat@[slot2(lens, x, y)] == entries(x, y),
            decreases nsh - si,
        {
            let mut sj: usize = 0;
            while sj <= si
                invariant
                    si < nsh,
                    sj <= si + 1,
                    nsh == shells.len(),
                    shells == self.shells@,
                    lens == function_counts(shells),
                    are_lengths(lens),
                    op == PairOperator::Pvp(table, charges),
                    op.valid(),
                    self.valid(),
                    prep.valid(),
                    prep.shells@ == shells,
                    forall|s: int| 0 <= s < shells.len() ==> (#[trigger] shells[s]).l < MAX_L,
                    direct == pair_entries(pvp_step(charges@), shells),
                    entries == symmetric_entries(pvp_step(charges@), shells),
                    n == total(lens),
                    n * n <= usize::MAX,
                    offs@.len() == nsh,
                    forall|s: int| 0 <= s < nsh ==> #[trigger] offs@[s] == start(lens, s),
                    mat@.len() == n * n,
                    forall|x: At, y: At|
                        is_function(lens, x) && is_function(lens, y) && ((x.0 < si && y.0 < si) || (
                        x.0 == si && y.0 < sj) || (x.0 < sj && y.0 == si))
                            ==> #[trigger] mat@[slot2(lens, x, y)] == entries(x, y),
                decreases si + 1 - sj,
            {
                let (sa, sb) = (prep.side(si), prep.side(sj));
                let (na, nb) = (sa.shell.n_func(), sb.shell.n_func());
                let mut block = contract_pair(op, sa.shell, sb.shell);
                transform_block2(sa.shell, sb.shell, sa.mat, sb.mat, &mut block);
                let ghost full = block@;
                let ghost before = mat@;
                proof {
                    lemma_ranges_fit(lens, si as int);
                    lemma_ranges_fit(lens, sj as int);
                    assert(offs@[si as int] == start(lens, si as int));
                    assert(offs@[sj as int] == start(lens, sj as int));
                    assert(na * nb <= 784) by (nonlinear_arith)
                        requires
                            na <= 28,
                            nb <= 28,
                    ;
                }
                if si == sj {
                    symmetrize(&mut block, na);
                    place_block(mat.as_mut_slice(), 0, n, offs[si], offs[sj], &block, na, nb);
                    proof {
                        assert forall|x: At, y: At|
                            is_function(lens, x) && is_function(lens, y) && ((x.0 < si && y.0 < si)
                                || (x.0 == si && y.0 < sj + 1) || (x.0 < sj + 1 && y.0 == si)) implies #[trigger] mat@[slot2(
                            lens,
                            x,
                            y,
                        )] == entries(x, y) by {
                            lemma_placed(
                                before,
                                mat@,
                                lens,
                                si as int,
                                sj as int,
                                block@,
                                0,
                                x,
                                y,
                            );
                            if x.0 == si && y.0 == si {
                                assert(block@[pair(x.1, na as int, y.1)] == entries(x, y));
                            } else {
                                assert(before[slot2(lens, x, y)] == entries(x, y));
                            }
                        }
                    }
                } else {
                    place_block(mat.as_mut_slice(), 0, n, offs[si], offs[sj], &block, na, nb);
                    let ghost between = mat@;
                    place_transpose(mat.as_mut_slice(), 0, n, offs[sj], offs[si], &block, na, nb);
                    proof {
                        let t = transposed(block@, na as int, nb as int);
                        assert forall|x: At, y: At|
                            is_function(lens, x) && is_function(lens, y) && ((x.0 < si && y.0 < si)
                                || (x.0 == si && y.0 < sj + 1) || (x.0 < sj + 1 && y.0 == si)) implies #[trigger] mat@[slot2(
                            lens,
                            x,
                            y,
                        )] == entries(x, y) by {
                            lemma_placed(
                                before,
                                between,
                                lens,
                                si as int,
                                sj as int,
                                block@,
                                0,
                                x,
                                y,
                            );
                            lemma_placed(
                                between,
                                mat@,
                                lens,
                                sj as int,
                                si as int,
                                t,
                                0,
                                x,
                                y,
                            );
                            if x.0 == sj && y.0 == si {
                                lemma_transposed(block@, na as int, nb as int, x.1, y.1);
                            } else if x.0 == si && y.0 == sj {
                                assert(block@[pair(x.1, nb as int, y.1)] == entries(x, y));
                            } else {
                                assert(before[slot2(lens, x, y)] == entries(x, y));
                            }
                        }
                    }
                }
                sj = sj + 1;
            }
            si = si + 1;
        }
        mat
    }

    /// [`Basis::pvp_charges`] for a unit charge on every atom of the basis.
    #[must_use]
    pub fn pvp(&self, table: &BoysTable<T>) -> (mat: Vec<T>)
        requires
            table.valid(),
            self.valid(),
            self.matrix_fits(),
            forall|s: int| 0 <= s < self.shells@.len() ==> (#[trigger] self.shells@[s]).l < MAX_L,
        ensures
            is_matrix(
                mat@,
                symmetric_entries(
                    pvp_step(
                        unit_charges(
                            distinct_centers(self.shells@, self.shells@.len() as int),
                        ),
                    ),
                    self.shells@,
                ),
                function_counts(self.shells@),
            ),
    {
        let atoms = self.atoms();
        let mut charges: Vec<(Vec3<T>, T)> = Vec::new();
        let mut i: usize = 0;
        while i < atoms.len()
            invariant
                i <= atoms@.len(),
                charges@.len() == i,
                forall|k: int| 0 <= k < i ==> #[trigger] charges@[k] == (atoms@[k], T::count(1)),
            decreases atoms@.len() - i,
        {
            charges.push((atoms[i], T::from_count(1)));
            i = i + 1;
        }
        assert(charges@ =~= unit_charges(atoms@));
        self.pvp_charges(table, charges.as_slice())
    }
}

/// A unit charge at every point.
pub open spec fn unit_charges<T: Scalar>(points: Seq<Vec3<T>>) -> Seq<(Vec3<T>, T)> {
    Seq::new(points.len(), |i: int| (points[i], T::count(1)))
}

/// The entry of a transpose.
pub proof fn lemma_transposed<T>(block: Seq<T>, na: int, nb: int, r: int, c: int)
    requires
        0 <= r < nb,
        0 <= c < na,
    ensures
        transposed(block, na, nb)[pair(r, na, c)] == block[pair(c, nb, r)],
{
    lemma_pair_in_range(r, nb, na, c);
    crate::flat::lemma_pair_parts(r, na, c);
}

/// The three Cartesian dipole blocks of two shells.
fn contract_dipole<T: Real>(a: &Shell<T>, b: &Shell<T>, o: Vec3<T>) -> (r: (Vec<T>, Vec<T>, Vec<T>))
    requires
        a.valid(),
        b.valid(),
    ensures
        r.0@ == contracted_pair(dipole_step(o, 0), *a, *b, a.exponents@.len() as int, 0),
        r.1@ == contracted_pair(dipole_step(o, 1), *a, *b, a.exponents@.len() as int, 0),
        r.2@ == contracted_pair(dipole_step(o, 2), *a, *b, a.exponents@.len() as int, 0),
        r.0@.len() == block_size(a.l as int, b.l as int),
        r.1@.len() == block_size(a.l as int, b.l as int),
        r.2@.len() == block_size(a.l as int, b.l as int),
{
    let ghost (gx, gy, gz) = (
        dipole_step::<T>(o, 0),
        dipole_step::<T>(o, 1),
        dipole_step::<T>(o, 2),
    );
    let ghost size = block_size(a.l as int, b.l as int);
    proof {
        lemma_block_bounds(a.l as int, b.l as int);
    }
    let len: usize = a.n_cart() * b.n_cart();
    let mut bx = filled(len, T::from_count(0));
    let mut by = filled(len, T::from_count(0));
    let mut bz = filled(len, T::from_count(0));
    assert(bx@ =~= contracted_pair(gx, *a, *b, 0, 0));
    assert(by@ =~= contracted_pair(gy, *a, *b, 0, 0));
    assert(bz@ =~= contracted_pair(gz, *a, *b, 0, 0));
    let mut i: usize = 0;
    while i < a.n_prim()
        invariant
            i <= a.exponents@.len(),
            a.valid(),
            b.valid(),
            gx == dipole_step::<T>(o, 0),
            gy == dipole_step::<T>(o, 1),
            gz == dipole_step::<T>(o, 2),
            size == block_size(a.l as int, b.l as int),
            bx@.len() == size,
            by@.len() == size,
            bz@.len() == size,
            bx@ == contracted_pair(gx, *a, *b, i as int, 0),
            by@ == contracted_pair(gy, *a, *b, i as int, 0),
            bz@ == contracted_pair(gz, *a, *b, i as int, 0),
        decreases a.exponents@.len() - i,
    {
        let mut j: usize = 0;
        while j < b.n_prim()
            invariant
                i < a.exponents@.len(),
                j <= b.exponents@.len(),
                a.valid(),
                b.valid(),
                gx == dipole_step::<T>(o, 0),
                gy == dipole_step::<T>(o, 1),
                gz == dipole_step::<T>(o, 2),
                size == block_size(a.l as int, b.l as int),
                bx@.len() == size,
                by@.len() == size,
                bz@.len() == size,
                bx@ == contracted_pair(gx, *a, *b, i as int, j as int),
                by@ == contracted_pair(gy, *a, *b, i as int, j as int),
                bz@ == contracted_pair(gz, *a, *b, i as int, j as int),
            decreases b.exponents@.len() - j,
        {
            let scale = a.primitive_coeff(i).times(b.primitive_coeff(j));
            dipole_into(
                a.prim(i),
                b.prim(j),
                o,
                scale,
                bx.as_mut_slice(),
                by.as_mut_slice(),
                bz.as_mut_slice(),
            );
            j = j + 1;
        }
        i = i + 1;
    }
    (bx, by, bz)
}

impl<T: Real> Basis<T> {
    /// The dipole matrices about `o`, one per axis.
    #[verifier::spinoff_prover]
    #[verifier::rlimit(60)]
    #[must_use]
    pub fn dipole(&self, o: Vec3<T>) -> (r: [Vec<T>; 3])
        requires
            self.valid(),
            self.matrix_fits(),
        ensures
            forall|k: int|
                0 <= k < 3 ==> is_matrix(
                    (#[trigger] r[k])@,
                    pair_entries(dipole_step(o, k), self.shells@),
                    function_counts(self.shells@),
                ),
    {
        let ghost lens = function_counts(self.shells@);
        let ghost shells = self.shells@;
        let ghost ex = pair_entries(dipole_step(o, 0), shells);
        let ghost ey = pair_entries(dipole_step(o, 1), shells);
        let ghost ez = pair_entries(dipole_step(o, 2), shells);
        proof {
            self.lemma_size_fits();
        }
        let n = self.nao();
        let offs = self.offsets();
        let prep = Prepared::new(&self.shells);
        let nsh = self.shells.len();
        let mut dx = filled(n * n, T::from_count(0));
        let mut dy = filled(n * n, T::from_count(0));
        let mut dz = filled(n * n, T::from_count(0));
        let mut si: usize = 0;
        while si < nsh
            invariant
                si <= nsh,
                nsh == shells.len(),
                shells == self.shells@,
                lens == function_counts(shells),
                are_lengths(lens),
                self.valid(),
                prep.valid(),
                prep.shells@ == shells,
                ex == pair_entries(dipole_step(o, 0), shells),
                ey == pair_entries(dipole_step(o, 1), shells),
                ez == pair_entries(dipole_step(o, 2), shells),
                n == total(lens),
                n * n <= usize::MAX,
                offs@.len() == nsh,
                forall|s: int| 0 <= s < nsh ==> #[trigger] offs@[s] == start(lens, s),
                dx@.len() == n * n,
                dy@.len() == n * n,
                dz@.len() == n * n,
                forall|x: At, y: At|
                    is_function(lens, x) && is_function(lens, y) && x.0 < si
                        ==> #[trigger] dx@[slot2(lens, x, y)] == ex(x, y),
                forall|x: At, y: At|
                    is_function(lens, x) && is_function(lens, y) && x.0 < si
                        ==> #[trigger] dy@[slot2(lens, x, y)] == ey(x, y),
                forall|x: At, y: At|
                    is_function(lens, x) && is_function(lens, y) && x.0 < si
                        ==> #[trigger] dz@[slot2(lens, x, y)] == ez(x, y),
            decreases nsh - si,
        {
            let mut sj: usize = 0;
            while sj < nsh
                invariant
                    si < nsh,
                    sj <= nsh,
                    nsh == shells.len(),
                    shells == self.shells@,
                    lens == function_counts(shells),
                    are_lengths(lens),
                    self.valid(),
                    prep.valid(),
                    prep.shells@ == shells,
                    ex == pair_entries(dipole_step(o, 0), shells),
                    ey == pair_entries(dipole_step(o, 1), shells),
                    ez == pair_entries(dipole_step(o, 2), shells),
                    n == total(lens),
                    n * n <= usize::MAX,
                    offs@.len() == nsh,
                    forall|s: int| 0 <= s < nsh ==> #[trigger] offs@[s] == start(lens, s),
                    dx@.len() == n * n,
                    dy@.len() == n * n,
                    dz@.len() == n * n,
                    forall|x: At, y: At|
                        is_function(lens, x) && is_function(lens, y) && (x.0 < si || (x.0 == si
                            && y.0 < sj)) ==> #[trigger] dx@[slot2(lens, x, y)] == ex(x, y),
                    forall|x: At, y: At|
                        is_function(lens, x) && is_function(lens, y) && (x.0 < si || (x.0 == si
                            && y.0 < sj)) ==> #[trigger] dy@[slot2(lens, x, y)] == ey(x, y),
                    forall|x: At, y: At|
                        is_function(lens, x) && is_function(lens, y) && (x.0 < si || (x.0 == si
                            && y.0 < sj)) ==> #[trigger] dz@[slot2(lens, x, y)] == ez(x, y),
                decreases nsh - sj,
            {
                let (sa, sb) = (prep.side(si), prep.side(sj));
                let (na, nb) = (sa.shell.n_func(), sb.shell.n_func());
                let (mut bx, mut by, mut bz) = contract_dipole(sa.shell, sb.shell, o);
                transform_block2(sa.shell, sb.shell, sa.mat, sb.mat, &mut bx);
                transform_block2(sa.shell, sb.shell, sa.mat, sb.mat, &mut by);
                transform_block2(sa.shell, sb.shell, sa.mat, sb.mat, &mut bz);
                let ghost (wx, wy, wz) = (dx@, dy@, dz@);
                proof {
                    lemma_ranges_fit(lens, si as int);
                    lemma_ranges_fit(lens, sj as int);
                    assert(offs@[si as int] == start(lens, si as int));
                    assert(offs@[sj as int] == start(lens, sj as int));
                }
                let (oi, oj) = (offs[si], offs[sj]);
                place_block(dx.as_mut_slice(), 0, n, oi, oj, &bx, na, nb);
                place_block(dy.as_mut_slice(), 0, n, oi, oj, &by, na, nb);
                place_block(dz.as_mut_slice(), 0, n, oi, oj, &bz, na, nb);
                proof {
                    assert forall|x: At, y: At|
                        is_function(lens, x) && is_function(lens, y) && (x.0 < si || (x.0 == si
                            && y.0 < sj + 1)) implies #[trigger] dx@[slot2(lens, x, y)] == ex(
                        x,
                        y,
                    ) by {
                        lemma_placed(wx, dx@, lens, si as int, sj as int, bx@, 0, x, y);
                        assert(wx[slot2(lens, x, y)] == ex(x, y) || (x.0 == si && y.0 == sj));
                    }
                    assert forall|x: At, y: At|
                        is_function(lens, x) && is_function(lens, y) && (x.0 < si || (x.0 == si
                            && y.0 < sj + 1)) implies #[trigger] dy@[slot2(lens, x, y)] == ey(
                        x,
                        y,
                    ) by {
                        lemma_placed(wy, dy@, lens, si as int, sj as int, by@, 0, x, y);
                        assert(wy[slot2(lens, x, y)] == ey(x, y) || (x.0 == si && y.0 == sj));
                    }
                    assert forall|x: At, y: At|
                        is_function(lens, x) && is_function(lens, y) && (x.0 < si || (x.0 == si
                            && y.0 < sj + 1)) implies #[trigger] dz@[slot2(lens, x, y)] == ez(
                        x,
                        y,
                    ) by {
                        lemma_placed(wz, dz@, lens, si as int, sj as int, bz@, 0, x, y);
                        assert(wz[slot2(lens, x, y)] == ez(x, y) || (x.0 == si && y.0 == sj));
                    }
                }
                sj = sj + 1;
            }
            si = si + 1;
        }
        let r = [dx, dy, dz];
        assert forall|k: int| 0 <= k < 3 implies is_matrix(
            (#[trigger] r[k])@,
            pair_entries(dipole_step(o, k), shells),
            lens,
        ) by {
            assert(k == 0 || k == 1 || k == 2);
        }
        r
    }
}

} // verus!
