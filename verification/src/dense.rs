//! The dense tensor of electron repulsion over a basis.
use vstd::prelude::*;

use crate::engine::pairs::ShellPairData;
use crate::eri_batch::{
    are_pairs, batch_key, evaluate_batch4, four_of, function_size, in_group, pair_data_of,
    shell_block, EriBatchQueue,
};
use crate::flat::{lemma_pair_in_range, lemma_quad_in_range, pair, quad};
use crate::integrals::Engine;
use crate::math::am::{lemma_triangle_grows, lemma_triangle_step, triangle};
use crate::math::rys::RysTables;
use crate::offsets::{lemma_start_grows, start};
use crate::quartet::{
    quartet_into_scratch, quartet_kernel_into, recurs, EriKernel, QuartetScratch, Tables,
};
use crate::scalar::{filled, Real};
use crate::shell::{function_counts, lemma_function_counts, Basis, Shell};
use crate::shell_pairs::{
    all_valid, canonical_shell_pairs, holds_pairs, law_every_pair_is_listed,
    law_pair_numbers_order_pairs, pair_number, shell_pair_datas, Prepared,
};
use crate::tensor::{
    canonical, in_block, is_canonical, is_function, lemma_slot4, quartet_fits, quartet_of,
    scatter_eri_block_s8, shells_of, slot4, tensor_entry, total, At,
};

verus! {

/// The blocks of the shell quartets of a basis.
pub open spec fn blocks_of<T: Real>(
    rys: RysTables<T>,
    engine: Engine,
    omega: Option<T>,
    shells: Seq<Shell<T>>,
) -> spec_fn(int, int, int, int) -> Seq<T> {
    |i: int, j: int, k: int, l: int| shell_block(rys, engine, omega, shells, i, j, k, l)
}

/// Whether `out` holds the entries of the quartets in `done`, and zeros elsewhere.
pub open spec fn holds_entries<T: Real>(
    out: Seq<T>,
    blocks: spec_fn(int, int, int, int) -> Seq<T>,
    lens: Seq<int>,
    done: Set<(int, int, int, int)>,
) -> bool {
    forall|x: At, y: At, z: At, w: At|
        is_function(lens, x) && is_function(lens, y) && is_function(lens, z) && is_function(lens, w)
            ==> #[trigger] out[slot4(lens, x, y, z, w)] == (if done.contains(
            shells_of(canonical(x, y, z, w)),
        ) {
            tensor_entry(blocks, lens, x, y, z, w)
        } else {
            T::count(0)
        })
}

/// Whether a quartet may be left out: the product of the bounds of its pairs is below
/// the threshold.
pub open spec fn is_screened<T: Real>(
    screen: Option<(Seq<T>, T)>,
    nsh: int,
    i: int,
    j: int,
    k: int,
    l: int,
) -> bool {
    match screen {
        None => false,
        Some((q, tau)) => T::lt(T::prod(q[pair(i, nsh, j)], q[pair(k, nsh, l)]), tau),
    }
}

/// Number of canonical quartets that are left out, of those before the ket pair `ket`
/// of the bra pair `bra`.
pub open spec fn screened_count<T: Real>(
    screen: Option<(Seq<T>, T)>,
    nsh: int,
    pairs: Seq<(usize, usize)>,
    bra: int,
    ket: int,
) -> int
    decreases bra, ket,
{
    if ket > 0 {
        let before = screened_count(screen, nsh, pairs, bra, ket - 1);
        if is_screened(
            screen,
            nsh,
            pairs[bra].0 as int,
            pairs[bra].1 as int,
            pairs[ket - 1].0 as int,
            pairs[ket - 1].1 as int,
        ) {
            before + 1
        } else {
            before
        }
    } else if bra > 0 {
        screened_count(screen, nsh, pairs, bra - 1, bra)
    } else {
        0
    }
}

/// Whether a list holds the canonical pairs of `nsh` shells by index.
pub open spec fn lists_pairs(pairs: Seq<(usize, usize)>, nsh: int) -> bool {
    &&& pairs.len() == triangle(nsh)
    &&& forall|k: int|
        0 <= k < pairs.len() ==> (#[trigger] pairs[k]).1 <= pairs[k].0 < nsh && pair_number(
            pairs[k].0 as int,
            pairs[k].1 as int,
        ) == k
}

/// The canonical pairs of `nsh` shells by index.
pub open spec fn pair_list(nsh: int) -> Seq<(usize, usize)> {
    choose|pairs: Seq<(usize, usize)>| lists_pairs(pairs, nsh)
}

/// There is one list of canonical pairs.
pub proof fn lemma_pair_list(pairs: Seq<(usize, usize)>, nsh: int)
    requires
        lists_pairs(pairs, nsh),
    ensures
        pairs == pair_list(nsh),
{
    let other = pair_list(nsh);
    assert(lists_pairs(other, nsh));
    assert forall|k: int| 0 <= k < pairs.len() implies pairs[k] == other[k] by {
        law_pair_numbers_order_pairs(
            pairs[k].0 as int,
            pairs[k].1 as int,
            other[k].0 as int,
            other[k].1 as int,
            nsh,
        );
    }
    assert(pairs =~= other);
}

/// The quartet of the canonical pairs at `bra` and `ket`.
pub open spec fn quartet_at(pairs: Seq<(usize, usize)>, bra: int, ket: int) -> (
    int,
    int,
    int,
    int,
) {
    (
        pairs[bra].0 as int,
        pairs[bra].1 as int,
        pairs[ket].0 as int,
        pairs[ket].1 as int,
    )
}

/// A ket pair that does not come after the bra pair makes a canonical quartet.
proof fn lemma_quartet_at(pairs: Seq<(usize, usize)>, nsh: int, bra: int, ket: int)
    requires
        lists_pairs(pairs, nsh),
        0 <= ket <= bra < pairs.len(),
    ensures
        is_canonical(quartet_at(pairs, bra, ket)),
        0 <= quartet_at(pairs, bra, ket).1 <= quartet_at(pairs, bra, ket).0 < nsh,
        0 <= quartet_at(pairs, bra, ket).3 <= quartet_at(pairs, bra, ket).2 < nsh,
{
    law_pair_numbers_order_pairs(
        pairs[bra].0 as int,
        pairs[bra].1 as int,
        pairs[ket].0 as int,
        pairs[ket].1 as int,
        nsh,
    );
}

/// Every canonical quartet is made by a bra pair and a ket pair not after it.
proof fn lemma_canonical_at(pairs: Seq<(usize, usize)>, nsh: int, q: (int, int, int, int))
    requires
        lists_pairs(pairs, nsh),
        is_canonical(q),
        0 <= q.1 <= q.0 < nsh,
        0 <= q.3 <= q.2 < nsh,
    ensures
        0 <= pair_number(q.2, q.3) <= pair_number(q.0, q.1) < pairs.len(),
        quartet_at(pairs, pair_number(q.0, q.1), pair_number(q.2, q.3)) == q,
{
    law_every_pair_is_listed(pairs, nsh, q.0, q.1);
    law_every_pair_is_listed(pairs, nsh, q.2, q.3);
    law_pair_numbers_order_pairs(q.0, q.1, q.2, q.3, nsh);
}

/// Adding one scattered block to what a tensor holds.
proof fn lemma_scattered_block<T: Real>(
    before: Seq<T>,
    after: Seq<T>,
    block: Seq<T>,
    blocks: spec_fn(int, int, int, int) -> Seq<T>,
    lens: Seq<int>,
    done: Set<(int, int, int, int)>,
    q: (int, int, int, int),
)
    requires
        holds_entries(before, blocks, lens, done),
        block == blocks(q.0, q.1, q.2, q.3),
        forall|x: At, y: At, z: At, w: At|
            is_function(lens, x) && is_function(lens, y) && is_function(lens, z) && is_function(
                lens,
                w,
            ) ==> #[trigger] after[slot4(lens, x, y, z, w)] == (if shells_of(canonical(x, y, z, w))
                == q {
                in_block(block, lens, canonical(x, y, z, w))
            } else {
                before[slot4(lens, x, y, z, w)]
            }),
    ensures
        holds_entries(after, blocks, lens, done.insert(q)),
{
    assert forall|x: At, y: At, z: At, w: At|
        is_function(lens, x) && is_function(lens, y) && is_function(lens, z) && is_function(lens, w) implies #[trigger] after[slot4(
        lens,
        x,
        y,
        z,
        w,
    )] == (if done.insert(q).contains(shells_of(canonical(x, y, z, w))) {
        tensor_entry(blocks, lens, x, y, z, w)
    } else {
        T::count(0)
    }) by {
        assert(before[slot4(lens, x, y, z, w)] == (if done.contains(
            shells_of(canonical(x, y, z, w)),
        ) {
            tensor_entry(blocks, lens, x, y, z, w)
        } else {
            T::count(0)
        }));
    }
}

/// The tensor under construction, with what does not change while it is built.
struct Sweep<'b, T> {
    tables: &'b Tables<T>,
    engine: Engine,
    omega: Option<T>,
    prep: Prepared<'b, T>,
    pair_data: Vec<ShellPairData<T>>,
    offs: Vec<usize>,
    nao: usize,
}

impl<'b, T: Real> Sweep<'b, T> {
    spec fn lens(self) -> Seq<int> {
        function_counts(self.prep.shells@)
    }

    spec fn blocks(self) -> spec_fn(int, int, int, int) -> Seq<T> {
        blocks_of(self.tables.rys, self.engine, self.omega, self.prep.shells@)
    }

    spec fn valid(self) -> bool {
        &&& self.tables.valid()
        &&& self.prep.valid()
        &&& holds_pairs(self.pair_data@, self.prep.shells@)
        &&& self.nao == total(self.lens())
        &&& self.nao * self.nao * self.nao * self.nao <= usize::MAX
        &&& self.offs@.len() == self.prep.shells@.len()
        &&& forall|s: int|
            0 <= s < self.offs@.len() ==> #[trigger] self.offs@[s] == start(self.lens(), s)
    }

    spec fn fits(self, q: [usize; 4]) -> bool {
        are_pairs(self.prep.shells@, q) && is_canonical(quartet_of(q))
    }

    spec fn takes_recurrence(self, q: [usize; 4]) -> bool {
        self.omega is None && recurs(
            self.engine,
            four_of(
                self.prep.shells@,
                q[0] as int,
                q[1] as int,
                q[2] as int,
                q[3] as int,
            ),
        )
    }

    /// Write the block of one quartet to all its places.
    fn scatter(
        &self,
        q: [usize; 4],
        block: &Vec<T>,
        out: &mut Vec<T>,
        Ghost(done): Ghost<Set<(int, int, int, int)>>,
    )
        requires
            self.valid(),
            self.fits(q),
            block@ == self.blocks()(q[0] as int, q[1] as int, q[2] as int, q[3] as int),
            block@.len() == function_size(
                self.prep.shells@,
                q[0] as int,
                q[1] as int,
                q[2] as int,
                q[3] as int,
            ),
            old(out)@.len() == self.nao * self.nao * self.nao * self.nao,
            holds_entries(old(out)@, self.blocks(), self.lens(), done),
        ensures
            final(out)@.len() == old(out)@.len(),
            holds_entries(final(out)@, self.blocks(), self.lens(), done.insert(quartet_of(q))),
    {
        let ghost lens = self.lens();
        let ghost shells = self.prep.shells@;
        proof {
            lemma_function_counts(shells);
        }
        assert(shells[q[0] as int].valid());
        assert(shells[q[1] as int].valid());
        assert(shells[q[2] as int].valid());
        assert(shells[q[3] as int].valid());
        let n = [
            self.prep.shells[q[0]].n_func(),
            self.prep.shells[q[1]].n_func(),
            self.prep.shells[q[2]].n_func(),
            self.prep.shells[q[3]].n_func(),
        ];
        assert forall|s: int| 0 <= s < lens.len() implies #[trigger] self.offs@[s] == start(
            lens,
            s,
        ) by {}
        assert(quartet_fits(lens, q, self.offs@)) by {
            assert forall|s: int| 0 <= s < 4 implies (#[trigger] q[s]) < lens.len() by {
                assert(s == 0 || s == 1 || s == 2 || s == 3);
            }
        }
        assert forall|s: int| 0 <= s < 4 implies #[trigger] n[s] == lens[q[s] as int] by {
            assert(s == 0 || s == 1 || s == 2 || s == 3);
        }
        let ghost before = out@;
        scatter_eri_block_s8(out, self.nao, q, &self.offs, n, block, Ghost(lens));
        proof {
            lemma_scattered_block(
                before,
                out@,
                block@,
                self.blocks(),
                lens,
                done,
                quartet_of(q),
            );
        }
    }

    /// Evaluate one quartet and write it to all its places.
    fn single(
        &self,
        q: [usize; 4],
        scratch: &mut QuartetScratch<T>,
        out: &mut Vec<T>,
        Ghost(done): Ghost<Set<(int, int, int, int)>>,
    )
        requires
            self.valid(),
            self.fits(q),
            old(out)@.len() == self.nao * self.nao * self.nao * self.nao,
            holds_entries(old(out)@, self.blocks(), self.lens(), done),
        ensures
            final(out)@.len() == old(out)@.len(),
            holds_entries(final(out)@, self.blocks(), self.lens(), done.insert(quartet_of(q))),
    {
        let s = [
            self.prep.side(q[0]),
            self.prep.side(q[1]),
            self.prep.side(q[2]),
            self.prep.side(q[3]),
        ];
        assert forall|i: int| 0 <= i < 4 implies (#[trigger] s[i]).valid() by {
            assert(i == 0 || i == 1 || i == 2 || i == 3);
        }
        let bra = pair_data_of(&self.pair_data, &self.prep, q[0], q[1]);
        let ket = pair_data_of(&self.pair_data, &self.prep, q[2], q[3]);
        quartet_kernel_into(
            scratch,
            self.tables,
            self.engine,
            self.omega,
            s,
            Some((bra, ket)),
        );
        self.scatter(q, &scratch.block, out, Ghost(done));
    }

    /// Evaluate a group of four quartets and write each to all its places.
    fn flush_batch4(
        &self,
        queue: &mut EriBatchQueue<T>,
        group: [[usize; 4]; 4],
        out: &mut Vec<T>,
        Ghost(done): Ghost<Set<(int, int, int, int)>>,
    )
        requires
            self.valid(),
            old(queue).valid(),
            forall|lane: int| 0 <= lane < 4 ==> self.fits(#[trigger] group[lane]),
            forall|lane: int| 0 <= lane < 4 ==> self.takes_recurrence(#[trigger] group[lane]),
            old(out)@.len() == self.nao * self.nao * self.nao * self.nao,
            holds_entries(old(out)@, self.blocks(), self.lens(), done),
        ensures
            final(queue).valid(),
            final(queue).waiting == old(queue).waiting,
            final(out)@.len() == old(out)@.len(),
            holds_entries(
                final(out)@,
                self.blocks(),
                self.lens(),
                done.insert(quartet_of(group[0])).insert(quartet_of(group[1])).insert(
                    quartet_of(group[2]),
                ).insert(quartet_of(group[3])),
            ),
    {
        assert(self.fits(group[0]) && self.fits(group[1]) && self.fits(group[2]) && self.fits(
            group[3],
        ));
        assert(self.takes_recurrence(group[0]) && self.takes_recurrence(group[1])
            && self.takes_recurrence(group[2]) && self.takes_recurrence(group[3]));
        proof {
            assert forall|lane: int| 0 <= lane < 4 implies are_pairs(
                self.prep.shells@,
                #[trigger] group[lane],
            ) by {
                assert(self.fits(group[lane]));
            }
            assert forall|lane: int| 0 <= lane < 4 implies recurs(
                self.engine,
                four_of(
                    self.prep.shells@,
                    (#[trigger] group[lane])[0] as int,
                    group[lane][1] as int,
                    group[lane][2] as int,
                    group[lane][3] as int,
                ),
            ) by {
                assert(self.takes_recurrence(group[lane]));
            }
        }
        evaluate_batch4(
            &mut queue.scratch,
            self.tables,
            &self.prep,
            &self.pair_data,
            Ghost(self.engine),
            group,
        );
        let ghost d0 = done.insert(quartet_of(group[0]));
        let ghost d1 = d0.insert(quartet_of(group[1]));
        let ghost d2 = d1.insert(quartet_of(group[2]));
        assert(queue.scratch.blocks@[0]@.len() == function_size(
            self.prep.shells@,
            group[0][0] as int,
            group[0][1] as int,
            group[0][2] as int,
            group[0][3] as int,
        ));
        self.scatter(group[0], &queue.scratch.blocks[0], out, Ghost(done));
        assert(queue.scratch.blocks@[1]@.len() == function_size(
            self.prep.shells@,
            group[1][0] as int,
            group[1][1] as int,
            group[1][2] as int,
            group[1][3] as int,
        ));
        self.scatter(group[1], &queue.scratch.blocks[1], out, Ghost(d0));
        assert(queue.scratch.blocks@[2]@.len() == function_size(
            self.prep.shells@,
            group[2][0] as int,
            group[2][1] as int,
            group[2][2] as int,
            group[2][3] as int,
        ));
        self.scatter(group[2], &queue.scratch.blocks[2], out, Ghost(d1));
        assert(queue.scratch.blocks@[3]@.len() == function_size(
            self.prep.shells@,
            group[3][0] as int,
            group[3][1] as int,
            group[3][2] as int,
            group[3][3] as int,
        ));
        self.scatter(group[3], &queue.scratch.blocks[3], out, Ghost(d2));
    }
}

/// The shells of the canonical pairs at `bra` and `ket`.
spec fn array_at(pairs: Seq<(usize, usize)>, bra: int, ket: int) -> [usize; 4] {
    [pairs[bra].0, pairs[bra].1, pairs[ket].0, pairs[ket].1]
}

/// Number of shells and number of functions.
proof fn lemma_shells_and_functions<T: Real>(shells: Seq<Shell<T>>, n: int)
    requires
        all_valid(shells),
        0 <= n <= shells.len(),
    ensures
        n <= start(function_counts(shells), n),
    decreases n,
{
    lemma_function_counts(shells);
    if n > 0 {
        lemma_shells_and_functions(shells, n - 1);
    }
}

/// There are no more canonical quartets than entries of the tensor.
proof fn lemma_quartets_and_entries(nsh: int, nao: int)
    requires
        0 <= nsh <= nao,
    ensures
        0 <= triangle(nsh),
        0 <= triangle(triangle(nsh)) <= nao * nao * nao * nao,
{
    let t = triangle(nsh);
    lemma_triangle_step(nsh);
    lemma_triangle_grows(0, nsh);
    lemma_triangle_step(t);
    lemma_triangle_grows(0, t);
    assert(2 * t == nsh * (nsh + 1));
    assert(t <= nao * nao) by (nonlinear_arith)
        requires
            2 * t == nsh * (nsh + 1),
            0 <= nsh <= nao,
    ;
    let m = nao * nao;
    assert(triangle(t) <= m * m) by (nonlinear_arith)
        requires
            2 * triangle(t) == t * (t + 1),
            0 <= t <= m,
    ;
    assert(m * m == nao * nao * nao * nao) by (nonlinear_arith)
        requires
            m == nao * nao,
    ;
}

/// No more quartets are left out than there are.
/// No more quartets are left out than there are.
pub proof fn lemma_screened_count<T: Real>(
    screen: Option<(Seq<T>, T)>,
    nsh: int,
    pairs: Seq<(usize, usize)>,
    bra: int,
    ket: int,
)
    requires
        0 <= bra,
        0 <= ket <= bra + 1,
    ensures
        0 <= screened_count(screen, nsh, pairs, bra, ket) <= triangle(bra) + ket,
    decreases bra, ket,
{
    if ket > 0 {
        lemma_screened_count(screen, nsh, pairs, bra, ket - 1);
    } else if bra > 0 {
        lemma_screened_count(screen, nsh, pairs, bra - 1, bra);
        lemma_triangle_step(bra - 1);
    } else {
        lemma_triangle_step(0);
    }
}

/// The view of optional bounds.
spec fn screen_view<T>(screen: Option<(&Vec<T>, T)>) -> Option<(Seq<T>, T)> {
    match screen {
        None => None,
        Some((q, tau)) => Some((q@, tau)),
    }
}

impl<'b, T: Real> Sweep<'b, T> {
    /// Whether a quartet is left out.
    spec fn leaves_out(self, screen: Option<(Seq<T>, T)>, q: (int, int, int, int)) -> bool {
        is_screened(screen, self.prep.shells@.len() as int, q.0, q.1, q.2, q.3)
    }

    /// Whether a quartet is left out.
    fn skips(&self, screen: Option<(&Vec<T>, T)>, q: [usize; 4]) -> (r: bool)
        requires
            self.valid(),
            are_pairs(self.prep.shells@, q),
            screen matches Some((b, tau)) ==> b@.len() == self.prep.shells@.len()
                * self.prep.shells@.len(),
        ensures
            r == self.leaves_out(screen_view(screen), quartet_of(q)),
    {
        match screen {
            None => false,
            Some((b, tau)) => {
                let nsh = self.prep.shells.len();
                let len = b.len();
                proof {
                    lemma_pair_in_range(q[0] as int, nsh as int, nsh as int, q[1] as int);
                    lemma_pair_in_range(q[2] as int, nsh as int, nsh as int, q[3] as int);
                }
                b[q[0] * nsh + q[1]].times(b[q[2] * nsh + q[3]]).less(tau)
            },
        }
    }

    /// Build the tensor, leaving out the quartets that `screen` does. Returns it with
    /// the number of canonical quartets and of those left out.
    #[verifier::spinoff_prover]
    #[verifier::rlimit(80)]
    fn run(&self, screen: Option<(&Vec<T>, T)>) -> (r: (Vec<T>, usize, usize))
        requires
            self.valid(),
            screen matches Some((b, tau)) ==> b@.len() == self.prep.shells@.len()
                * self.prep.shells@.len(),
        ensures
            r.0@.len() == self.nao * self.nao * self.nao * self.nao,
            forall|x: At, y: At, z: At, w: At|
                is_function(self.lens(), x) && is_function(self.lens(), y) && is_function(
                    self.lens(),
                    z,
                ) && is_function(self.lens(), w) ==> #[trigger] r.0@[slot4(
                    self.lens(),
                    x,
                    y,
                    z,
                    w,
                )] == (if self.leaves_out(
                    screen_view(screen),
                    shells_of(canonical(x, y, z, w)),
                ) {
                    T::count(0)
                } else {
                    tensor_entry(self.blocks(), self.lens(), x, y, z, w)
                }),
            r.1 == triangle(triangle(self.prep.shells@.len() as int)),
            r.2 == screened_count(
                screen_view(screen),
                self.prep.shells@.len() as int,
                pair_list(self.prep.shells@.len() as int),
                triangle(self.prep.shells@.len() as int),
                0,
            ),
    {
        let nsh = self.prep.shells.len();
        let ghost n = nsh as int;
        let ghost lens = self.lens();
        let ghost shells = self.prep.shells@;
        let ghost sv = screen_view(screen);
        let ghost size = self.nao * self.nao * self.nao * self.nao;
        proof {
            lemma_function_counts(shells);
            lemma_shells_and_functions(shells, n);
            lemma_quartets_and_entries(n, self.nao as int);
            crate::tensor::lemma_total_steps(self.nao as int);
        }
        let pairs = canonical_shell_pairs(nsh);
        proof {
            lemma_pair_list(pairs@, n);
        }
        let mut out = filled(self.nao * self.nao * self.nao * self.nao, T::from_count(0));
        let ghost mut done: Set<(int, int, int, int)> = Set::empty();
        proof {
            assert forall|x: At, y: At, z: At, w: At|
                is_function(lens, x) && is_function(lens, y) && is_function(lens, z)
                    && is_function(lens, w) implies #[trigger] out@[slot4(lens, x, y, z, w)] == (
            if done.contains(shells_of(canonical(x, y, z, w))) {
                tensor_entry(self.blocks(), lens, x, y, z, w)
            } else {
                T::count(0)
            }) by {
                lemma_slot4(lens, x, y, z, w, x, y, z, w);
            }
        }
        let mut total_count: usize = 0;
        let mut skipped: usize = 0;
        let mut scratch: QuartetScratch<T> = QuartetScratch::new();
        let mut queue: EriBatchQueue<T> = EriBatchQueue::new();
        let mut bra: usize = 0;
        let np = pairs.len();
        proof {
            lemma_triangle_step(0);
        }
        while bra < np
            invariant
                bra <= np,
                np == pairs@.len(),
                self.valid(),
                n == nsh,
                nsh == shells.len(),
                shells == self.prep.shells@,
                lens == self.lens(),
                sv == screen_view(screen),
                size == self.nao * self.nao * self.nao * self.nao,
                size <= usize::MAX,
                triangle(np as int) <= size,
                screen matches Some((b, tau)) ==> b@.len() == n * n,
                lists_pairs(pairs@, n),
                out@.len() == size,
                holds_entries(out@, self.blocks(), lens, done),
                queue.valid(),
                forall|t: [usize; 4]| #[trigger]
                    queue.holds(t) ==> self.fits(t) && self.takes_recurrence(t) && !self.leaves_out(
                        sv,
                        quartet_of(t),
                    ),
                forall|q: (int, int, int, int)| #[trigger]
                    done.contains(q) ==> !self.leaves_out(sv, q),
                forall|b: int, k: int|
                    0 <= k <= b < bra && !self.leaves_out(sv, #[trigger] quartet_at(pairs@, b, k))
                        ==> done.contains(quartet_at(pairs@, b, k)) || queue.holds(
                        array_at(pairs@, b, k),
                    ),
                total_count == triangle(bra as int),
                skipped == screened_count(sv, n, pairs@, bra as int, 0),
            decreases np - bra,
        {
            let (si, sj) = pairs[bra];
            let mut ket: usize = 0;
            while ket <= bra
                invariant
                    bra < np,
                    ket <= bra + 1,
                    np == pairs@.len(),
                    self.valid(),
                    n == nsh,
                    nsh == shells.len(),
                    shells == self.prep.shells@,
                    lens == self.lens(),
                    sv == screen_view(screen),
                    size == self.nao * self.nao * self.nao * self.nao,
                    size <= usize::MAX,
                    triangle(np as int) <= size,
                    screen matches Some((b, tau)) ==> b@.len() == n * n,
                    lists_pairs(pairs@, n),
                    (si, sj) == pairs@[bra as int],
                    out@.len() == size,
                    holds_entries(out@, self.blocks(), lens, done),
                    queue.valid(),
                    forall|t: [usize; 4]| #[trigger]
                        queue.holds(t) ==> self.fits(t) && self.takes_recurrence(t)
                            && !self.leaves_out(sv, quartet_of(t)),
                    forall|q: (int, int, int, int)| #[trigger]
                        done.contains(q) ==> !self.leaves_out(sv, q),
                    forall|b: int, k: int|
                        0 <= k <= b && (b < bra || (b == bra && k < ket)) && !self.leaves_out(
                            sv,
                            #[trigger] quartet_at(pairs@, b, k),
                        ) ==> done.contains(quartet_at(pairs@, b, k)) || queue.holds(
                            array_at(pairs@, b, k),
                        ),
                    total_count == triangle(bra as int) + ket,
                    skipped == screened_count(sv, n, pairs@, bra as int, ket as int),
                decreases bra + 1 - ket,
            {
                let (sk, sl) = pairs[ket];
                let q: [usize; 4] = [si, sj, sk, sl];
                proof {
                    lemma_quartet_at(pairs@, n, bra as int, ket as int);
                    assert(q == array_at(pairs@, bra as int, ket as int));
                    assert(quartet_of(q) == quartet_at(pairs@, bra as int, ket as int));
                    assert(self.fits(q));
                    lemma_triangle_step(bra as int);
                    lemma_triangle_grows(bra + 1, np as int);
                    lemma_screened_count(sv, n, pairs@, bra as int, ket as int);
                }
                total_count = total_count + 1;
                let ghost done_before = done;
                let ghost queue_before = queue;
                if self.skips(screen, q) {
                    skipped = skipped + 1;
                } else {
                    let s = [
                        self.prep.side(si),
                        self.prep.side(sj),
                        self.prep.side(sk),
                        self.prep.side(sl),
                    ];
                    assert forall|i: int| 0 <= i < 4 implies (#[trigger] s[i]).valid() by {
                        assert(i == 0 || i == 1 || i == 2 || i == 3);
                    }
                    let counts = [
                        pair_data_of(&self.pair_data, &self.prep, si, sj).len(),
                        pair_data_of(&self.pair_data, &self.prep, sk, sl).len(),
                    ];
                    let key = if self.omega.is_none() {
                        batch_key(self.engine, s, counts)
                    } else {
                        None
                    };
                    match key {
                        Some(key) => {
                            assert(self.takes_recurrence(q));
                            match queue.push(key, q) {
                                None => {},
                                Some(group) => {
                                    let ghost pushed = queue;
                                    proof {
                                        assert forall|lane: int| 0 <= lane < 4 implies self.fits(
                                            #[trigger] group[lane],
                                        ) && self.takes_recurrence(group[lane])
                                            && !self.leaves_out(sv, quartet_of(group[lane])) by {
                                            assert(in_group(group, group[lane]));
                                        }
                                    }
                                    self.flush_batch4(&mut queue, group, &mut out, Ghost(done));
                                    proof {
                                        done = done.insert(quartet_of(group[0])).insert(
                                            quartet_of(group[1]),
                                        ).insert(quartet_of(group[2])).insert(
                                            quartet_of(group[3]),
                                        );
                                        assert(forall|t: [usize; 4]|
                                            queue.holds(t) == pushed.holds(t));
                                        assert(!self.leaves_out(sv, quartet_of(group[0])));
                                        assert(!self.leaves_out(sv, quartet_of(group[1])));
                                        assert(!self.leaves_out(sv, quartet_of(group[2])));
                                        assert(!self.leaves_out(sv, quartet_of(group[3])));
                                        assert forall|t: [usize; 4]| in_group(
                                            group,
                                            t,
                                        ) implies done.contains(quartet_of(t)) by {}
                                    }
                                },
                            }
                        },
                        None => {
                            self.single(q, &mut scratch, &mut out, Ghost(done));
                            proof {
                                done = done.insert(quartet_of(q));
                            }
                        },
                    }
                }
                proof {
                    assert forall|b: int, k: int|
                        0 <= k <= b && (b < bra || (b == bra && k < ket + 1)) && !self.leaves_out(
                            sv,
                            #[trigger] quartet_at(pairs@, b, k),
                        ) implies done.contains(quartet_at(pairs@, b, k)) || queue.holds(
                        array_at(pairs@, b, k),
                    ) by {
                        let t = array_at(pairs@, b, k);
                        assert(quartet_of(t) == quartet_at(pairs@, b, k));
                        if b == bra && k == ket {
                            assert(t == q);
                        } else {
                            assert(done_before.contains(quartet_at(pairs@, b, k))
                                || queue_before.holds(t));
                        }
                    }
                }
                ket = ket + 1;
            }
            proof {
                lemma_triangle_step(bra as int);
            }
            bra = bra + 1;
        }
        let rest = queue.drain();
        let ghost waiting = rest@;
        let mut i: usize = 0;
        proof {
            assert forall|k: int| 0 <= k < rest@.len() implies self.fits(#[trigger] rest@[k])
                && !self.leaves_out(sv, quartet_of(rest@[k])) by {
                assert(rest@.contains(rest@[k]));
            }
            assert forall|b: int, k: int|
                0 <= k <= b < np && !self.leaves_out(sv, #[trigger] quartet_at(pairs@, b, k)) implies done.contains(
            quartet_at(pairs@, b, k)) || exists|m: int|
                0 <= m < rest@.len() && #[trigger] rest@[m] == array_at(pairs@, b, k) by {
                if !done.contains(quartet_at(pairs@, b, k)) {
                    assert(rest@.contains(array_at(pairs@, b, k)));
                }
            }
        }
        while i < rest.len()
            invariant
                i <= rest@.len(),
                np == pairs@.len(),
                self.valid(),
                lens == self.lens(),
                size == self.nao * self.nao * self.nao * self.nao,
                lists_pairs(pairs@, n),
                out@.len() == size,
                holds_entries(out@, self.blocks(), lens, done),
                forall|k: int|
                    0 <= k < rest@.len() ==> self.fits(#[trigger] rest@[k]) && !self.leaves_out(
                        sv,
                        quartet_of(rest@[k]),
                    ),
                forall|q: (int, int, int, int)| #[trigger]
                    done.contains(q) ==> !self.leaves_out(sv, q),
                forall|b: int, k: int|
                    0 <= k <= b < np && !self.leaves_out(sv, #[trigger] quartet_at(pairs@, b, k))
                        ==> done.contains(quartet_at(pairs@, b, k)) || exists|m: int|
                        i <= m < rest@.len() && #[trigger] rest@[m] == array_at(pairs@, b, k),
            decreases rest@.len() - i,
        {
            let q = rest[i];
            assert(self.fits(rest@[i as int]));
            let ghost done_before = done;
            self.single(q, &mut scratch, &mut out, Ghost(done));
            proof {
                done = done.insert(quartet_of(q));
                assert forall|b: int, k: int|
                    0 <= k <= b < np && !self.leaves_out(sv, #[trigger] quartet_at(pairs@, b, k)) implies done.contains(
                quartet_at(pairs@, b, k)) || exists|m: int|
                    i + 1 <= m < rest@.len() && #[trigger] rest@[m] == array_at(pairs@, b, k) by {
                    if !done_before.contains(quartet_at(pairs@, b, k)) {
                        let m = choose|m: int|
                            i <= m < rest@.len() && #[trigger] rest@[m] == array_at(pairs@, b, k);
                        if m == i {
                            assert(quartet_of(q) == quartet_at(pairs@, b, k));
                        } else {
                            assert(rest@[m] == array_at(pairs@, b, k));
                        }
                    }
                }
            }
            i = i + 1;
        }
        proof {
            assert forall|x: At, y: At, z: At, w: At|
                is_function(lens, x) && is_function(lens, y) && is_function(lens, z)
                    && is_function(lens, w) implies #[trigger] out@[slot4(lens, x, y, z, w)] == (
            if self.leaves_out(sv, shells_of(canonical(x, y, z, w))) {
                T::count(0)
            } else {
                tensor_entry(self.blocks(), lens, x, y, z, w)
            }) by {
                let c = shells_of(canonical(x, y, z, w));
                lemma_canonical_at(pairs@, n, c);
                let (b, k) = (pair_number(c.0, c.1), pair_number(c.2, c.3));
                assert(quartet_at(pairs@, b, k) == c);
            }
        }
        (out, total_count, skipped)
    }
}

/// The larger of two values; the first if neither is, and the second if the first is
/// not ordered.
pub open spec fn larger<T: Real>(a: T, b: T) -> T {
    if T::lt(a, b) || !T::le(a, a) {
        b
    } else {
        a
    }
}

/// The larger of two values; the first if neither is, and the second if the first is
/// not ordered.
pub fn larger_of<T: Real>(a: T, b: T) -> (r: T)
    ensures
        r == larger(a, b),
{
    if a.less(b) || !a.at_most(a) {
        b
    } else {
        a
    }
}

/// The largest magnitude among the entries `(mn|mn)` of a block of shape
/// `(ni, nj, ni, nj)` before `(m, n)`, and zero.
pub open spec fn diagonal_peak<T: Real>(block: Seq<T>, ni: int, nj: int, m: int, n: int) -> T
    decreases m, n,
{
    if n > 0 {
        larger(
            diagonal_peak(block, ni, nj, m, n - 1),
            T::magnitude(block[quad(m, nj, n - 1, ni, m, nj, n - 1)]),
        )
    } else if m > 0 {
        diagonal_peak(block, ni, nj, m - 1, nj)
    } else {
        T::count(0)
    }
}

/// The bound of a shell pair: the root of the largest `(mn|mn)`.
pub open spec fn schwarz_bound<T: Real>(
    rys: RysTables<T>,
    engine: Engine,
    shells: Seq<Shell<T>>,
    i: int,
    j: int,
) -> T {
    let (ni, nj) = (shells[i].functions(), shells[j].functions());
    T::root(
        diagonal_peak(shell_block(rys, engine, None, shells, i, j, i, j), ni, nj, ni, 0),
    )
}

/// The bounds of all shell pairs, row by row.
pub open spec fn schwarz_matrix<T: Real>(
    rys: RysTables<T>,
    engine: Engine,
    shells: Seq<Shell<T>>,
) -> Seq<T> {
    let n = shells.len() as int;
    Seq::new((n * n) as nat, |k: int| schwarz_bound(rys, engine, shells, k / n, k % n))
}

/// The kernel's attenuation.
pub open spec fn attenuation_of<T>(k: EriKernel<T>) -> Option<T> {
    match k {
        EriKernel::Coulomb => None,
        EriKernel::Erf { omega } => Some(omega),
    }
}

/// The engine that evaluates a kernel: the attenuated one has quadrature only.
pub open spec fn engine_of<T>(k: EriKernel<T>, engine: Engine) -> Engine {
    match k {
        EriKernel::Coulomb => engine,
        EriKernel::Erf { omega } => Engine::Rys,
    }
}

/// Whether a kernel can be evaluated: an attenuation is finite and above zero.
pub open spec fn is_kernel<T: Real>(k: EriKernel<T>) -> bool {
    match k {
        EriKernel::Coulomb => true,
        EriKernel::Erf { omega } => T::finite(omega) && T::lt(T::count(0), omega),
    }
}

/// Whether an attenuation is finite and above zero.
pub fn check_erf_omega<T: Real>(omega: T) -> (r: bool)
    ensures
        r == is_kernel(EriKernel::Erf { omega }),
{
    omega.is_finite() && T::from_count(0).less(omega)
}

/// What a screened build leaves out.
#[derive(Clone, Copy, Debug)]
pub struct ScreeningStats<T> {
    /// Number of canonical shell quartets.
    pub shell_quartets_total: usize,
    /// Number of those that were left out.
    pub shell_quartets_skipped: usize,
    /// The threshold.
    pub tau: T,
}

impl<T: Real> ScreeningStats<T> {
    /// The fraction of the quartets that was left out; zero if there are none.
    #[must_use]
    pub fn skipped_fraction(&self) -> (r: T)
        ensures
            r == (if self.shell_quartets_total == 0 {
                T::count(0)
            } else {
                T::quot(
                    T::count(self.shell_quartets_skipped as u64),
                    T::count(self.shell_quartets_total as u64),
                )
            }),
    {
        if self.shell_quartets_total == 0 {
            T::from_count(0)
        } else {
            T::from_count(self.shell_quartets_skipped as u64).over(
                T::from_count(self.shell_quartets_total as u64),
            )
        }
    }
}

/// Whether `out` is the tensor of the given blocks, with zeros for the quartets that
/// `screen` leaves out.
pub open spec fn is_tensor<T: Real>(
    out: Seq<T>,
    blocks: spec_fn(int, int, int, int) -> Seq<T>,
    screen: Option<(Seq<T>, T)>,
    lens: Seq<int>,
) -> bool {
    let n = total(lens);
    &&& out.len() == n * n * n * n
    &&& forall|x: At, y: At, z: At, w: At|
        is_function(lens, x) && is_function(lens, y) && is_function(lens, z) && is_function(lens, w)
            ==> #[trigger] out[slot4(lens, x, y, z, w)] == ({
            let c = shells_of(canonical(x, y, z, w));
            if is_screened(screen, lens.len() as int, c.0, c.1, c.2, c.3) {
                T::count(0)
            } else {
                tensor_entry(blocks, lens, x, y, z, w)
            }
        })
}

impl<T: Real> Basis<T> {
    /// Whether the tensor of the basis can be indexed.
    pub open spec fn tensor_fits(self) -> bool {
        self.size() * self.size() * self.size() * self.size() <= usize::MAX
    }

    /// Build the tensor of a kernel, leaving out what `screen` does.
    fn build_tensor(
        &self,
        tables: &Tables<T>,
        engine: Engine,
        omega: Option<T>,
        screen: Option<(&Vec<T>, T)>,
    ) -> (r: (Vec<T>, usize, usize))
        requires
            tables.valid(),
            self.valid(),
            self.tensor_fits(),
            screen matches Some((b, tau)) ==> b@.len() == self.shells@.len() * self.shells@.len(),
        ensures
            is_tensor(
                r.0@,
                blocks_of(tables.rys, engine, omega, self.shells@),
                screen_view(screen),
                function_counts(self.shells@),
            ),
            r.1 == triangle(triangle(self.shells@.len() as int)),
            r.2 == screened_count(
                screen_view(screen),
                self.shells@.len() as int,
                pair_list(self.shells@.len() as int),
                triangle(self.shells@.len() as int),
                0,
            ),
    {
        proof {
            lemma_function_counts(self.shells@);
            lemma_start_grows(
                function_counts(self.shells@),
                0,
                self.shells@.len() as int,
            );
            crate::tensor::lemma_total_steps(self.size());
        }
        let prep = Prepared::new(&self.shells);
        let pair_data = shell_pair_datas(&prep);
        let sweep = Sweep {
            tables,
            engine,
            omega,
            prep,
            pair_data,
            offs: self.offsets(),
            nao: self.nao(),
        };
        let r = sweep.run(screen);
        proof {
            let lens = function_counts(self.shells@);
            let blocks = blocks_of(tables.rys, engine, omega, self.shells@);
            assert(sweep.lens() == lens);
            assert(sweep.blocks() == blocks);
            assert forall|x: At, y: At, z: At, w: At|
                is_function(lens, x) && is_function(lens, y) && is_function(lens, z)
                    && is_function(lens, w) implies #[trigger] r.0@[slot4(lens, x, y, z, w)] == ({
                let c = shells_of(canonical(x, y, z, w));
                if is_screened(screen_view(screen), lens.len() as int, c.0, c.1, c.2, c.3) {
                    T::count(0)
                } else {
                    tensor_entry(blocks, lens, x, y, z, w)
                }
            }) by {
                assert(is_function(sweep.lens(), x));
            }
        }
        r
    }

    /// The block of the four shells `i`, `j`, `k`, `l` in chemists' order, row-major over
    /// their components.
    #[must_use]
    pub fn eri_block(&self, tables: &Tables<T>, i: usize, j: usize, k: usize, l: usize) -> (r: Vec<
        T,
    >)
        requires
            tables.valid(),
            self.valid(),
            i < self.shells@.len(),
            j < self.shells@.len(),
            k < self.shells@.len(),
            l < self.shells@.len(),
        ensures
            r@ == shell_block(
                tables.rys,
                Engine::Auto,
                None,
                self.shells@,
                i as int,
                j as int,
                k as int,
                l as int,
            ),
            r@.len() == function_size(self.shells@, i as int, j as int, k as int, l as int),
    {
        self.eri_block_with(tables, Engine::Auto, i, j, k, l)
    }

    /// [`Basis::eri_block`] with the engine given.
    #[must_use]
    pub fn eri_block_with(
        &self,
        tables: &Tables<T>,
        engine: Engine,
        i: usize,
        j: usize,
        k: usize,
        l: usize,
    ) -> (r: Vec<T>)
        requires
            tables.valid(),
            self.valid(),
            i < self.shells@.len(),
            j < self.shells@.len(),
            k < self.shells@.len(),
            l < self.shells@.len(),
        ensures
            r@ == shell_block(
                tables.rys,
                engine,
                None,
                self.shells@,
                i as int,
                j as int,
                k as int,
                l as int,
            ),
            r@.len() == function_size(self.shells@, i as int, j as int, k as int, l as int),
    {
        let prep = Prepared::new(&self.shells);
        let s = [prep.side(i), prep.side(j), prep.side(k), prep.side(l)];
        assert forall|i: int| 0 <= i < 4 implies (#[trigger] s[i]).valid() by {
            assert(i == 0 || i == 1 || i == 2 || i == 3);
        }
        let mut scratch: QuartetScratch<T> = QuartetScratch::new();
        quartet_into_scratch(&mut scratch, tables, engine, s);
        scratch.block
    }

    /// The dense tensor `(ij|kl)` over the basis, row-major.
    #[must_use]
    pub fn eri(&self, tables: &Tables<T>) -> (r: Vec<T>)
        requires
            tables.valid(),
            self.valid(),
            self.tensor_fits(),
        ensures
            is_tensor(
                r@,
                blocks_of(tables.rys, Engine::Auto, None, self.shells@),
                None,
                function_counts(self.shells@),
            ),
    {
        self.eri_with(tables, Engine::Auto)
    }

    /// [`Basis::eri`] with the engine given.
    #[must_use]
    pub fn eri_with(&self, tables: &Tables<T>, engine: Engine) -> (r: Vec<T>)
        requires
            tables.valid(),
            self.valid(),
            self.tensor_fits(),
        ensures
            is_tensor(
                r@,
                blocks_of(tables.rys, engine, None, self.shells@),
                None,
                function_counts(self.shells@),
            ),
    {
        self.build_tensor(tables, engine, None, None).0
    }

    /// The dense tensor of a kernel.
    #[must_use]
    pub fn eri_kernel(&self, tables: &Tables<T>, k: EriKernel<T>) -> (r: Vec<T>)
        requires
            tables.valid(),
            self.valid(),
            self.tensor_fits(),
            is_kernel(k),
        ensures
            is_tensor(
                r@,
                blocks_of(
                    tables.rys,
                    engine_of(k, Engine::Auto),
                    attenuation_of(k),
                    self.shells@,
                ),
                None,
                function_counts(self.shells@),
            ),
    {
        match k {
            EriKernel::Coulomb => self.eri(tables),
            EriKernel::Erf { omega } => self.build_tensor(
                tables,
                Engine::Rys,
                Some(omega),
                None,
            ).0,
        }
    }

    /// The bounds of all shell pairs: `|(mn|ls)|` is at most the product of the bounds
    /// of its pairs, up to rounding.
    #[must_use]
    pub fn schwarz_bounds(&self, tables: &Tables<T>) -> (r: Vec<T>)
        requires
            tables.valid(),
            self.valid(),
            self.shells@.len() * self.shells@.len() <= usize::MAX,
        ensures
            r@ == schwarz_matrix(tables.rys, Engine::Auto, self.shells@),
    {
        self.schwarz_bounds_with(tables, Engine::Auto)
    }

    /// [`Basis::schwarz_bounds`] with the engine given.
    #[must_use]
    pub fn schwarz_bounds_with(&self, tables: &Tables<T>, engine: Engine) -> (r: Vec<T>)
        requires
            tables.valid(),
            self.valid(),
            self.shells@.len() * self.shells@.len() <= usize::MAX,
        ensures
            r@ == schwarz_matrix(tables.rys, engine, self.shells@),
    {
        let n = self.shells.len();
        let mut q: Vec<T> = Vec::new();
        let mut i: usize = 0;
        while i < n
            invariant
                i <= n,
                n == self.shells@.len(),
                tables.valid(),
                self.valid(),
                q@.len() == i * n,
                forall|k: int|
                    0 <= k < q@.len() ==> #[trigger] q@[k] == schwarz_bound(
                        tables.rys,
                        engine,
                        self.shells@,
                        k / (n as int),
                        k % (n as int),
                    ),
            decreases n - i,
        {
            let mut j: usize = 0;
            while j < n
                invariant
                    i < n,
                    j <= n,
                    n == self.shells@.len(),
                    tables.valid(),
                    self.valid(),
                    q@.len() == pair(i as int, n as int, j as int),
                    forall|k: int|
                        0 <= k < q@.len() ==> #[trigger] q@[k] == schwarz_bound(
                            tables.rys,
                            engine,
                            self.shells@,
                            k / (n as int),
                            k % (n as int),
                        ),
                decreases n - j,
            {
                let block = self.eri_block_with(tables, engine, i, j, i, j);
                assert(self.shells@[i as int].valid());
                assert(self.shells@[j as int].valid());
                let peak = diagonal_max(&block, self.shells[i].n_func(), self.shells[j].n_func());
                proof {
                    crate::flat::lemma_pair_parts(i as int, n as int, j as int);
                }
                q.push(peak.sqrt());
                j = j + 1;
            }
            proof {
                assert(i * n + n == (i + 1) * n) by (nonlinear_arith);
            }
            i = i + 1;
        }
        assert(q@ =~= schwarz_matrix(tables.rys, engine, self.shells@));
        q
    }

    /// The dense tensor without the quartets whose pairs' bounds have a product below
    /// `tau`: their entries are zero.
    #[must_use]
    pub fn eri_screened(&self, tables: &Tables<T>, tau: T) -> (r: (Vec<T>, ScreeningStats<T>))
        requires
            tables.valid(),
            self.valid(),
            self.tensor_fits(),
        ensures
            is_tensor(
                r.0@,
                blocks_of(tables.rys, Engine::Auto, None, self.shells@),
                Some((schwarz_matrix(tables.rys, Engine::Auto, self.shells@), tau)),
                function_counts(self.shells@),
            ),
            r.1.shell_quartets_total == triangle(triangle(self.shells@.len() as int)),
            r.1.shell_quartets_skipped == screened_count(
                Some((schwarz_matrix(tables.rys, Engine::Auto, self.shells@), tau)),
                self.shells@.len() as int,
                pair_list(self.shells@.len() as int),
                triangle(self.shells@.len() as int),
                0,
            ),
            r.1.shell_quartets_skipped <= r.1.shell_quartets_total,
            r.1.tau == tau,
    {
        self.eri_screened_with(tables, Engine::Auto, tau)
    }

    /// [`Basis::eri_screened`] with the engine given.
    #[must_use]
    pub fn eri_screened_with(&self, tables: &Tables<T>, engine: Engine, tau: T) -> (r: (
        Vec<T>,
        ScreeningStats<T>,
    ))
        requires
            tables.valid(),
            self.valid(),
            self.tensor_fits(),
        ensures
            is_tensor(
                r.0@,
                blocks_of(tables.rys, engine, None, self.shells@),
                Some((schwarz_matrix(tables.rys, engine, self.shells@), tau)),
                function_counts(self.shells@),
            ),
            r.1.shell_quartets_total == triangle(triangle(self.shells@.len() as int)),
            r.1.shell_quartets_skipped == screened_count(
                Some((schwarz_matrix(tables.rys, engine, self.shells@), tau)),
                self.shells@.len() as int,
                pair_list(self.shells@.len() as int),
                triangle(self.shells@.len() as int),
                0,
            ),
            r.1.shell_quartets_skipped <= r.1.shell_quartets_total,
            r.1.tau == tau,
    {
        proof {
            let n = self.shells@.len() as int;
            lemma_shells_and_functions(self.shells@, n);
            crate::tensor::lemma_total_steps(self.size());
            let m = self.size();
            assert(n * n <= m * m) by (nonlinear_arith)
                requires
                    0 <= n <= m,
            ;
            if m == 0 {
                assert(n * n == 0) by (nonlinear_arith)
                    requires
                        n == 0,
                ;
            }
        }
        let q = self.schwarz_bounds_with(tables, engine);
        proof {
            let n = self.shells@.len() as int;
            lemma_triangle_grows(0, n);
            lemma_triangle_step(0);
            lemma_screened_count(
                Some((q@, tau)),
                n,
                pair_list(n),
                triangle(n),
                0,
            );
        }
        let (out, total_count, skipped) = self.build_tensor(
            tables,
            engine,
            None,
            Some((&q, tau)),
        );
        (
            out,
            ScreeningStats {
                shell_quartets_total: total_count,
                shell_quartets_skipped: skipped,
                tau,
            },
        )
    }
}

/// The largest magnitude among the entries `(mn|mn)` of a block, and zero.
fn diagonal_max<T: Real>(block: &Vec<T>, ni: usize, nj: usize) -> (r: T)
    requires
        1 <= ni <= 28,
        1 <= nj <= 28,
        block@.len() == ni * nj * ni * nj,
    ensures
        r == diagonal_peak(block@, ni as int, nj as int, ni as int, 0),
{
    let mut mx = T::from_count(0);
    let mut m: usize = 0;
    while m < ni
        invariant
            m <= ni <= 28,
            1 <= nj <= 28,
            block@.len() == ni * nj * ni * nj,
            mx == diagonal_peak(block@, ni as int, nj as int, m as int, 0),
        decreases ni - m,
    {
        let mut n: usize = 0;
        while n < nj
            invariant
                m < ni <= 28,
                n <= nj,
                1 <= nj <= 28,
                block@.len() == ni * nj * ni * nj,
                mx == diagonal_peak(block@, ni as int, nj as int, m as int, n as int),
            decreases nj - n,
        {
            let len = block.len();
            proof {
                lemma_quad_in_range(
                    m as int,
                    ni as int,
                    n as int,
                    nj as int,
                    m as int,
                    ni as int,
                    n as int,
                    nj as int,
                );
            }
            let idx: usize = ((m * nj + n) * ni + m) * nj + n;
            mx = larger_of(mx, block[idx].abs());
            n = n + 1;
        }
        m = m + 1;
    }
    mx
}

/// Screening leaves every kept entry as it is in the unscreened tensor.
pub proof fn law_screening_changes_no_kept_entry<T: Real>(
    screened: Seq<T>,
    full: Seq<T>,
    blocks: spec_fn(int, int, int, int) -> Seq<T>,
    screen: Option<(Seq<T>, T)>,
    lens: Seq<int>,
    x: At,
    y: At,
    z: At,
    w: At,
)
    requires
        is_tensor(screened, blocks, screen, lens),
        is_tensor(full, blocks, None, lens),
        is_function(lens, x),
        is_function(lens, y),
        is_function(lens, z),
        is_function(lens, w),
    ensures
        screened[slot4(lens, x, y, z, w)] == full[slot4(lens, x, y, z, w)]
            || screened[slot4(lens, x, y, z, w)] == T::count(0),
{
    assert(full[slot4(lens, x, y, z, w)] == tensor_entry(blocks, lens, x, y, z, w));
}

} // verus!
