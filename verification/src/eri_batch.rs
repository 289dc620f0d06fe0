//! Four shell quartets at a time.
//!
//! Quartets of small angular momentum that the recurrence engine takes are queued by
//! their shape and evaluated in groups of four, one per lane. A group's blocks are
//! those that its quartets have when evaluated one by one.
use vstd::prelude::*;

use crate::engine::os_eri::{
    block_len, coulomb_shell_batch4_pairs_into_scratch, lane_shells, quartet_added,
    EriBatch4Scratch,
};
use crate::engine::pairs::{shell_pairs, ShellPairData, ShellRef};
use crate::engine::rys::lemma_quartet_sizes;
use crate::integrals::Engine;
use crate::math::rys::RysTables;
use crate::queue::{law_items_wait_or_are_released, lemma_listed_holds, PendingQueue, Waiting};
use crate::quartet::{
    cart_block, cart_size, lemma_recurrence_block, normalized, recurs, resolves_to_recurrence,
    shown, zero_block, Four, Side, Tables,
};
use crate::scalar::{filled, Real};
use crate::shell::Shell;
use crate::shell_pairs::{all_valid, holds_pairs, law_pair_numbers_order_pairs, tri_idx, Prepared};
use crate::spherical::{function_block4, transform_block4_into};

verus! {

/// The half-momenta of a quartet and its numbers of primitive pairs.
pub type BatchKey = (usize, usize, usize, usize);

/// Four shells of a basis, with their normalized coefficients.
pub open spec fn four_of<T: Real>(shells: Seq<Shell<T>>, i: int, j: int, k: int, l: int) -> Four<
    T,
> {
    (
        normalized(shells[i]),
        normalized(shells[j]),
        normalized(shells[k]),
        normalized(shells[l]),
    )
}

/// The block of four shells of a basis in their components.
pub open spec fn shell_block<T: Real>(
    rys: RysTables<T>,
    engine: Engine,
    omega: Option<T>,
    shells: Seq<Shell<T>>,
    i: int,
    j: int,
    k: int,
    l: int,
) -> Seq<T> {
    function_block4(
        shells[i],
        shells[j],
        shells[k],
        shells[l],
        cart_block(rys, engine, omega, four_of(shells, i, j, k, l)),
    )
}

/// Whether four indices are shells, bra and ket in canonical order.
pub open spec fn are_pairs<T>(shells: Seq<Shell<T>>, q: [usize; 4]) -> bool {
    q[1] <= q[0] < shells.len() && q[3] <= q[2] < shells.len()
}

/// The shape under which a quartet is queued: none if it is not one of small angular
/// momentum that the recurrence engine takes.
pub fn batch_key<T: Real>(engine: Engine, s: [Side<T>; 4], pair_counts: [usize; 2]) -> (r: Option<
    BatchKey,
>)
    requires
        forall|i: int| 0 <= i < 4 ==> (#[trigger] s[i]).valid(),
    ensures
        r == (if recurs(engine, shown(s)) && s[0].shell.l + s[1].shell.l <= 6 && s[2].shell.l
            + s[3].shell.l <= 6 {
            Some(
                (
                    (s[0].shell.l + s[1].shell.l) as usize,
                    (s[2].shell.l + s[3].shell.l) as usize,
                    pair_counts[0],
                    pair_counts[1],
                ),
            )
        } else {
            None
        }),
{
    assert(s[0].valid() && s[1].valid() && s[2].valid() && s[3].valid());
    if !resolves_to_recurrence(engine, s) {
        return None;
    }
    let ne: usize = s[0].shell.l + s[1].shell.l;
    let nf: usize = s[2].shell.l + s[3].shell.l;
    if ne <= 6 && nf <= 6 {
        Some((ne, nf, pair_counts[0], pair_counts[1]))
    } else {
        None
    }
}

/// Buffers for the evaluation of a group.
pub struct EriBatchScratch<T> {
    pub blocks: Vec<Vec<T>>,
    pub transform_tmp: Vec<T>,
    pub core: EriBatch4Scratch<T>,
}

impl<T: Real> EriBatchScratch<T> {
    /// Whether there is a block for each lane.
    pub open spec fn valid(self) -> bool {
        self.blocks@.len() == 4 && self.core.valid()
    }

    /// Empty buffers.
    pub fn new() -> (r: Self)
        ensures
            r.valid(),
    {
        let mut blocks: Vec<Vec<T>> = Vec::new();
        blocks.push(Vec::new());
        blocks.push(Vec::new());
        blocks.push(Vec::new());
        blocks.push(Vec::new());
        EriBatchScratch { blocks, transform_tmp: Vec::new(), core: EriBatch4Scratch::new() }
    }
}

/// The four shells of a quartet as the recurrence engine sees them.
fn quartet_refs<'a, T: Real>(prep: &'a Prepared<T>, q: [usize; 4]) -> (r: [ShellRef<'a, T>; 4])
    requires
        prep.valid(),
        are_pairs(prep.shells@, q),
    ensures
        forall|i: int|
            0 <= i < 4 ==> (#[trigger] r[i]).l == prep.shells@[q[i] as int].l && r[i].contraction()
                == normalized(prep.shells@[q[i] as int]).1,
{
    let r = [
        prep.side(q[0]).shell_ref(),
        prep.side(q[1]).shell_ref(),
        prep.side(q[2]).shell_ref(),
        prep.side(q[3]).shell_ref(),
    ];
    r
}

/// The primitive pairs of the canonical pair `(i, j)`.
pub fn pair_data_of<'a, T: Real>(
    pair_data: &'a Vec<ShellPairData<T>>,
    prep: &Prepared<T>,
    i: usize,
    j: usize,
) -> (r: &'a ShellPairData<T>)
    requires
        holds_pairs(pair_data@, prep.shells@),
        j <= i < prep.shells@.len(),
    ensures
        r.pairs@ == shell_pairs(
            normalized(prep.shells@[i as int]).1,
            normalized(prep.shells@[j as int]).1,
        ),
{
    let n = prep.shells.len();
    let data_len = pair_data.len();
    proof {
        law_pair_numbers_order_pairs(i as int, j as int, i as int, j as int, n as int);
    }
    &pair_data[tri_idx(i, j)]
}

/// Number of Cartesian entries of a quartet's block.
fn cart_len<T: Real>(prep: &Prepared<T>, q: [usize; 4]) -> (n: usize)
    requires
        prep.valid(),
        are_pairs(prep.shells@, q),
    ensures
        n == cart_size(
            four_of(prep.shells@, q[0] as int, q[1] as int, q[2] as int, q[3] as int),
        ),
{
    assert(prep.shells@[q[0] as int].valid());
    assert(prep.shells@[q[1] as int].valid());
    assert(prep.shells@[q[2] as int].valid());
    assert(prep.shells@[q[3] as int].valid());
    proof {
        lemma_quartet_sizes(
            prep.shells@[q[0] as int].l as int,
            prep.shells@[q[1] as int].l as int,
            prep.shells@[q[2] as int].l as int,
            prep.shells@[q[3] as int].l as int,
        );
    }
    prep.shells[q[0]].n_cart() * prep.shells[q[1]].n_cart() * prep.shells[q[2]].n_cart()
        * prep.shells[q[3]].n_cart()
}

/// The number of functions in the block of four shells.
pub open spec fn function_size<T: Real>(
    shells: Seq<Shell<T>>,
    i: int,
    j: int,
    k: int,
    l: int,
) -> int {
    shells[i].functions() * shells[j].functions() * shells[k].functions() * shells[l].functions()
}

/// Evaluate a group of four quartets that the recurrence engine takes, leaving the
/// block of each in its lane of `scratch.blocks`.
#[verifier::spinoff_prover]
#[verifier::rlimit(60)]
pub(crate) fn evaluate_batch4<T: Real>(
    scratch: &mut EriBatchScratch<T>,
    tables: &Tables<T>,
    prep: &Prepared<T>,
    pair_data: &Vec<ShellPairData<T>>,
    Ghost(engine): Ghost<Engine>,
    group: [[usize; 4]; 4],
)
    requires
        old(scratch).valid(),
        tables.valid(),
        prep.valid(),
        holds_pairs(pair_data@, prep.shells@),
        forall|lane: int| 0 <= lane < 4 ==> are_pairs(prep.shells@, #[trigger] group[lane]),
        forall|lane: int|
            0 <= lane < 4 ==> recurs(
                engine,
                four_of(
                    prep.shells@,
                    (#[trigger] group[lane])[0] as int,
                    group[lane][1] as int,
                    group[lane][2] as int,
                    group[lane][3] as int,
                ),
            ),
    ensures
        final(scratch).valid(),
        forall|lane: int|
            0 <= lane < 4 ==> (#[trigger] final(scratch).blocks@[lane])@ == shell_block(
                tables.rys,
                engine,
                None,
                prep.shells@,
                group[lane][0] as int,
                group[lane][1] as int,
                group[lane][2] as int,
                group[lane][3] as int,
            ),
        forall|lane: int|
            0 <= lane < 4 ==> (#[trigger] final(scratch).blocks@[lane])@.len() == function_size(
                prep.shells@,
                group[lane][0] as int,
                group[lane][1] as int,
                group[lane][2] as int,
                group[lane][3] as int,
            ),
{
    let ghost shells = prep.shells@;
    let ghost fours = |lane: int|
        four_of(
            shells,
            group[lane][0] as int,
            group[lane][1] as int,
            group[lane][2] as int,
            group[lane][3] as int,
        );
    assert(are_pairs(shells, group[0]));
    assert(are_pairs(shells, group[1]));
    assert(are_pairs(shells, group[2]));
    assert(are_pairs(shells, group[3]));
    let quartets = [
        quartet_refs(prep, group[0]),
        quartet_refs(prep, group[1]),
        quartet_refs(prep, group[2]),
        quartet_refs(prep, group[3]),
    ];
    assert forall|lane: int, i: int| 0 <= lane < 4 && 0 <= i < 4 implies (#[trigger] quartets[lane][i]).l
        == shells[group[lane][i] as int].l && quartets[lane][i].contraction() == normalized(
        shells[group[lane][i] as int],
    ).1 && quartets[lane][i].l <= 6 by {
        assert(lane == 0 || lane == 1 || lane == 2 || lane == 3);
        assert(i == 0 || i == 1 || i == 2 || i == 3);
        assert(shells[group[lane][i] as int].valid());
    }
    let mut outs: Vec<Vec<T>> = Vec::new();
    let mut lane: usize = 0;
    while lane < 4
        invariant
            lane <= 4,
            prep.valid(),
            shells == prep.shells@,
            forall|lane: int| 0 <= lane < 4 ==> are_pairs(shells, #[trigger] group[lane]),
            outs@.len() == lane,
            forall|k: int|
                0 <= k < lane ==> (#[trigger] outs@[k])@ == zero_block(
                    four_of(
                        shells,
                        group[k][0] as int,
                        group[k][1] as int,
                        group[k][2] as int,
                        group[k][3] as int,
                    ),
                ),
        decreases 4 - lane,
    {
        assert(are_pairs(shells, group[lane as int]));
        let n = cart_len(prep, group[lane]);
        let block = filled(n, T::from_count(0));
        assert(block@ =~= zero_block(
            four_of(
                shells,
                group[lane as int][0] as int,
                group[lane as int][1] as int,
                group[lane as int][2] as int,
                group[lane as int][3] as int,
            ),
        ));
        outs.push(block);
        lane = lane + 1;
    }
    let bra = [
        pair_data_of(pair_data, prep, group[0][0], group[0][1]),
        pair_data_of(pair_data, prep, group[1][0], group[1][1]),
        pair_data_of(pair_data, prep, group[2][0], group[2][1]),
        pair_data_of(pair_data, prep, group[3][0], group[3][1]),
    ];
    let ket = [
        pair_data_of(pair_data, prep, group[0][2], group[0][3]),
        pair_data_of(pair_data, prep, group[1][2], group[1][3]),
        pair_data_of(pair_data, prep, group[2][2], group[2][3]),
        pair_data_of(pair_data, prep, group[3][2], group[3][3]),
    ];
    proof {
        assert forall|lane: int| 0 <= lane < 4 implies (#[trigger] outs@[lane])@.len() >= block_len(
            lane_shells(quartets, lane),
        ) by {
            lemma_lane_size(shells, quartets, group, lane);
        }
    }
    let ghost zeros = outs@;
    coulomb_shell_batch4_pairs_into_scratch(
        &mut scratch.core,
        &tables.boys,
        &quartets,
        bra,
        ket,
        &mut outs,
    );
    proof {
        assert forall|lane: int| 0 <= lane < 4 implies (#[trigger] outs@[lane])@ == cart_block(
            tables.rys,
            engine,
            None,
            fours(lane),
        ) by {
            let q = fours(lane);
            lemma_lane_size(shells, quartets, group, lane);
            assert(are_pairs(shells, group[lane]));
            assert(recurs(engine, q));
            let s = lane_shells(quartets, lane);
            assert(lane == 0 || lane == 1 || lane == 2 || lane == 3);
            assert(quartet_added(
                s,
                bra[lane].pairs@,
                ket[lane].pairs@,
                zeros[lane]@,
                outs@[lane]@,
            ));
            assert(quartets[lane][0].l <= 6 && quartets[lane][1].l <= 6 && quartets[lane][2].l <= 6
                && quartets[lane][3].l <= 6);
            lemma_recurrence_block(s, q, outs@[lane]@);
        }
    }
    scratch.blocks = outs;
    let mut lane: usize = 0;
    while lane < 4
        invariant
            lane <= 4,
            scratch.valid(),
            prep.valid(),
            shells == prep.shells@,
            forall|lane: int| 0 <= lane < 4 ==> are_pairs(shells, #[trigger] group[lane]),
            forall|k: int|
                #[trigger] fours(k) == four_of(
                    shells,
                    group[k][0] as int,
                    group[k][1] as int,
                    group[k][2] as int,
                    group[k][3] as int,
                ),
            forall|k: int|
                0 <= k < lane ==> (#[trigger] scratch.blocks@[k])@ == shell_block(
                    tables.rys,
                    engine,
                    None,
                    shells,
                    group[k][0] as int,
                    group[k][1] as int,
                    group[k][2] as int,
                    group[k][3] as int,
                ),
            forall|k: int|
                0 <= k < lane ==> (#[trigger] scratch.blocks@[k])@.len() == function_size(
                    shells,
                    group[k][0] as int,
                    group[k][1] as int,
                    group[k][2] as int,
                    group[k][3] as int,
                ),
            forall|k: int|
                lane <= k < 4 ==> (#[trigger] scratch.blocks@[k])@ == cart_block(
                    tables.rys,
                    engine,
                    None,
                    fours(k),
                ),
            forall|k: int|
                lane <= k < 4 ==> (#[trigger] scratch.blocks@[k])@.len() == cart_size(fours(k)),
        decreases 4 - lane,
    {
        let q = group[lane];
        assert(are_pairs(shells, group[lane as int]));
        let (a, b, c, d) = (prep.side(q[0]), prep.side(q[1]), prep.side(q[2]), prep.side(q[3]));
        assert(scratch.blocks@[lane as int]@ == cart_block(
            tables.rys,
            engine,
            None,
            fours(lane as int),
        ));
        assert(scratch.blocks@[lane as int]@.len() == cart_size(fours(lane as int)));
        let mut block: Vec<T> = Vec::new();
        std::mem::swap(&mut block, &mut scratch.blocks[lane]);
        transform_block4_into(
            [a.shell, b.shell, c.shell, d.shell],
            [a.mat, b.mat, c.mat, d.mat],
            &mut block,
            &mut scratch.transform_tmp,
        );
        scratch.blocks[lane] = block;
        lane = lane + 1;
    }
}

/// The size of a lane's block.
proof fn lemma_lane_size<T: Real>(
    shells: Seq<Shell<T>>,
    quartets: [[ShellRef<T>; 4]; 4],
    group: [[usize; 4]; 4],
    lane: int,
)
    requires
        0 <= lane < 4,
        all_valid(shells),
        are_pairs(shells, group[lane]),
        forall|i: int|
            0 <= i < 4 ==> (#[trigger] quartets[lane][i]).l == shells[group[lane][i] as int].l,
    ensures
        block_len(lane_shells(quartets, lane)) == cart_size(
            four_of(
                shells,
                group[lane][0] as int,
                group[lane][1] as int,
                group[lane][2] as int,
                group[lane][3] as int,
            ),
        ),
        cart_size(
            four_of(
                shells,
                group[lane][0] as int,
                group[lane][1] as int,
                group[lane][2] as int,
                group[lane][3] as int,
            ),
        ) >= 1,
{
    assert(quartets[lane][0].l == shells[group[lane][0] as int].l);
    assert(quartets[lane][1].l == shells[group[lane][1] as int].l);
    assert(quartets[lane][2].l == shells[group[lane][2] as int].l);
    assert(quartets[lane][3].l == shells[group[lane][3] as int].l);
    assert(shells[group[lane][0] as int].valid());
    assert(shells[group[lane][1] as int].valid());
    assert(shells[group[lane][2] as int].valid());
    assert(shells[group[lane][3] as int].valid());
    lemma_quartet_sizes(
        shells[group[lane][0] as int].l as int,
        shells[group[lane][1] as int].l as int,
        shells[group[lane][2] as int].l as int,
        shells[group[lane][3] as int].l as int,
    );
}

/// Quartets that wait for their group, by shape, and the buffers of a group.
pub struct EriBatchQueue<T> {
    pub waiting: PendingQueue<[usize; 4]>,
    pub scratch: EriBatchScratch<T>,
}

/// Whether `q` is one of the four quartets of a group.
pub open spec fn in_group(group: [[usize; 4]; 4], q: [usize; 4]) -> bool {
    group[0] == q || group[1] == q || group[2] == q || group[3] == q
}

impl<T: Real> EriBatchQueue<T> {
    /// Whether every shape stands once, with fewer than four quartets.
    pub open spec fn valid(self) -> bool {
        self.scratch.valid() && self.waiting.shown().valid()
    }

    /// Whether `q` waits.
    pub open spec fn holds(self, q: [usize; 4]) -> bool {
        self.waiting.shown().holds(q)
    }

    /// An empty queue.
    pub fn new() -> (r: Self)
        ensures
            r.valid(),
            r.waiting.shown() == Waiting::<[usize; 4]>::nothing(),
    {
        EriBatchQueue { waiting: PendingQueue::new(), scratch: EriBatchScratch::new() }
    }

    /// Let `q` wait under `key`; the group of its shape once there are four.
    pub fn push(&mut self, key: BatchKey, q: [usize; 4]) -> (r: Option<[[usize; 4]; 4]>)
        requires
            old(self).valid(),
        ensures
            final(self).valid(),
            final(self).waiting.shown() == old(self).waiting.shown().joined_by(key, q),
            r matches Some(group) ==> group@ == old(self).waiting.shown().released_by(key, q),
            r is None ==> old(self).waiting.shown().released_by(key, q).len() == 0,
            forall|t: [usize; 4]|
                old(self).holds(t) || t == q ==> #[trigger] final(self).holds(t) || (r is Some
                    && in_group(r->0, t)),
            forall|t: [usize; 4]| #[trigger] final(self).holds(t) ==> old(self).holds(t) || t == q,
            forall|t: [usize; 4]|
                r is Some && #[trigger] in_group(r->0, t) ==> old(self).holds(t) || t == q,
    {
        let ghost was = self.waiting.shown();
        let group = self.waiting.push(key, q);
        proof {
            let out = was.released_by(key, q);
            assert forall|t: [usize; 4]| was.holds(t) || t == q implies #[trigger] self.holds(t) || (
            group is Some && in_group(group->0, t)) by {
                law_items_wait_or_are_released(was, key, q, t);
                if out.contains(t) {
                    let i = choose|i: int| 0 <= i < out.len() && out[i] == t;
                    assert(group->0@[i] == t);
                }
            }
            assert forall|t: [usize; 4]| #[trigger] self.holds(t) implies was.holds(t) || t == q by {
                law_items_wait_or_are_released(was, key, q, t);
            }
            assert forall|t: [usize; 4]|
                group is Some && #[trigger] in_group(group->0, t) implies was.holds(t) || t
                == q by {
                law_items_wait_or_are_released(was, key, q, t);
                let g = group->0;
                assert(out == g@);
                assert(out[0] == g[0] && out[1] == g[1] && out[2] == g[2] && out[3] == g[3]);
                assert(out.contains(t));
            }
        }
        group
    }

    /// All quartets that wait, shape by shape; none waits any more.
    pub fn drain(&mut self) -> (r: Vec<[usize; 4]>)
        requires
            old(self).valid(),
        ensures
            final(self).valid(),
            r@ == old(self).waiting.shown().listed(old(self).waiting.shown().lists.len() as int),
            final(self).waiting.shown() == Waiting::<[usize; 4]>::nothing(),
            forall|t: [usize; 4]| #[trigger] old(self).holds(t) ==> r@.contains(t),
            forall|t: [usize; 4]| #[trigger] r@.contains(t) ==> old(self).holds(t),
    {
        let ghost was = self.waiting.shown();
        let r = self.waiting.drain();
        proof {
            assert forall|t: [usize; 4]| #[trigger] r@.contains(t) == was.holds(t) by {
                lemma_listed_holds(was, was.lists.len() as int, t);
            }
        }
        r
    }
}

} // verus!
