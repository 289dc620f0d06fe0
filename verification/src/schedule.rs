//! The order in which the quartets of a bra pair are evaluated.
//!
//! The ket pairs of every bra pair are sorted into groups of four of the same shape and
//! a list of those that are evaluated one by one. Every ket pair stands once for every
//! bra pair, in a group or in the list.
use vstd::prelude::*;

use crate::engine::pairs::ShellPairData;
use crate::eri_batch::{batch_key, four_of};
use crate::integrals::Engine;
use crate::quartet::{recurs, shown};
use crate::scalar::Real;
use crate::shell::Shell;
use crate::shell_pairs::Prepared;

verus! {

/// How often `k` stands among the entries from `from` up to `to`.
pub open spec fn times_listed(s: Seq<u32>, from: int, to: int, k: int) -> int
    decreases to - from,
{
    if to <= from {
        0
    } else {
        times_listed(s, from, to - 1, k) + if s[to - 1] == k {
            1int
        } else {
            0int
        }
    }
}

/// How often `k` stands in a group.
pub open spec fn times_in_group(g: [u32; 4], k: int) -> int {
    times_listed(g@, 0, 4, k)
}

/// How often `k` stands in the groups from `from` up to `to`.
pub open spec fn times_grouped(s: Seq<[u32; 4]>, from: int, to: int, k: int) -> int
    decreases to - from,
{
    if to <= from {
        0
    } else {
        times_grouped(s, from, to - 1, k) + times_in_group(s[to - 1], k)
    }
}

/// Counting does not depend on what stands elsewhere.
proof fn lemma_listed_same(s: Seq<u32>, t: Seq<u32>, from: int, to: int, k: int)
    requires
        0 <= from,
        to <= s.len(),
        to <= t.len(),
        forall|i: int| from <= i < to ==> #[trigger] s[i] == t[i],
    ensures
        times_listed(s, from, to, k) == times_listed(t, from, to, k),
    decreases to - from,
{
    if to > from {
        lemma_listed_same(s, t, from, to - 1, k);
        assert(s[to - 1] == t[to - 1]);
    }
}

/// Counting does not depend on what stands elsewhere.
proof fn lemma_grouped_same(s: Seq<[u32; 4]>, t: Seq<[u32; 4]>, from: int, to: int, k: int)
    requires
        0 <= from,
        to <= s.len(),
        to <= t.len(),
        forall|i: int| from <= i < to ==> #[trigger] s[i] == t[i],
    ensures
        times_grouped(s, from, to, k) == times_grouped(t, from, to, k),
    decreases to - from,
{
    if to > from {
        lemma_grouped_same(s, t, from, to - 1, k);
        assert(s[to - 1] == t[to - 1]);
    }
}

/// Counts are not negative.
proof fn lemma_listed_positive(s: Seq<u32>, from: int, to: int, k: int)
    ensures
        times_listed(s, from, to, k) >= 0,
    decreases to - from,
{
    if to > from {
        lemma_listed_positive(s, from, to - 1, k);
    }
}

/// Counts are not negative.
proof fn lemma_grouped_positive(s: Seq<[u32; 4]>, from: int, to: int, k: int)
    ensures
        times_grouped(s, from, to, k) >= 0,
    decreases to - from,
{
    if to > from {
        lemma_grouped_positive(s, from, to - 1, k);
        lemma_listed_positive(s[to - 1]@, 0, 4, k);
    }
}

/// What is counted stands somewhere.
pub proof fn lemma_listed_somewhere(s: Seq<u32>, from: int, to: int, k: int) -> (at: int)
    requires
        times_listed(s, from, to, k) > 0,
    ensures
        from <= at < to,
        s[at] == k,
    decreases to - from,
{
    if s[to - 1] == k {
        to - 1
    } else {
        lemma_listed_somewhere(s, from, to - 1, k)
    }
}

/// What is counted stands in some group.
pub proof fn lemma_grouped_somewhere(s: Seq<[u32; 4]>, from: int, to: int, k: int) -> (at: (
    int,
    int,
))
    requires
        times_grouped(s, from, to, k) > 0,
    ensures
        from <= at.0 < to,
        0 <= at.1 < 4,
        s[at.0][at.1] == k,
    decreases to - from,
{
    if times_in_group(s[to - 1], k) > 0 {
        (to - 1, lemma_listed_somewhere(s[to - 1]@, 0, 4, k))
    } else {
        lemma_grouped_somewhere(s, from, to - 1, k)
    }
}

/// The pairs of shells that a schedule is for.
pub struct PairList<T> {
    pub shells: Seq<Shell<T>>,
    pub pairs: Seq<(usize, usize)>,
    pub counts: Seq<int>,
}

/// The shape of the quartet of bra pair `b` and ket pair `k`; none if it is evaluated one
/// by one.
pub open spec fn key_at<T: Real>(engine: Engine, p: PairList<T>, b: int, k: int) -> Option<
    (int, int, int, int),
> {
    let (i, j) = (p.pairs[b].0 as int, p.pairs[b].1 as int);
    let (m, l) = (p.pairs[k].0 as int, p.pairs[k].1 as int);
    let ne = p.shells[i].l + p.shells[j].l;
    let nf = p.shells[m].l + p.shells[l].l;
    if recurs(engine, four_of(p.shells, i, j, m, l)) && ne <= 6 && nf <= 6 {
        Some((ne, nf, p.counts[b], p.counts[k]))
    } else {
        None
    }
}

/// The part of the shape that is of the ket pair.
pub open spec fn ket_shape<T: Real>(p: PairList<T>, k: int) -> (int, int) {
    (p.shells[p.pairs[k].0 as int].l + p.shells[p.pairs[k].1 as int].l, p.counts[k])
}

/// Whether the ket pairs of a group ascend and are of one shape with bra pair `b`.
pub open spec fn is_group<T: Real>(engine: Engine, p: PairList<T>, b: int, g: [u32; 4]) -> bool {
    &&& forall|lane: int| 0 <= lane < 4 ==> (#[trigger] g[lane]) < p.pairs.len()
    &&& g[0] < g[1] < g[2] < g[3]
    &&& key_at(engine, p, b, g[0] as int) is Some
    &&& forall|lane: int|
        0 <= lane < 4 ==> key_at(engine, p, b, #[trigger] g[lane] as int) == key_at(
            engine,
            p,
            b,
            g[0] as int,
        )
}

/// How many of the entries from `from` up to `to` are of the shape `key` with bra pair
/// `b`.
pub open spec fn times_of_shape<T: Real>(
    engine: Engine,
    p: PairList<T>,
    b: int,
    s: Seq<u32>,
    from: int,
    to: int,
    key: (int, int, int, int),
) -> int
    decreases to - from,
{
    if to <= from {
        0
    } else {
        times_of_shape(engine, p, b, s, from, to - 1, key) + if key_at(
            engine,
            p,
            b,
            s[to - 1] as int,
        ) == Some(key) {
            1int
        } else {
            0int
        }
    }
}

/// Counting does not depend on what stands elsewhere.
proof fn lemma_shape_same<T: Real>(
    engine: Engine,
    p: PairList<T>,
    b: int,
    s: Seq<u32>,
    t: Seq<u32>,
    from: int,
    to: int,
    key: (int, int, int, int),
)
    requires
        0 <= from,
        to <= s.len(),
        to <= t.len(),
        forall|i: int| from <= i < to ==> #[trigger] s[i] == t[i],
    ensures
        times_of_shape(engine, p, b, s, from, to, key) == times_of_shape(
            engine,
            p,
            b,
            t,
            from,
            to,
            key,
        ),
    decreases to - from,
{
    if to > from {
        lemma_shape_same(engine, p, b, s, t, from, to - 1, key);
        assert(s[to - 1] == t[to - 1]);
    }
}

/// Counting does not depend on where the entries stand.
proof fn lemma_shape_moved<T: Real>(
    engine: Engine,
    p: PairList<T>,
    b: int,
    s: Seq<u32>,
    from: int,
    to: int,
    t: Seq<u32>,
    n: int,
    key: (int, int, int, int),
)
    requires
        0 <= from <= to <= s.len(),
        t == s.subrange(from, to),
        0 <= n <= to - from,
    ensures
        times_of_shape(engine, p, b, t, 0, n, key) == times_of_shape(
            engine,
            p,
            b,
            s,
            from,
            from + n,
            key,
        ),
    decreases n,
{
    if n > 0 {
        lemma_shape_moved(engine, p, b, s, from, to, t, n - 1, key);
        assert(t[n - 1] == s[from + n - 1]);
    }
}

/// Groups and lists of ket pairs for every bra pair.
pub struct EriBatchSchedule {
    pub batch_offsets: Vec<usize>,
    pub batches: Vec<[u32; 4]>,
    pub scalar_offsets: Vec<usize>,
    pub scalars: Vec<u32>,
}

/// Whether the parts that the offsets delimit are those of the bra pairs before `n`, and
/// the last part ends at `len`.
pub open spec fn delimits(offsets: Seq<usize>, n: int, len: int) -> bool {
    &&& offsets.len() == n + 1
    &&& offsets[0] == 0
    &&& offsets[n] == len
    &&& forall|b: int, c: int| 0 <= b <= c <= n ==> #[trigger] offsets[b] <= #[trigger] offsets[c]
}

impl EriBatchSchedule {
    /// Whether the schedule is complete for the bra pairs before `n`.
    pub open spec fn covers<T: Real>(self, engine: Engine, p: PairList<T>, n: int) -> bool {
        &&& delimits(self.batch_offsets@, n, self.batches@.len() as int)
        &&& delimits(self.scalar_offsets@, n, self.scalars@.len() as int)
        &&& forall|b: int, g: int|
            0 <= b < n && self.batch_offsets@[b] <= g < self.batch_offsets@[b + 1]
                ==> #[trigger] is_group(engine, p, b, self.batches@[g])
        &&& forall|g: int|
            0 <= g < self.scalars@.len() ==> (#[trigger] self.scalars@[g]) < p.pairs.len()
        &&& forall|b: int, k: int|
            0 <= b < n && 0 <= k < p.pairs.len() ==> #[trigger] self.times(b, k) == 1
        &&& forall|b: int, key: (int, int, int, int)|
            0 <= b < n ==> #[trigger] self.left_over(engine, p, b, key) <= 3
    }

    /// How many ket pairs of the shape `key` are evaluated one by one with bra pair `b`.
    pub open spec fn left_over<T: Real>(
        self,
        engine: Engine,
        p: PairList<T>,
        b: int,
        key: (int, int, int, int),
    ) -> int {
        times_of_shape(
            engine,
            p,
            b,
            self.scalars@,
            self.scalar_offsets@[b] as int,
            self.scalar_offsets@[b + 1] as int,
            key,
        )
    }

    /// How often ket pair `k` stands for bra pair `b`.
    pub open spec fn times(self, b: int, k: int) -> int {
        times_grouped(
            self.batches@,
            self.batch_offsets@[b] as int,
            self.batch_offsets@[b + 1] as int,
            k,
        ) + times_listed(
            self.scalars@,
            self.scalar_offsets@[b] as int,
            self.scalar_offsets@[b + 1] as int,
            k,
        )
    }

    /// The groups of bra pair `b`.
    pub open spec fn groups(self, b: int) -> Seq<[u32; 4]> {
        self.batches@.subrange(self.batch_offsets@[b] as int, self.batch_offsets@[b + 1] as int)
    }

    /// The ket pairs that are evaluated one by one with bra pair `b`.
    pub open spec fn singles(self, b: int) -> Seq<u32> {
        self.scalars@.subrange(self.scalar_offsets@[b] as int, self.scalar_offsets@[b + 1] as int)
    }

    /// Every ket pair stands once in the groups and the list of every bra pair; what stands
    /// in a group ascends and is of one shape, and of no shape are more than three left in
    /// the list.
    #[verifier::spinoff_prover]
    #[verifier::rlimit(30)]
    pub proof fn law_every_ket_pair_is_scheduled<T: Real>(
        self,
        engine: Engine,
        p: PairList<T>,
        b: int,
        k: int,
    )
        requires
            self.covers(engine, p, p.pairs.len() as int),
            0 <= b < p.pairs.len(),
            0 <= k < p.pairs.len(),
        ensures
            self.times(b, k) == 1,
            (exists|g: int, lane: int|
                0 <= g < self.groups(b).len() && 0 <= lane < 4 && #[trigger] self.groups(
                    b,
                )[g][lane] == k) || (exists|g: int|
                0 <= g < self.singles(b).len() && #[trigger] self.singles(b)[g] == k),
            forall|g: int|
                0 <= g < self.groups(b).len() ==> is_group(
                    engine,
                    p,
                    b,
                    #[trigger] self.groups(b)[g],
                ),
            forall|g: int|
                0 <= g < self.singles(b).len() ==> (#[trigger] self.singles(b)[g]) < p.pairs.len(),
            forall|key: (int, int, int, int)| #[trigger]
                times_of_shape(
                    engine,
                    p,
                    b,
                    self.singles(b),
                    0,
                    self.singles(b).len() as int,
                    key,
                ) <= 3,
    {
        let (b0, b1) = (self.batch_offsets@[b] as int, self.batch_offsets@[b + 1] as int);
        let (s0, s1) = (self.scalar_offsets@[b] as int, self.scalar_offsets@[b + 1] as int);
        let n = p.pairs.len() as int;
        assert(self.batch_offsets@[b + 1] <= self.batch_offsets@[n]);
        assert(self.scalar_offsets@[b + 1] <= self.scalar_offsets@[n]);
        assert(self.batch_offsets@[b] <= self.batch_offsets@[b + 1]);
        assert(self.scalar_offsets@[b] <= self.scalar_offsets@[b + 1]);
        assert(self.batch_offsets@[0] <= self.batch_offsets@[b]);
        assert(self.scalar_offsets@[0] <= self.scalar_offsets@[b]);
        assert(self.times(b, k) == 1);
        lemma_listed_positive(self.scalars@, s0, s1, k);
        lemma_grouped_positive(self.batches@, b0, b1, k);
        if times_grouped(self.batches@, b0, b1, k) > 0 {
            let (g, lane) = lemma_grouped_somewhere(self.batches@, b0, b1, k);
            assert(self.groups(b)[g - b0][lane] == k);
        } else {
            let g = lemma_listed_somewhere(self.scalars@, s0, s1, k);
            assert(self.singles(b)[g - s0] == k);
        }
        assert forall|g: int| 0 <= g < self.groups(b).len() implies is_group(
            engine,
            p,
            b,
            #[trigger] self.groups(b)[g],
        ) by {
            assert(self.batches@[b0 + g] == self.groups(b)[g]);
            assert(is_group(engine, p, b, self.batches@[b0 + g]));
        }
        assert forall|g: int| 0 <= g < self.singles(b).len() implies (#[trigger] self.singles(
            b,
        )[g]) < p.pairs.len() by {
            assert(self.scalars@[s0 + g] == self.singles(b)[g]);
        }
        assert forall|key: (int, int, int, int)| #[trigger]
            times_of_shape(
                engine,
                p,
                b,
                self.singles(b),
                0,
                self.singles(b).len() as int,
                key,
            ) <= 3 by {
            lemma_shape_moved(engine, p, b, self.scalars@, s0, s1, self.singles(b), s1 - s0, key);
            assert(self.left_over(engine, p, b, key) <= 3);
        }
    }

    /// The groups of bra pair `b`.
    pub(crate) fn batches<T: Real>(
        &self,
        b: usize,
        Ghost(engine): Ghost<Engine>,
        Ghost(p): Ghost<PairList<T>>,
    ) -> (r: &[[u32; 4]])
        requires
            self.covers(engine, p, p.pairs.len() as int),
            b < p.pairs.len(),
        ensures
            r@ == self.groups(b as int),
    {
        proof {
            let n = p.pairs.len() as int;
            assert(self.batch_offsets@[b + 1] <= self.batch_offsets@[n]);
            assert(self.batch_offsets@[b as int] <= self.batch_offsets@[b + 1]);
        }
        let len = self.batch_offsets.len();
        vstd::slice::slice_subrange(
            self.batches.as_slice(),
            self.batch_offsets[b],
            self.batch_offsets[b + 1],
        )
    }

    /// The ket pairs that are evaluated one by one with bra pair `b`.
    pub(crate) fn scalars<T: Real>(
        &self,
        b: usize,
        Ghost(engine): Ghost<Engine>,
        Ghost(p): Ghost<PairList<T>>,
    ) -> (r: &[u32])
        requires
            self.covers(engine, p, p.pairs.len() as int),
            b < p.pairs.len(),
        ensures
            r@ == self.singles(b as int),
    {
        proof {
            let n = p.pairs.len() as int;
            assert(self.scalar_offsets@[b + 1] <= self.scalar_offsets@[n]);
            assert(self.scalar_offsets@[b as int] <= self.scalar_offsets@[b + 1]);
        }
        let len = self.scalar_offsets.len();
        vstd::slice::slice_subrange(
            self.scalars.as_slice(),
            self.scalar_offsets[b],
            self.scalar_offsets[b + 1],
        )
    }
}

/// Ket pairs of one shape.
struct Bucket {
    key: (usize, usize),
    list: Vec<u32>,
}

/// How often `k` stands in the first `n` buckets.
spec fn times_bucketed(s: Seq<Bucket>, n: int, k: int) -> int
    decreases n,
{
    if n <= 0 {
        0
    } else {
        times_bucketed(s, n - 1, k) + times_listed(
            s[n - 1].list@,
            0,
            s[n - 1].list@.len() as int,
            k,
        )
    }
}

/// Whether the entries of a bucket are ket pairs of its shape, in ascending order.
spec fn is_bucket<T: Real>(p: PairList<T>, b: Bucket) -> bool {
    &&& forall|g: int|
        0 <= g < b.list@.len() ==> (#[trigger] b.list@[g]) < p.pairs.len() && ket_shape(
            p,
            b.list@[g] as int,
        ) == (b.key.0 as int, b.key.1 as int)
    &&& forall|g: int, h: int|
        0 <= g < h < b.list@.len() ==> #[trigger] b.list@[g] < #[trigger] b.list@[h]
}

/// Whether no two buckets are of one shape.
spec fn are_distinct(s: Seq<Bucket>) -> bool {
    forall|b: int, c: int|
        0 <= b < c < s.len() ==> (#[trigger] s[b]).key != (#[trigger] s[c]).key
}

/// Counting does not depend on other buckets.
proof fn lemma_bucketed_same(s: Seq<Bucket>, t: Seq<Bucket>, n: int, k: int)
    requires
        n <= s.len(),
        n <= t.len(),
        forall|i: int| 0 <= i < n ==> (#[trigger] s[i]).list@ == t[i].list@,
    ensures
        times_bucketed(s, n, k) == times_bucketed(t, n, k),
    decreases n,
{
    if n > 0 {
        lemma_bucketed_same(s, t, n - 1, k);
        assert(s[n - 1].list@ == t[n - 1].list@);
    }
}

/// One more entry in bucket `at` is counted once.
proof fn lemma_bucketed_push(s: Seq<Bucket>, t: Seq<Bucket>, at: int, v: u32, n: int, k: int)
    requires
        0 <= at < s.len(),
        t.len() == s.len(),
        n <= s.len(),
        forall|i: int| 0 <= i < s.len() && i != at ==> (#[trigger] s[i]).list@ == t[i].list@,
        t[at].list@ == s[at].list@.push(v),
    ensures
        times_bucketed(t, n, k) == times_bucketed(s, n, k) + if at < n && v == k {
            1int
        } else {
            0int
        },
    decreases n,
{
    if n > 0 {
        lemma_bucketed_push(s, t, at, v, n - 1, k);
        if n - 1 == at {
            let l = s[at].list@;
            lemma_listed_same(l, t[at].list@, 0, l.len() as int, k);
        } else {
            assert(s[n - 1].list@ == t[n - 1].list@);
        }
    }
}

/// Sort the ket pairs by their shape.
#[verifier::spinoff_prover]
#[verifier::rlimit(40)]
fn sort_kets<T: Real>(
    prep: &Prepared<T>,
    pairs: &Vec<(usize, usize)>,
    pair_data: &Vec<ShellPairData<T>>,
    Ghost(p): Ghost<PairList<T>>,
) -> (buckets: Vec<Bucket>)
    requires
        prep.valid(),
        lists_pairs(p, prep.shells@, pairs@, pair_data@),
    ensures
        forall|k: int|
            0 <= k < p.pairs.len() ==> #[trigger] times_bucketed(
                buckets@,
                buckets@.len() as int,
                k,
            ) == 1,
        forall|b: int| 0 <= b < buckets@.len() ==> is_bucket(p, #[trigger] buckets@[b]),
        are_distinct(buckets@),
{
    let mut buckets: Vec<Bucket> = Vec::new();
    let mut k: usize = 0;
    while k < pairs.len()
        invariant
            k <= pairs@.len(),
            prep.valid(),
            lists_pairs(p, prep.shells@, pairs@, pair_data@),
            forall|m: int|
                0 <= m < p.pairs.len() ==> #[trigger] times_bucketed(
                    buckets@,
                    buckets@.len() as int,
                    m,
                ) == (if m < k {
                    1int
                } else {
                    0int
                }),
            forall|b: int| 0 <= b < buckets@.len() ==> is_bucket(p, #[trigger] buckets@[b]),
            forall|b: int, g: int|
                0 <= b < buckets@.len() && 0 <= g < buckets@[b].list@.len()
                    ==> #[trigger] buckets@[b].list@[g] < k,
            are_distinct(buckets@),
        decreases pairs@.len() - k,
    {
        let (m, l) = pairs[k];
        proof {
            assert(p.pairs[k as int].1 <= p.pairs[k as int].0 < prep.shells@.len());
            assert(prep.shells@[m as int].valid());
            assert(prep.shells@[l as int].valid());
        }
        let key = (prep.shells[m].l + prep.shells[l].l, pair_data[k].pairs.len());
        assert(p.counts[k as int] == pair_data@[k as int].pairs@.len());
        let mut at: usize = 0;
        while at < buckets.len() && !(buckets[at].key.0 == key.0 && buckets[at].key.1 == key.1)
            invariant
                at <= buckets@.len(),
                forall|b: int| 0 <= b < at ==> (#[trigger] buckets@[b]).key != key,
            decreases buckets@.len() - at,
        {
            at = at + 1;
        }
        let v: u32 = k as u32;
        if at == buckets.len() {
            let ghost before = buckets@;
            buckets.push(Bucket { key, list: Vec::new() });
            proof {
                assert forall|q: int| 0 <= q < p.pairs.len() implies #[trigger] times_bucketed(
                    buckets@,
                    buckets@.len() as int,
                    q,
                ) == (if q < k {
                    1int
                } else {
                    0int
                }) by {
                    lemma_bucketed_same(before, buckets@, before.len() as int, q);
                    assert(times_bucketed(before, before.len() as int, q) == (if q < k {
                        1int
                    } else {
                        0int
                    }));
                }
                assert forall|b: int| 0 <= b < buckets@.len() implies is_bucket(
                    p,
                    #[trigger] buckets@[b],
                ) by {
                    if b < before.len() {
                        assert(is_bucket(p, before[b]));
                    }
                }
                assert forall|b: int, g: int|
                    0 <= b < buckets@.len() && 0 <= g
                        < buckets@[b].list@.len() implies #[trigger] buckets@[b].list@[g] < k by {
                    assert(b < before.len());
                    assert(before[b].list@[g] < k);
                }
            }
        }
        let ghost before = buckets@;
        let slot = &mut buckets[at];
        slot.list.push(v);
        proof {
            assert forall|q: int| 0 <= q < p.pairs.len() implies #[trigger] times_bucketed(
                buckets@,
                buckets@.len() as int,
                q,
            ) == (if q < k + 1 {
                1int
            } else {
                0int
            }) by {
                lemma_bucketed_push(before, buckets@, at as int, v, buckets@.len() as int, q);
                assert(times_bucketed(before, before.len() as int, q) == (if q < k {
                    1int
                } else {
                    0int
                }));
            }
            assert forall|b: int| 0 <= b < buckets@.len() implies is_bucket(
                p,
                #[trigger] buckets@[b],
            ) by {
                assert(is_bucket(p, before[b]));
                if b == at {
                    let list = buckets@[b].list@;
                    assert forall|g: int| 0 <= g < list.len() implies (#[trigger] list[g])
                        < p.pairs.len() && ket_shape(p, list[g] as int) == (
                        buckets@[b].key.0 as int,
                        buckets@[b].key.1 as int,
                    ) by {
                        if g < before[b].list@.len() {
                            assert(before[b].list@[g] == list[g]);
                        }
                    }
                    assert forall|g: int, h: int| 0 <= g < h < list.len() implies #[trigger] list[g]
                        < #[trigger] list[h] by {
                        assert(before[b].list@[g] == list[g]);
                        assert(before[b].list@[g] < k);
                        if h < before[b].list@.len() {
                            assert(before[b].list@[h] == list[h]);
                        }
                    }
                }
            }
            assert forall|b: int, g: int|
                0 <= b < buckets@.len() && 0 <= g
                    < buckets@[b].list@.len() implies #[trigger] buckets@[b].list@[g] < k + 1 by {
                if g < before[b].list@.len() {
                    assert(before[b].list@[g] < k);
                }
            }
            assert forall|b: int, c: int| 0 <= b < c < buckets@.len() implies (
            #[trigger] buckets@[b]).key != (#[trigger] buckets@[c]).key by {
                assert(before[b].key == buckets@[b].key && before[c].key == buckets@[c].key);
                assert(before[b].key != before[c].key);
            }
        }
        k = k + 1;
    }
    buckets
}

/// Whether the ghost list shows the pairs and the numbers of their primitive pairs.
pub open spec fn lists_pairs<T: Real>(
    p: PairList<T>,
    shells: Seq<Shell<T>>,
    pairs: Seq<(usize, usize)>,
    data: Seq<ShellPairData<T>>,
) -> bool {
    &&& p.shells == shells
    &&& p.pairs == pairs
    &&& p.counts.len() == pairs.len()
    &&& data.len() == pairs.len()
    &&& pairs.len() <= u32::MAX
    &&& forall|k: int|
        0 <= k < pairs.len() ==> #[trigger] p.counts[k] == data[k].pairs@.len()
    &&& forall|k: int|
        0 <= k < pairs.len() ==> (#[trigger] pairs[k]).1 <= pairs[k].0 < shells.len()
}

/// Every ket pair stands as often in the groups and the list from the given ends on, and
/// among those that wait, as in the first `q` buckets and the first `r` entries of the
/// next.
spec fn balanced(
    batches: Seq<[u32; 4]>,
    b0: int,
    scalars: Seq<u32>,
    s0: int,
    pending: Seq<u32>,
    buckets: Seq<Bucket>,
    q: int,
    r: int,
    n: int,
) -> bool {
    forall|k: int|
        0 <= k < n ==> #[trigger] times_grouped(batches, b0, batches.len() as int, k)
            + times_listed(scalars, s0, scalars.len() as int, k) + times_listed(
            pending,
            0,
            pending.len() as int,
            k,
        ) == times_bucketed(buckets, q, k) + if q < buckets.len() {
            times_listed(buckets[q].list@, 0, r, k)
        } else {
            0
        }
}

impl EriBatchSchedule {
    /// Whether the groups and entries from the given ends on are those of bra pair `b`, and
    /// what stands before them is as it was.
    spec fn extends<T: Real>(
        self,
        was: Self,
        engine: Engine,
        p: PairList<T>,
        b: int,
    ) -> bool {
        let b0 = was.batches@.len() as int;
        let s0 = was.scalars@.len() as int;
        &&& self.batch_offsets@ == was.batch_offsets@
        &&& self.scalar_offsets@ == was.scalar_offsets@
        &&& b0 <= self.batches@.len()
        &&& s0 <= self.scalars@.len()
        &&& forall|g: int| 0 <= g < b0 ==> #[trigger] self.batches@[g] == was.batches@[g]
        &&& forall|g: int| 0 <= g < s0 ==> #[trigger] self.scalars@[g] == was.scalars@[g]
        &&& forall|g: int|
            b0 <= g < self.batches@.len() ==> is_group(engine, p, b, #[trigger] self.batches@[g])
        &&& forall|g: int|
            s0 <= g < self.scalars@.len() ==> (#[trigger] self.scalars@[g]) < p.pairs.len()
    }

    /// How many ket pairs of the shape `key` have been added to the list.
    spec fn added_of<T: Real>(
        self,
        was: Self,
        engine: Engine,
        p: PairList<T>,
        b: int,
        key: (int, int, int, int),
    ) -> int {
        times_of_shape(
            engine,
            p,
            b,
            self.scalars@,
            was.scalars@.len() as int,
            self.scalars@.len() as int,
            key,
        )
    }

    /// Whether as many ket pairs of every shape have been added as in `other`.
    spec fn added_of_same<T: Real>(
        self,
        other: Self,
        was: Self,
        engine: Engine,
        p: PairList<T>,
        b: int,
    ) -> bool {
        forall|key: (int, int, int, int)| #[trigger]
            self.added_of(was, engine, p, b, key) == other.added_of(was, engine, p, b, key)
    }

    /// Add one ket pair to the list.
    fn push_single<T: Real>(
        &mut self,
        v: u32,
        Ghost(was): Ghost<Self>,
        Ghost(engine): Ghost<Engine>,
        Ghost(p): Ghost<PairList<T>>,
        Ghost(b): Ghost<int>,
    )
        requires
            old(self).extends(was, engine, p, b),
            v < p.pairs.len(),
        ensures
            final(self).extends(was, engine, p, b),
            final(self).batches@ == old(self).batches@,
            final(self).scalars@ == old(self).scalars@.push(v),
            forall|key: (int, int, int, int)| #[trigger]
                final(self).added_of(was, engine, p, b, key) == old(self).added_of(
                    was,
                    engine,
                    p,
                    b,
                    key,
                ) + (if key_at(engine, p, b, v as int) == Some(key) {
                    1int
                } else {
                    0int
                }),
    {
        let ghost sc = self.scalars@;
        self.scalars.push(v);
        proof {
            assert forall|key: (int, int, int, int)| #[trigger]
                self.added_of(was, engine, p, b, key) == old(self).added_of(
                    was,
                    engine,
                    p,
                    b,
                    key,
                ) + (if key_at(engine, p, b, v as int) == Some(key) {
                    1int
                } else {
                    0int
                }) by {
                lemma_shape_same(
                    engine,
                    p,
                    b,
                    sc,
                    self.scalars@,
                    was.scalars@.len() as int,
                    sc.len() as int,
                    key,
                );
            }
        }
    }

    /// Add one group.
    fn push_group<T: Real>(
        &mut self,
        g: [u32; 4],
        Ghost(was): Ghost<Self>,
        Ghost(engine): Ghost<Engine>,
        Ghost(p): Ghost<PairList<T>>,
        Ghost(b): Ghost<int>,
    )
        requires
            old(self).extends(was, engine, p, b),
            is_group(engine, p, b, g),
        ensures
            final(self).extends(was, engine, p, b),
            final(self).scalars@ == old(self).scalars@,
            final(self).batches@ == old(self).batches@.push(g),
    {
        self.batches.push(g);
    }

    /// Sort the ket pairs of one bucket for one bra pair.
    #[verifier::spinoff_prover]
    #[verifier::rlimit(60)]
    fn add_bucket<T: Real>(
        &mut self,
        prep: &Prepared<T>,
        engine: Engine,
        pairs: &Vec<(usize, usize)>,
        pair_data: &Vec<ShellPairData<T>>,
        buckets: &Vec<Bucket>,
        q: usize,
        b: usize,
        Ghost(was): Ghost<Self>,
        Ghost(p): Ghost<PairList<T>>,
    )
        requires
            prep.valid(),
            lists_pairs(p, prep.shells@, pairs@, pair_data@),
            b < pairs@.len(),
            q < buckets@.len(),
            is_bucket(p, buckets@[q as int]),
            old(self).extends(was, engine, p, b as int),
            balanced(
                old(self).batches@,
                was.batches@.len() as int,
                old(self).scalars@,
                was.scalars@.len() as int,
                Seq::empty(),
                buckets@,
                q as int,
                0,
                p.pairs.len() as int,
            ),
        ensures
            final(self).extends(was, engine, p, b as int),
            forall|key: (int, int, int, int)| #[trigger]
                final(self).added_of(was, engine, p, b as int, key) <= old(self).added_of(
                    was,
                    engine,
                    p,
                    b as int,
                    key,
                ) + (if (key.1, key.3) == (
                    buckets@[q as int].key.0 as int,
                    buckets@[q as int].key.1 as int,
                ) {
                    3int
                } else {
                    0int
                }),
            balanced(
                final(self).batches@,
                was.batches@.len() as int,
                final(self).scalars@,
                was.scalars@.len() as int,
                Seq::empty(),
                buckets@,
                q + 1,
                0,
                p.pairs.len() as int,
            ),
    {
        let ghost n = p.pairs.len() as int;
        let ghost (b0, s0) = (was.batches@.len() as int, was.scalars@.len() as int);
        let (i, j) = pairs[b];
        proof {
            assert(p.pairs[b as int].1 <= p.pairs[b as int].0 < prep.shells@.len());
        }
        let (si, sj) = (prep.side(i), prep.side(j));
        let count = pair_data[b].pairs.len();
        assert(p.counts[b as int] == count);
        let mut pending: Vec<u32> = Vec::new();
        let ghost list = buckets@[q as int].list@;
        let ghost key = buckets@[q as int].key;
        assert(pending@ =~= Seq::<u32>::empty());
        let mut r: usize = 0;
        while r < buckets[q].list.len()
            invariant
                r <= list.len(),
                n == p.pairs.len(),
                b0 == was.batches@.len(),
                s0 == was.scalars@.len(),
                q < buckets@.len(),
                list == buckets@[q as int].list@,
                key == buckets@[q as int].key,
                is_bucket(p, buckets@[q as int]),
                prep.valid(),
                lists_pairs(p, prep.shells@, pairs@, pair_data@),
                b < n,
                (i, j) == pairs@[b as int],
                si.valid(),
                sj.valid(),
                *si.shell == prep.shells@[i as int],
                *sj.shell == prep.shells@[j as int],
                si.shown() == crate::quartet::normalized(*si.shell),
                sj.shown() == crate::quartet::normalized(*sj.shell),
                count == p.counts[b as int],
                self.extends(was, engine, p, b as int),
                pending@.len() < 4,
                self.added_of_same(*old(self), was, engine, p, b as int),
                forall|m: int, o: int|
                    0 <= m < o < pending@.len() ==> #[trigger] pending@[m]
                        < #[trigger] pending@[o],
                forall|m: int, o: int|
                    0 <= m < pending@.len() && r <= o < list.len() ==> #[trigger] pending@[m]
                        < #[trigger] list[o],
                forall|m: int|
                    0 <= m < pending@.len() ==> (#[trigger] pending@[m]) < n && key_at(
                        engine,
                        p,
                        b as int,
                        pending@[m] as int,
                    ) is Some && ket_shape(p, pending@[m] as int) == (key.0 as int, key.1 as int),
                balanced(
                    self.batches@,
                    b0,
                    self.scalars@,
                    s0,
                    pending@,
                    buckets@,
                    q as int,
                    r as int,
                    n,
                ),
            decreases list.len() - r,
        {
            let v = buckets[q].list[r];
            assert(list[r as int] == v);
            let ket: usize = v as usize;
            let (k, l) = pairs[ket];
            proof {
                assert(p.pairs[ket as int].1 <= p.pairs[ket as int].0 < prep.shells@.len());
                assert(p.counts[ket as int] == pair_data@[ket as int].pairs@.len());
            }
            let sides = [si, sj, prep.side(k), prep.side(l)];
            assert(shown(sides) == four_of(p.shells, i as int, j as int, k as int, l as int));
            let shape = batch_key(engine, sides, [count, pair_data[ket].pairs.len()]);
            let ghost (ba, sc, pe) = (self.batches@, self.scalars@, pending@);
            let ghost held = *self;
            assert(forall|o: int| r < o < list.len() ==> list[r as int] < #[trigger] list[o]);
            assert(shape is Some <==> key_at(engine, p, b as int, ket as int) is Some);
            if shape.is_some() {
                pending.push(v);
                if pending.len() == 4 {
                    let g = [pending[0], pending[1], pending[2], pending[3]];
                    assert(is_group(engine, p, b as int, g)) by {
                        assert forall|lane: int| 0 <= lane < 4 implies (#[trigger] g[lane]) < n
                            && key_at(engine, p, b as int, g[lane] as int) == key_at(
                            engine,
                            p,
                            b as int,
                            g[0] as int,
                        ) by {
                            assert(g[lane] == pending@[lane]);
                            assert(g[0] == pending@[0]);
                        }
                    }
                    self.push_group::<T>(g, Ghost(was), Ghost(engine), Ghost(p), Ghost(b as int));
                    let ghost full = pending@;
                    pending = Vec::new();
                    proof {
                        assert forall|m: int| 0 <= m < n implies #[trigger] times_grouped(
                            self.batches@,
                            b0,
                            self.batches@.len() as int,
                            m,
                        ) + times_listed(self.scalars@, s0, self.scalars@.len() as int, m)
                            + times_listed(pending@, 0, pending@.len() as int, m)
                            == times_bucketed(buckets@, q as int, m) + times_listed(
                            list,
                            0,
                            r + 1,
                            m,
                        ) by {
                            assert(times_grouped(ba, b0, ba.len() as int, m) >= 0) by {
                                lemma_grouped_positive(ba, b0, ba.len() as int, m);
                            }
                            lemma_grouped_same(ba, self.batches@, b0, ba.len() as int, m);
                            lemma_listed_same(pe, full, 0, pe.len() as int, m);
                            lemma_listed_same(g@, full, 0, 4, m);
                        }
                    }
                } else {
                    proof {
                        assert forall|m: int| 0 <= m < n implies #[trigger] times_grouped(
                            self.batches@,
                            b0,
                            self.batches@.len() as int,
                            m,
                        ) + times_listed(self.scalars@, s0, self.scalars@.len() as int, m)
                            + times_listed(pending@, 0, pending@.len() as int, m)
                            == times_bucketed(buckets@, q as int, m) + times_listed(
                            list,
                            0,
                            r + 1,
                            m,
                        ) by {
                            lemma_listed_same(pe, pending@, 0, pe.len() as int, m);
                        }
                    }
                }
            } else {
                self.push_single::<T>(v, Ghost(was), Ghost(engine), Ghost(p), Ghost(b as int));
                proof {
                    assert forall|m: int| 0 <= m < n implies #[trigger] times_grouped(
                        self.batches@,
                        b0,
                        self.batches@.len() as int,
                        m,
                    ) + times_listed(self.scalars@, s0, self.scalars@.len() as int, m)
                        + times_listed(pending@, 0, pending@.len() as int, m) == times_bucketed(
                        buckets@,
                        q as int,
                        m,
                    ) + times_listed(list, 0, r + 1, m) by {
                        assert(times_grouped(ba, b0, ba.len() as int, m) >= 0) by {
                            lemma_grouped_positive(ba, b0, ba.len() as int, m);
                        }
                        lemma_listed_same(sc, self.scalars@, s0, sc.len() as int, m);
                    }
                }
            }
            assert(self.added_of_same(*old(self), was, engine, p, b as int)) by {
                assert forall|key: (int, int, int, int)| #[trigger]
                    self.added_of(was, engine, p, b as int, key) == old(self).added_of(
                        was,
                        engine,
                        p,
                        b as int,
                        key,
                    ) by {
                    assert(held.added_of(was, engine, p, b as int, key) == old(self).added_of(
                        was,
                        engine,
                        p,
                        b as int,
                        key,
                    ));
                }
            }
            r = r + 1;
        }
        let ghost waiting = pending@;
        let mut m: usize = 0;
        proof {
            assert forall|k: int| 0 <= k < n implies #[trigger] times_grouped(
                self.batches@,
                b0,
                self.batches@.len() as int,
                k,
            ) + times_listed(self.scalars@, s0, self.scalars@.len() as int, k) + times_listed(
                waiting,
                0,
                waiting.len() as int,
                k,
            ) - times_listed(waiting, 0, 0, k) == times_bucketed(buckets@, q + 1, k) by {}
        }
        while m < pending.len()
            invariant
                m <= pending@.len(),
                n == p.pairs.len(),
                b0 == was.batches@.len(),
                s0 == was.scalars@.len(),
                waiting == pending@,
                pending@.len() <= 3,
                key == buckets@[q as int].key,
                forall|k: int|
                    0 <= k < pending@.len() ==> (#[trigger] pending@[k]) < n && ket_shape(
                        p,
                        pending@[k] as int,
                    ) == (key.0 as int, key.1 as int),
                forall|x: (int, int, int, int)| #[trigger]
                    self.added_of(was, engine, p, b as int, x) <= old(self).added_of(
                        was,
                        engine,
                        p,
                        b as int,
                        x,
                    ) + (if (x.1, x.3) == (key.0 as int, key.1 as int) {
                        m as int
                    } else {
                        0int
                    }),
                self.extends(was, engine, p, b as int),
                forall|k: int|
                    0 <= k < n ==> #[trigger] times_grouped(
                        self.batches@,
                        b0,
                        self.batches@.len() as int,
                        k,
                    ) + times_listed(self.scalars@, s0, self.scalars@.len() as int, k)
                        + times_listed(waiting, 0, waiting.len() as int, k) - times_listed(
                        waiting,
                        0,
                        m as int,
                        k,
                    ) == times_bucketed(buckets@, q + 1, k),
            decreases pending@.len() - m,
        {
            let ghost sc = self.scalars@;
            let ghost ba = self.batches@;
            let ghost held = *self;
            assert(pending@[m as int] < n);
            self.push_single::<T>(pending[m], Ghost(was), Ghost(engine), Ghost(p), Ghost(b as int));
            proof {
                assert forall|k: int| 0 <= k < n implies #[trigger] times_grouped(
                    self.batches@,
                    b0,
                    self.batches@.len() as int,
                    k,
                ) + times_listed(self.scalars@, s0, self.scalars@.len() as int, k) + times_listed(
                    waiting,
                    0,
                    waiting.len() as int,
                    k,
                ) - times_listed(waiting, 0, m + 1, k) == times_bucketed(buckets@, q + 1, k) by {
                    lemma_listed_same(sc, self.scalars@, s0, sc.len() as int, k);
                    assert(times_grouped(ba, b0, ba.len() as int, k) >= 0) by {
                        lemma_grouped_positive(ba, b0, ba.len() as int, k);
                    }
                }
            }
            proof {
                assert forall|x: (int, int, int, int)| #[trigger]
                    self.added_of(was, engine, p, b as int, x) <= old(self).added_of(
                        was,
                        engine,
                        p,
                        b as int,
                        x,
                    ) + (if (x.1, x.3) == (key.0 as int, key.1 as int) {
                        m + 1
                    } else {
                        0int
                    }) by {
                    assert(held.added_of(was, engine, p, b as int, x) <= old(self).added_of(
                        was,
                        engine,
                        p,
                        b as int,
                        x,
                    ) + (if (x.1, x.3) == (key.0 as int, key.1 as int) {
                        m as int
                    } else {
                        0int
                    }));
                }
            }
            m = m + 1;
        }
    }

    /// The schedule of all bra pairs.
    #[verifier::spinoff_prover]
    #[verifier::rlimit(60)]
    pub(crate) fn new<T: Real>(
        prep: &Prepared<T>,
        engine: Engine,
        pairs: &Vec<(usize, usize)>,
        pair_data: &Vec<ShellPairData<T>>,
        Ghost(p): Ghost<PairList<T>>,
    ) -> (schedule: Self)
        requires
            prep.valid(),
            lists_pairs(p, prep.shells@, pairs@, pair_data@),
        ensures
            schedule.covers(engine, p, pairs@.len() as int),
    {
        let ghost n = p.pairs.len() as int;
        let buckets = sort_kets(prep, pairs, pair_data, Ghost(p));
        let mut schedule = EriBatchSchedule {
            batch_offsets: vec![0],
            batches: Vec::new(),
            scalar_offsets: vec![0],
            scalars: Vec::new(),
        };
        let mut b: usize = 0;
        while b < pairs.len()
            invariant
                b <= pairs@.len(),
                n == p.pairs.len(),
                prep.valid(),
                lists_pairs(p, prep.shells@, pairs@, pair_data@),
                forall|k: int|
                    0 <= k < n ==> #[trigger] times_bucketed(buckets@, buckets@.len() as int, k)
                        == 1,
                forall|c: int| 0 <= c < buckets@.len() ==> is_bucket(p, #[trigger] buckets@[c]),
                are_distinct(buckets@),
                schedule.covers(engine, p, b as int),
            decreases pairs@.len() - b,
        {
            let ghost was = schedule;
            let ghost (b0, s0) = (was.batches@.len() as int, was.scalars@.len() as int);
            let mut q: usize = 0;
            assert(balanced(
                schedule.batches@,
                b0,
                schedule.scalars@,
                s0,
                Seq::empty(),
                buckets@,
                0,
                0,
                n,
            ));
            while q < buckets.len()
                invariant
                    q <= buckets@.len(),
                    b < pairs@.len(),
                    n == p.pairs.len(),
                    b0 == was.batches@.len(),
                    s0 == was.scalars@.len(),
                    prep.valid(),
                    lists_pairs(p, prep.shells@, pairs@, pair_data@),
                    forall|c: int| 0 <= c < buckets@.len() ==> is_bucket(p, #[trigger] buckets@[c]),
                    are_distinct(buckets@),
                    schedule.extends(was, engine, p, b as int),
                    forall|key: (int, int, int, int)| #[trigger]
                        schedule.added_of(was, engine, p, b as int, key) <= 3,
                    forall|key: (int, int, int, int), c: int|
                        q <= c < buckets@.len() && (key.1, key.3) == (
                            (#[trigger] buckets@[c]).key.0 as int,
                            buckets@[c].key.1 as int,
                        ) ==> #[trigger] schedule.added_of(was, engine, p, b as int, key) <= 0,
                    balanced(
                        schedule.batches@,
                        b0,
                        schedule.scalars@,
                        s0,
                        Seq::empty(),
                        buckets@,
                        q as int,
                        0,
                        n,
                    ),
                decreases buckets@.len() - q,
            {
                assert(is_bucket(p, buckets@[q as int]));
                let ghost held = schedule;
                schedule.add_bucket(
                    prep,
                    engine,
                    pairs,
                    pair_data,
                    &buckets,
                    q,
                    b,
                    Ghost(was),
                    Ghost(p),
                );
                proof {
                    let x = buckets@[q as int].key;
                    assert forall|key: (int, int, int, int)| #[trigger]
                        schedule.added_of(was, engine, p, b as int, key) <= 3 by {
                        assert(held.added_of(was, engine, p, b as int, key) <= 3);
                        if (key.1, key.3) == (x.0 as int, x.1 as int) {
                            assert(held.added_of(was, engine, p, b as int, key) <= 0);
                        }
                    }
                    assert forall|key: (int, int, int, int), c: int|
                        q + 1 <= c < buckets@.len() && (key.1, key.3) == (
                            (#[trigger] buckets@[c]).key.0 as int,
                            buckets@[c].key.1 as int,
                        ) implies #[trigger] schedule.added_of(was, engine, p, b as int, key)
                        <= 0 by {
                        assert(buckets@[q as int].key != buckets@[c].key);
                        assert(held.added_of(was, engine, p, b as int, key) <= 0);
                    }
                }
                q = q + 1;
            }
            let ghost full = schedule;
            let (nb, ns) = (schedule.batches.len(), schedule.scalars.len());
            schedule.batch_offsets.push(nb);
            schedule.scalar_offsets.push(ns);
            proof {
                let bo = schedule.batch_offsets@;
                let so = schedule.scalar_offsets@;
                let pb = b as int;
                assert forall|c: int, d: int| 0 <= c <= d <= b + 1 implies #[trigger] bo[c]
                    <= #[trigger] bo[d] by {
                    if d == b + 1 && c < d {
                        assert(was.batch_offsets@[c] <= was.batch_offsets@[pb]);
                    } else if d <= b {
                        assert(was.batch_offsets@[c] <= was.batch_offsets@[d]);
                    }
                }
                assert forall|c: int, d: int| 0 <= c <= d <= b + 1 implies #[trigger] so[c]
                    <= #[trigger] so[d] by {
                    if d == b + 1 && c < d {
                        assert(was.scalar_offsets@[c] <= was.scalar_offsets@[pb]);
                    } else if d <= b {
                        assert(was.scalar_offsets@[c] <= was.scalar_offsets@[d]);
                    }
                }
                assert forall|c: int, g: int|
                    0 <= c < b + 1 && schedule.batch_offsets@[c] <= g
                        < schedule.batch_offsets@[c + 1] implies #[trigger] is_group(
                    engine,
                    p,
                    c,
                    schedule.batches@[g],
                ) by {
                    if c < b {
                        assert(was.batch_offsets@[c + 1] <= was.batch_offsets@[pb]);
                        assert(was.batch_offsets@[c] == schedule.batch_offsets@[c]);
                        assert(schedule.batches@[g] == was.batches@[g]);
                        assert(is_group(engine, p, c, was.batches@[g]));
                    }
                }
                assert forall|g: int| 0 <= g < schedule.scalars@.len() implies (
                #[trigger] schedule.scalars@[g]) < n by {
                    if g < s0 {
                        assert(schedule.scalars@[g] == was.scalars@[g]);
                    }
                }
                assert forall|c: int, k: int|
                    0 <= c < b + 1 && 0 <= k < n implies #[trigger] schedule.times(c, k) == 1 by {
                    if c < b {
                        assert(was.times(c, k) == 1);
                        assert(was.batch_offsets@[c + 1] <= was.batch_offsets@[pb]);
                        assert(was.scalar_offsets@[c + 1] <= was.scalar_offsets@[pb]);
                        lemma_grouped_same(
                            was.batches@,
                            schedule.batches@,
                            was.batch_offsets@[c] as int,
                            was.batch_offsets@[c + 1] as int,
                            k,
                        );
                        lemma_listed_same(
                            was.scalars@,
                            schedule.scalars@,
                            was.scalar_offsets@[c] as int,
                            was.scalar_offsets@[c + 1] as int,
                            k,
                        );
                    } else {
                        assert(times_bucketed(buckets@, buckets@.len() as int, k) == 1);
                        assert(times_grouped(
                            full.batches@,
                            b0,
                            full.batches@.len() as int,
                            k,
                        ) + times_listed(full.scalars@, s0, full.scalars@.len() as int, k)
                            + times_listed(Seq::<u32>::empty(), 0, 0, k) == 1);
                    }
                }
                assert forall|c: int, key: (int, int, int, int)|
                    0 <= c < b + 1 implies #[trigger] schedule.left_over(engine, p, c, key)
                    <= 3 by {
                    if c < b {
                        assert(was.left_over(engine, p, c, key) <= 3);
                        assert(was.scalar_offsets@[c + 1] <= was.scalar_offsets@[pb]);
                        lemma_shape_same(
                            engine,
                            p,
                            c,
                            was.scalars@,
                            schedule.scalars@,
                            was.scalar_offsets@[c] as int,
                            was.scalar_offsets@[c + 1] as int,
                            key,
                        );
                    } else {
                        assert(full.added_of(was, engine, p, pb, key) <= 3);
                    }
                }
            }
            b = b + 1;
        }
        schedule
    }
}

} // verus!
