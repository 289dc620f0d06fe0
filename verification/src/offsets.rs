//! Consecutive ranges of given lengths: where each starts, and that every position
//! lies in exactly one of them.
use vstd::prelude::*;

verus! {

/// Where range `i` starts: the sum of the lengths before it.
pub open spec fn start(lens: Seq<int>, i: int) -> int
    decreases i,
{
    if i <= 0 {
        0
    } else {
        start(lens, i - 1) + lens[i - 1]
    }
}

/// Whether no length is negative.
pub open spec fn are_lengths(lens: Seq<int>) -> bool {
    forall|i: int| 0 <= i < lens.len() ==> #[trigger] lens[i] >= 0
}

/// Ranges start one after another.
pub proof fn lemma_start_grows(lens: Seq<int>, i: int, j: int)
    requires
        are_lengths(lens),
        0 <= i <= j <= lens.len(),
    ensures
        0 <= start(lens, i) <= start(lens, j),
        i < j ==> start(lens, i) + lens[i] <= start(lens, j),
    decreases j,
{
    if i < j {
        lemma_start_grows(lens, i, j - 1);
        if i == j - 1 {
            lemma_start_grows(lens, 0, i);
        }
    } else if i > 0 {
        lemma_start_grows(lens, i - 1, i - 1);
    }
}

/// A position determines the range it lies in and its place there.
pub proof fn law_ranges_are_disjoint(lens: Seq<int>, i: int, x: int, j: int, y: int)
    requires
        are_lengths(lens),
        0 <= i < lens.len(),
        0 <= j < lens.len(),
        0 <= x < lens[i],
        0 <= y < lens[j],
    ensures
        start(lens, i) + x == start(lens, j) + y <==> i == j && x == y,
        0 <= start(lens, i) + x < start(lens, lens.len() as int),
{
    lemma_start_grows(lens, i, lens.len() as int);
    if i < j {
        lemma_start_grows(lens, i, j);
    } else if j < i {
        lemma_start_grows(lens, j, i);
    }
}

/// The range that position `p` lies in, of those before `n`.
pub open spec fn range_of(lens: Seq<int>, p: int, n: int) -> int
    decreases n,
{
    if n <= 1 || start(lens, n - 1) <= p {
        n - 1
    } else {
        range_of(lens, p, n - 1)
    }
}

/// Every position below the total lies in a range.
pub proof fn law_every_position_lies_in_a_range(lens: Seq<int>, p: int, n: int)
    requires
        are_lengths(lens),
        0 <= n <= lens.len(),
        0 <= p < start(lens, n),
    ensures
        0 <= range_of(lens, p, n) < n,
        start(lens, range_of(lens, p, n)) <= p < start(lens, range_of(lens, p, n)) + lens[range_of(
            lens,
            p,
            n,
        )],
    decreases n,
{
    if n > 1 && start(lens, n - 1) > p {
        law_every_position_lies_in_a_range(lens, p, n - 1);
    }
}

/// The lengths held in machine integers.
pub open spec fn lengths(lens: Seq<usize>) -> Seq<int> {
    Seq::new(lens.len(), |i: int| lens[i] as int)
}

/// Where each range starts, and the total after the last.
pub fn starts(lens: &Vec<usize>) -> (r: Vec<usize>)
    requires
        start(lengths(lens@), lens@.len() as int) <= usize::MAX,
        lens@.len() < usize::MAX,
    ensures
        r@.len() == lens@.len() + 1,
        forall|i: int| 0 <= i <= lens@.len() ==> #[trigger] r@[i] == start(lengths(lens@), i),
{
    let mut r: Vec<usize> = Vec::new();
    let mut at: usize = 0;
    let mut i: usize = 0;
    r.push(0);
    while i < lens.len()
        invariant
            i <= lens@.len(),
            start(lengths(lens@), lens@.len() as int) <= usize::MAX,
            r@.len() == i + 1,
            at == start(lengths(lens@), i as int),
            forall|k: int| 0 <= k <= i ==> #[trigger] r@[k] == start(lengths(lens@), k),
        decreases lens@.len() - i,
    {
        proof {
            lemma_start_grows(lengths(lens@), i + 1, lens@.len() as int);
        }
        at = at + lens[i];
        r.push(at);
        i = i + 1;
    }
    r
}

} // verus!
