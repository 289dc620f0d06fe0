//! The queue that gathers items of one shape into groups of four.
use vstd::prelude::*;

use crate::eri_batch::BatchKey;

verus! {

/// A ket pair by number, and the densities that it is contracted with as bits.
pub type Item = (usize, u64);

/// Whether one shape comes before another.
pub open spec fn key_less(a: BatchKey, b: BatchKey) -> bool {
    a.0 < b.0 || (a.0 == b.0 && (a.1 < b.1 || (a.1 == b.1 && (a.2 < b.2 || (a.2 == b.2 && a.3
        < b.3)))))
}

/// Whether one shape comes before another.
fn is_key_less(a: BatchKey, b: BatchKey) -> (r: bool)
    ensures
        r == key_less(a, b),
{
    a.0 < b.0 || (a.0 == b.0 && (a.1 < b.1 || (a.1 == b.1 && (a.2 < b.2 || (a.2 == b.2 && a.3
        < b.3)))))
}

/// Where a shape belongs among the first `n` shapes: after the last that is less.
pub open spec fn place_of(keys: Seq<BatchKey>, key: BatchKey, n: int) -> int
    decreases n,
{
    if n <= 0 {
        0
    } else if key_less(keys[n - 1], key) {
        n
    } else {
        place_of(keys, key, n - 1)
    }
}

/// What waits: for every shape the items that have come.
#[verifier::ext_equal]
pub struct Waiting<A> {
    pub keys: Seq<BatchKey>,
    pub lists: Seq<Seq<A>>,
}

impl<A> Waiting<A> {
    /// Nothing waits.
    pub open spec fn nothing() -> Self {
        Waiting { keys: Seq::empty(), lists: Seq::empty() }
    }

    /// Every shape has its list, and the shapes ascend.
    pub open spec fn valid(self) -> bool {
        &&& self.keys.len() == self.lists.len()
        &&& forall|a: int, b: int|
            0 <= a < b < self.keys.len() ==> key_less(
                #[trigger] self.keys[a],
                #[trigger] self.keys[b],
            )
        &&& forall|b: int| 0 <= b < self.lists.len() ==> (#[trigger] self.lists[b]).len() < 4
    }

    /// Whether items of a shape have come.
    pub open spec fn knows(self, key: BatchKey) -> bool {
        let at = place_of(self.keys, key, self.keys.len() as int);
        at < self.keys.len() && self.keys[at] == key
    }

    /// What waits once an item of a shape has come: the fourth takes the others along.
    pub open spec fn joined_by(self, key: BatchKey, item: A) -> Self {
        let at = place_of(self.keys, key, self.keys.len() as int);
        if self.knows(key) {
            Waiting {
                keys: self.keys,
                lists: self.lists.update(
                    at,
                    if self.lists[at].len() == 3 {
                        Seq::empty()
                    } else {
                        self.lists[at].push(item)
                    },
                ),
            }
        } else {
            Waiting {
                keys: self.keys.insert(at, key),
                lists: self.lists.insert(at, seq![item]),
            }
        }
    }

    /// What is released once an item of a shape has come.
    pub open spec fn released_by(self, key: BatchKey, item: A) -> Seq<A> {
        let at = place_of(self.keys, key, self.keys.len() as int);
        if self.knows(key) && self.lists[at].len() == 3 {
            self.lists[at].push(item)
        } else {
            Seq::empty()
        }
    }

    /// What waits, shape by shape, of the first `n` shapes.
    pub open spec fn listed(self, n: int) -> Seq<A>
        decreases n,
    {
        if n <= 0 {
            Seq::empty()
        } else {
            self.listed(n - 1) + self.lists[n - 1]
        }
    }

    /// Whether an item waits.
    pub open spec fn holds(self, item: A) -> bool {
        exists|b: int, i: int|
            0 <= b < self.lists.len() && 0 <= i < self.lists[b].len() && #[trigger]
                self.lists[b][i] == item
    }
}

impl Waiting<Item> {
    /// How often a ket pair waits with the first `n` shapes.
    pub open spec fn times(self, n: int, ket: int) -> int
        decreases n,
    {
        if n <= 0 {
            0
        } else {
            self.times(n - 1, ket) + times_in(
                self.lists[n - 1],
                self.lists[n - 1].len() as int,
                ket,
            )
        }
    }
}

/// How often a ket pair stands among the first `n` items.
pub open spec fn times_in(s: Seq<Item>, n: int, ket: int) -> int
    decreases n,
{
    if n <= 0 {
        0
    } else {
        times_in(s, n - 1, ket) + if s[n - 1].0 == ket {
            1int
        } else {
            0int
        }
    }
}

proof fn lemma_times_same(s: Seq<Item>, t: Seq<Item>, n: int, ket: int)
    requires
        n <= s.len(),
        n <= t.len(),
        forall|i: int| 0 <= i < n ==> #[trigger] s[i] == t[i],
    ensures
        times_in(s, n, ket) == times_in(t, n, ket),
    decreases n,
{
    if n > 0 {
        lemma_times_same(s, t, n - 1, ket);
    }
}

/// Items of two lists are counted in both.
pub proof fn lemma_times_joined(s: Seq<Item>, t: Seq<Item>, ket: int)
    ensures
        times_in(s + t, (s + t).len() as int, ket) == times_in(s, s.len() as int, ket) + times_in(
            t,
            t.len() as int,
            ket,
        ),
    decreases t.len(),
{
    if t.len() == 0 {
        assert(s + t =~= s);
    } else {
        let u = t.drop_last();
        lemma_times_joined(s, u, ket);
        assert((s + t).drop_last() =~= s + u);
        lemma_times_same(s + t, s + u, (s + u).len() as int, ket);
        lemma_times_same(t, u, u.len() as int, ket);
    }
}

proof fn lemma_waiting_same(a: Waiting<Item>, b: Waiting<Item>, n: int, ket: int)
    requires
        n <= a.lists.len(),
        n <= b.lists.len(),
        forall|i: int| 0 <= i < n ==> #[trigger] a.lists[i] == b.lists[i],
    ensures
        a.times(n, ket) == b.times(n, ket),
    decreases n,
{
    if n > 0 {
        lemma_waiting_same(a, b, n - 1, ket);
    }
}

/// A place divides the shapes into those that are less and the others.
pub proof fn lemma_place(keys: Seq<BatchKey>, key: BatchKey, n: int)
    requires
        0 <= n <= keys.len(),
        forall|a: int, b: int|
            0 <= a < b < keys.len() ==> key_less(#[trigger] keys[a], #[trigger] keys[b]),
    ensures
        0 <= place_of(keys, key, n) <= n,
        forall|a: int| 0 <= a < place_of(keys, key, n) ==> key_less(#[trigger] keys[a], key),
        forall|a: int| place_of(keys, key, n) <= a < n ==> !key_less(#[trigger] keys[a], key),
    decreases n,
{
    if n > 0 && !key_less(keys[n - 1], key) {
        lemma_place(keys, key, n - 1);
    }
}

proof fn lemma_updated_times(w: Waiting<Item>, at: int, list: Seq<Item>, n: int, ket: int)
    requires
        0 <= at < w.lists.len(),
        n <= w.lists.len(),
    ensures
        (Waiting { keys: w.keys, lists: w.lists.update(at, list) }).times(n, ket) == w.times(n, ket)
            + if at < n {
            times_in(list, list.len() as int, ket) - times_in(
                w.lists[at],
                w.lists[at].len() as int,
                ket,
            )
        } else {
            0
        },
    decreases n,
{
    if n > 0 {
        lemma_updated_times(w, at, list, n - 1, ket);
    }
}

proof fn lemma_inserted_times(
    w: Waiting<Item>,
    keys: Seq<BatchKey>,
    at: int,
    list: Seq<Item>,
    n: int,
    ket: int,
)
    requires
        0 <= at <= w.lists.len(),
        at < n <= w.lists.len() + 1,
    ensures
        (Waiting { keys, lists: w.lists.insert(at, list) }).times(n, ket) == w.times(n - 1, ket)
            + times_in(list, list.len() as int, ket),
    decreases n,
{
    let v = Waiting { keys, lists: w.lists.insert(at, list) };
    if n - 1 > at {
        lemma_inserted_times(w, keys, at, list, n - 1, ket);
        assert(v.lists[n - 1] == w.lists[n - 2]);
    } else {
        lemma_waiting_same(v, w, n - 1, ket);
        assert(v.lists[n - 1] == list);
    }
}

/// What waits stays in order, and four are released or none.
pub proof fn lemma_joined_valid<A>(w: Waiting<A>, key: BatchKey, item: A)
    requires
        w.valid(),
    ensures
        w.joined_by(key, item).valid(),
        w.released_by(key, item).len() == 0 || w.released_by(key, item).len() == 4,
{
    let at = place_of(w.keys, key, w.keys.len() as int);
    lemma_place(w.keys, key, w.keys.len() as int);
    if !w.knows(key) {
        let v = w.joined_by(key, item);
        assert forall|a: int, b: int| 0 <= a < b < v.keys.len() implies key_less(
            #[trigger] v.keys[a],
            #[trigger] v.keys[b],
        ) by {
            if a < at && b > at {
                assert(key_less(w.keys[a], w.keys[b - 1]));
            } else if b < at {
                assert(key_less(w.keys[a], w.keys[b]));
            } else if a > at {
                assert(key_less(w.keys[a - 1], w.keys[b - 1]));
            } else if a == at {
                assert(!key_less(w.keys[b - 1], key));
                if b - 1 > at {
                    assert(key_less(w.keys[at], w.keys[b - 1]));
                }
            } else {
                assert(key_less(w.keys[a], key));
            }
        }
        assert forall|b: int| 0 <= b < v.lists.len() implies (#[trigger] v.lists[b]).len() < 4 by {
            if b > at {
                assert(v.lists[b] == w.lists[b - 1]);
            }
        }
    }
}

/// An item that comes waits or is released, and so does every item that waited.
pub proof fn law_no_item_is_lost(w: Waiting<Item>, key: BatchKey, item: Item, ket: int)
    requires
        w.valid(),
    ensures
        w.joined_by(key, item).valid(),
        ({
            let v = w.joined_by(key, item);
            let r = w.released_by(key, item);
            v.times(v.lists.len() as int, ket) + times_in(r, r.len() as int, ket) == w.times(
                w.lists.len() as int,
                ket,
            ) + if item.0 == ket {
                1int
            } else {
                0int
            }
        }),
        w.released_by(key, item).len() == 0 || w.released_by(key, item).len() == 4,
{
    let at = place_of(w.keys, key, w.keys.len() as int);
    lemma_place(w.keys, key, w.keys.len() as int);
    lemma_joined_valid(w, key, item);
    if w.knows(key) {
        let list = w.lists[at];
        assert(list.push(item) =~= list + seq![item]);
        lemma_times_joined(list, seq![item], ket);
        reveal_with_fuel(times_in, 2);
        if list.len() == 3 {
            lemma_updated_times(w, at, Seq::empty(), w.lists.len() as int, ket);
        } else {
            lemma_updated_times(w, at, list.push(item), w.lists.len() as int, ket);
        }
    } else {
        let v = w.joined_by(key, item);
        lemma_inserted_times(w, v.keys, at, seq![item], w.lists.len() as int + 1, ket);
        reveal_with_fuel(times_in, 2);
    }
}

/// An item waits or is released once another has come if and only if it waited or is the
/// one that came.
pub proof fn law_items_wait_or_are_released<A>(w: Waiting<A>, key: BatchKey, item: A, t: A)
    requires
        w.valid(),
    ensures
        w.joined_by(key, item).holds(t) || w.released_by(key, item).contains(t) <==> w.holds(t) || t
            == item,
{
    let at = place_of(w.keys, key, w.keys.len() as int);
    lemma_place(w.keys, key, w.keys.len() as int);
    let v = w.joined_by(key, item);
    let r = w.released_by(key, item);
    let shift = |c: int| if w.knows(key) || c < at { c } else { c + 1 };
    if t == item {
        if w.knows(key) && w.lists[at].len() == 3 {
            assert(r[3] == t);
        } else if w.knows(key) {
            assert(v.lists[at][w.lists[at].len() as int] == t);
        } else {
            assert(v.lists[at][0] == t);
        }
    }
    if w.holds(t) {
        let (c, i) = choose|c: int, i: int|
            0 <= c < w.lists.len() && 0 <= i < w.lists[c].len() && #[trigger] w.lists[c][i] == t;
        if w.knows(key) && c == at && w.lists[at].len() == 3 {
            assert(r[i] == t);
        } else {
            assert(v.lists[shift(c)][i] == t);
        }
    }
    if v.holds(t) {
        let (c, i) = choose|c: int, i: int|
            0 <= c < v.lists.len() && 0 <= i < v.lists[c].len() && #[trigger] v.lists[c][i] == t;
        if w.knows(key) {
            if c != at {
                assert(w.lists[c][i] == t);
            } else if i < w.lists[at].len() {
                assert(w.lists[at][i] == t);
            }
        } else if c < at {
            assert(w.lists[c][i] == t);
        } else if c > at {
            assert(w.lists[c - 1][i] == t);
        }
    }
    if r.contains(t) {
        let i = choose|i: int| 0 <= i < r.len() && r[i] == t;
        if i < 3 {
            assert(w.lists[at][i] == t);
        }
    }
}

/// The items listed are those that wait.
pub proof fn lemma_listed_holds<A>(w: Waiting<A>, n: int, t: A)
    requires
        0 <= n <= w.lists.len(),
    ensures
        w.listed(n).contains(t) <==> exists|b: int, i: int|
            0 <= b < n && 0 <= i < w.lists[b].len() && #[trigger] w.lists[b][i] == t,
    decreases n,
{
    if n > 0 {
        lemma_listed_holds(w, n - 1, t);
        let (s, u) = (w.listed(n - 1), w.lists[n - 1]);
        let all = s + u;
        if s.contains(t) {
            let k = choose|k: int| 0 <= k < s.len() && s[k] == t;
            assert(all[k] == t);
        }
        if u.contains(t) {
            let k = choose|k: int| 0 <= k < u.len() && u[k] == t;
            assert(all[s.len() + k] == t);
            assert(w.lists[n - 1][k] == t);
        }
        if all.contains(t) {
            let k = choose|k: int| 0 <= k < all.len() && all[k] == t;
            if k < s.len() {
                assert(s[k] == t);
            } else {
                assert(u[k - s.len()] == t);
            }
        }
        if exists|b: int, i: int|
            0 <= b < n && 0 <= i < w.lists[b].len() && #[trigger] w.lists[b][i] == t {
            let (b, i) = choose|b: int, i: int|
                0 <= b < n && 0 <= i < w.lists[b].len() && #[trigger] w.lists[b][i] == t;
            if b == n - 1 {
                assert(u[i] == t);
            }
        }
    }
}

/// The ket pairs listed are those that wait.
pub proof fn lemma_listed_times(w: Waiting<Item>, n: int, ket: int)
    ensures
        times_in(w.listed(n), w.listed(n).len() as int, ket) == w.times(n, ket),
    decreases n,
{
    if n > 0 {
        lemma_listed_times(w, n - 1, ket);
        lemma_times_joined(w.listed(n - 1), w.lists[n - 1], ket);
    }
}

/// The queue.
pub struct PendingQueue<A> {
    pub keys: Vec<BatchKey>,
    pub lists: Vec<Vec<A>>,
}

impl<A: Copy> PendingQueue<A> {
    /// What waits.
    pub open spec fn shown(self) -> Waiting<A> {
        Waiting {
            keys: self.keys@,
            lists: Seq::new(self.lists@.len(), |b: int| self.lists@[b]@),
        }
    }

    /// A queue in which nothing waits.
    pub fn new() -> (r: Self)
        ensures
            r.shown() == Waiting::<A>::nothing(),
            r.shown().valid(),
    {
        PendingQueue { keys: Vec::new(), lists: Vec::new() }
    }

    /// Let an item of a shape come. With the fourth of its shape the four are released.
    pub fn push(&mut self, key: BatchKey, item: A) -> (r: Option<[A; 4]>)
        requires
            old(self).shown().valid(),
        ensures
            final(self).shown() == old(self).shown().joined_by(key, item),
            final(self).shown().valid(),
            r matches Some(group) ==> group@ == old(self).shown().released_by(key, item),
            r is None ==> old(self).shown().released_by(key, item).len() == 0,
    {
        let ghost was = self.shown();
        let n = self.keys.len();
        let mut at: usize = n;
        while at > 0 && !is_key_less(self.keys[at - 1], key)
            invariant
                at <= n,
                n == self.keys@.len(),
                self.shown() == was,
                place_of(self.keys@, key, at as int) == place_of(self.keys@, key, n as int),
            decreases at,
        {
            at = at - 1;
        }
        proof {
            assert(place_of(self.keys@, key, n as int) == at);
            lemma_joined_valid(was, key, item);
            assert(was.keys == self.keys@);
            assert(forall|b: int|
                0 <= b < was.lists.len() ==> was.lists[b] == #[trigger] self.lists@[b]@);
        }
        if at < n && self.keys[at].0 == key.0 && self.keys[at].1 == key.1 && self.keys[at].2
            == key.2 && self.keys[at].3 == key.3 {
            assert(was.lists[at as int].len() < 4);
            self.lists[at].push(item);
            if self.lists[at].len() == 4 {
                let list = &self.lists[at];
                let group = [list[0], list[1], list[2], list[3]];
                assert(group@ =~= was.lists[at as int].push(item));
                self.lists[at] = Vec::new();
                assert(self.shown() =~= was.joined_by(key, item)) by {
                    assert(self.shown().lists =~= was.lists.update(at as int, Seq::empty()));
                }
                Some(group)
            } else {
                assert(self.shown() =~= was.joined_by(key, item)) by {
                    assert(self.shown().lists =~= was.lists.update(
                        at as int,
                        was.lists[at as int].push(item),
                    ));
                }
                None
            }
        } else {
            let mut list: Vec<A> = Vec::new();
            list.push(item);
            self.keys.insert(at, key);
            self.lists.insert(at, list);
            assert(self.shown() =~= was.joined_by(key, item)) by {
                assert(self.shown().lists =~= was.lists.insert(at as int, seq![item]));
            }
            None
        }
    }

    /// Take everything that waits, shape by shape.
    pub fn drain(&mut self) -> (r: Vec<A>)
        requires
            old(self).shown().valid(),
        ensures
            r@ == old(self).shown().listed(old(self).shown().lists.len() as int),
            final(self).shown() == Waiting::<A>::nothing(),
            final(self).shown().valid(),
    {
        let ghost was = self.shown();
        let mut r: Vec<A> = Vec::new();
        let mut b: usize = 0;
        while b < self.lists.len()
            invariant
                b <= self.lists@.len(),
                self.shown() == was,
                r@ == was.listed(b as int),
            decreases self.lists@.len() - b,
        {
            let mut i: usize = 0;
            let ghost before = r@;
            assert(was.lists[b as int] == self.lists@[b as int]@);
            while i < self.lists[b].len()
                invariant
                    b < self.lists@.len(),
                    i <= self.lists@[b as int]@.len(),
                    r@ == before + self.lists@[b as int]@.take(i as int),
                decreases self.lists@[b as int]@.len() - i,
            {
                assert(self.lists@[b as int]@.take(i + 1) =~= self.lists@[b as int]@.take(
                    i as int,
                ).push(self.lists@[b as int]@[i as int]));
                r.push(self.lists[b][i]);
                i = i + 1;
            }
            assert(self.lists@[b as int]@.take(i as int) =~= self.lists@[b as int]@);
            b = b + 1;
        }
        self.keys = Vec::new();
        self.lists = Vec::new();
        r
    }
}

} // verus!
