//! Direct contraction: repulsion integrals are computed and contracted with densities at
//! once, without a tensor.
use vstd::prelude::*;

use crate::dense::{larger, larger_of, schwarz_matrix};
use crate::df_builder::counts_of;
use crate::engine::os_eri::ShellPairData;
use crate::eri_batch::{
    are_pairs, batch_key, evaluate_batch4, four_of, function_size, pair_data_of, shell_block,
    BatchKey, EriBatchScratch,
};
use crate::queue::{
    law_no_item_is_lost, lemma_listed_times, lemma_place, lemma_times_joined, place_of, times_in,
    Item, PendingQueue, Waiting,
};
use crate::eri_builder::pair_list;
use crate::flat::{lemma_pair_in_range, lemma_quad_index, pair, quad_parts};
use crate::integrals::Engine;
use crate::math::rys::RysTables;
use crate::math::solid_harmonics::{is_zero, vanishes};
use crate::offsets::{are_lengths, start};
use crate::one_electron::lemma_ranges_fit;
use crate::quartet::{quartet_into_scratch_pairs, recurs, QuartetScratch, Tables};
use crate::scalar::{Real, Scalar};
use crate::schedule::{key_at, PairList};
use crate::shell::{function_counts, lemma_function_counts, Basis};
use crate::shell_pairs::{
    canonical_shell_pairs, holds_pairs, law_every_pair_is_listed, pair_number, shell_pair_datas,
    tri_idx, Prepared,
};
use crate::slabs::lists_canonical;
use crate::tensor::{comes_before, index_of, is_canonical, is_function, total, At};

verus! {

/// The matrices that one density is contracted into.
pub struct DirectBuffers<'a, T> {
    pub coulomb: &'a mut [T],
    pub exchange: Option<&'a mut [T]>,
}

/// What a pair of matrices holds.
#[verifier::ext_equal]
pub struct Tally<T> {
    pub coulomb: Seq<T>,
    pub exchange: Option<Seq<T>>,
}

impl<'a, T> DirectBuffers<'a, T> {
    /// What the matrices hold.
    pub open spec fn shown(self) -> Tally<T> {
        Tally {
            coulomb: self.coulomb@,
            exchange: match self.exchange {
                Some(x) => Some(x@),
                None => None,
            },
        }
    }
}

/// Whether the matrices have the size of a density, the second if it is wanted.
pub open spec fn tally_fits<T>(t: Tally<T>, n: int, want: bool) -> bool {
    &&& t.coulomb.len() == n * n
    &&& want ==> t.exchange is Some && t.exchange->0.len() == n * n
}

/// Four functions by index.
pub type Indices = (int, int, int, int);

/// The matrices with the integral `g = (ab|cd)` contracted.
pub open spec fn contracted<T: Scalar>(
    t: Tally<T>,
    density: Seq<T>,
    n: int,
    g: T,
    f: Indices,
    want: bool,
) -> Tally<T> {
    let ab = pair(f.0, n, f.1);
    let ac = pair(f.0, n, f.2);
    Tally {
        coulomb: t.coulomb.update(
            ab,
            T::sum(t.coulomb[ab], T::prod(g, density[pair(f.2, n, f.3)])),
        ),
        exchange: if want {
            Some(
                t.exchange->0.update(
                    ac,
                    T::sum(t.exchange->0[ac], T::prod(g, density[pair(f.1, n, f.3)])),
                ),
            )
        } else {
            t.exchange
        },
    }
}

/// Contract the integral `g = (ab|cd)`.
fn add_contraction<T: Scalar>(
    out: &mut DirectBuffers<'_, T>,
    density: &[T],
    n: usize,
    g: T,
    a: usize,
    b: usize,
    c: usize,
    d: usize,
    want_exchange: bool,
)
    requires
        a < n,
        b < n,
        c < n,
        d < n,
        n * n <= usize::MAX,
        density@.len() == n * n,
        tally_fits(old(out).shown(), n as int, want_exchange),
    ensures
        final(out).shown() == contracted(
            old(out).shown(),
            density@,
            n as int,
            g,
            (a as int, b as int, c as int, d as int),
            want_exchange,
        ),
        tally_fits(final(out).shown(), n as int, want_exchange),
        final(final(out).coulomb)@ == final(old(out).coulomb)@,
        final(out).exchange is Some == old(out).exchange is Some,
        old(out).exchange is Some ==> final(final(out).exchange->0)@ == final(old(out).exchange->0)@,
{
    proof {
        lemma_pair_in_range(a as int, n as int, n as int, b as int);
        lemma_pair_in_range(a as int, n as int, n as int, c as int);
        lemma_pair_in_range(c as int, n as int, n as int, d as int);
        lemma_pair_in_range(b as int, n as int, n as int, d as int);
    }
    let v = out.coulomb[a * n + b].plus(g.times(density[c * n + d]));
    out.coulomb[a * n + b] = v;
    if want_exchange {
        if let Some(x) = &mut out.exchange {
            let v = x[a * n + c].plus(g.times(density[b * n + d]));
            x[a * n + c] = v;
        }
    }
}

/// A value, if a condition holds.
pub open spec fn given<A>(holds: bool, value: A) -> Seq<A> {
    if holds {
        seq![value]
    } else {
        Seq::empty()
    }
}

/// The orders of four functions in which their integral enters the contraction.
pub open spec fn images<A>(f: (A, A, A, A)) -> Seq<(A, A, A, A)> {
    let (a, b, c, d) = f;
    let bra = a != b;
    let ket = c != d;
    let both = (a, b) != (c, d);
    seq![(a, b, c, d)] + given(bra, (b, a, c, d)) + given(ket, (a, b, d, c)) + given(
        ket && bra,
        (b, a, d, c),
    ) + given(both, (c, d, a, b)) + given(both && ket, (d, c, a, b)) + given(
        both && bra,
        (c, d, b, a),
    ) + given(both && bra && ket, (d, c, b, a))
}

/// The matrices with an integral contracted in every one of the orders `s`.
pub open spec fn spread<T: Scalar>(
    t: Tally<T>,
    density: Seq<T>,
    n: int,
    g: T,
    s: Seq<Indices>,
    want: bool,
) -> Tally<T>
    decreases s.len(),
{
    if s.len() == 0 {
        t
    } else {
        contracted(spread(t, density, n, g, s.drop_last(), want), density, n, g, s.last(), want)
    }
}

proof fn lemma_spread_push<T: Scalar>(
    t: Tally<T>,
    density: Seq<T>,
    n: int,
    g: T,
    s: Seq<Indices>,
    f: Indices,
    want: bool,
)
    ensures
        spread(t, density, n, g, s.push(f), want) == contracted(
            spread(t, density, n, g, s, want),
            density,
            n,
            g,
            f,
            want,
        ),
{
    assert(s.push(f).drop_last() =~= s);
}

/// Contract the integral `g = (ab|cd)` in every order of its functions.
#[verifier::spinoff_prover]
#[verifier::rlimit(60)]
fn scatter_unique<T: Scalar>(
    out: &mut DirectBuffers<'_, T>,
    density: &[T],
    n: usize,
    g: T,
    f: [usize; 4],
    want_exchange: bool,
)
    requires
        f[0] < n,
        f[1] < n,
        f[2] < n,
        f[3] < n,
        n * n <= usize::MAX,
        density@.len() == n * n,
        tally_fits(old(out).shown(), n as int, want_exchange),
    ensures
        final(out).shown() == spread(
            old(out).shown(),
            density@,
            n as int,
            g,
            images((f[0] as int, f[1] as int, f[2] as int, f[3] as int)),
            want_exchange,
        ),
        tally_fits(final(out).shown(), n as int, want_exchange),
        final(final(out).coulomb)@ == final(old(out).coulomb)@,
        final(out).exchange is Some == old(out).exchange is Some,
        old(out).exchange is Some ==> final(final(out).exchange->0)@ == final(old(out).exchange->0)@,
{
    let (a, b, c, d) = (f[0], f[1], f[2], f[3]);
    let ghost was = out.shown();
    let ghost (x, y, z, w) = (a as int, b as int, c as int, d as int);
    let ghost m = n as int;
    let ghost mut s: Seq<Indices> = Seq::empty();
    add_contraction(out, density, n, g, a, b, c, d, want_exchange);
    proof {
        lemma_spread_push(was, density@, m, g, s, (x, y, z, w), want_exchange);
        s = s.push((x, y, z, w));
    }
    if a != b {
        add_contraction(out, density, n, g, b, a, c, d, want_exchange);
        proof {
            lemma_spread_push(was, density@, m, g, s, (y, x, z, w), want_exchange);
            s = s.push((y, x, z, w));
        }
    }
    if c != d {
        add_contraction(out, density, n, g, a, b, d, c, want_exchange);
        proof {
            lemma_spread_push(was, density@, m, g, s, (x, y, w, z), want_exchange);
            s = s.push((x, y, w, z));
        }
        if a != b {
            add_contraction(out, density, n, g, b, a, d, c, want_exchange);
            proof {
                lemma_spread_push(was, density@, m, g, s, (y, x, w, z), want_exchange);
                s = s.push((y, x, w, z));
            }
        }
    }
    if a != c || b != d {
        add_contraction(out, density, n, g, c, d, a, b, want_exchange);
        proof {
            lemma_spread_push(was, density@, m, g, s, (z, w, x, y), want_exchange);
            s = s.push((z, w, x, y));
        }
        if c != d {
            add_contraction(out, density, n, g, d, c, a, b, want_exchange);
            proof {
                lemma_spread_push(was, density@, m, g, s, (w, z, x, y), want_exchange);
                s = s.push((w, z, x, y));
            }
        }
        if a != b {
            add_contraction(out, density, n, g, c, d, b, a, want_exchange);
            proof {
                lemma_spread_push(was, density@, m, g, s, (z, w, y, x), want_exchange);
                s = s.push((z, w, y, x));
            }
            if c != d {
                add_contraction(out, density, n, g, d, c, b, a, want_exchange);
                proof {
                    lemma_spread_push(was, density@, m, g, s, (w, z, y, x), want_exchange);
                    s = s.push((w, z, y, x));
                }
            }
        }
    }
    assert(s =~= images((x, y, z, w)));
}

/// Whether four functions of four shells stand for all the orders of their integral.
pub open spec fn is_kept(q: Indices, a: int, b: int, c: int, d: int) -> bool {
    &&& q.0 == q.1 ==> b <= a
    &&& q.2 == q.3 ==> d <= c
    &&& q.0 == q.2 && q.1 == q.3 ==> !(a < c || (a == c && b < d))
}

/// Four functions of four shells, by index.
pub open spec fn indices_in(lens: Seq<int>, q: Indices, a: int, b: int, c: int, d: int) -> Indices {
    (
        index_of(lens, (q.0, a)),
        index_of(lens, (q.1, b)),
        index_of(lens, (q.2, c)),
        index_of(lens, (q.3, d)),
    )
}

/// The matrices with the entries of a block before `k` contracted.
pub open spec fn block_spread<T: Scalar>(
    t: Tally<T>,
    density: Seq<T>,
    lens: Seq<int>,
    block: Seq<T>,
    q: Indices,
    want: bool,
    k: int,
) -> Tally<T>
    decreases k,
{
    if k <= 0 {
        t
    } else {
        let before = block_spread(t, density, lens, block, q, want, k - 1);
        let (a, b, c, d) = quad_parts(k - 1, lens[q.1], lens[q.2], lens[q.3]);
        if is_kept(q, a, b, c, d) {
            spread(
                before,
                density,
                total(lens),
                block[k - 1],
                images(indices_in(lens, q, a, b, c, d)),
                want,
            )
        } else {
            before
        }
    }
}

/// Whether four functions stand for all the orders of their integral: their shells are
/// canonical, and they are kept among the functions of these.
pub open spec fn is_source(f: (At, At, At, At)) -> bool {
    is_canonical((f.0.0, f.1.0, f.2.0, f.3.0)) && is_kept(
        (f.0.0, f.1.0, f.2.0, f.3.0),
        f.0.1,
        f.1.1,
        f.2.1,
        f.3.1,
    )
}

/// Two functions, the later first.
pub open spec fn later_first(x: At, y: At) -> (At, At) {
    if y.0 < x.0 || (y.0 == x.0 && y.1 <= x.1) {
        (x, y)
    } else {
        (y, x)
    }
}

/// The four functions that stand for an order of them.
pub open spec fn source_of(f: (At, At, At, At)) -> (At, At, At, At) {
    let bra = later_first(f.0, f.1);
    let ket = later_first(f.2, f.3);
    if comes_before(bra.0.0, bra.1.0, ket.0.0, ket.1.0) || ((bra.0.0, bra.1.0) == (
        ket.0.0,
        ket.1.0,
    ) && comes_before(bra.0.1, bra.1.1, ket.0.1, ket.1.1)) {
        (ket.0, ket.1, bra.0, bra.1)
    } else {
        (bra.0, bra.1, ket.0, ket.1)
    }
}

/// Of every four functions, in any order, exactly one source has them among its images.
#[verifier::spinoff_prover]
#[verifier::rlimit(40)]
pub proof fn law_every_order_has_one_source(f: (At, At, At, At), g: (At, At, At, At))
    requires
        is_source(g),
    ensures
        is_source(source_of(f)),
        images(g).contains(f) <==> g == source_of(f),
{
    let (a, b, c, d) = g;
    let s = images(g);
    let bra = a != b;
    let ket = c != d;
    let both = (a, b) != (c, d);
    let s1 = seq![(a, b, c, d)];
    let s2 = s1 + given(bra, (b, a, c, d));
    let s3 = s2 + given(ket, (a, b, d, c));
    let s4 = s3 + given(ket && bra, (b, a, d, c));
    let s5 = s4 + given(both, (c, d, a, b));
    let s6 = s5 + given(both && ket, (d, c, a, b));
    let s7 = s6 + given(both && bra, (c, d, b, a));
    assert(s == s7 + given(both && bra && ket, (d, c, b, a)));
    if s.contains(f) {
        let i = choose|i: int| 0 <= i < s.len() && s[i] == f;
        assert(s[i] == f);
        lemma_image_forms(g, i);
    }
    if g == source_of(f) {
        if f == (a, b, c, d) {
            assert(s[0] == f);
        } else if f == (b, a, c, d) {
            assert(s[s1.len() as int] == f);
        } else if f == (a, b, d, c) {
            assert(s[s2.len() as int] == f);
        } else if f == (b, a, d, c) {
            assert(s[s3.len() as int] == f);
        } else if f == (c, d, a, b) {
            assert(s[s4.len() as int] == f);
        } else if f == (d, c, a, b) {
            assert(s[s5.len() as int] == f);
        } else if f == (c, d, b, a) {
            assert(s[s6.len() as int] == f);
        } else {
            assert(f == (d, c, b, a));
            assert(s[s7.len() as int] == f);
        }
    }
}

/// An image has one of eight forms.
pub proof fn lemma_image_forms<A>(g: (A, A, A, A), i: int)
    requires
        0 <= i < images(g).len(),
    ensures
        ({
            let (a, b, c, d) = g;
            let f = images(g)[i];
            ||| f == (a, b, c, d)
            ||| f == (b, a, c, d)
            ||| f == (a, b, d, c)
            ||| f == (b, a, d, c)
            ||| f == (c, d, a, b)
            ||| f == (d, c, a, b)
            ||| f == (c, d, b, a)
            ||| f == (d, c, b, a)
        }),
{
}

/// The images of a source are all different.
#[verifier::spinoff_prover]
#[verifier::rlimit(40)]
pub proof fn law_images_are_distinct(g: (At, At, At, At))
    requires
        is_source(g),
    ensures
        images(g).no_duplicates(),
{
    let s = images(g);
    assert forall|i: int, j: int| 0 <= i < j < s.len() implies s[i] != s[j] by {}
}

/// Four functions by index.
pub open spec fn indices_of(lens: Seq<int>, f: (At, At, At, At)) -> Indices {
    (index_of(lens, f.0), index_of(lens, f.1), index_of(lens, f.2), index_of(lens, f.3))
}

/// The images of four indices are those of their functions.
pub proof fn law_images_are_those_of_functions(lens: Seq<int>, f: (At, At, At, At))
    requires
        are_lengths(lens),
        is_function(lens, f.0),
        is_function(lens, f.1),
        is_function(lens, f.2),
        is_function(lens, f.3),
    ensures
        images(indices_of(lens, f)) == images(f).map_values(
            |g: (At, At, At, At)| indices_of(lens, g),
        ),
{
    lemma_index_order(lens, f.0, f.1);
    lemma_index_order(lens, f.2, f.3);
    lemma_index_order(lens, f.0, f.2);
    lemma_index_order(lens, f.1, f.3);
    assert(images(indices_of(lens, f)) =~= images(f).map_values(
        |g: (At, At, At, At)| indices_of(lens, g),
    ));
}

/// Functions are numbered by shell, then by component.
proof fn lemma_index_order(lens: Seq<int>, x: At, y: At)
    requires
        are_lengths(lens),
        is_function(lens, x),
        is_function(lens, y),
    ensures
        index_of(lens, x) < index_of(lens, y) <==> x.0 < y.0 || (x.0 == y.0 && x.1 < y.1),
        index_of(lens, x) == index_of(lens, y) <==> x == y,
        0 <= index_of(lens, x) < total(lens),
{
    if x.0 < y.0 {
        crate::offsets::lemma_start_grows(lens, x.0 + 1, y.0);
    } else if y.0 < x.0 {
        crate::offsets::lemma_start_grows(lens, y.0 + 1, x.0);
    }
    crate::offsets::lemma_start_grows(lens, 0, x.0);
    crate::offsets::lemma_start_grows(lens, x.0 + 1, lens.len() as int);
}

/// Whether a density takes part, by its bit.
pub open spec fn has_bit(mask: u64, di: int) -> bool {
    mask & (1u64 << (di as u64)) != 0
}

proof fn lemma_bit_set(mask: u64, d: u64, e: u64)
    requires
        d < 64,
        e < 64,
    ensures
        (mask | (1u64 << d)) & (1u64 << e) != 0 <==> d == e || mask & (1u64 << e) != 0,
{
    assert((mask | (1u64 << d)) & (1u64 << e) != 0 <==> d == e || mask & (1u64 << e) != 0)
        by (bit_vector)
        requires
            d < 64,
            e < 64,
    ;
}

pub proof fn lemma_no_bits(e: u64)
    ensures
        0u64 & (1u64 << e) == 0,
{
    assert(0u64 & (1u64 << e) == 0) by (bit_vector);
}

/// Whether a set of densities has matching matrices.
pub open spec fn all_fit<T>(
    densities: Seq<&[T]>,
    outputs: Seq<DirectBuffers<T>>,
    n: int,
    want: bool,
) -> bool {
    &&& 1 <= densities.len() <= 64
    &&& outputs.len() == densities.len()
    &&& forall|e: int| 0 <= e < densities.len() ==> (#[trigger] densities[e])@.len() == n * n
    &&& forall|e: int|
        0 <= e < outputs.len() ==> tally_fits((#[trigger] outputs[e]).shown(), n, want)
}

/// Contract one integral with the densities of a mask.
fn scatter_densities<T: Scalar>(
    outputs: &mut [DirectBuffers<'_, T>],
    densities: &[&[T]],
    mask: u64,
    n: usize,
    g: T,
    f: [usize; 4],
    want_exchange: bool,
)
    requires
        f[0] < n,
        f[1] < n,
        f[2] < n,
        f[3] < n,
        n * n <= usize::MAX,
        all_fit(densities@, old(outputs)@, n as int, want_exchange),
    ensures
        all_fit(densities@, final(outputs)@, n as int, want_exchange),
        forall|e: int|
            0 <= e < densities@.len() ==> (#[trigger] final(outputs)@[e]).shown() == (if has_bit(
                mask,
                e,
            ) {
                spread(
                    old(outputs)@[e].shown(),
                    densities@[e]@,
                    n as int,
                    g,
                    images((f[0] as int, f[1] as int, f[2] as int, f[3] as int)),
                    want_exchange,
                )
            } else {
                old(outputs)@[e].shown()
            }),
        forall|e: int|
            0 <= e < densities@.len() ==> final((#[trigger] final(outputs)@[e]).coulomb)@ == final(old(outputs)@[e].coulomb)@,
        forall|e: int|
            0 <= e < densities@.len() ==> ((#[trigger] final(outputs)@[e]).exchange is Some)
                == (old(outputs)@[e].exchange is Some),
        forall|e: int|
            0 <= e < densities@.len() && old(outputs)@[e].exchange is Some ==> final((#[trigger] final(outputs)@[e]).exchange->0)@ == final(old(outputs)@[e].exchange->0)@,
{
    let ghost was = outputs@;
    let mut di: usize = 0;
    while di < densities.len()
        invariant
            di <= densities@.len(),
            was.len() == densities@.len(),
            f[0] < n,
            f[1] < n,
            f[2] < n,
            f[3] < n,
            n * n <= usize::MAX,
            all_fit(densities@, outputs@, n as int, want_exchange),
            forall|e: int|
                0 <= e < densities@.len() ==> (#[trigger] outputs@[e]).shown() == (if e < di
                    && has_bit(mask, e) {
                    spread(
                        was[e].shown(),
                        densities@[e]@,
                        n as int,
                        g,
                        images((f[0] as int, f[1] as int, f[2] as int, f[3] as int)),
                        want_exchange,
                    )
                } else {
                    was[e].shown()
                }),
            forall|e: int|
                0 <= e < densities@.len() ==> final((#[trigger] outputs@[e]).coulomb)@ == final(was[e].coulomb)@,
            forall|e: int|
                0 <= e < densities@.len() ==> ((#[trigger] outputs@[e]).exchange is Some) == (
                was[e].exchange is Some),
            forall|e: int|
                0 <= e < densities@.len() && was[e].exchange is Some ==> final((#[trigger] outputs@[e]).exchange->0)@ == final(was[e].exchange->0)@,
        decreases densities@.len() - di,
    {
        if mask & (1u64 << (di as u64)) != 0 {
            let ghost before = outputs@;
            assert(tally_fits(outputs@[di as int].shown(), n as int, want_exchange));
            assert(densities@[di as int]@.len() == n * n);
            scatter_unique(&mut outputs[di], densities[di], n, g, f, want_exchange);
            assert forall|e: int| 0 <= e < densities@.len() && e != di implies #[trigger] outputs@[e]
                == before[e] by {}
        }
        di = di + 1;
    }
}

/// Contract a block with the densities of a mask.
#[verifier::spinoff_prover]
#[verifier::rlimit(60)]
fn scatter_block<T: Scalar>(
    outputs: &mut [DirectBuffers<'_, T>],
    densities: &[&[T]],
    mask: u64,
    n: usize,
    offs: &Vec<usize>,
    counts: &Vec<usize>,
    q: [usize; 4],
    block: &Vec<T>,
    want_exchange: bool,
    Ghost(lens): Ghost<Seq<int>>,
)
    requires
        are_lengths(lens),
        n == total(lens),
        n * n <= usize::MAX,
        q[0] < lens.len(),
        q[1] < lens.len(),
        q[2] < lens.len(),
        q[3] < lens.len(),
        offs@.len() == lens.len(),
        counts@.len() == lens.len(),
        forall|s: int| 0 <= s < lens.len() ==> #[trigger] offs@[s] == start(lens, s),
        forall|s: int| 0 <= s < lens.len() ==> #[trigger] counts@[s] == lens[s],
        block@.len() == lens[q[0] as int] * lens[q[1] as int] * lens[q[2] as int]
            * lens[q[3] as int],
        all_fit(densities@, old(outputs)@, n as int, want_exchange),
    ensures
        all_fit(densities@, final(outputs)@, n as int, want_exchange),
        forall|e: int|
            0 <= e < densities@.len() ==> (#[trigger] final(outputs)@[e]).shown() == (if has_bit(
                mask,
                e,
            ) {
                block_spread(
                    old(outputs)@[e].shown(),
                    densities@[e]@,
                    lens,
                    block@,
                    (q[0] as int, q[1] as int, q[2] as int, q[3] as int),
                    want_exchange,
                    block@.len() as int,
                )
            } else {
                old(outputs)@[e].shown()
            }),
        forall|e: int|
            0 <= e < densities@.len() ==> final((#[trigger] final(outputs)@[e]).coulomb)@ == final(old(outputs)@[e].coulomb)@,
        forall|e: int|
            0 <= e < densities@.len() ==> ((#[trigger] final(outputs)@[e]).exchange is Some)
                == (old(outputs)@[e].exchange is Some),
        forall|e: int|
            0 <= e < densities@.len() && old(outputs)@[e].exchange is Some ==> final((#[trigger] final(outputs)@[e]).exchange->0)@ == final(old(outputs)@[e].exchange->0)@,
{
    let ghost was = outputs@;
    let ghost qq = (q[0] as int, q[1] as int, q[2] as int, q[3] as int);
    proof {
        lemma_ranges_fit(lens, qq.0);
        lemma_ranges_fit(lens, qq.1);
        lemma_ranges_fit(lens, qq.2);
        lemma_ranges_fit(lens, qq.3);
        assert(offs@[qq.0] == start(lens, qq.0) && offs@[qq.1] == start(lens, qq.1));
        assert(offs@[qq.2] == start(lens, qq.2) && offs@[qq.3] == start(lens, qq.3));
        assert(counts@[qq.0] == lens[qq.0] && counts@[qq.1] == lens[qq.1]);
        assert(counts@[qq.2] == lens[qq.2] && counts@[qq.3] == lens[qq.3]);
    }
    let (na, nb, nc, nd) = (counts[q[0]], counts[q[1]], counts[q[2]], counts[q[3]]);
    let (oa, ob, oc, od) = (offs[q[0]], offs[q[1]], offs[q[2]], offs[q[3]]);
    let mut k: usize = 0;
    while k < block.len()
        invariant
            k <= block@.len(),
            are_lengths(lens),
            n == total(lens),
            n * n <= usize::MAX,
            qq == (q[0] as int, q[1] as int, q[2] as int, q[3] as int),
            na == lens[qq.0],
            nb == lens[qq.1],
            nc == lens[qq.2],
            nd == lens[qq.3],
            oa == start(lens, qq.0),
            ob == start(lens, qq.1),
            oc == start(lens, qq.2),
            od == start(lens, qq.3),
            oa + na <= n,
            ob + nb <= n,
            oc + nc <= n,
            od + nd <= n,
            block@.len() == na * nb * nc * nd,
            was.len() == densities@.len(),
            all_fit(densities@, outputs@, n as int, want_exchange),
            forall|e: int|
                0 <= e < densities@.len() ==> (#[trigger] outputs@[e]).shown() == (if has_bit(
                    mask,
                    e,
                ) {
                    block_spread(
                        was[e].shown(),
                        densities@[e]@,
                        lens,
                        block@,
                        qq,
                        want_exchange,
                        k as int,
                    )
                } else {
                    was[e].shown()
                }),
            forall|e: int|
                0 <= e < densities@.len() ==> final((#[trigger] outputs@[e]).coulomb)@ == final(was[e].coulomb)@,
            forall|e: int|
                0 <= e < densities@.len() ==> ((#[trigger] outputs@[e]).exchange is Some) == (
                was[e].exchange is Some),
            forall|e: int|
                0 <= e < densities@.len() && was[e].exchange is Some ==> final((#[trigger] outputs@[e]).exchange->0)@ == final(was[e].exchange->0)@,
        decreases block@.len() - k,
    {
        proof {
            lemma_quad_index(k as int, na as int, nb as int, nc as int, nd as int);
        }
        let d: usize = k % nd;
        let c: usize = k / nd % nc;
        let b: usize = k / nd / nc % nb;
        let a: usize = k / nd / nc / nb;
        assert(quad_parts(k as int, nb as int, nc as int, nd as int) == (
            a as int,
            b as int,
            c as int,
            d as int,
        ));
        let lower = q[0] != q[1] || b <= a;
        let right = q[2] != q[3] || d <= c;
        let first = q[0] != q[2] || q[1] != q[3] || !(a < c || (a == c && b < d));
        assert((lower && right && first) == is_kept(
            qq,
            a as int,
            b as int,
            c as int,
            d as int,
        ));
        if lower && right && first {
            let ghost before = outputs@;
            scatter_densities(
                outputs,
                densities,
                mask,
                n,
                block[k],
                [oa + a, ob + b, oc + c, od + d],
                want_exchange,
            );
            proof {
                assert forall|e: int| 0 <= e < densities@.len() implies (
                #[trigger] outputs@[e]).shown() == (if has_bit(mask, e) {
                    block_spread(
                        was[e].shown(),
                        densities@[e]@,
                        lens,
                        block@,
                        qq,
                        want_exchange,
                        k + 1,
                    )
                } else {
                    was[e].shown()
                }) by {
                    assert(before[e].shown() == (if has_bit(mask, e) {
                        block_spread(
                            was[e].shown(),
                            densities@[e]@,
                            lens,
                            block@,
                            qq,
                            want_exchange,
                            k as int,
                        )
                    } else {
                        was[e].shown()
                    }));
                    assert(indices_in(lens, qq, a as int, b as int, c as int, d as int) == (
                        oa + a,
                        ob + b,
                        oc + c,
                        od + d,
                    ));
                }
                assert forall|e: int| 0 <= e < densities@.len() implies final((#[trigger] outputs@[e]).coulomb)@ == final(was[e].coulomb)@ by {
                    assert(final(before[e].coulomb)@ == final(was[e].coulomb)@);
                }
                assert forall|e: int| 0 <= e < densities@.len() implies ((#[trigger] outputs@[e]).exchange is Some) == (was[e].exchange is Some) by {
                    assert((before[e].exchange is Some) == (was[e].exchange is Some));
                }
                assert forall|e: int| 0 <= e < densities@.len() && was[e].exchange is Some implies final((#[trigger] outputs@[e]).exchange->0)@ == final(was[e].exchange->0)@ by {
                    assert((before[e].exchange is Some) == (was[e].exchange is Some));
                    assert(final(before[e].exchange->0)@ == final(was[e].exchange->0)@);
                }
            }
        }
        k = k + 1;
    }
}

/// What a contraction of one bra pair is made of.
pub struct Contraction<T> {
    pub rys: RysTables<T>,
    pub engine: Engine,
    pub list: PairList<T>,
    pub schwarz: Seq<T>,
    pub threshold: T,
    pub want: bool,
    pub bra: int,
    pub bounds: Seq<Seq<T>>,
}

impl<T: Real> Contraction<T> {
    /// The shells of the bra pair and of a ket pair.
    pub open spec fn shells_with(self, ket: int) -> Indices {
        (
            self.list.pairs[self.bra].0 as int,
            self.list.pairs[self.bra].1 as int,
            self.list.pairs[ket].0 as int,
            self.list.pairs[ket].1 as int,
        )
    }

    /// The entry of two shells in a matrix over the shells.
    pub open spec fn entry(self, m: Seq<T>, i: int, j: int) -> T {
        m[pair(i, self.list.shells.len() as int, j)]
    }

    /// The bound on the integrals with a ket pair.
    pub open spec fn pair_bound(self, ket: int) -> T {
        let (i, j, k, l) = self.shells_with(ket);
        T::prod(self.entry(self.schwarz, i, j), self.entry(self.schwarz, k, l))
    }

    /// The bound on the entries of a density that meet the integrals with a ket pair.
    pub open spec fn density_bound(self, e: int, ket: int) -> T {
        let (i, j, k, l) = self.shells_with(ket);
        let m = self.bounds[e];
        larger(
            larger(
                larger(
                    larger(
                        larger(self.entry(m, i, j), self.entry(m, k, l)),
                        self.entry(m, i, k),
                    ),
                    self.entry(m, i, l),
                ),
                self.entry(m, j, k),
            ),
            self.entry(m, j, l),
        )
    }

    /// Whether a density is contracted with the integrals of a ket pair.
    pub open spec fn meets(self, e: int, ket: int) -> bool {
        T::le(self.threshold, T::prod(self.pair_bound(ket), self.density_bound(e, ket)))
    }

    /// The first `n` densities that are contracted with the integrals of a ket pair.
    pub open spec fn mask(self, ket: int, n: int) -> u64
        decreases n,
    {
        if n <= 0 {
            0
        } else if self.meets(n - 1, ket) {
            self.mask(ket, n - 1) | (1u64 << ((n - 1) as u64))
        } else {
            self.mask(ket, n - 1)
        }
    }

    /// Whether a ket pair is contracted with any density.
    pub open spec fn accepts(self, ket: int) -> bool {
        !T::lt(self.pair_bound(ket), self.threshold) && self.mask(
            ket,
            self.bounds.len() as int,
        ) != 0
    }

    /// A ket pair with its densities.
    pub open spec fn item(self, ket: int) -> Item {
        (ket as usize, self.mask(ket, self.bounds.len() as int))
    }

    /// The shape of a ket pair, if it can be grouped.
    pub open spec fn key(self, ket: int) -> Option<BatchKey> {
        match key_at(self.engine, self.list, self.bra, ket) {
            Some(k) => Some((k.0 as usize, k.1 as usize, k.2 as usize, k.3 as usize)),
            None => None,
        }
    }

    /// What waits, and what has been contracted, after the ket pairs before `n`.
    pub open spec fn after(self, n: int) -> (Waiting<Item>, Seq<Item>)
        decreases n,
    {
        if n <= 0 {
            (Waiting::nothing(), Seq::empty())
        } else {
            let (w, done) = self.after(n - 1);
            if !self.accepts(n - 1) {
                (w, done)
            } else {
                match self.key(n - 1) {
                    None => (w, done.push(self.item(n - 1))),
                    Some(key) => (
                        w.joined_by(key, self.item(n - 1)),
                        done + w.released_by(key, self.item(n - 1)),
                    ),
                }
            }
        }
    }

    /// The ket pairs in the order in which they are contracted.
    pub open spec fn order(self) -> Seq<Item> {
        let (w, done) = self.after(self.bra + 1);
        done + w.listed(w.lists.len() as int)
    }

    /// The matrices of a density with the integrals of a ket pair contracted.
    pub open spec fn with_item(self, t: Tally<T>, density: Seq<T>, e: int, item: Item) -> Tally<T> {
        if has_bit(item.1, e) {
            let q = self.shells_with(item.0 as int);
            let block = shell_block(
                self.rys,
                self.engine,
                None,
                self.list.shells,
                q.0,
                q.1,
                q.2,
                q.3,
            );
            block_spread(
                t,
                density,
                function_counts(self.list.shells),
                block,
                q,
                self.want,
                function_size(self.list.shells, q.0, q.1, q.2, q.3),
            )
        } else {
            t
        }
    }

    /// The matrices of a density with the integrals of ket pairs contracted in turn.
    pub open spec fn with_items(self, t: Tally<T>, density: Seq<T>, e: int, s: Seq<Item>) -> Tally<
        T,
    >
        decreases s.len(),
    {
        if s.len() == 0 {
            t
        } else {
            self.with_item(self.with_items(t, density, e, s.drop_last()), density, e, s.last())
        }
    }

    /// The matrices of a density after the contraction.
    pub open spec fn result(self, t: Tally<T>, density: Seq<T>, e: int) -> Tally<T> {
        let (i, j) = (
            self.list.pairs[self.bra].0 as int,
            self.list.pairs[self.bra].1 as int,
        );
        if vanishes(self.entry(self.schwarz, i, j)) {
            t
        } else {
            self.with_items(t, density, e, self.order())
        }
    }

    proof fn lemma_with_items_joined(
        self,
        t: Tally<T>,
        density: Seq<T>,
        e: int,
        s: Seq<Item>,
        u: Seq<Item>,
    )
        ensures
            self.with_items(t, density, e, s + u) == self.with_items(
                self.with_items(t, density, e, s),
                density,
                e,
                u,
            ),
        decreases u.len(),
    {
        if u.len() == 0 {
            assert(s + u =~= s);
        } else {
            self.lemma_with_items_joined(t, density, e, s, u.drop_last());
            assert((s + u).drop_last() =~= s + u.drop_last());
        }
    }

    /// A density takes part by its bit if and only if it meets the integrals.
    pub proof fn lemma_mask(self, ket: int, n: int, e: int)
        requires
            0 <= n <= 64,
            0 <= e < 64,
        ensures
            has_bit(self.mask(ket, n), e) <==> e < n && self.meets(e, ket),
        decreases n,
    {
        if n <= 0 {
            lemma_no_bits(e as u64);
        } else {
            self.lemma_mask(ket, n - 1, e);
            lemma_bit_set(self.mask(ket, n - 1), (n - 1) as u64, e as u64);
        }
    }

    /// Every ket pair that is accepted is contracted once, and no other; and with each
    /// density that meets it.
    pub proof fn law_accepted_pairs_are_contracted_once(self, ket: int)
        requires
            0 <= ket <= self.bra < usize::MAX,
            self.bounds.len() <= 64,
        ensures
            times_in(self.order(), self.order().len() as int, ket) == (if self.accepts(ket) {
                1int
            } else {
                0int
            }),
            forall|e: int|
                0 <= e < self.bounds.len() ==> (has_bit(self.item(ket).1, e) <==> #[trigger] self.meets(
                    e,
                    ket,
                )),
    {
        self.lemma_after_times(self.bra + 1, ket);
        let (w, done) = self.after(self.bra + 1);
        lemma_listed_times(w, w.lists.len() as int, ket);
        lemma_times_joined(done, w.listed(w.lists.len() as int), ket);
        assert forall|e: int| 0 <= e < self.bounds.len() implies (has_bit(self.item(ket).1, e)
            <==> #[trigger] self.meets(e, ket)) by {
            self.lemma_mask(ket, self.bounds.len() as int, e);
        }
    }

    /// After the first `n` ket pairs each of them that is accepted has been taken once.
    pub proof fn lemma_after_times(self, n: int, ket: int)
        requires
            0 <= n <= usize::MAX,
            0 <= ket,
        ensures
            self.after(n).0.valid(),
            self.after(n).0.times(self.after(n).0.lists.len() as int, ket) + times_in(
                self.after(n).1,
                self.after(n).1.len() as int,
                ket,
            ) == (if ket < n && self.accepts(ket) {
                1int
            } else {
                0int
            }),
        decreases n,
    {
        if n > 0 {
            self.lemma_after_times(n - 1, ket);
            let (w, done) = self.after(n - 1);
            let item = self.item(n - 1);
            if self.accepts(n - 1) {
                match self.key(n - 1) {
                    None => {
                        assert(done.push(item) =~= done + seq![item]);
                        lemma_times_joined(done, seq![item], ket);
                        reveal_with_fuel(times_in, 2);
                    },
                    Some(key) => {
                        law_no_item_is_lost(w, key, item, ket);
                        lemma_times_joined(done, w.released_by(key, item), ket);
                    },
                }
            }
        }
    }
}

/// Buffers that a contraction works in, to be used again.
pub struct DirectWorkspace<T> {
    pub quartet: QuartetScratch<T>,
    pub batch: EriBatchScratch<T>,
    pub pending: PendingQueue<Item>,
}

impl<T: Real> DirectWorkspace<T> {
    /// Whether the buffers can be used.
    pub open spec fn valid(self) -> bool {
        self.batch.valid()
    }

    /// Empty buffers.
    #[must_use]
    pub fn new() -> (r: Self)
        ensures
            r.valid(),
    {
        DirectWorkspace {
            quartet: QuartetScratch::new(),
            batch: EriBatchScratch::new(),
            pending: PendingQueue::new(),
        }
    }
}

/// The largest magnitude among the entries of a density before `k` in the block of shells
/// `i` and `j`, and zero.
pub open spec fn density_peak<T: Real>(
    density: Seq<T>,
    lens: Seq<int>,
    i: int,
    j: int,
    k: int,
) -> T
    decreases k,
{
    if k <= 0 {
        T::count(0)
    } else {
        larger(
            density_peak(density, lens, i, j, k - 1),
            T::magnitude(
                density[pair(
                    start(lens, i) + (k - 1) / lens[j],
                    total(lens),
                    start(lens, j) + (k - 1) % lens[j],
                )],
            ),
        )
    }
}

/// The bounds on a density, by shells.
pub open spec fn density_bounds_of<T: Real>(density: Seq<T>, lens: Seq<int>) -> Seq<T> {
    let m = lens.len() as int;
    Seq::new(
        (m * m) as nat,
        |p: int| density_peak(density, lens, p / m, p % m, lens[p / m] * lens[p % m]),
    )
}

/// A plan for direct contractions over a basis.
pub struct DirectContractor<'b, T> {
    pub tables: &'b Tables<T>,
    pub prep: Prepared<'b, T>,
    pub engine: Engine,
    pub offs: Vec<usize>,
    pub counts: Vec<usize>,
    pub nao: usize,
    pub pairs: Vec<(usize, usize)>,
    pub pair_data: Vec<ShellPairData<T>>,
    pub schwarz: Vec<T>,
}

impl<'b, T: Real> DirectContractor<'b, T> {
    /// The numbers of functions of the shells.
    pub open spec fn lens(self) -> Seq<int> {
        function_counts(self.prep.shells@)
    }

    /// Whether what is held is that of the basis.
    pub open spec fn valid(self) -> bool {
        &&& self.tables.valid()
        &&& self.prep.valid()
        &&& are_lengths(self.lens())
        &&& self.nao == total(self.lens())
        &&& self.nao * self.nao <= usize::MAX
        &&& self.prep.shells@.len() * self.prep.shells@.len() <= usize::MAX
        &&& self.offs@.len() == self.lens().len()
        &&& self.counts@.len() == self.lens().len()
        &&& forall|s: int|
            0 <= s < self.lens().len() ==> #[trigger] self.offs@[s] == start(self.lens(), s)
        &&& forall|s: int|
            0 <= s < self.lens().len() ==> #[trigger] self.counts@[s] == self.lens()[s]
        &&& lists_canonical(self.pairs@, self.lens().len() as int)
        &&& holds_pairs(self.pair_data@, self.prep.shells@)
        &&& self.schwarz@ == schwarz_matrix(self.tables.rys, Engine::Auto, self.prep.shells@)
    }

    /// The contraction of a bra pair.
    pub open spec fn contraction(
        self,
        bra: int,
        bounds: Seq<Seq<T>>,
        threshold: T,
        want: bool,
    ) -> Contraction<T> {
        Contraction {
            rys: self.tables.rys,
            engine: self.engine,
            list: pair_list(self.prep.shells@, self.pairs@, self.pair_data@),
            schwarz: self.schwarz@,
            threshold,
            want,
            bra,
            bounds,
        }
    }

    /// A plan for a basis.
    #[must_use]
    pub fn new(basis: &'b Basis<T>, tables: &'b Tables<T>) -> (r: Self)
        requires
            tables.valid(),
            basis.valid(),
            basis.matrix_fits(),
            basis.shells@.len() * basis.shells@.len() <= usize::MAX,
        ensures
            r.valid(),
            r.prep.shells@ == basis.shells@,
            r.tables == tables,
            r.engine == Engine::Auto,
    {
        Self::with_engine(basis, tables, Engine::Auto)
    }

    /// A plan for a basis with the engine given.
    #[must_use]
    pub fn with_engine(basis: &'b Basis<T>, tables: &'b Tables<T>, engine: Engine) -> (r: Self)
        requires
            tables.valid(),
            basis.valid(),
            basis.matrix_fits(),
            basis.shells@.len() * basis.shells@.len() <= usize::MAX,
        ensures
            r.valid(),
            r.prep.shells@ == basis.shells@,
            r.tables == tables,
            r.engine == engine,
    {
        proof {
            lemma_function_counts(basis.shells@);
            basis.lemma_size_fits();
        }
        let prep = Prepared::new(&basis.shells);
        let pairs = canonical_shell_pairs(basis.shells.len());
        let pair_data = shell_pair_datas(&prep);
        DirectContractor {
            tables,
            prep,
            engine,
            offs: basis.offsets(),
            counts: counts_of(&basis.shells),
            nao: basis.nao(),
            pairs,
            pair_data,
            schwarz: basis.schwarz_bounds(tables),
        }
    }

    /// The number of functions.
    #[must_use]
    pub fn nao(&self) -> (n: usize)
        requires
            self.valid(),
        ensures
            n == total(self.lens()),
    {
        self.nao
    }

    /// The canonical bra pairs of shells.
    #[must_use]
    pub fn bra_pairs(&self) -> (r: &[(usize, usize)])
        ensures
            r@ == self.pairs@,
    {
        self.pairs.as_slice()
    }

    /// The largest magnitude in the block of two shells.
    fn block_bound(&self, density: &[T], i: usize, j: usize) -> (r: T)
        requires
            self.valid(),
            i < self.lens().len(),
            j < self.lens().len(),
            density@.len() == self.nao * self.nao,
        ensures
            r == density_peak(
                density@,
                self.lens(),
                i as int,
                j as int,
                self.lens()[i as int] * self.lens()[j as int],
            ),
    {
        let ghost lens = self.lens();
        let n = self.nao;
        proof {
            lemma_ranges_fit(lens, i as int);
            lemma_ranges_fit(lens, j as int);
            assert(self.prep.shells@[i as int].valid());
            assert(self.prep.shells@[j as int].valid());
        }
        let (ni, nj) = (self.prep.shells[i].n_func(), self.prep.shells[j].n_func());
        let (oi, oj) = (self.offs[i], self.offs[j]);
        let mut max = T::from_count(0);
        assert(ni * nj <= 28 * 28) by (nonlinear_arith)
            requires
                ni <= 28,
                nj <= 28,
        ;
        let mut k: usize = 0;
        while k < ni * nj
            invariant
                k <= ni * nj,
                ni * nj <= 28 * 28,
                1 <= nj,
                n == total(lens),
                n * n <= usize::MAX,
                density@.len() == n * n,
                ni == lens[i as int],
                nj == lens[j as int],
                oi == start(lens, i as int),
                oj == start(lens, j as int),
                oi + ni <= n,
                oj + nj <= n,
                max == density_peak(density@, lens, i as int, j as int, k as int),
            decreases ni * nj - k,
        {
            proof {
                crate::flat::lemma_index_parts(k as int, ni as int, nj as int);
                lemma_pair_in_range(
                    oi + k as int / nj as int,
                    n as int,
                    n as int,
                    oj + k as int % nj as int,
                );
            }
            max = larger_of(max, density[(oi + k / nj) * n + (oj + k % nj)].abs());
            k = k + 1;
        }
        max
    }

    /// The largest magnitudes of every density in the blocks of all pairs of shells.
    #[must_use]
    pub fn density_shell_bounds(&self, densities: &[&[T]]) -> (r: Vec<Vec<T>>)
        requires
            self.valid(),
            forall|e: int|
                0 <= e < densities@.len() ==> (#[trigger] densities@[e])@.len() == self.nao
                    * self.nao,
        ensures
            r@.len() == densities@.len(),
            forall|e: int|
                0 <= e < r@.len() ==> (#[trigger] r@[e])@ == density_bounds_of(
                    densities@[e]@,
                    self.lens(),
                ),
    {
        let ghost lens = self.lens();
        let nsh = self.prep.shells.len();
        let mut r: Vec<Vec<T>> = Vec::new();
        let mut e: usize = 0;
        while e < densities.len()
            invariant
                e <= densities@.len(),
                self.valid(),
                lens == self.lens(),
                nsh == lens.len(),
                forall|d: int|
                    0 <= d < densities@.len() ==> (#[trigger] densities@[d])@.len() == self.nao
                        * self.nao,
                r@.len() == e,
                forall|d: int|
                    0 <= d < e ==> (#[trigger] r@[d])@ == density_bounds_of(densities@[d]@, lens),
            decreases densities@.len() - e,
        {
            let mut bounds: Vec<T> = Vec::new();
            let mut p: usize = 0;
            while p < nsh * nsh
                invariant
                    p <= nsh * nsh,
                    e < densities@.len(),
                    self.valid(),
                    lens == self.lens(),
                    nsh == lens.len(),
                    nsh * nsh <= usize::MAX,
                    densities@[e as int]@.len() == self.nao * self.nao,
                    bounds@.len() == p,
                    forall|b: int|
                        0 <= b < p ==> #[trigger] bounds@[b] == density_bounds_of(
                            densities@[e as int]@,
                            lens,
                        )[b],
                decreases nsh * nsh - p,
            {
                proof {
                    crate::flat::lemma_index_parts(p as int, nsh as int, nsh as int);
                }
                bounds.push(self.block_bound(densities[e], p / nsh, p % nsh));
                p = p + 1;
            }
            assert(bounds@ =~= density_bounds_of(densities@[e as int]@, lens));
            r.push(bounds);
            e = e + 1;
        }
        r
    }

    /// Whether the ket pair of an item is one of the contraction.
    pub open spec fn is_item(self, item: Item) -> bool {
        item.0 < self.pairs@.len()
    }

    /// Contract the integrals of one ket pair.
    #[verifier::spinoff_prover]
    #[verifier::rlimit(40)]
    fn consume_scalar(
        &self,
        quartet: &mut QuartetScratch<T>,
        b: usize,
        item: Item,
        densities: &[&[T]],
        want_exchange: bool,
        outputs: &mut [DirectBuffers<'_, T>],
        Ghost(job): Ghost<Contraction<T>>,
    )
        requires
            self.valid(),
            b < self.pairs@.len(),
            job == self.contraction(b as int, job.bounds, job.threshold, want_exchange),
            self.is_item(item),
            all_fit(densities@, old(outputs)@, self.nao as int, want_exchange),
        ensures
            all_fit(densities@, final(outputs)@, self.nao as int, want_exchange),
            forall|e: int|
                0 <= e < densities@.len() ==> (#[trigger] final(outputs)@[e]).shown()
                    == job.with_item(old(outputs)@[e].shown(), densities@[e]@, e, item),
            forall|e: int|
                0 <= e < densities@.len() ==> final((#[trigger] final(outputs)@[e]).coulomb)@ == final(old(outputs)@[e].coulomb)@,
            forall|e: int|
                0 <= e < densities@.len() ==> ((#[trigger] final(outputs)@[e]).exchange is Some)
                    == (old(outputs)@[e].exchange is Some),
            forall|e: int|
                0 <= e < densities@.len() && old(outputs)@[e].exchange is Some ==> final((#[trigger] final(outputs)@[e]).exchange->0)@ == final(old(outputs)@[e].exchange->0)@,
    {
        let (i, j) = self.pairs[b];
        let (k, l) = self.pairs[item.0];
        proof {
            assert(self.pairs@[b as int].1 <= self.pairs@[b as int].0 < self.lens().len());
            assert(self.pairs@[item.0 as int].1 <= self.pairs@[item.0 as int].0
                < self.lens().len());
        }
        let s = [self.prep.side(i), self.prep.side(j), self.prep.side(k), self.prep.side(l)];
        let bra = pair_data_of(&self.pair_data, &self.prep, i, j);
        let kets = pair_data_of(&self.pair_data, &self.prep, k, l);
        quartet_into_scratch_pairs(quartet, self.tables, self.engine, s, bra, kets);
        assert(quartet.block@ == shell_block(
            self.tables.rys,
            self.engine,
            None,
            self.prep.shells@,
            i as int,
            j as int,
            k as int,
            l as int,
        ));
        scatter_block(
            outputs,
            densities,
            item.1,
            self.nao,
            &self.offs,
            &self.counts,
            [i, j, k, l],
            &quartet.block,
            want_exchange,
            Ghost(self.lens()),
        );
    }

    /// Contract the integrals of four ket pairs of one shape.
    #[verifier::spinoff_prover]
    #[verifier::rlimit(60)]
    fn consume_batch(
        &self,
        scratch: &mut EriBatchScratch<T>,
        b: usize,
        items: [Item; 4],
        densities: &[&[T]],
        want_exchange: bool,
        outputs: &mut [DirectBuffers<'_, T>],
        Ghost(job): Ghost<Contraction<T>>,
    )
        requires
            self.valid(),
            old(scratch).valid(),
            b < self.pairs@.len(),
            job == self.contraction(b as int, job.bounds, job.threshold, want_exchange),
            forall|lane: int|
                0 <= lane < 4 ==> self.is_item(#[trigger] items[lane]) && job.key(
                    items[lane].0 as int,
                ) is Some,
            all_fit(densities@, old(outputs)@, self.nao as int, want_exchange),
        ensures
            final(scratch).valid(),
            all_fit(densities@, final(outputs)@, self.nao as int, want_exchange),
            forall|e: int|
                0 <= e < densities@.len() ==> (#[trigger] final(outputs)@[e]).shown()
                    == job.with_items(old(outputs)@[e].shown(), densities@[e]@, e, items@),
            forall|e: int|
                0 <= e < densities@.len() ==> final((#[trigger] final(outputs)@[e]).coulomb)@ == final(old(outputs)@[e].coulomb)@,
            forall|e: int|
                0 <= e < densities@.len() ==> ((#[trigger] final(outputs)@[e]).exchange is Some)
                    == (old(outputs)@[e].exchange is Some),
            forall|e: int|
                0 <= e < densities@.len() && old(outputs)@[e].exchange is Some ==> final((#[trigger] final(outputs)@[e]).exchange->0)@ == final(old(outputs)@[e].exchange->0)@,
    {
        let ghost was = outputs@;
        let ghost lens = self.lens();
        let (i, j) = self.pairs[b];
        proof {
            assert(self.pairs@[b as int].1 <= self.pairs@[b as int].0 < lens.len());
            assert(self.is_item(items[0]) && self.is_item(items[1]));
            assert(self.is_item(items[2]) && self.is_item(items[3]));
        }
        let p0 = self.pairs[items[0].0];
        let p1 = self.pairs[items[1].0];
        let p2 = self.pairs[items[2].0];
        let p3 = self.pairs[items[3].0];
        let group = [
            [i, j, p0.0, p0.1],
            [i, j, p1.0, p1.1],
            [i, j, p2.0, p2.1],
            [i, j, p3.0, p3.1],
        ];
        proof {
            assert forall|lane: int| 0 <= lane < 4 implies are_pairs(
                self.prep.shells@,
                #[trigger] group[lane],
            ) && recurs(
                self.engine,
                four_of(
                    self.prep.shells@,
                    group[lane][0] as int,
                    group[lane][1] as int,
                    group[lane][2] as int,
                    group[lane][3] as int,
                ),
            ) && group[lane] == [
                i,
                j,
                self.pairs@[items[lane].0 as int].0,
                self.pairs@[items[lane].0 as int].1,
            ] by {
                assert(lane == 0 || lane == 1 || lane == 2 || lane == 3);
                let ket = items[lane].0 as int;
                assert(job.key(ket) is Some);
                assert(self.pairs@[ket].1 <= self.pairs@[ket].0 < lens.len());
            }
        }
        evaluate_batch4(
            scratch,
            self.tables,
            &self.prep,
            &self.pair_data,
            Ghost(self.engine),
            group,
        );
        let mut lane: usize = 0;
        assert(items@.take(0) =~= Seq::empty());
        while lane < 4
            invariant
                lane <= 4,
                self.valid(),
                scratch.valid(),
                lens == self.lens(),
                b < self.pairs@.len(),
                (i, j) == self.pairs@[b as int],
                job == self.contraction(b as int, job.bounds, job.threshold, want_exchange),
                forall|q: int| 0 <= q < 4 ==> self.is_item(#[trigger] items[q]),
                forall|q: int|
                    0 <= q < 4 ==> #[trigger] group[q] == [
                        i,
                        j,
                        self.pairs@[items[q].0 as int].0,
                        self.pairs@[items[q].0 as int].1,
                    ],
                forall|q: int|
                    0 <= q < 4 ==> (#[trigger] scratch.blocks@[q])@ == shell_block(
                        self.tables.rys,
                        self.engine,
                        None,
                        self.prep.shells@,
                        group[q][0] as int,
                        group[q][1] as int,
                        group[q][2] as int,
                        group[q][3] as int,
                    ) && scratch.blocks@[q]@.len() == function_size(
                        self.prep.shells@,
                        group[q][0] as int,
                        group[q][1] as int,
                        group[q][2] as int,
                        group[q][3] as int,
                    ),
                was.len() == densities@.len(),
                all_fit(densities@, outputs@, self.nao as int, want_exchange),
                forall|e: int|
                    0 <= e < densities@.len() ==> (#[trigger] outputs@[e]).shown()
                        == job.with_items(
                        was[e].shown(),
                        densities@[e]@,
                        e,
                        items@.take(lane as int),
                    ),
                forall|e: int|
                    0 <= e < densities@.len() ==> final((#[trigger] outputs@[e]).coulomb)@ == final(was[e].coulomb)@,
                forall|e: int|
                    0 <= e < densities@.len() ==> ((#[trigger] outputs@[e]).exchange is Some) == (
                    was[e].exchange is Some),
                forall|e: int|
                    0 <= e < densities@.len() && was[e].exchange is Some ==> final((#[trigger] outputs@[e]).exchange->0)@ == final(was[e].exchange->0)@,
            decreases 4 - lane,
        {
            let ghost before = outputs@;
            proof {
                assert(self.is_item(items[lane as int]));
                let ket = items[lane as int].0 as int;
                assert(self.pairs@[ket].1 <= self.pairs@[ket].0 < lens.len());
                assert(self.pairs@[b as int].1 <= self.pairs@[b as int].0 < lens.len());
                assert(group[lane as int] == [i, j, self.pairs@[ket].0, self.pairs@[ket].1]);
                assert(scratch.blocks@[lane as int]@.len() == function_size(
                    self.prep.shells@,
                    i as int,
                    j as int,
                    self.pairs@[ket].0 as int,
                    self.pairs@[ket].1 as int,
                ));
            }
            scatter_block(
                outputs,
                densities,
                items[lane].1,
                self.nao,
                &self.offs,
                &self.counts,
                group[lane],
                &scratch.blocks[lane],
                want_exchange,
                Ghost(lens),
            );
            proof {
                let item = items[lane as int];
                assert(items@.take(lane + 1).drop_last() =~= items@.take(lane as int));
                assert(items@.take(lane + 1).last() == item);
                assert forall|e: int| 0 <= e < densities@.len() implies (
                #[trigger] outputs@[e]).shown() == job.with_items(
                    was[e].shown(),
                    densities@[e]@,
                    e,
                    items@.take(lane + 1),
                ) by {
                    assert(before[e].shown() == job.with_items(
                        was[e].shown(),
                        densities@[e]@,
                        e,
                        items@.take(lane as int),
                    ));
                    assert(outputs@[e].shown() == job.with_item(
                        before[e].shown(),
                        densities@[e]@,
                        e,
                        item,
                    ));
                }
                assert forall|e: int| 0 <= e < densities@.len() implies final((#[trigger] outputs@[e]).coulomb)@ == final(was[e].coulomb)@ by {
                    assert(final(before[e].coulomb)@ == final(was[e].coulomb)@);
                }
                assert forall|e: int| 0 <= e < densities@.len() implies ((#[trigger] outputs@[e]).exchange is Some) == (was[e].exchange is Some) by {
                    assert((before[e].exchange is Some) == (was[e].exchange is Some));
                }
                assert forall|e: int| 0 <= e < densities@.len() && was[e].exchange is Some implies final((#[trigger] outputs@[e]).exchange->0)@ == final(was[e].exchange->0)@ by {
                    assert((before[e].exchange is Some) == (was[e].exchange is Some));
                    assert(final(before[e].exchange->0)@ == final(was[e].exchange->0)@);
                }
            }
            lane = lane + 1;
        }
        assert(items@.take(4) =~= items@);
    }
}

impl<T: Real> Contraction<T> {
    /// Whether what waits are ket pairs of the contraction, each with its shape.
    spec fn holds(self, w: Waiting<Item>) -> bool {
        forall|x: int, i: int|
            0 <= x < w.lists.len() && 0 <= i < w.lists[x].len() ==> (
            #[trigger] w.lists[x][i]).0 <= self.bra && self.key(w.lists[x][i].0 as int) == Some(
                w.keys[x],
            )
    }

    proof fn lemma_holds(self, w: Waiting<Item>, key: BatchKey, item: Item)
        requires
            w.valid(),
            self.holds(w),
            item.0 <= self.bra,
            self.key(item.0 as int) == Some(key),
        ensures
            self.holds(w.joined_by(key, item)),
            forall|i: int|
                0 <= i < w.released_by(key, item).len() ==> (#[trigger] w.released_by(
                    key,
                    item,
                )[i]).0 <= self.bra && self.key(w.released_by(key, item)[i].0 as int) is Some,
    {
        let at = place_of(w.keys, key, w.keys.len() as int);
        lemma_place(w.keys, key, w.keys.len() as int);
        let v = w.joined_by(key, item);
        assert forall|x: int, i: int|
            0 <= x < v.lists.len() && 0 <= i < v.lists[x].len() implies (
        #[trigger] v.lists[x][i]).0 <= self.bra && self.key(v.lists[x][i].0 as int) == Some(
            v.keys[x],
        ) by {
            if w.knows(key) {
                if x != at {
                    assert(v.lists[x][i] == w.lists[x][i]);
                } else if i < w.lists[at].len() {
                    assert(v.lists[x][i] == w.lists[x][i]);
                }
            } else if x < at {
                assert(v.lists[x][i] == w.lists[x][i]);
            } else if x > at {
                assert(v.lists[x] == w.lists[x - 1]);
                assert(v.lists[x][i] == w.lists[x - 1][i]);
            }
        }
        let r = w.released_by(key, item);
        assert forall|i: int| 0 <= i < r.len() implies (#[trigger] r[i]).0 <= self.bra && self.key(
            r[i].0 as int,
        ) is Some by {
            if i < w.lists[at].len() {
                assert(r[i] == w.lists[at][i]);
            }
        }
    }

    proof fn lemma_listed(self, w: Waiting<Item>, n: int)
        requires
            self.holds(w),
            0 <= n <= w.lists.len(),
        ensures
            forall|i: int| 0 <= i < w.listed(n).len() ==> (#[trigger] w.listed(n)[i]).0 <= self.bra,
        decreases n,
    {
        if n > 0 {
            self.lemma_listed(w, n - 1);
            assert forall|i: int| 0 <= i < w.listed(n).len() implies (#[trigger] w.listed(n)[i]).0
                <= self.bra by {
                let m = w.listed(n - 1).len() as int;
                if i < m {
                    assert(w.listed(n)[i] == w.listed(n - 1)[i]);
                } else {
                    assert(w.listed(n)[i] == w.lists[n - 1][i - m]);
                }
            }
        }
    }

    proof fn lemma_single(self, t: Tally<T>, density: Seq<T>, e: int, item: Item)
        ensures
            self.with_items(t, density, e, seq![item]) == self.with_item(t, density, e, item),
    {
        assert(seq![item].drop_last() =~= Seq::<Item>::empty());
        assert(self.with_items(t, density, e, Seq::<Item>::empty()) == t);
    }
}

/// The bounds of the densities.
pub open spec fn views<T>(s: Seq<&[T]>) -> Seq<Seq<T>> {
    Seq::new(s.len(), |e: int| s[e]@)
}

impl<'b, T: Real> DirectContractor<'b, T> {
    /// The entry of two shells in a matrix over the shells.
    fn shell_entry(&self, m: &[T], i: usize, j: usize) -> (r: T)
        requires
            self.valid(),
            m@.len() == self.prep.shells@.len() * self.prep.shells@.len(),
            i < self.prep.shells@.len(),
            j < self.prep.shells@.len(),
        ensures
            r == m@[pair(i as int, self.prep.shells@.len() as int, j as int)],
    {
        let nsh = self.prep.shells.len();
        proof {
            lemma_pair_in_range(i as int, nsh as int, nsh as int, j as int);
        }
        m[i * nsh + j]
    }

    /// The densities that are contracted with the integrals of a ket pair, as bits.
    fn density_mask(
        &self,
        b: usize,
        ket: usize,
        density_bounds: &[&[T]],
        pair_bound: T,
        threshold: T,
        Ghost(job): Ghost<Contraction<T>>,
    ) -> (mask: u64)
        requires
            self.valid(),
            b < self.pairs@.len(),
            ket < self.pairs@.len(),
            density_bounds@.len() <= 64,
            forall|e: int|
                0 <= e < density_bounds@.len() ==> (#[trigger] density_bounds@[e])@.len()
                    == self.prep.shells@.len() * self.prep.shells@.len(),
            job == self.contraction(b as int, views(density_bounds@), threshold, job.want),
            pair_bound == job.pair_bound(ket as int),
        ensures
            mask == job.mask(ket as int, density_bounds@.len() as int),
    {
        let (i, j) = self.pairs[b];
        let (k, l) = self.pairs[ket];
        assert(self.pairs@[b as int].1 <= self.pairs@[b as int].0 < self.lens().len());
        assert(self.pairs@[ket as int].1 <= self.pairs@[ket as int].0 < self.lens().len());
        let mut mask: u64 = 0;
        let mut e: usize = 0;
        while e < density_bounds.len()
            invariant
                e <= density_bounds@.len(),
                density_bounds@.len() <= 64,
                self.valid(),
                j <= i < self.prep.shells@.len(),
                l <= k < self.prep.shells@.len(),
                forall|d: int|
                    0 <= d < density_bounds@.len() ==> (#[trigger] density_bounds@[d])@.len()
                        == self.prep.shells@.len() * self.prep.shells@.len(),
                job == self.contraction(b as int, views(density_bounds@), threshold, job.want),
                (i, j) == self.pairs@[b as int],
                (k, l) == self.pairs@[ket as int],
                pair_bound == job.pair_bound(ket as int),
                mask == job.mask(ket as int, e as int),
            decreases density_bounds@.len() - e,
        {
            let m = density_bounds[e];
            assert(density_bounds@[e as int]@.len() == self.prep.shells@.len()
                * self.prep.shells@.len());
            assert(job.bounds[e as int] == m@);
            let ij = self.shell_entry(m, i, j);
            let with_kl = larger_of(ij, self.shell_entry(m, k, l));
            let with_ik = larger_of(with_kl, self.shell_entry(m, i, k));
            let with_il = larger_of(with_ik, self.shell_entry(m, i, l));
            let with_jk = larger_of(with_il, self.shell_entry(m, j, k));
            let bound = larger_of(with_jk, self.shell_entry(m, j, l));
            assert(bound == job.density_bound(e as int, ket as int));
            if threshold.at_most(pair_bound.times(bound)) {
                mask = mask | (1u64 << (e as u64));
            }
            e = e + 1;
        }
        mask
    }

    /// Contract the integrals of one bra pair with all ket pairs that do not come after
    /// it. A ket pair is left out if the bound on its integrals is below `threshold`, and
    /// for a density also if the bound times that on the density is.
    #[verifier::spinoff_prover]
    #[verifier::rlimit(80)]
    pub fn accumulate_bra_pair(
        &self,
        workspace: &mut DirectWorkspace<T>,
        bra: (usize, usize),
        densities: &[&[T]],
        density_bounds: &[&[T]],
        threshold: T,
        want_exchange: bool,
        outputs: &mut [DirectBuffers<'_, T>],
    )
        requires
            self.valid(),
            old(workspace).valid(),
            bra.1 <= bra.0 < self.prep.shells@.len(),
            all_fit(densities@, old(outputs)@, self.nao as int, want_exchange),
            density_bounds@.len() == densities@.len(),
            forall|e: int|
                0 <= e < density_bounds@.len() ==> (#[trigger] density_bounds@[e])@.len()
                    == self.prep.shells@.len() * self.prep.shells@.len(),
        ensures
            final(workspace).valid(),
            all_fit(densities@, final(outputs)@, self.nao as int, want_exchange),
            forall|e: int|
                0 <= e < densities@.len() ==> (#[trigger] final(outputs)@[e]).shown()
                    == self.contraction(
                    pair_number(bra.0 as int, bra.1 as int),
                    views(density_bounds@),
                    threshold,
                    want_exchange,
                ).result(old(outputs)@[e].shown(), densities@[e]@, e),
            forall|e: int|
                0 <= e < densities@.len() ==> final((#[trigger] final(outputs)@[e]).coulomb)@ == final(old(outputs)@[e].coulomb)@,
            forall|e: int|
                0 <= e < densities@.len() ==> ((#[trigger] final(outputs)@[e]).exchange is Some)
                    == (old(outputs)@[e].exchange is Some),
            forall|e: int|
                0 <= e < densities@.len() && old(outputs)@[e].exchange is Some ==> final((#[trigger] final(outputs)@[e]).exchange->0)@ == final(old(outputs)@[e].exchange->0)@,
    {
        let ghost was = outputs@;
        let (i, j) = bra;
        let nsh = self.prep.shells.len();
        let npairs = self.pairs.len();
        proof {
            law_every_pair_is_listed(self.pairs@, nsh as int, i as int, j as int);
        }
        let b = tri_idx(i, j);
        let ghost job = self.contraction(
            b as int,
            views(density_bounds@),
            threshold,
            want_exchange,
        );
        workspace.pending = PendingQueue::new();
        let qab = self.shell_entry(self.schwarz.as_slice(), i, j);
        if is_zero(qab) {
            return ;
        }
        let ghost mut done: Seq<Item> = Seq::empty();
        let mut ket: usize = 0;
        while ket <= b
            invariant
                ket <= b + 1,
                b < self.pairs@.len(),
                self.pairs@.len() == npairs,
                self.valid(),
                workspace.batch.valid(),
                (i, j) == self.pairs@[b as int],
                j <= i < self.prep.shells@.len(),
                job == self.contraction(
                    b as int,
                    views(density_bounds@),
                    threshold,
                    want_exchange,
                ),
                density_bounds@.len() == densities@.len(),
                forall|e: int|
                    0 <= e < density_bounds@.len() ==> (#[trigger] density_bounds@[e])@.len()
                        == self.prep.shells@.len() * self.prep.shells@.len(),
                qab == job.entry(job.schwarz, i as int, j as int),
                workspace.pending.shown().valid(),
                job.holds(workspace.pending.shown()),
                job.after(ket as int) == (workspace.pending.shown(), done),
                was.len() == densities@.len(),
                all_fit(densities@, outputs@, self.nao as int, want_exchange),
                forall|e: int|
                    0 <= e < densities@.len() ==> (#[trigger] outputs@[e]).shown()
                        == job.with_items(was[e].shown(), densities@[e]@, e, done),
                forall|e: int|
                    0 <= e < densities@.len() ==> final((#[trigger] outputs@[e]).coulomb)@ == final(was[e].coulomb)@,
                forall|e: int|
                    0 <= e < densities@.len() ==> ((#[trigger] outputs@[e]).exchange is Some) == (
                    was[e].exchange is Some),
                forall|e: int|
                    0 <= e < densities@.len() && was[e].exchange is Some ==> final((#[trigger] outputs@[e]).exchange->0)@ == final(was[e].exchange->0)@,
            decreases b + 1 - ket,
        {
            let (k, l) = self.pairs[ket];
            assert(self.pairs@[ket as int].1 <= self.pairs@[ket as int].0 < self.lens().len());
            let pair_bound = qab.times(self.shell_entry(self.schwarz.as_slice(), k, l));
            assert(pair_bound == job.pair_bound(ket as int));
            let ghost before = outputs@;
            if !pair_bound.less(threshold) {
                let mask = self.density_mask(
                    b,
                    ket,
                    density_bounds,
                    pair_bound,
                    threshold,
                    Ghost(job),
                );
                if mask != 0 {
                    let item: Item = (ket, mask);
                    assert(item == job.item(ket as int));
                    let s = [
                        self.prep.side(i),
                        self.prep.side(j),
                        self.prep.side(k),
                        self.prep.side(l),
                    ];
                    let key = batch_key(
                        self.engine,
                        s,
                        [self.pair_data[b].pairs.len(), self.pair_data[ket].pairs.len()],
                    );
                    assert(key == job.key(ket as int));
                    let ghost w = workspace.pending.shown();
                    match key {
                        None => {
                            self.consume_scalar(
                                &mut workspace.quartet,
                                b,
                                item,
                                densities,
                                want_exchange,
                                outputs,
                                Ghost(job),
                            );
                            proof {
                                assert(done.push(item) =~= done + seq![item]);
                                assert forall|e: int| 0 <= e < densities@.len() implies (
                                #[trigger] outputs@[e]).shown() == job.with_items(
                                    was[e].shown(),
                                    densities@[e]@,
                                    e,
                                    done + seq![item],
                                ) by {
                                    assert(before[e].shown() == job.with_items(
                                        was[e].shown(),
                                        densities@[e]@,
                                        e,
                                        done,
                                    ));
                                    job.lemma_with_items_joined(
                                        was[e].shown(),
                                        densities@[e]@,
                                        e,
                                        done,
                                        seq![item],
                                    );
                                    job.lemma_single(
                                        before[e].shown(),
                                        densities@[e]@,
                                        e,
                                        item,
                                    );
                                }
                                assert forall|e: int| 0 <= e < densities@.len() implies final((#[trigger] outputs@[e]).coulomb)@ == final(was[e].coulomb)@ by {
                                    assert(final(before[e].coulomb)@ == final(was[e].coulomb)@);
                                }
                                assert forall|e: int| 0 <= e < densities@.len() implies ((#[trigger] outputs@[e]).exchange is Some) == (was[e].exchange is Some) by {
                                    assert((before[e].exchange is Some) == (was[e].exchange is Some));
                                }
                                assert forall|e: int| 0 <= e < densities@.len() && was[e].exchange is Some implies final((#[trigger] outputs@[e]).exchange->0)@ == final(was[e].exchange->0)@ by {
                                    assert((before[e].exchange is Some) == (was[e].exchange is Some));
                                    assert(final(before[e].exchange->0)@ == final(was[e].exchange->0)@);
                                }
                                done = done.push(item);
                            }
                        },
                        Some(shape) => {
                            proof {
                                job.lemma_holds(w, shape, item);
                            }
                            match workspace.pending.push(shape, item) {
                                None => {
                                    proof {
                                        assert(done + w.released_by(shape, item) =~= done);
                                    }
                                },
                                Some(group) => {
                                    proof {
                                        assert forall|lane: int| 0 <= lane < 4 implies self.is_item(
                                            #[trigger] group[lane],
                                        ) && job.key(group[lane].0 as int) is Some by {
                                            assert(group@[lane] == w.released_by(
                                                shape,
                                                item,
                                            )[lane]);
                                        }
                                    }
                                    self.consume_batch(
                                        &mut workspace.batch,
                                        b,
                                        group,
                                        densities,
                                        want_exchange,
                                        outputs,
                                        Ghost(job),
                                    );
                                    proof {
                                        assert forall|e: int|
                                            0 <= e < densities@.len() implies (
                                        #[trigger] outputs@[e]).shown() == job.with_items(
                                            was[e].shown(),
                                            densities@[e]@,
                                            e,
                                            done + group@,
                                        ) by {
                                            assert(before[e].shown() == job.with_items(
                                                was[e].shown(),
                                                densities@[e]@,
                                                e,
                                                done,
                                            ));
                                            job.lemma_with_items_joined(
                                                was[e].shown(),
                                                densities@[e]@,
                                                e,
                                                done,
                                                group@,
                                            );
                                        }
                                        assert forall|e: int| 0 <= e < densities@.len() implies final((#[trigger] outputs@[e]).coulomb)@ == final(was[e].coulomb)@ by {
                                            assert(final(before[e].coulomb)@ == final(was[e].coulomb)@);
                                        }
                                        assert forall|e: int| 0 <= e < densities@.len() implies ((#[trigger] outputs@[e]).exchange is Some) == (was[e].exchange is Some) by {
                                            assert((before[e].exchange is Some) == (was[e].exchange is Some));
                                        }
                                        assert forall|e: int| 0 <= e < densities@.len() && was[e].exchange is Some implies final((#[trigger] outputs@[e]).exchange->0)@ == final(was[e].exchange->0)@ by {
                                            assert((before[e].exchange is Some) == (was[e].exchange is Some));
                                            assert(final(before[e].exchange->0)@ == final(was[e].exchange->0)@);
                                        }
                                        done = done + group@;
                                    }
                                },
                            }
                        },
                    }
                }
            }
            ket = ket + 1;
        }
        let ghost w = workspace.pending.shown();
        let ghost first = done;
        proof {
            job.lemma_listed(w, w.lists.len() as int);
        }
        let tails = workspace.pending.drain();
        let mut t: usize = 0;
        assert(first + tails@.take(0) =~= first);
        while t < tails.len()
            invariant
                t <= tails@.len(),
                b < self.pairs@.len(),
                self.valid(),
                workspace.batch.valid(),
                job == self.contraction(
                    b as int,
                    views(density_bounds@),
                    threshold,
                    want_exchange,
                ),
                forall|x: int| 0 <= x < tails@.len() ==> (#[trigger] tails@[x]).0 <= b,
                done == first + tails@.take(t as int),
                was.len() == densities@.len(),
                all_fit(densities@, outputs@, self.nao as int, want_exchange),
                forall|e: int|
                    0 <= e < densities@.len() ==> (#[trigger] outputs@[e]).shown()
                        == job.with_items(was[e].shown(), densities@[e]@, e, done),
                forall|e: int|
                    0 <= e < densities@.len() ==> final((#[trigger] outputs@[e]).coulomb)@ == final(was[e].coulomb)@,
                forall|e: int|
                    0 <= e < densities@.len() ==> ((#[trigger] outputs@[e]).exchange is Some) == (
                    was[e].exchange is Some),
                forall|e: int|
                    0 <= e < densities@.len() && was[e].exchange is Some ==> final((#[trigger] outputs@[e]).exchange->0)@ == final(was[e].exchange->0)@,
            decreases tails@.len() - t,
        {
            let ghost before = outputs@;
            let item = tails[t];
            assert(tails@[t as int].0 <= b);
            self.consume_scalar(
                &mut workspace.quartet,
                b,
                item,
                densities,
                want_exchange,
                outputs,
                Ghost(job),
            );
            proof {
                assert forall|e: int| 0 <= e < densities@.len() implies (
                #[trigger] outputs@[e]).shown() == job.with_items(
                    was[e].shown(),
                    densities@[e]@,
                    e,
                    done + seq![item],
                ) by {
                    assert(before[e].shown() == job.with_items(
                        was[e].shown(),
                        densities@[e]@,
                        e,
                        done,
                    ));
                    job.lemma_with_items_joined(
                        was[e].shown(),
                        densities@[e]@,
                        e,
                        done,
                        seq![item],
                    );
                    job.lemma_single(before[e].shown(), densities@[e]@, e, item);
                }
                assert forall|e: int| 0 <= e < densities@.len() implies final((#[trigger] outputs@[e]).coulomb)@ == final(was[e].coulomb)@ by {
                    assert(final(before[e].coulomb)@ == final(was[e].coulomb)@);
                }
                assert forall|e: int| 0 <= e < densities@.len() implies ((#[trigger] outputs@[e]).exchange is Some) == (was[e].exchange is Some) by {
                    assert((before[e].exchange is Some) == (was[e].exchange is Some));
                }
                assert forall|e: int| 0 <= e < densities@.len() && was[e].exchange is Some implies final((#[trigger] outputs@[e]).exchange->0)@ == final(was[e].exchange->0)@ by {
                    assert((before[e].exchange is Some) == (was[e].exchange is Some));
                    assert(final(before[e].exchange->0)@ == final(was[e].exchange->0)@);
                }
                assert(first + tails@.take(t + 1) =~= done + seq![item]);
                done = done + seq![item];
            }
            t = t + 1;
        }
        assert(tails@.take(t as int) =~= tails@);
        assert(done == job.order());
    }
}

impl<T: Real> Basis<T> {
    /// A plan for direct contractions over this basis.
    #[must_use]
    pub fn direct_contractor<'b>(&'b self, tables: &'b Tables<T>) -> (r: DirectContractor<'b, T>)
        requires
            tables.valid(),
            self.valid(),
            self.matrix_fits(),
            self.shells@.len() * self.shells@.len() <= usize::MAX,
        ensures
            r.valid(),
            r.prep.shells@ == self.shells@,
            r.tables == tables,
            r.engine == Engine::Auto,
    {
        DirectContractor::new(self, tables)
    }
}

} // verus!
