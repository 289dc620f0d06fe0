//! Coulomb integrals `<a| 1/|r-C| |b>` of one pair of shells at many points `C`.
//!
//! All that does not depend on the point is prepared once: the product of every
//! primitive pair, the schedule of the vertical recurrence over one flat ladder, and
//! the horizontal recurrence collapsed to a linear combination per component pair.
use vstd::prelude::*;

use crate::engine::nuclear::{attraction, ChargeInput};
use crate::engine::os::{
    block_size, lemma_block_bounds, lemma_pair_at, make_pair, pair_at, product_of,
};
use crate::engine::os_eri::MAX_L;
use crate::engine::pairs::{difference, norm2, square, Vec3};
use crate::engine::triples::{
    addr, address, dec, first_axis, inc, is_triple, law_addresses_are_distinct,
    law_every_address_is_taken, lemma_small_degree, lists_triples, lower_axis, power, power_of,
    shifted, tetrahedron, triple_at, triple_table,
};
use crate::flat::{assigned, lemma_assigned_step, pair};
use crate::math::am::{
    cart_components, cart_count, component_at, degree, lemma_listed_components, n_cart, powers,
    Powers,
};
use crate::math::boys::{attenuated_ladder, boys_array, boys_array_erf, ladder, BoysTable};
use crate::offsets::{
    are_lengths, law_ranges_are_disjoint, lemma_start_grows, lengths, start, starts,
};
use crate::scalar::{filled, Real, Scalar};

verus! {

/// One step of the schedule: the ladder of a triple from those of its lower
/// neighbours.
#[derive(Clone, Copy, Debug)]
pub struct VrrStep {
    /// Where the ladder of the triple `t` starts.
    pub dst: usize,
    /// Where the ladder of `a = t - 1_i` starts.
    pub src: usize,
    /// Where the ladder of `a - 1_i` starts, if `a` has a power along `i`.
    pub src2: Option<usize>,
    /// The axis `i`.
    pub dir: usize,
    /// The power of `a` along `i`.
    pub a_i: usize,
    /// Number of orders of the ladder of `t`.
    pub m_count: usize,
}

/// The product of one primitive pair.
#[derive(Clone, Copy, Debug)]
pub struct GridPrim<T> {
    /// `alpha + beta`.
    pub p: T,
    /// `1/2p`.
    pub one_over_2p: T,
    /// Product center.
    pub p_center: Vec3<T>,
    /// `P - A`.
    pub pa: Vec3<T>,
    /// `scale 2 pi/p K_AB`.
    pub pref: T,
}

/// Numbers of orders kept per triple, by address: a triple of degree `d` keeps
/// `lt - d + 1`.
pub open spec fn orders(lt: int) -> Seq<int> {
    Seq::new(tetrahedron(lt + 1) as nat, |n: int| lt - degree(triple_at(lt, n)) + 1)
}

/// Where the ladder of triple `t` starts.
pub open spec fn ladder_start(lt: int, t: Powers) -> int {
    start(orders(lt), address(t))
}

/// Whether `step` builds the ladder of triple `t`.
pub open spec fn builds(step: VrrStep, lt: int, t: Powers) -> bool {
    let i = first_axis(t);
    let a = shifted(t, i, -1);
    &&& step.dst == ladder_start(lt, t)
    &&& step.src == ladder_start(lt, a)
    &&& step.dir == i
    &&& step.a_i == power(a, i)
    &&& step.src2 == (if power(a, i) > 0 {
        Some(ladder_start(lt, shifted(a, i, -1)) as usize)
    } else {
        None
    })
    &&& power(a, i) > 0 ==> ladder_start(lt, shifted(a, i, -1)) <= usize::MAX
    &&& step.m_count == lt - degree(t) + 1
}

/// The product of the primitive pair `q = (alpha, beta, scale)` at `a` and `b`.
pub open spec fn grid_prim<T: Real>(a: Vec3<T>, b: Vec3<T>, q: (T, T, T)) -> GridPrim<T> {
    let pr = product_of(q.0, a, q.1, b);
    GridPrim {
        p: pr.p,
        one_over_2p: pr.one_over_2p,
        p_center: pr.p_center,
        pa: difference(pr.p_center, a),
        pref: T::prod(
            T::quot(T::prod(T::prod(q.2, T::count(2)), T::circle()), pr.p),
            T::expo(T::prod(T::neg(pr.mu), pr.ab2)),
        ),
    }
}

/// `acc`, by address, with `coef (a, b)` added after the horizontal recurrence has
/// been expanded down to powers on the first center alone.
pub open spec fn expanded<T: Scalar>(
    a: Powers,
    b: Powers,
    coef: T,
    ab: Vec3<T>,
    acc: Seq<Option<T>>,
) -> Seq<Option<T>>
    decreases degree(b),
{
    if degree(b) <= 0 {
        acc.update(
            address(a),
            Some(
                T::sum(
                    match acc[address(a)] {
                        Some(v) => v,
                        None => T::count(0),
                    },
                    coef,
                ),
            ),
        )
    } else {
        let j = first_axis(b);
        let b_low = shifted(b, j, -1);
        expanded(
            a,
            b_low,
            T::prod(coef, ab[j]),
            ab,
            expanded(shifted(a, j, 1), b_low, coef, ab, acc),
        )
    }
}

/// The coefficients of `(a, b)` over the triples of degree at most `lt`.
pub open spec fn coefficients<T: Scalar>(a: Powers, b: Powers, ab: Vec3<T>, lt: int) -> Seq<
    Option<T>,
> {
    expanded(a, b, T::count(1), ab, Seq::new(tetrahedron(lt + 1) as nat, |n: int| None))
}

/// The sum of `coef * theta` over the coefficients before `n`, in order.
pub open spec fn combination<T: Scalar>(coefs: Seq<Option<T>>, theta: Seq<T>, n: int) -> T
    decreases n,
{
    if n <= 0 {
        T::count(0)
    } else {
        match coefs[n - 1] {
            Some(c) => T::sum(combination(coefs, theta, n - 1), T::prod(c, theta[n - 1])),
            None => combination(coefs, theta, n - 1),
        }
    }
}

/// The coefficients before `n` that are there, each with its address.
pub open spec fn terms_of<T>(coefs: Seq<Option<T>>, n: int) -> Seq<(usize, T)>
    decreases n,
{
    if n <= 0 {
        Seq::empty()
    } else {
        match coefs[n - 1] {
            Some(c) => terms_of(coefs, n - 1).push(((n - 1) as usize, c)),
            None => terms_of(coefs, n - 1),
        }
    }
}

/// A prepared pair of shells.
pub struct GridCoulombPair<T> {
    pub la: usize,
    pub lb: usize,
    pub ab: Vec3<T>,
    pub prims: Vec<GridPrim<T>>,
    pub plan: Vec<VrrStep>,
    pub ladder_offs: Vec<usize>,
    pub ladder_len: usize,
    pub hrr: Vec<Vec<(usize, T)>>,
}

/// Buffers that [`GridCoulombPair::eval_into`] may be given again and again. What they
/// hold has no effect on a result.
pub struct GridCoulombScratch<T> {
    pub fm: Vec<T>,
    pub ladder: Vec<T>,
    pub theta0: Vec<T>,
}

impl<T> GridCoulombScratch<T> {
    /// Empty buffers.
    #[must_use]
    pub fn new() -> (r: Self)
        ensures
            r.fm@.len() == 0,
            r.ladder@.len() == 0,
            r.theta0@.len() == 0,
    {
        GridCoulombScratch { fm: Vec::new(), ladder: Vec::new(), theta0: Vec::new() }
    }
}

/// What the vertical recurrence of a primitive pair and a point runs on.
pub open spec fn point_input<T: Scalar>(q: GridPrim<T>, c: Vec3<T>) -> ChargeInput<T> {
    ChargeInput { h: q.one_over_2p, pa: q.pa, pc: difference(q.p_center, c) }
}

/// The ladder of a primitive pair and a point, of the Coulomb kernel or of the one
/// attenuated by `omega`.
pub open spec fn point_ladder<T: Real>(
    q: GridPrim<T>,
    c: Vec3<T>,
    omega: Option<T>,
    lt: int,
) -> Seq<T> {
    let u = T::prod(q.p, square(difference(q.p_center, c)));
    Seq::new(
        (lt + 1) as nat,
        |m: int|
            T::prod(
                q.pref,
                match omega {
                    None => ladder(lt, u, m),
                    Some(w) => attenuated_ladder(lt, u, q.p, w, m),
                },
            ),
    )
}

/// The lowest-order value of the triple at address `t`, summed over the first `n`
/// primitive pairs.
pub open spec fn point_sum<T: Real>(
    prims: Seq<GridPrim<T>>,
    c: Vec3<T>,
    omega: Option<T>,
    lt: int,
    n: int,
    t: int,
) -> T
    decreases n,
{
    if n <= 0 {
        T::count(0)
    } else {
        T::sum(
            point_sum(prims, c, omega, lt, n - 1, t),
            attraction(
                point_input(prims[n - 1], c),
                point_ladder(prims[n - 1], c, omega, lt),
                triple_at(lt, t),
                0,
            ),
        )
    }
}

/// [`point_sum`] of all triples of degree at most `lt`, by address.
pub open spec fn point_sums<T: Real>(
    prims: Seq<GridPrim<T>>,
    c: Vec3<T>,
    omega: Option<T>,
    lt: int,
    n: int,
) -> Seq<T> {
    Seq::new(tetrahedron(lt + 1) as nat, |t: int| point_sum(prims, c, omega, lt, n, t))
}

/// The integrals at the point `c` of a pair of shells `ab` apart, by index in the block.
pub open spec fn point_entries<T: Real>(
    la: int,
    lb: int,
    ab: Vec3<T>,
    prims: Seq<GridPrim<T>>,
    c: Vec3<T>,
    omega: Option<T>,
) -> spec_fn(int) -> T {
    |k: int|
        {
            let lt = la + lb;
            let (ca, cb) = pair_at(la, lb, k);
            combination(
                coefficients(ca, cb, ab, lt),
                point_sums(prims, c, omega, lt, prims.len() as int),
                tetrahedron(lt + 1),
            )
        }
}

impl<T: Real> GridCoulombPair<T> {
    /// Total angular momentum.
    pub open spec fn lt(self) -> int {
        self.la + self.lb
    }

    /// Whether the schedule and the combinations are those of the two shells.
    pub open spec fn valid(self) -> bool {
        let lt = self.lt();
        let n = tetrahedron(lt + 1);
        &&& self.la <= MAX_L
        &&& self.lb <= MAX_L
        &&& self.ladder_offs@.len() == n
        &&& forall|k: int| 0 <= k < n ==> #[trigger] self.ladder_offs@[k] == start(orders(lt), k)
        &&& self.ladder_len == start(orders(lt), n)
        &&& self.plan@.len() == n - 1
        &&& forall|k: int|
            0 <= k < n - 1 ==> builds(#[trigger] self.plan@[k], lt, triple_at(lt, k + 1))
        &&& self.hrr@.len() == block_size(self.la as int, self.lb as int)
        &&& forall|k: int|
            0 <= k < self.hrr@.len() ==> (#[trigger] self.hrr@[k])@ == self.terms(k)
    }

    /// The terms of the component pair at index `k`.
    pub open spec fn terms(self, k: int) -> Seq<(usize, T)> {
        let (ca, cb) = pair_at(self.la as int, self.lb as int, k);
        terms_of(coefficients(ca, cb, self.ab, self.lt()), tetrahedron(self.lt() + 1))
    }

    /// The integrals at the point `c`, by index in the block: of the Coulomb kernel,
    /// or of the one attenuated by `omega`.
    pub open spec fn entries(self, c: Vec3<T>, omega: Option<T>) -> spec_fn(int) -> T {
        point_entries(self.la as int, self.lb as int, self.ab, self.prims@, c, omega)
    }
}

/// Expand the horizontal recurrence of `coef (a, b)` into `acc`.
pub fn hrr_expand<T: Scalar>(
    a: [usize; 3],
    b: [usize; 3],
    coef: T,
    ab: Vec3<T>,
    lmax: usize,
    acc: &mut Vec<Option<T>>,
)
    requires
        lmax <= 12,
        degree(powers(a)) + degree(powers(b)) <= lmax,
        old(acc)@.len() == tetrahedron(lmax + 1),
    ensures
        final(acc)@ == expanded(powers(a), powers(b), coef, ab, old(acc)@),
        final(acc)@.len() == old(acc)@.len(),
    decreases degree(powers(b)),
{
    if b[0] == 0 && b[1] == 0 && b[2] == 0 {
        proof {
            lemma_small_degree(degree(powers(a)));
            law_addresses_are_distinct(powers(a), powers(a), lmax as int);
        }
        let e = addr(a);
        let v = match acc[e] {
            Some(v) => v,
            None => T::from_count(0),
        };
        acc[e] = Some(v.plus(coef));
        return ;
    }
    let j = lower_axis(b);
    let b_low = dec(b, j);
    let a_up = inc(a, j);
    hrr_expand(a_up, b_low, coef, ab, lmax, acc);
    hrr_expand(a, b_low, coef.times(ab[j]), ab, lmax, acc);
}

/// The numbers of orders are lengths, and their total is small.
proof fn lemma_orders(lt: int)
    requires
        0 <= lt <= 12,
    ensures
        are_lengths(orders(lt)),
        orders(lt).len() == tetrahedron(lt + 1) <= 3276,
        forall|n: int|
            0 <= n < tetrahedron(lt + 1) ==> 1 <= #[trigger] orders(lt)[n] <= lt + 1 && orders(lt)[n]
                == lt - degree(triple_at(lt, n)) + 1,
        0 <= start(orders(lt), tetrahedron(lt + 1)) <= 13 * tetrahedron(lt + 1),
{
    lemma_small_degree(lt);
    assert forall|n: int| 0 <= n < tetrahedron(lt + 1) implies 1 <= #[trigger] orders(lt)[n] <= lt
        + 1 && orders(lt)[n] == lt - degree(triple_at(lt, n)) + 1 by {
        law_every_address_is_taken(lt, n);
    }
    lemma_start_bound(lt, tetrahedron(lt + 1));
}

/// A bound on where a ladder starts.
proof fn lemma_start_bound(lt: int, n: int)
    requires
        0 <= lt <= 12,
        0 <= n <= tetrahedron(lt + 1),
        forall|k: int| 0 <= k < tetrahedron(lt + 1) ==> 1 <= #[trigger] orders(lt)[k] <= lt + 1,
    ensures
        0 <= start(orders(lt), n) <= 13 * n,
    decreases n,
{
    if n > 0 {
        lemma_start_bound(lt, n - 1);
        assert(1 <= orders(lt)[n - 1] <= lt + 1);
    }
}

/// The lowered triples that the step for the triple at address `n` reads.
proof fn lemma_step_sources(lt: int, n: int)
    requires
        0 <= lt <= 12,
        1 <= n < tetrahedron(lt + 1),
    ensures
        ({
            let t = triple_at(lt, n);
            let i = first_axis(t);
            let a = shifted(t, i, -1);
            let aa = shifted(a, i, -1);
            &&& is_triple(t, lt)
            &&& address(t) == n
            &&& 1 <= degree(t)
            &&& 0 <= i < 3
            &&& is_triple(a, lt)
            &&& power(t, i) >= 1
            &&& power(a, i) == power(t, i) - 1
            &&& degree(a) == degree(t) - 1
            &&& 0 <= address(a) < n
            &&& triple_at(lt, address(a)) == a
            &&& power(a, i) > 0 ==> is_triple(aa, lt) && degree(aa) == degree(t) - 2 && 0 <= address(
                aa,
            ) < n && triple_at(lt, address(aa)) == aa
        }),
{
    law_every_address_is_taken(lt, n);
    let t = triple_at(lt, n);
    lemma_small_degree(0);
    if degree(t) <= 0 {
        law_addresses_are_distinct(t, (0, 0, 0), 0);
        assert(tetrahedron(1) == 1);
    }
    let i = first_axis(t);
    let a = shifted(t, i, -1);
    let aa = shifted(a, i, -1);
    law_addresses_are_distinct(a, t, lt);
    law_every_address_is_taken(lt, address(a));
    law_addresses_are_distinct(triple_at(lt, address(a)), a, lt);
    if power(a, i) > 0 {
        law_addresses_are_distinct(aa, t, lt);
        law_every_address_is_taken(lt, address(aa));
        law_addresses_are_distinct(triple_at(lt, address(aa)), aa, lt);
    }
}

/// A list of triples by address holds at each index the triple of that address.
proof fn lemma_listed_triples(tri: Seq<[usize; 3]>, lt: int)
    requires
        lists_triples(tri, lt),
    ensures
        forall|n: int| 0 <= n < tri.len() ==> #[trigger] powers(tri[n]) == triple_at(lt, n),
{
    assert forall|n: int| 0 <= n < tri.len() implies #[trigger] powers(tri[n]) == triple_at(
        lt,
        n,
    ) by {
        law_every_address_is_taken(lt, n);
        law_addresses_are_distinct(powers(tri[n]), triple_at(lt, n), lt);
    }
}

/// Where the ladders start, and the length of them all.
fn ladder_layout(total_l: usize, tri: &Vec<[usize; 3]>) -> (r: Vec<usize>)
    requires
        total_l <= 12,
        lists_triples(tri@, total_l as int),
    ensures
        r@.len() == tri@.len() + 1,
        forall|k: int| 0 <= k <= tri@.len() ==> #[trigger] r@[k] == start(orders(total_l as int), k),
{
    let ghost lt = total_l as int;
    proof {
        lemma_orders(lt);
        lemma_listed_triples(tri@, lt);
    }
    let mut lens: Vec<usize> = Vec::new();
    let mut n: usize = 0;
    while n < tri.len()
        invariant
            n <= tri@.len(),
            lt == total_l,
            total_l <= 12,
            lists_triples(tri@, lt),
            forall|k: int| 0 <= k < tri@.len() ==> #[trigger] powers(tri@[k]) == triple_at(lt, k),
            lens@.len() == n,
            forall|k: int| 0 <= k < n ==> #[trigger] lens@[k] == orders(lt)[k],
        decreases tri@.len() - n,
    {
        let t = tri[n];
        assert(is_triple(powers(tri@[n as int]), lt));
        lens.push(total_l - (t[0] + t[1] + t[2]) + 1);
        n = n + 1;
    }
    assert(lengths(lens@) =~= orders(lt));
    starts(&lens)
}

/// The schedule of all triples but the lowest.
fn schedule(total_l: usize, tri: &Vec<[usize; 3]>, offs: &Vec<usize>) -> (plan: Vec<VrrStep>)
    requires
        total_l <= 12,
        lists_triples(tri@, total_l as int),
        offs@.len() >= tri@.len(),
        forall|k: int|
            0 <= k < tri@.len() ==> #[trigger] offs@[k] == start(orders(total_l as int), k),
    ensures
        plan@.len() == tri@.len() - 1,
        forall|k: int|
            0 <= k < plan@.len() ==> builds(
                #[trigger] plan@[k],
                total_l as int,
                triple_at(total_l as int, k + 1),
            ),
{
    let ghost lt = total_l as int;
    proof {
        lemma_listed_triples(tri@, lt);
        lemma_small_degree(lt);
    }
    let mut plan: Vec<VrrStep> = Vec::new();
    let mut n: usize = 1;
    while n < tri.len()
        invariant
            1 <= n <= tri@.len(),
            lt == total_l,
            total_l <= 12,
            lists_triples(tri@, lt),
            offs@.len() >= tri@.len(),
            forall|k: int| 0 <= k < tri@.len() ==> #[trigger] offs@[k] == start(orders(lt), k),
            forall|k: int| 0 <= k < tri@.len() ==> #[trigger] powers(tri@[k]) == triple_at(lt, k),
            plan@.len() == n - 1,
            forall|k: int|
                0 <= k < n - 1 ==> builds(#[trigger] plan@[k], lt, triple_at(lt, k + 1)),
        decreases tri@.len() - n,
    {
        let t = tri[n];
        let ghost tp = powers(tri@[n as int]);
        assert(tp == triple_at(lt, n as int));
        proof {
            lemma_step_sources(lt, n as int);
        }
        let i = lower_axis(t);
        let a = dec(t, i);
        let ghost ap = shifted(tp, i as int, -1);
        proof {
            lemma_small_degree(degree(ap));
        }
        let ea = addr(a);
        let a_i = power_of(a, i);
        let src2 = if a_i > 0 {
            let aa = dec(a, i);
            proof {
                lemma_small_degree(degree(shifted(ap, i as int, -1)));
            }
            let eaa = addr(aa);
            assert(offs@[eaa as int] == start(orders(lt), eaa as int));
            Some(offs[eaa])
        } else {
            None
        };
        let step = VrrStep {
            dst: offs[n],
            src: offs[ea],
            src2,
            dir: i,
            a_i,
            m_count: total_l - (t[0] + t[1] + t[2]) + 1,
        };
        assert(offs@[ea as int] == start(orders(lt), ea as int));
        assert(builds(step, lt, tp));
        plan.push(step);
        n = n + 1;
    }
    plan
}

/// The coefficients that are there, each with its address.
fn collect_terms<T: Scalar>(acc: &Vec<Option<T>>) -> (terms: Vec<(usize, T)>)
    ensures
        terms@ == terms_of(acc@, acc@.len() as int),
{
    let mut terms: Vec<(usize, T)> = Vec::new();
    let mut n: usize = 0;
    while n < acc.len()
        invariant
            n <= acc@.len(),
            terms@ == terms_of(acc@, n as int),
        decreases acc@.len() - n,
    {
        if let Some(c) = acc[n] {
            terms.push((n, c));
        }
        n = n + 1;
    }
    terms
}

impl<T: Real> GridCoulombPair<T> {
    /// Prepare the pair of shells of angular momenta `la` at `a` and `lb` at `b`, whose
    /// primitive pairs are given as `(alpha, beta, scale)`, with `scale` the product of
    /// the two coefficients.
    #[verifier::spinoff_prover]
    #[verifier::rlimit(40)]
    #[must_use]
    pub fn new(la: usize, lb: usize, a: Vec3<T>, b: Vec3<T>, prim_pairs: &[(T, T, T)]) -> (r: Self)
        requires
            la <= MAX_L,
            lb <= MAX_L,
        ensures
            r.valid(),
            r.la == la,
            r.lb == lb,
            r.ab == difference(a, b),
            r.prims@ == Seq::new(
                prim_pairs@.len(),
                |i: int| grid_prim(a, b, prim_pairs@[i]),
            ),
    {
        let total_l: usize = la + lb;
        let ghost lt = total_l as int;
        proof {
            lemma_small_degree(lt);
            lemma_orders(lt);
            lemma_block_bounds(la as int, lb as int);
        }
        let tri = triple_table(total_l);
        let n: usize = tri.len();
        let mut ladder_offs = ladder_layout(total_l, &tri);
        let plan = schedule(total_l, &tri, &ladder_offs);
        assert(ladder_offs@[n as int] == start(orders(lt), n as int));
        let ladder_len = ladder_offs[n];
        ladder_offs.pop();
        let ab = crate::engine::pairs::sub(a, b);
        let comps_a = cart_components(la);
        let comps_b = cart_components(lb);
        proof {
            lemma_listed_components(comps_a@, la as int);
            lemma_listed_components(comps_b@, lb as int);
        }
        let (na, nb) = (n_cart(la), n_cart(lb));
        let mut hrr: Vec<Vec<(usize, T)>> = Vec::new();
        let mut ia: usize = 0;
        while ia < na
            invariant
                ia <= na,
                la <= MAX_L,
                lb <= MAX_L,
                total_l == la + lb,
                lt == total_l,
                n == tetrahedron(lt + 1),
                n <= 3276,
                na == cart_count(la as int),
                nb == cart_count(lb as int),
                comps_a@.len() == na,
                comps_b@.len() == nb,
                forall|i: int|
                    0 <= i < na ==> #[trigger] powers(comps_a@[i]) == component_at(la as int, i),
                forall|i: int|
                    0 <= i < nb ==> #[trigger] powers(comps_b@[i]) == component_at(lb as int, i),
                hrr@.len() == ia * nb,
                forall|k: int|
                    0 <= k < hrr@.len() ==> (#[trigger] hrr@[k])@ == terms_of(
                        coefficients(
                            pair_at(la as int, lb as int, k).0,
                            pair_at(la as int, lb as int, k).1,
                            ab,
                            lt,
                        ),
                        n as int,
                    ),
            decreases na - ia,
        {
            let mut ib: usize = 0;
            while ib < nb
                invariant
                    ia < na,
                    ib <= nb,
                    la <= MAX_L,
                    lb <= MAX_L,
                    total_l == la + lb,
                    lt == total_l,
                    n == tetrahedron(lt + 1),
                    n <= 3276,
                    na == cart_count(la as int),
                    nb == cart_count(lb as int),
                    comps_a@.len() == na,
                    comps_b@.len() == nb,
                    forall|i: int|
                        0 <= i < na ==> #[trigger] powers(comps_a@[i]) == component_at(
                            la as int,
                            i,
                        ),
                    forall|i: int|
                        0 <= i < nb ==> #[trigger] powers(comps_b@[i]) == component_at(
                            lb as int,
                            i,
                        ),
                    hrr@.len() == pair(ia as int, nb as int, ib as int),
                    forall|k: int|
                        0 <= k < hrr@.len() ==> (#[trigger] hrr@[k])@ == terms_of(
                            coefficients(
                                pair_at(la as int, lb as int, k).0,
                                pair_at(la as int, lb as int, k).1,
                                ab,
                                lt,
                            ),
                            n as int,
                        ),
                decreases nb - ib,
            {
                let ca = comps_a[ia];
                let cb = comps_b[ib];
                proof {
                    lemma_pair_at(la as int, lb as int, ia as int, ib as int);
                    assert(powers(ca) == component_at(la as int, ia as int));
                    assert(powers(cb) == component_at(lb as int, ib as int));
                }
                let mut acc: Vec<Option<T>> = filled(n, None);
                assert(acc@ =~= Seq::new(tetrahedron(lt + 1) as nat, |k: int| None));
                hrr_expand(ca, cb, T::from_count(1), ab, total_l, &mut acc);
                hrr.push(collect_terms(&acc));
                ib = ib + 1;
            }
            proof {
                assert(ia * nb + nb == (ia + 1) * nb) by (nonlinear_arith);
            }
            ia = ia + 1;
        }
        let mut prims: Vec<GridPrim<T>> = Vec::new();
        let mut k: usize = 0;
        while k < prim_pairs.len()
            invariant
                k <= prim_pairs@.len(),
                prims@.len() == k,
                forall|i: int| 0 <= i < k ==> #[trigger] prims@[i] == grid_prim(a, b, prim_pairs@[i]),
            decreases prim_pairs@.len() - k,
        {
            let (alpha, beta, scale) = prim_pairs[k];
            let pr = make_pair(alpha, a, beta, b);
            let pref = scale.times(T::from_count(2)).times(T::pi()).over(pr.p).times(
                pr.mu.negated().times(pr.ab2).exp(),
            );
            prims.push(
                GridPrim {
                    p: pr.p,
                    one_over_2p: pr.one_over_2p,
                    p_center: pr.p_center,
                    pa: crate::engine::pairs::sub(pr.p_center, a),
                    pref,
                },
            );
            k = k + 1;
        }
        assert(prims@ =~= Seq::new(prim_pairs@.len(), |i: int| grid_prim(a, b, prim_pairs@[i])));
        GridCoulombPair { la, lb, ab, prims, plan, ladder_offs, ladder_len, hrr }
    }

    /// Dimensions of the block.
    #[must_use]
    pub fn dims(&self) -> (r: (usize, usize))
        requires
            self.valid(),
        ensures
            r.0 == cart_count(self.la as int),
            r.1 == cart_count(self.lb as int),
    {
        proof {
            lemma_block_bounds(self.la as int, self.lb as int);
        }
        (n_cart(self.la), n_cart(self.lb))
    }
}

/// Place of order `m` of the triple at address `n` in the flat ladder.
pub open spec fn rung(lt: int, n: int, m: int) -> int {
    start(orders(lt), n) + m
}

/// Different orders stand in different places, all within the ladder.
proof fn lemma_rung(lt: int, n: int, m: int, k: int, l: int)
    requires
        0 <= lt <= 12,
        0 <= n < tetrahedron(lt + 1),
        0 <= k < tetrahedron(lt + 1),
        0 <= m < orders(lt)[n],
        0 <= l < orders(lt)[k],
    ensures
        rung(lt, n, m) == rung(lt, k, l) <==> n == k && m == l,
        0 <= rung(lt, n, m) < start(orders(lt), tetrahedron(lt + 1)),
        0 <= start(orders(lt), n),
{
    lemma_orders(lt);
    law_ranges_are_disjoint(orders(lt), n, m, k, l);
    lemma_start_grows(orders(lt), 0, n);
}

/// Whether `ladder` holds the attractions of the triples at addresses below `n`.
pub open spec fn ladder_holds<T: Scalar>(
    ladder: Seq<T>,
    x: ChargeInput<T>,
    base: Seq<T>,
    lt: int,
    n: int,
) -> bool {
    forall|k: int, m: int|
        0 <= k < n && 0 <= m < orders(lt)[k] ==> #[trigger] ladder[rung(lt, k, m)] == attraction(
            x,
            base,
            triple_at(lt, k),
            m,
        )
}

/// The dot product of the first `n` terms with `theta`.
pub open spec fn dotted<T: Scalar>(terms: Seq<(usize, T)>, theta: Seq<T>, n: int) -> T
    decreases n,
{
    if n <= 0 {
        T::count(0)
    } else {
        T::sum(
            dotted(terms, theta, n - 1),
            T::prod(terms[n - 1].1, theta[terms[n - 1].0 as int]),
        )
    }
}

/// The dot product of the first terms does not depend on a later one.
proof fn lemma_dotted_push<T: Scalar>(
    terms: Seq<(usize, T)>,
    last: (usize, T),
    theta: Seq<T>,
    n: int,
)
    requires
        0 <= n <= terms.len(),
    ensures
        dotted(terms.push(last), theta, n) == dotted(terms, theta, n),
    decreases n,
{
    if n > 0 {
        lemma_dotted_push(terms, last, theta, n - 1);
    }
}

/// The dot product of the collected terms is the combination they were collected
/// from, and every term has an address below `n`.
proof fn lemma_dotted_terms<T: Scalar>(coefs: Seq<Option<T>>, theta: Seq<T>, n: int)
    requires
        0 <= n <= coefs.len(),
        coefs.len() <= usize::MAX,
    ensures
        dotted(terms_of(coefs, n), theta, terms_of(coefs, n).len() as int) == combination(
            coefs,
            theta,
            n,
        ),
        forall|k: int| 0 <= k < terms_of(coefs, n).len() ==> (#[trigger] terms_of(coefs, n)[k]).0 < n,
    decreases n,
{
    if n > 0 {
        lemma_dotted_terms(coefs, theta, n - 1);
        if let Some(c) = coefs[n - 1] {
            let head = terms_of(coefs, n - 1);
            lemma_dotted_push(head, ((n - 1) as usize, c), theta, head.len() as int);
        }
    }
}

/// The coefficients of a component pair are listed by the addresses of the triples.
proof fn lemma_coefficients_len<T: Scalar>(
    a: Powers,
    b: Powers,
    coef: T,
    ab: Vec3<T>,
    acc: Seq<Option<T>>,
    lt: int,
)
    requires
        is_triple(a, lt),
        is_triple(b, lt),
        degree(a) + degree(b) <= lt,
        acc.len() == tetrahedron(lt + 1),
    ensures
        expanded(a, b, coef, ab, acc).len() == acc.len(),
    decreases degree(b),
{
    if degree(b) <= 0 {
        law_addresses_are_distinct(a, a, lt);
    } else {
        let j = first_axis(b);
        let b_low = shifted(b, j, -1);
        lemma_coefficients_len(shifted(a, j, 1), b_low, coef, ab, acc, lt);
        lemma_coefficients_len(
            a,
            b_low,
            T::prod(coef, ab[j]),
            ab,
            expanded(shifted(a, j, 1), b_low, coef, ab, acc),
            lt,
        );
    }
}

impl<T: Real> GridCoulombPair<T> {
    /// Build the ladders of all triples from that of the lowest.
    #[verifier::spinoff_prover]
    #[verifier::rlimit(40)]
    fn sweep(&self, x: ChargeInput<T>, Ghost(base): Ghost<Seq<T>>, ladder: &mut Vec<T>)
        requires
            self.valid(),
            old(ladder)@.len() >= self.ladder_len,
            ladder_holds(old(ladder)@, x, base, self.lt(), 1),
        ensures
            final(ladder)@.len() == old(ladder)@.len(),
            ladder_holds(final(ladder)@, x, base, self.lt(), tetrahedron(self.lt() + 1)),
    {
        let ghost lt = self.lt();
        let ghost n = tetrahedron(lt + 1);
        proof {
            lemma_orders(lt);
        }
        let mut k: usize = 0;
        while k < self.plan.len()
            invariant
                k <= self.plan@.len(),
                self.valid(),
                lt == self.lt(),
                n == tetrahedron(lt + 1),
                self.plan@.len() == n - 1,
                ladder@.len() == old(ladder)@.len(),
                ladder@.len() >= self.ladder_len,
                ladder_holds(ladder@, x, base, lt, k + 1),
            decreases self.plan@.len() - k,
        {
            let step = self.plan[k];
            let ghost e = k + 1;
            let ghost t = triple_at(lt, e);
            let ghost i = first_axis(t);
            let ghost a = shifted(t, i, -1);
            let ghost aa = shifted(a, i, -1);
            proof {
                lemma_orders(lt);
                lemma_step_sources(lt, e);
                assert(builds(self.plan@[k as int], lt, t));
                assert(orders(lt)[e] == step.m_count);
                assert(orders(lt)[address(a)] == step.m_count + 1);
                if power(a, i) > 0 {
                    assert(orders(lt)[address(aa)] == step.m_count + 2);
                }
            }
            let mut m: usize = 0;
            while m < step.m_count
                invariant
                    m <= step.m_count,
                    self.valid(),
                    lt == self.lt(),
                    n == tetrahedron(lt + 1),
                    1 <= e < n,
                    t == triple_at(lt, e),
                    i == first_axis(t),
                    0 <= i < 3,
                    a == shifted(t, i, -1),
                    aa == shifted(a, i, -1),
                    builds(step, lt, t),
                    degree(t) >= 1,
                    address(t) == e,
                    0 <= address(a) < e,
                    triple_at(lt, address(a)) == a,
                    orders(lt)[e] == step.m_count,
                    orders(lt)[address(a)] == step.m_count + 1,
                    power(a, i) > 0 ==> 0 <= address(aa) < e && triple_at(lt, address(aa)) == aa
                        && orders(lt)[address(aa)] == step.m_count + 2,
                    ladder@.len() == old(ladder)@.len(),
                    ladder@.len() >= self.ladder_len,
                    ladder_holds(ladder@, x, base, lt, e),
                    forall|r: int|
                        0 <= r < m ==> #[trigger] ladder@[rung(lt, e, r)] == attraction(
                            x,
                            base,
                            t,
                            r,
                        ),
                decreases step.m_count - m,
            {
                proof {
                    lemma_rung(lt, e, m as int, e, m as int);
                    lemma_rung(lt, address(a), m as int, address(a), m + 1);
                    lemma_rung(lt, address(a), m + 1, address(a), m as int);
                    assert(ladder@[rung(lt, address(a), m as int)] == attraction(
                        x,
                        base,
                        a,
                        m as int,
                    ));
                    assert(ladder@[rung(lt, address(a), m + 1)] == attraction(x, base, a, m + 1));
                }
                let mut v = x.pa[step.dir].times(ladder[step.src + m]).minus(
                    x.pc[step.dir].times(ladder[step.src + m + 1]),
                );
                if let Some(src2) = step.src2 {
                    proof {
                        lemma_rung(lt, address(aa), m as int, address(aa), m + 1);
                        lemma_rung(lt, address(aa), m + 1, address(aa), m as int);
                        assert(ladder@[rung(lt, address(aa), m as int)] == attraction(
                            x,
                            base,
                            aa,
                            m as int,
                        ));
                        assert(ladder@[rung(lt, address(aa), m + 1)] == attraction(
                            x,
                            base,
                            aa,
                            m + 1,
                        ));
                    }
                    v = v.plus(
                        T::from_count(step.a_i as u64).times(x.h).times(
                            ladder[src2 + m].minus(ladder[src2 + m + 1]),
                        ),
                    );
                }
                assert(v == attraction(x, base, t, m as int));
                let ghost before = ladder@;
                ladder[step.dst + m] = v;
                proof {
                    assert forall|q: int, r: int|
                        0 <= q < e && 0 <= r < orders(lt)[q] implies #[trigger] ladder@[rung(
                        lt,
                        q,
                        r,
                    )] == attraction(x, base, triple_at(lt, q), r) by {
                        lemma_rung(lt, q, r, e, m as int);
                        assert(before[rung(lt, q, r)] == ladder@[rung(lt, q, r)]);
                    }
                    assert forall|r: int| 0 <= r < m + 1 implies #[trigger] ladder@[rung(lt, e, r)]
                        == attraction(x, base, t, r) by {
                        lemma_rung(lt, e, r, e, m as int);
                        assert(before[rung(lt, e, r)] == ladder@[rung(lt, e, r)] || r == m);
                    }
                }
                m = m + 1;
            }
            proof {
                assert forall|q: int, r: int|
                    0 <= q < e + 1 && 0 <= r < orders(lt)[q] implies #[trigger] ladder@[rung(
                    lt,
                    q,
                    r,
                )] == attraction(x, base, triple_at(lt, q), r) by {
                    assert(q < e || q == e);
                }
            }
            k = k + 1;
        }
    }

    /// Add the lowest-order values of one primitive pair to `theta`.
    #[verifier::spinoff_prover]
    #[verifier::rlimit(40)]
    fn add_prim(
        &self,
        table: &BoysTable<T>,
        q: GridPrim<T>,
        c: Vec3<T>,
        omega: Option<T>,
        fm: &mut Vec<T>,
        ladder_buf: &mut Vec<T>,
        theta: &mut Vec<T>,
    )
        requires
            self.valid(),
            table.valid(),
            old(fm)@.len() > self.lt(),
            old(ladder_buf)@.len() >= self.ladder_len,
            old(theta)@.len() >= tetrahedron(self.lt() + 1),
        ensures
            final(fm)@.len() == old(fm)@.len(),
            final(ladder_buf)@.len() == old(ladder_buf)@.len(),
            final(theta)@.len() == old(theta)@.len(),
            forall|t: int|
                0 <= t < tetrahedron(self.lt() + 1) ==> #[trigger] final(theta)@[t] == T::sum(
                    old(theta)@[t],
                    attraction(
                        point_input(q, c),
                        point_ladder(q, c, omega, self.lt()),
                        triple_at(self.lt(), t),
                        0,
                    ),
                ),
    {
        let l: usize = self.la + self.lb;
        let ghost lt = self.lt();
        let ghost n = tetrahedron(lt + 1);
        let ghost base = point_ladder(q, c, omega, lt);
        proof {
            lemma_orders(lt);
            lemma_small_degree(lt);
        }
        let pc = crate::engine::pairs::sub(q.p_center, c);
        let u = q.p.times(norm2(pc));
        match omega {
            None => {
                boys_array(table, l, u, fm.as_mut_slice());
            },
            Some(w) => {
                boys_array_erf(table, l, u, q.p, w, fm.as_mut_slice());
            },
        }
        proof {
            law_every_address_is_taken(lt, 0);
            law_addresses_are_distinct(triple_at(lt, 0), (0, 0, 0), lt);
            lemma_small_degree(0);
            assert(address((0, 0, 0)) == 0) by {
                crate::math::am::lemma_triangle_step(0);
                crate::engine::triples::lemma_tetrahedron_step(0);
            }
            assert(orders(lt)[0] == lt + 1);
        }
        let mut m: usize = 0;
        while m <= l
            invariant
                m <= l + 1,
                l == lt,
                lt == self.lt(),
                self.valid(),
                n == tetrahedron(lt + 1),
                n >= 1,
                orders(lt)[0] == lt + 1,
                fm@.len() > l,
                ladder_buf@.len() == old(ladder_buf)@.len(),
                ladder_buf@.len() >= self.ladder_len,
                base == point_ladder(q, c, omega, lt),
                forall|r: int| 0 <= r <= lt ==> T::prod(q.pref, #[trigger] fm@[r]) == base[r],
                forall|r: int| 0 <= r < m ==> #[trigger] ladder_buf@[rung(lt, 0, r)] == base[r],
            decreases l + 1 - m,
        {
            proof {
                lemma_rung(lt, 0, m as int, 0, m as int);
                assert(rung(lt, 0, m as int) == m);
            }
            let ghost before = ladder_buf@;
            ladder_buf[m] = q.pref.times(fm[m]);
            proof {
                assert forall|r: int| 0 <= r < m + 1 implies #[trigger] ladder_buf@[rung(lt, 0, r)]
                    == base[r] by {
                    lemma_rung(lt, 0, r, 0, m as int);
                    assert(before[rung(lt, 0, r)] == ladder_buf@[rung(lt, 0, r)] || r == m);
                }
            }
            m = m + 1;
        }
        let x = ChargeInput { h: q.one_over_2p, pa: q.pa, pc };
        proof {
            assert forall|k: int, r: int|
                0 <= k < 1 && 0 <= r < orders(lt)[k] implies #[trigger] ladder_buf@[rung(lt, k, r)]
                == attraction(x, base, triple_at(lt, k), r) by {
                assert(triple_at(lt, 0) == (0int, 0int, 0int));
            }
        }
        self.sweep(x, Ghost(base), ladder_buf);
        let ghost held = ladder_buf@;
        let mut t: usize = 0;
        while t < self.ladder_offs.len()
            invariant
                t <= self.ladder_offs@.len(),
                self.valid(),
                lt == self.lt(),
                n == tetrahedron(lt + 1),
                self.ladder_offs@.len() == n,
                ladder_buf@ == held,
                held.len() >= self.ladder_len,
                x == point_input(q, c),
                base == point_ladder(q, c, omega, lt),
                ladder_holds(held, x, base, lt, n),
                theta@.len() == old(theta)@.len(),
                theta@.len() >= n,
                forall|k: int|
                    0 <= k < t ==> #[trigger] theta@[k] == T::sum(
                        old(theta)@[k],
                        attraction(x, base, triple_at(lt, k), 0),
                    ),
                forall|k: int| t <= k < theta@.len() ==> #[trigger] theta@[k] == old(theta)@[k],
            decreases self.ladder_offs@.len() - t,
        {
            proof {
                lemma_orders(lt);
                assert(orders(lt)[t as int] >= 1);
                lemma_rung(lt, t as int, 0, t as int, 0);
                assert(held[rung(lt, t as int, 0)] == attraction(
                    x,
                    base,
                    triple_at(lt, t as int),
                    0,
                ));
            }
            theta[t] = theta[t].plus(ladder_buf[self.ladder_offs[t]]);
            t = t + 1;
        }
    }

    /// The integrals at the point `c` of the kernel that `omega` chooses.
    #[verifier::spinoff_prover]
    #[verifier::rlimit(40)]
    pub fn eval_kernel_into(
        &self,
        table: &BoysTable<T>,
        c: Vec3<T>,
        omega: Option<T>,
        scratch: &mut GridCoulombScratch<T>,
        out: &mut [T],
    )
        requires
            self.valid(),
            table.valid(),
            old(out)@.len() >= block_size(self.la as int, self.lb as int),
        ensures
            final(out)@ == assigned(
                old(out)@,
                block_size(self.la as int, self.lb as int),
                self.entries(c, omega),
            ),
    {
        let l: usize = self.la + self.lb;
        let ghost lt = self.lt();
        let ghost n = tetrahedron(lt + 1);
        let ghost size = block_size(self.la as int, self.lb as int);
        proof {
            lemma_orders(lt);
            lemma_small_degree(lt);
            lemma_block_bounds(self.la as int, self.lb as int);
        }
        let zero = T::from_count(0);
        crate::engine::hrr::ensure_len(&mut scratch.fm, l + 1);
        crate::engine::hrr::ensure_len(&mut scratch.ladder, self.ladder_len);
        crate::engine::hrr::ensure_len(&mut scratch.theta0, self.ladder_offs.len());
        let mut t: usize = 0;
        while t < self.ladder_offs.len()
            invariant
                t <= self.ladder_offs@.len(),
                scratch.theta0@.len() >= self.ladder_offs@.len(),
                scratch.fm@.len() > l,
                scratch.ladder@.len() >= self.ladder_len,
                zero == T::count(0),
                forall|k: int| 0 <= k < t ==> #[trigger] scratch.theta0@[k] == T::count(0),
            decreases self.ladder_offs@.len() - t,
        {
            scratch.theta0[t] = zero;
            t = t + 1;
        }
        let mut k: usize = 0;
        while k < self.prims.len()
            invariant
                k <= self.prims@.len(),
                self.valid(),
                table.valid(),
                lt == self.lt(),
                l == lt,
                n == tetrahedron(lt + 1),
                scratch.fm@.len() > l,
                scratch.ladder@.len() >= self.ladder_len,
                scratch.theta0@.len() >= n,
                forall|t: int|
                    0 <= t < n ==> #[trigger] scratch.theta0@[t] == point_sum(
                        self.prims@,
                        c,
                        omega,
                        lt,
                        k as int,
                        t,
                    ),
            decreases self.prims@.len() - k,
        {
            self.add_prim(
                table,
                self.prims[k],
                c,
                omega,
                &mut scratch.fm,
                &mut scratch.ladder,
                &mut scratch.theta0,
            );
            k = k + 1;
        }
        let ghost sums = point_sums(self.prims@, c, omega, lt, self.prims@.len() as int);
        let ghost theta = scratch.theta0@;
        let ghost old_out = out@;
        let ghost g = self.entries(c, omega);
        assert(assigned(old_out, 0, g) =~= old_out);
        let mut e: usize = 0;
        while e < self.hrr.len()
            invariant
                e <= self.hrr@.len(),
                self.valid(),
                lt == self.lt(),
                n == tetrahedron(lt + 1),
                n <= 3276,
                size == block_size(self.la as int, self.lb as int),
                self.hrr@.len() == size,
                zero == T::count(0),
                scratch.theta0@ == theta,
                theta.len() >= n,
                sums == point_sums(self.prims@, c, omega, lt, self.prims@.len() as int),
                forall|t: int| 0 <= t < n ==> #[trigger] theta[t] == sums[t],
                g == self.entries(c, omega),
                old_out.len() >= size,
                out@ == assigned(old_out, e as int, g),
            decreases self.hrr@.len() - e,
        {
            let terms = &self.hrr[e];
            let ghost (ca, cb) = pair_at(self.la as int, self.lb as int, e as int);
            let ghost coefs = coefficients(ca, cb, self.ab, lt);
            proof {
                lemma_block_bounds(self.la as int, self.lb as int);
                crate::flat::lemma_index_parts(
                    e as int,
                    cart_count(self.la as int),
                    cart_count(self.lb as int),
                );
                lemma_pair_at(
                    self.la as int,
                    self.lb as int,
                    e as int / cart_count(self.lb as int),
                    e as int % cart_count(self.lb as int),
                );
                lemma_coefficients_len(
                    ca,
                    cb,
                    T::count(1),
                    self.ab,
                    Seq::new(n as nat, |k: int| None),
                    lt,
                );
                lemma_dotted_terms(coefs, sums, n);
                assert(terms@ == terms_of(coefs, n));
            }
            let mut v = zero;
            let mut k: usize = 0;
            while k < terms.len()
                invariant
                    k <= terms@.len(),
                    n <= theta.len(),
                    scratch.theta0@ == theta,
                    sums.len() == n,
                    forall|t: int| 0 <= t < n ==> #[trigger] theta[t] == sums[t],
                    forall|r: int| 0 <= r < terms@.len() ==> (#[trigger] terms@[r]).0 < n,
                    v == dotted(terms@, sums, k as int),
                decreases terms@.len() - k,
            {
                let (t, coef) = terms[k];
                assert(terms@[k as int].0 < n);
                v = v.plus(coef.times(scratch.theta0[t]));
                k = k + 1;
            }
            out[e] = v;
            proof {
                assert(v == g(e as int));
                lemma_assigned_step(old_out, e as int, g);
            }
            e = e + 1;
        }
    }

    /// The integrals `<a| 1/|r-C| |b>` at the point `c`, assigned to the block.
    pub fn eval_into(
        &self,
        table: &BoysTable<T>,
        c: Vec3<T>,
        scratch: &mut GridCoulombScratch<T>,
        out: &mut [T],
    )
        requires
            self.valid(),
            table.valid(),
            old(out)@.len() >= block_size(self.la as int, self.lb as int),
        ensures
            final(out)@ == assigned(
                old(out)@,
                block_size(self.la as int, self.lb as int),
                self.entries(c, None),
            ),
    {
        self.eval_kernel_into(table, c, None, scratch, out);
    }

    /// The integrals `<a| erf(omega |r-C|)/|r-C| |b>` at the point `c`, assigned to the
    /// block.
    pub fn eval_erf_into(
        &self,
        table: &BoysTable<T>,
        c: Vec3<T>,
        omega: T,
        scratch: &mut GridCoulombScratch<T>,
        out: &mut [T],
    )
        requires
            self.valid(),
            table.valid(),
            old(out)@.len() >= block_size(self.la as int, self.lb as int),
        ensures
            final(out)@ == assigned(
                old(out)@,
                block_size(self.la as int, self.lb as int),
                self.entries(c, Some(omega)),
            ),
    {
        self.eval_kernel_into(table, c, Some(omega), scratch, out);
    }
}

} // verus!
