//! Attraction of two primitives to point charges.
//!
//! The values with all angular momentum on the first center come from a vertical
//! recurrence in the order of the radial ladder; angular momentum is then moved to
//! the second center by `(a, b+1_j) = (a+1_j, b) + (A-B)_j (a, b)`.
use vstd::prelude::*;

use crate::engine::hrr::transferred;
use crate::engine::os::{
    block_size, lemma_block_bounds, lemma_pair_at, make_pair, pair_at, product_of, Pair, Prim,
};
use crate::engine::os_eri::MAX_L;
use crate::engine::pairs::{difference, norm2, square, Vec3};
use crate::engine::triples::{
    addr, address, dec, first_axis, inc, is_triple, law_addresses_are_distinct,
    lemma_listed_degree_bound, lemma_small_degree, lists_triples, lower_axis, n_addr, power,
    power_of, shifted, tetrahedron, triple_table,
};
use crate::flat::{added, lemma_added_step, lemma_pair_in_range, lemma_pair_order, pair};
use crate::math::am::{
    cart_components, cart_count, component_at, degree, is_component, lemma_listed_components,
    n_cart, powers, Powers,
};
use crate::math::boys::{boys_array, ladder, BoysTable};
use crate::scalar::{filled, Real, Scalar};

verus! {

/// What the vertical recurrence of one charge runs on: `1/2p`, `P-A`, `P-C`.
#[derive(Clone, Copy, Debug)]
pub struct ChargeInput<T> {
    pub h: T,
    pub pa: Vec3<T>,
    pub pc: Vec3<T>,
}

/// The attraction with powers `t` on the first center, at order `m` of the ladder
/// `base`. With `i` the first axis of `t` and `a = t - 1_i`:
///
/// ```text
///   (t)^m = (P-A)_i (a)^m - (P-C)_i (a)^(m+1)
///         + a_i / 2p [ (a-1_i)^m - (a-1_i)^(m+1) ]
/// ```
pub open spec fn attraction<T: Scalar>(x: ChargeInput<T>, base: Seq<T>, t: Powers, m: int) -> T
    decreases degree(t) + 2,
{
    if degree(t) <= 0 {
        base[m]
    } else {
        let i = first_axis(t);
        let a = shifted(t, i, -1);
        let v = T::diff(
            T::prod(x.pa[i], attraction(x, base, a, m)),
            T::prod(x.pc[i], attraction(x, base, a, m + 1)),
        );
        if power(a, i) > 0 {
            let aa = shifted(a, i, -1);
            T::sum(
                v,
                T::prod(
                    T::prod(T::count(power(a, i) as u64), x.h),
                    T::diff(attraction(x, base, aa, m), attraction(x, base, aa, m + 1)),
                ),
            )
        } else {
            v
        }
    }
}

/// The lowest-order attractions of all triples of degree at most `lmax`, by address.
pub open spec fn attractions<T: Scalar>(x: ChargeInput<T>, base: Seq<T>, lmax: int) -> Seq<T> {
    Seq::new(
        tetrahedron(lmax + 1) as nat,
        |n: int| attraction(x, base, crate::engine::triples::triple_at(lmax, n), 0),
    )
}

/// The lowered triples that the recurrence for `t` reads.
proof fn lemma_sources(t: Powers, lmax: int)
    requires
        is_triple(t, lmax),
        degree(t) >= 1,
    ensures
        power(t, first_axis(t)) >= 1,
        is_triple(shifted(t, first_axis(t), -1), lmax),
        degree(shifted(t, first_axis(t), -1)) == degree(t) - 1,
        0 <= first_axis(t) < 3,
        power(shifted(t, first_axis(t), -1), first_axis(t)) == power(t, first_axis(t)) - 1,
        power(t, first_axis(t)) >= 2 ==> is_triple(shifted(shifted(t, first_axis(t), -1), first_axis(t), -1), lmax)
            && degree(shifted(shifted(t, first_axis(t), -1), first_axis(t), -1)) == degree(t) - 2,
{
}

/// The lowest-order attractions of all triples of degree at most `total_l`.
#[verifier::spinoff_prover]
#[verifier::rlimit(40)]
pub fn nuclear_vertical<T: Scalar>(total_l: usize, x: ChargeInput<T>, base: &Vec<T>) -> (theta: Vec<
    T,
>)
    requires
        total_l <= 12,
        base@.len() == total_l + 1,
    ensures
        theta@ == attractions(x, base@, total_l as int),
{
    let ghost lm = total_l as int;
    proof {
        lemma_small_degree(lm);
    }
    let tri = triple_table(total_l);
    let n: usize = tri.len();
    let s: usize = total_l + 1;
    proof {
        assert(n * s <= 3276 * 13) by (nonlinear_arith)
            requires
                n <= 3276,
                s <= 13,
        ;
    }
    let mut tab = filled(n * s, T::from_count(0));
    let mut m: usize = 0;
    while m <= total_l
        invariant
            m <= total_l + 1,
            total_l <= 12,
            s == total_l + 1,
            base@.len() == s,
            tab@.len() == n * s,
            n >= 1,
            forall|k: int| 0 <= k < m ==> #[trigger] tab@[pair(0, s as int, k)] == base@[k],
        decreases total_l + 1 - m,
    {
        proof {
            lemma_pair_in_range(0, n as int, s as int, m as int);
        }
        let ghost before = tab@;
        tab[m] = base[m];
        proof {
            assert forall|k: int| 0 <= k < m + 1 implies #[trigger] tab@[pair(0, s as int, k)]
                == base@[k] by {
                assert(before[pair(0, s as int, k)] == tab@[pair(0, s as int, k)] || k == m);
            }
        }
        m = m + 1;
    }
    proof {
        assert forall|r: int, k: int|
            0 <= r < 1 && 0 <= k <= lm - degree(powers(tri@[r])) implies #[trigger] tab@[pair(
            r,
            s as int,
            k,
        )] == attraction(x, base@, powers(tri@[r]), k) by {
            lemma_listed_degree_bound(tri@, lm, 0, 0);
            lemma_small_degree(0);
        }
    }
    let mut e: usize = 1;
    while e < n
        invariant
            1 <= e <= n,
            lm == total_l,
            total_l <= 12,
            s == total_l + 1,
            n == tri@.len(),
            n * s <= 3276 * 13,
            lists_triples(tri@, lm),
            tab@.len() == n * s,
            forall|r: int, k: int|
                0 <= r < e && 0 <= k <= lm - degree(powers(tri@[r])) ==> #[trigger] tab@[pair(
                    r,
                    s as int,
                    k,
                )] == attraction(x, base@, powers(tri@[r]), k),
        decreases n - e,
    {
        let t = tri[e];
        let ghost tp = powers(tri@[e as int]);
        proof {
            lemma_listed_degree_bound(tri@, lm, 0, e as int);
            lemma_small_degree(0);
            lemma_sources(tp, lm);
        }
        let deg: usize = t[0] + t[1] + t[2];
        let i = lower_axis(t);
        let a = dec(t, i);
        let ghost ap = shifted(tp, i as int, -1);
        proof {
            lemma_small_degree(degree(ap));
            law_addresses_are_distinct(ap, tp, lm);
            crate::engine::triples::lemma_listed_at_address(tri@, lm, ap);
        }
        let ea = addr(a);
        let a_i = power_of(a, i);
        let ghost aap = shifted(ap, i as int, -1);
        let mut eaa: usize = 0;
        if a_i > 0 {
            let aa = dec(a, i);
            proof {
                lemma_small_degree(degree(aap));
                law_addresses_are_distinct(aap, tp, lm);
                crate::engine::triples::lemma_listed_at_address(tri@, lm, aap);
            }
            eaa = addr(aa);
        }
        let mut m: usize = 0;
        while m + deg <= total_l
            invariant
                1 <= e < n,
                lm == total_l,
                total_l <= 12,
                s == total_l + 1,
                n == tri@.len(),
                n * s <= 3276 * 13,
                lists_triples(tri@, lm),
                tab@.len() == n * s,
                tp == powers(tri@[e as int]),
                1 <= deg <= total_l,
                deg == degree(tp),
                i < 3,
                i == first_axis(tp),
                ap == shifted(tp, i as int, -1),
                a_i == power(ap, i as int),
                aap == shifted(ap, i as int, -1),
                degree(ap) == deg - 1,
                ea < e,
                powers(tri@[ea as int]) == ap,
                a_i > 0 ==> eaa < e && powers(tri@[eaa as int]) == aap && degree(aap) == deg - 2,
                m <= total_l - deg + 1,
                forall|r: int, k: int|
                    0 <= r < e && 0 <= k <= lm - degree(powers(tri@[r])) ==> #[trigger] tab@[pair(
                        r,
                        s as int,
                        k,
                    )] == attraction(x, base@, powers(tri@[r]), k),
                forall|k: int|
                    0 <= k < m ==> #[trigger] tab@[pair(e as int, s as int, k)] == attraction(
                        x,
                        base@,
                        tp,
                        k,
                    ),
            decreases total_l - deg + 1 - m,
        {
            proof {
                lemma_pair_in_range(e as int, n as int, s as int, m as int);
                lemma_pair_in_range(ea as int, n as int, s as int, m as int);
                lemma_pair_in_range(ea as int, n as int, s as int, m + 1);
                assert(tab@[pair(ea as int, s as int, m as int)] == attraction(
                    x,
                    base@,
                    ap,
                    m as int,
                ));
                assert(tab@[pair(ea as int, s as int, m + 1)] == attraction(
                    x,
                    base@,
                    ap,
                    m + 1,
                ));
            }
            let mut v = x.pa[i].times(tab[ea * s + m]).minus(x.pc[i].times(tab[ea * s + m + 1]));
            if a_i > 0 {
                proof {
                    lemma_pair_in_range(eaa as int, n as int, s as int, m as int);
                    lemma_pair_in_range(eaa as int, n as int, s as int, m + 1);
                    assert(tab@[pair(eaa as int, s as int, m as int)] == attraction(
                        x,
                        base@,
                        aap,
                        m as int,
                    ));
                    assert(tab@[pair(eaa as int, s as int, m + 1)] == attraction(
                        x,
                        base@,
                        aap,
                        m + 1,
                    ));
                }
                v = v.plus(
                    T::from_count(a_i as u64).times(x.h).times(
                        tab[eaa * s + m].minus(tab[eaa * s + m + 1]),
                    ),
                );
            }
            assert(v == attraction(x, base@, tp, m as int));
            let ghost before = tab@;
            tab[e * s + m] = v;
            proof {
                assert forall|r: int, k: int|
                    0 <= r < e && 0 <= k <= lm - degree(powers(tri@[r])) implies #[trigger] tab@[pair(
                    r,
                    s as int,
                    k,
                )] == attraction(x, base@, powers(tri@[r]), k) by {
                    lemma_pair_in_range(r, n as int, s as int, k);
                    lemma_pair_order(r, k, e as int, m as int, s as int);
                    assert(before[pair(r, s as int, k)] == tab@[pair(r, s as int, k)]);
                }
                assert forall|k: int| 0 <= k < m + 1 implies #[trigger] tab@[pair(
                    e as int,
                    s as int,
                    k,
                )] == attraction(x, base@, tp, k) by {
                    lemma_pair_in_range(e as int, n as int, s as int, k);
                    lemma_pair_order(e as int, k, e as int, m as int, s as int);
                    assert(before[pair(e as int, s as int, k)] == tab@[pair(e as int, s as int, k)]
                        || k == m);
                }
            }
            m = m + 1;
        }
        e = e + 1;
    }
    let mut theta: Vec<T> = Vec::new();
    let mut e: usize = 0;
    while e < n
        invariant
            e <= n,
            lm == total_l,
            total_l <= 12,
            s == total_l + 1,
            n == tri@.len(),
            n * s <= 3276 * 13,
            lists_triples(tri@, lm),
            tab@.len() == n * s,
            theta@.len() == e,
            forall|r: int, k: int|
                0 <= r < n && 0 <= k <= lm - degree(powers(tri@[r])) ==> #[trigger] tab@[pair(
                    r,
                    s as int,
                    k,
                )] == attraction(x, base@, powers(tri@[r]), k),
            forall|r: int|
                0 <= r < e ==> #[trigger] theta@[r] == attraction(x, base@, powers(tri@[r]), 0),
        decreases n - e,
    {
        proof {
            lemma_pair_in_range(e as int, n as int, s as int, 0);
            assert(is_triple(powers(tri@[e as int]), lm));
            assert(tab@[pair(e as int, s as int, 0)] == attraction(
                x,
                base@,
                powers(tri@[e as int]),
                0,
            ));
        }
        theta.push(tab[e * s]);
        e = e + 1;
    }
    proof {
        assert forall|r: int| 0 <= r < n implies #[trigger] theta@[r] == attractions(
            x,
            base@,
            lm,
        )[r] by {
            crate::engine::triples::law_every_address_is_taken(lm, r);
            crate::engine::triples::lemma_listed_at_address(
                tri@,
                lm,
                crate::engine::triples::triple_at(lm, r),
            );
        }
        assert(theta@ =~= attractions(x, base@, lm));
    }
    theta
}

/// Whether every value held in `cache`, of rows of length `n`, is the transferred
/// value of its pair of triples of degree at most `lmax`.
pub open spec fn caches_transfers<T: Scalar>(
    cache: Seq<Option<T>>,
    theta: Seq<T>,
    ab: Vec3<T>,
    lmax: int,
) -> bool {
    let n = tetrahedron(lmax + 1);
    &&& cache.len() == n * n
    &&& forall|a: Powers, b: Powers|
        is_triple(a, lmax) && is_triple(b, lmax) ==> match #[trigger] cache[pair(
            address(a),
            n,
            address(b),
        )] {
            Some(v) => v == transferred(theta, ab, a, b),
            None => true,
        }
}

/// Move the angular momentum `b` to the second center, keeping every intermediate
/// value in `cache`.
#[verifier::spinoff_prover]
pub fn hrr<T: Scalar>(
    a: [usize; 3],
    b: [usize; 3],
    ab: Vec3<T>,
    lmax: usize,
    theta: &Vec<T>,
    cache: &mut Vec<Option<T>>,
) -> (v: T)
    requires
        lmax <= 12,
        degree(powers(a)) + degree(powers(b)) <= lmax,
        theta@.len() == tetrahedron(lmax + 1),
        caches_transfers(old(cache)@, theta@, ab, lmax as int),
    ensures
        v == transferred(theta@, ab, powers(a), powers(b)),
        caches_transfers(final(cache)@, theta@, ab, lmax as int),
    decreases degree(powers(b)),
{
    let ghost lm = lmax as int;
    let ghost n = tetrahedron(lm + 1);
    let ghost (ap, bp) = (powers(a), powers(b));
    proof {
        lemma_small_degree(lm);
        lemma_small_degree(degree(ap));
        lemma_small_degree(degree(bp));
        law_addresses_are_distinct(ap, ap, lm);
        law_addresses_are_distinct(bp, bp, lm);
    }
    let ea = addr(a);
    if b[0] == 0 && b[1] == 0 && b[2] == 0 {
        return theta[ea];
    }
    let n_rows = n_addr(lmax);
    let eb = addr(b);
    proof {
        lemma_pair_in_range(ea as int, n, n, eb as int);
        assert(ea * n <= 3276 * 3276) by (nonlinear_arith)
            requires
                0 <= ea <= 3276,
                0 <= n <= 3276,
        ;
        assert(cache@[pair(address(ap), n, address(bp))] is Some
            ==> cache@[pair(address(ap), n, address(bp))]->0 == transferred(theta@, ab, ap, bp));
    }
    let idx: usize = ea * n_rows + eb;
    if let Some(v) = cache[idx] {
        return v;
    }
    proof {
        lemma_sources(bp, lm);
    }
    let j = lower_axis(b);
    let b_low = dec(b, j);
    let a_up = inc(a, j);
    let v = hrr(a_up, b_low, ab, lmax, theta, cache).plus(
        ab[j].times(hrr(a, b_low, ab, lmax, theta, cache)),
    );
    let ghost before = cache@;
    cache[idx] = Some(v);
    proof {
        assert forall|c: Powers, d: Powers| is_triple(c, lm) && is_triple(d, lm) implies (match #[trigger] cache@[pair(
            address(c),
            n,
            address(d),
        )] {
            Some(w) => w == transferred(theta@, ab, c, d),
            None => true,
        }) by {
            law_addresses_are_distinct(c, ap, lm);
            law_addresses_are_distinct(d, bp, lm);
            lemma_pair_in_range(address(c), n, n, address(d));
            lemma_pair_order(address(c), address(d), address(ap), address(bp), n);
            assert(before[pair(address(c), n, address(d))] == cache@[pair(
                address(c),
                n,
                address(d),
            )] || (c == ap && d == bp));
        }
    }
    v
}

/// What the vertical recurrence of two primitives and a charge at `c` runs on.
pub open spec fn charge_input<T: Scalar>(a: Prim<T>, b: Prim<T>, c: Vec3<T>) -> ChargeInput<T> {
    let pr = product_of(a.exp, a.center, b.exp, b.center);
    ChargeInput {
        h: pr.one_over_2p,
        pa: difference(pr.p_center, a.center),
        pc: difference(pr.p_center, c),
    }
}

/// The ladder of two primitives and a charge at `c`: `(2 pi/p) K_AB F_m(p |P-C|^2)`
/// up to order `lt`.
pub open spec fn charge_ladder<T: Real>(a: Prim<T>, b: Prim<T>, c: Vec3<T>, lt: int) -> Seq<T> {
    let pr = product_of(a.exp, a.center, b.exp, b.center);
    let pref = T::prod(
        T::quot(T::prod(T::count(2), T::circle()), pr.p),
        T::expo(T::prod(T::neg(pr.mu), pr.ab2)),
    );
    let u = T::prod(pr.p, square(difference(pr.p_center, c)));
    Seq::new((lt + 1) as nat, |m: int| T::prod(pref, ladder(lt, u, m)))
}

/// The attraction of component `ca` of `a` and component `cb` of `b` to a unit
/// charge at `c`.
pub open spec fn attraction_value<T: Real>(
    a: Prim<T>,
    b: Prim<T>,
    c: Vec3<T>,
    ca: Powers,
    cb: Powers,
) -> T {
    let lt = a.l + b.l;
    transferred(
        attractions(charge_input(a, b, c), charge_ladder(a, b, c, lt), lt),
        difference(a.center, b.center),
        ca,
        cb,
    )
}

/// The scaled attractions of two primitives to the charge `q = (C, Z)`, by index in
/// their block.
pub open spec fn charge_entries<T: Real>(
    a: Prim<T>,
    b: Prim<T>,
    q: (Vec3<T>, T),
    scale: T,
) -> spec_fn(int) -> T {
    |k: int|
        {
            let (ca, cb) = pair_at(a.l as int, b.l as int, k);
            T::prod(T::prod(scale, T::neg(q.1)), attraction_value(a, b, q.0, ca, cb))
        }
}

/// `old` with the attractions to the first `n` charges added, one charge after
/// another.
pub open spec fn attracted<T: Real>(
    old: Seq<T>,
    a: Prim<T>,
    b: Prim<T>,
    charges: Seq<(Vec3<T>, T)>,
    n: int,
    scale: T,
) -> Seq<T>
    decreases n,
{
    if n <= 0 {
        old
    } else {
        added(
            attracted(old, a, b, charges, n - 1, scale),
            block_size(a.l as int, b.l as int),
            charge_entries(a, b, charges[n - 1], scale),
        )
    }
}

/// Add the attractions to one charge.
#[verifier::spinoff_prover]
#[verifier::rlimit(30)]
fn charge_into<T: Real>(
    table: &BoysTable<T>,
    a: Prim<T>,
    b: Prim<T>,
    pr: &Pair<T>,
    k_ab: T,
    q: (Vec3<T>, T),
    scale: T,
    out: &mut [T],
)
    requires
        table.valid(),
        a.l <= MAX_L,
        b.l <= MAX_L,
        *pr == product_of(a.exp, a.center, b.exp, b.center),
        k_ab == T::expo(T::prod(T::neg(pr.mu), pr.ab2)),
        old(out)@.len() >= block_size(a.l as int, b.l as int),
    ensures
        final(out)@ == added(
            old(out)@,
            block_size(a.l as int, b.l as int),
            charge_entries(a, b, q, scale),
        ),
{
    let (la, lb) = (a.l, b.l);
    let total_l: usize = la + lb;
    proof {
        lemma_block_bounds(la as int, lb as int);
        lemma_small_degree(total_l as int);
    }
    let ab = crate::engine::pairs::sub(a.center, b.center);
    let pc = crate::engine::pairs::sub(pr.p_center, q.0);
    let u = pr.p.times(norm2(pc));
    let mut fm = filled(total_l + 1, T::from_count(0));
    boys_array(table, total_l, u, fm.as_mut_slice());
    let pref = T::from_count(2).times(T::pi()).over(pr.p).times(k_ab);
    let mut base: Vec<T> = Vec::new();
    let mut m: usize = 0;
    while m <= total_l
        invariant
            m <= total_l + 1,
            total_l <= 12,
            fm@.len() == total_l + 1,
            base@.len() == m,
            forall|k: int| 0 <= k <= total_l ==> #[trigger] fm@[k] == ladder(total_l as int, u, k),
            forall|k: int|
                0 <= k < m ==> #[trigger] base@[k] == T::prod(pref, ladder(total_l as int, u, k)),
        decreases total_l + 1 - m,
    {
        base.push(pref.times(fm[m]));
        m = m + 1;
    }
    let x = ChargeInput {
        h: pr.one_over_2p,
        pa: crate::engine::pairs::sub(pr.p_center, a.center),
        pc,
    };
    assert(base@ =~= charge_ladder(a, b, q.0, total_l as int));
    let theta = nuclear_vertical(total_l, x, &base);
    let na_rows = n_addr(total_l);
    proof {
        assert(na_rows * na_rows <= 3276 * 3276) by (nonlinear_arith)
            requires
                na_rows <= 3276,
        ;
    }
    let mut cache: Vec<Option<T>> = filled(na_rows * na_rows, None);
    proof {
        assert forall|c: Powers, d: Powers|
            is_triple(c, total_l as int) && is_triple(d, total_l as int) implies (match #[trigger] cache@[pair(
            address(c),
            na_rows as int,
            address(d),
        )] {
            Some(w) => w == transferred(theta@, ab, c, d),
            None => true,
        }) by {
            law_addresses_are_distinct(c, d, total_l as int);
            law_addresses_are_distinct(d, c, total_l as int);
            lemma_pair_in_range(address(c), na_rows as int, na_rows as int, address(d));
        }
    }
    let comps_a = cart_components(la);
    let comps_b = cart_components(lb);
    let (na, nb) = (n_cart(la), n_cart(lb));
    let ghost old_out = out@;
    let ghost g = charge_entries(a, b, q, scale);
    proof {
        lemma_listed_components(comps_a@, la as int);
        lemma_listed_components(comps_b@, lb as int);
        assert(added(old_out, 0, g) =~= old_out);
    }
    let mut ia: usize = 0;
    while ia < na
        invariant
            ia <= na,
            la == a.l,
            lb == b.l,
            la <= MAX_L,
            lb <= MAX_L,
            total_l == la + lb,
            na == cart_count(la as int),
            nb == cart_count(lb as int),
            comps_a@.len() == na,
            comps_b@.len() == nb,
            forall|i: int|
                0 <= i < na ==> #[trigger] powers(comps_a@[i]) == component_at(la as int, i),
            forall|i: int|
                0 <= i < nb ==> #[trigger] powers(comps_b@[i]) == component_at(lb as int, i),
            theta@.len() == tetrahedron(total_l + 1),
            ab == difference(a.center, b.center),
            theta@ == attractions(
                charge_input(a, b, q.0),
                charge_ladder(a, b, q.0, total_l as int),
                total_l as int,
            ),
            caches_transfers(cache@, theta@, ab, total_l as int),
            g == charge_entries(a, b, q, scale),
            old_out.len() >= block_size(la as int, lb as int),
            out@ == added(old_out, ia * nb, g),
        decreases na - ia,
    {
        let mut ib: usize = 0;
        while ib < nb
            invariant
                ia < na,
                ib <= nb,
                la == a.l,
                lb == b.l,
                la <= MAX_L,
                lb <= MAX_L,
                total_l == la + lb,
                na == cart_count(la as int),
                nb == cart_count(lb as int),
                comps_a@.len() == na,
                comps_b@.len() == nb,
                forall|i: int|
                    0 <= i < na ==> #[trigger] powers(comps_a@[i]) == component_at(la as int, i),
                forall|i: int|
                    0 <= i < nb ==> #[trigger] powers(comps_b@[i]) == component_at(lb as int, i),
                theta@.len() == tetrahedron(total_l + 1),
                ab == difference(a.center, b.center),
                theta@ == attractions(
                    charge_input(a, b, q.0),
                    charge_ladder(a, b, q.0, total_l as int),
                    total_l as int,
                ),
                caches_transfers(cache@, theta@, ab, total_l as int),
                g == charge_entries(a, b, q, scale),
                old_out.len() >= block_size(la as int, lb as int),
                out@ == added(old_out, pair(ia as int, nb as int, ib as int), g),
            decreases nb - ib,
        {
            let ca = comps_a[ia];
            let cb = comps_b[ib];
            proof {
                lemma_block_bounds(la as int, lb as int);
                lemma_pair_at(la as int, lb as int, ia as int, ib as int);
                assert(powers(ca) == component_at(la as int, ia as int));
                assert(powers(cb) == component_at(lb as int, ib as int));
            }
            let v = hrr(ca, cb, ab, total_l, &theta, &mut cache);
            let idx: usize = ia * nb + ib;
            out[idx] = out[idx].plus(scale.times(q.1.negated()).times(v));
            proof {
                assert(T::prod(T::prod(scale, T::neg(q.1)), v) == g(idx as int));
                lemma_added_step(old_out, idx as int, g);
            }
            ib = ib + 1;
        }
        proof {
            assert(ia * nb + nb == (ia + 1) * nb) by (nonlinear_arith);
        }
        ia = ia + 1;
    }
}

/// Add `scale sum_C (-Z_C) <a| 1/|r-C| |b>` to `out` for all component pairs, charge
/// by charge.
pub fn nuclear_into<T: Real>(
    table: &BoysTable<T>,
    a: Prim<T>,
    b: Prim<T>,
    charges: &[(Vec3<T>, T)],
    scale: T,
    out: &mut [T],
)
    requires
        table.valid(),
        a.l <= MAX_L,
        b.l <= MAX_L,
        old(out)@.len() >= block_size(a.l as int, b.l as int),
    ensures
        final(out)@ == attracted(old(out)@, a, b, charges@, charges@.len() as int, scale),
{
    let pr = make_pair(a.exp, a.center, b.exp, b.center);
    let k_ab = pr.mu.negated().times(pr.ab2).exp();
    let ghost old_out = out@;
    let mut n: usize = 0;
    while n < charges.len()
        invariant
            n <= charges@.len(),
            table.valid(),
            a.l <= MAX_L,
            b.l <= MAX_L,
            pr == product_of(a.exp, a.center, b.exp, b.center),
            k_ab == T::expo(T::prod(T::neg(pr.mu), pr.ab2)),
            out@.len() >= block_size(a.l as int, b.l as int),
            out@ == attracted(old_out, a, b, charges@, n as int, scale),
        decreases charges@.len() - n,
    {
        charge_into(table, a, b, &pr, k_ab, charges[n], scale, out);
        n = n + 1;
    }
}

/// `a` with its angular momentum replaced.
pub open spec fn with_l<T>(a: Prim<T>, l: int) -> Prim<T> {
    Prim { exp: a.exp, center: a.center, l: l as usize }
}

/// The block of attractions of `a` and `b` with angular momenta `li` and `lj`.
pub open spec fn attraction_block<T: Real>(
    a: Prim<T>,
    li: int,
    b: Prim<T>,
    lj: int,
    charges: Seq<(Vec3<T>, T)>,
) -> Seq<T> {
    attracted(
        Seq::new(block_size(li, lj) as nat, |k: int| T::count(0)),
        with_l(a, li),
        with_l(b, lj),
        charges,
        charges.len() as int,
        T::count(1),
    )
}

/// The entry of components `ca` and `cb` in a block whose second shell has angular
/// momentum `lb`.
pub open spec fn block_entry<T>(block: Seq<T>, lb: int, ca: Powers, cb: Powers) -> T {
    block[pair(
        crate::math::am::cart_position(ca),
        cart_count(lb),
        crate::math::am::cart_position(cb),
    )]
}

/// `v` plus the part of axis `k` of the sum over axes of `<d_k a| V |d_k b>`, from the
/// derivative `d_k g = 2 alpha g_(l+1_k) - l_k g_(l-1_k)` on both sides:
///
/// ```text
///   4 alpha beta N(a+1_k, b+1_k) - 2 alpha b_k N(a+1_k, b-1_k)
///   - 2 beta a_k N(a-1_k, b+1_k) + a_k b_k N(a-1_k, b-1_k)
/// ```
pub open spec fn pvp_axis<T: Real>(
    a: Prim<T>,
    b: Prim<T>,
    charges: Seq<(Vec3<T>, T)>,
    ca: Powers,
    cb: Powers,
    k: int,
    v: T,
) -> T {
    let (la, lb) = (a.l as int, b.l as int);
    let (ak, bk) = (power(ca, k), power(cb, k));
    let (a_up, b_up) = (shifted(ca, k, 1), shifted(cb, k, 1));
    let (a_dn, b_dn) = (shifted(ca, k, -1), shifted(cb, k, -1));
    let v1 = T::sum(
        v,
        T::prod(
            T::prod(T::prod(T::count(4), a.exp), b.exp),
            block_entry(attraction_block(a, la + 1, b, lb + 1, charges), lb + 1, a_up, b_up),
        ),
    );
    let v2 = if bk > 0 {
        T::diff(
            v1,
            T::prod(
                T::prod(T::prod(T::count(2), a.exp), T::count(bk as u64)),
                block_entry(attraction_block(a, la + 1, b, lb - 1, charges), lb - 1, a_up, b_dn),
            ),
        )
    } else {
        v1
    };
    if ak > 0 {
        let v3 = T::diff(
            v2,
            T::prod(
                T::prod(T::prod(T::count(2), b.exp), T::count(ak as u64)),
                block_entry(attraction_block(a, la - 1, b, lb + 1, charges), lb + 1, a_dn, b_up),
            ),
        );
        if bk > 0 {
            T::sum(
                v3,
                T::prod(
                    T::count((ak * bk) as u64),
                    block_entry(
                        attraction_block(a, la - 1, b, lb - 1, charges),
                        lb - 1,
                        a_dn,
                        b_dn,
                    ),
                ),
            )
        } else {
            v3
        }
    } else {
        v2
    }
}

/// The sum over axes of `<d_k a| V |d_k b>` for components `ca` and `cb`.
pub open spec fn pvp_value<T: Real>(
    a: Prim<T>,
    b: Prim<T>,
    charges: Seq<(Vec3<T>, T)>,
    ca: Powers,
    cb: Powers,
) -> T {
    let v0 = pvp_axis(a, b, charges, ca, cb, 0, T::count(0));
    let v1 = pvp_axis(a, b, charges, ca, cb, 1, v0);
    pvp_axis(a, b, charges, ca, cb, 2, v1)
}

/// The scaled sums over axes of two primitives, by index in their block.
pub open spec fn pvp_entries<T: Real>(
    a: Prim<T>,
    b: Prim<T>,
    charges: Seq<(Vec3<T>, T)>,
    scale: T,
) -> spec_fn(int) -> T {
    |k: int|
        {
            let (ca, cb) = pair_at(a.l as int, b.l as int, k);
            T::prod(scale, pvp_value(a, b, charges, ca, cb))
        }
}

/// Adding attractions does not change the length of a block.
pub proof fn lemma_attracted_len<T: Real>(
    old: Seq<T>,
    a: Prim<T>,
    b: Prim<T>,
    charges: Seq<(Vec3<T>, T)>,
    n: int,
    scale: T,
)
    ensures
        attracted(old, a, b, charges, n, scale).len() == old.len(),
    decreases n,
{
    if n > 0 {
        lemma_attracted_len(old, a, b, charges, n - 1, scale);
    }
}

/// The block of attractions of `a` and `b` with angular momenta `li` and `lj`.
fn attractions_at<T: Real>(
    table: &BoysTable<T>,
    a: Prim<T>,
    li: usize,
    b: Prim<T>,
    lj: usize,
    charges: &[(Vec3<T>, T)],
) -> (blk: Vec<T>)
    requires
        table.valid(),
        li <= MAX_L,
        lj <= MAX_L,
    ensures
        blk@ == attraction_block(a, li as int, b, lj as int, charges@),
        blk@.len() == block_size(li as int, lj as int),
{
    proof {
        lemma_block_bounds(li as int, lj as int);
    }
    let mut blk = filled(n_cart(li) * n_cart(lj), T::from_count(0));
    let ghost zeros = blk@;
    assert(zeros =~= Seq::new(block_size(li as int, lj as int) as nat, |k: int| T::count(0)));
    nuclear_into(
        table,
        Prim::new(a.exp, a.center, li),
        Prim::new(b.exp, b.center, lj),
        charges,
        T::from_count(1),
        blk.as_mut_slice(),
    );
    proof {
        lemma_attracted_len(
            zeros,
            with_l(a, li as int),
            with_l(b, lj as int),
            charges@,
            charges@.len() as int,
            T::count(1),
        );
    }
    blk
}

/// The entry of two components in a block.
fn entry_of<T: Copy>(
    block: &Vec<T>,
    Ghost(la): Ghost<int>,
    lb: usize,
    ca: [usize; 3],
    cb: [usize; 3],
) -> (r: T)
    requires
        0 <= la <= 12,
        lb <= 12,
        is_component(powers(ca), la),
        is_component(powers(cb), lb as int),
        block@.len() == block_size(la, lb as int),
    ensures
        r == block_entry(block@, lb as int, powers(ca), powers(cb)),
{
    proof {
        lemma_block_bounds(la, lb as int);
        crate::math::am::law_positions_order_components(powers(ca), powers(ca), la);
        crate::math::am::law_positions_order_components(powers(cb), powers(cb), lb as int);
        lemma_pair_in_range(
            crate::math::am::cart_position(powers(ca)),
            cart_count(la),
            cart_count(lb as int),
            crate::math::am::cart_position(powers(cb)),
        );
        let (d, e) = (ca[1] + ca[2], cb[1] + cb[2]);
        assert(d * (d + 1) <= 156) by (nonlinear_arith)
            requires
                0 <= d <= 12,
        ;
        assert(e * (e + 1) <= 156) by (nonlinear_arith)
            requires
                0 <= e <= 12,
        ;
    }
    let ra = crate::math::am::cart_index(ca);
    let rb = crate::math::am::cart_index(cb);
    let nb = n_cart(lb);
    proof {
        assert(ra * nb <= 351 * 351) by (nonlinear_arith)
            requires
                ra <= 351,
                nb <= 351,
        ;
    }
    block[ra * nb + rb]
}

/// Add `scale sum_k <d_k a| V |d_k b>` to `out` for all component pairs, with
/// `V = sum_C (-Z_C)/|r-C|`.
#[verifier::spinoff_prover]
#[verifier::rlimit(60)]
pub fn pvp_nuclear_into<T: Real>(
    table: &BoysTable<T>,
    a: Prim<T>,
    b: Prim<T>,
    charges: &[(Vec3<T>, T)],
    scale: T,
    out: &mut [T],
)
    requires
        table.valid(),
        a.l < MAX_L,
        b.l < MAX_L,
        old(out)@.len() >= block_size(a.l as int, b.l as int),
    ensures
        final(out)@ == added(
            old(out)@,
            block_size(a.l as int, b.l as int),
            pvp_entries(a, b, charges@, scale),
        ),
{
    let (la, lb) = (a.l, b.l);
    let ghost (al, bl) = (la as int, lb as int);
    proof {
        lemma_block_bounds(al, bl);
    }
    let n_pp = attractions_at(table, a, la + 1, b, lb + 1, charges);
    let n_pm = if lb > 0 {
        attractions_at(table, a, la + 1, b, lb - 1, charges)
    } else {
        Vec::new()
    };
    let n_mp = if la > 0 {
        attractions_at(table, a, la - 1, b, lb + 1, charges)
    } else {
        Vec::new()
    };
    let n_mm = if la > 0 && lb > 0 {
        attractions_at(table, a, la - 1, b, lb - 1, charges)
    } else {
        Vec::new()
    };
    let comps_a = cart_components(la);
    let comps_b = cart_components(lb);
    let (na, nb) = (n_cart(la), n_cart(lb));
    let ghost old_out = out@;
    let ghost g = pvp_entries(a, b, charges@, scale);
    proof {
        lemma_listed_components(comps_a@, al);
        lemma_listed_components(comps_b@, bl);
        assert(added(old_out, 0, g) =~= old_out);
    }
    let mut ia: usize = 0;
    while ia < na
        invariant
            ia <= na,
            la == a.l,
            lb == b.l,
            al == la,
            bl == lb,
            la < MAX_L,
            lb < MAX_L,
            na == cart_count(al),
            nb == cart_count(bl),
            comps_a@.len() == na,
            comps_b@.len() == nb,
            forall|i: int| 0 <= i < na ==> #[trigger] powers(comps_a@[i]) == component_at(al, i),
            forall|i: int| 0 <= i < nb ==> #[trigger] powers(comps_b@[i]) == component_at(bl, i),
            n_pp@ == attraction_block(a, al + 1, b, bl + 1, charges@),
            n_pp@.len() == block_size(al + 1, bl + 1),
            bl > 0 ==> n_pm@ == attraction_block(a, al + 1, b, bl - 1, charges@) && n_pm@.len()
                == block_size(al + 1, bl - 1),
            al > 0 ==> n_mp@ == attraction_block(a, al - 1, b, bl + 1, charges@) && n_mp@.len()
                == block_size(al - 1, bl + 1),
            al > 0 && bl > 0 ==> n_mm@ == attraction_block(a, al - 1, b, bl - 1, charges@)
                && n_mm@.len() == block_size(al - 1, bl - 1),
            g == pvp_entries(a, b, charges@, scale),
            old_out.len() >= block_size(al, bl),
            out@ == added(old_out, ia * nb, g),
        decreases na - ia,
    {
        let mut ib: usize = 0;
        while ib < nb
            invariant
                ia < na,
                ib <= nb,
                la == a.l,
                lb == b.l,
                al == la,
                bl == lb,
                la < MAX_L,
                lb < MAX_L,
                na == cart_count(al),
                nb == cart_count(bl),
                comps_a@.len() == na,
                comps_b@.len() == nb,
                forall|i: int|
                    0 <= i < na ==> #[trigger] powers(comps_a@[i]) == component_at(al, i),
                forall|i: int|
                    0 <= i < nb ==> #[trigger] powers(comps_b@[i]) == component_at(bl, i),
                n_pp@ == attraction_block(a, al + 1, b, bl + 1, charges@),
                n_pp@.len() == block_size(al + 1, bl + 1),
                bl > 0 ==> n_pm@ == attraction_block(a, al + 1, b, bl - 1, charges@) && n_pm@.len()
                    == block_size(al + 1, bl - 1),
                al > 0 ==> n_mp@ == attraction_block(a, al - 1, b, bl + 1, charges@) && n_mp@.len()
                    == block_size(al - 1, bl + 1),
                al > 0 && bl > 0 ==> n_mm@ == attraction_block(a, al - 1, b, bl - 1, charges@)
                    && n_mm@.len() == block_size(al - 1, bl - 1),
                g == pvp_entries(a, b, charges@, scale),
                old_out.len() >= block_size(al, bl),
                out@ == added(old_out, pair(ia as int, nb as int, ib as int), g),
            decreases nb - ib,
        {
            let ca = comps_a[ia];
            let cb = comps_b[ib];
            let ghost (cap, cbp) = (powers(ca), powers(cb));
            proof {
                lemma_block_bounds(al, bl);
                lemma_pair_at(al, bl, ia as int, ib as int);
                assert(cap == component_at(al, ia as int));
                assert(cbp == component_at(bl, ib as int));
            }
            let mut v = T::from_count(0);
            let mut k: usize = 0;
            let ghost v0 = pvp_axis(a, b, charges@, cap, cbp, 0, T::count(0));
            let ghost v1 = pvp_axis(a, b, charges@, cap, cbp, 1, v0);
            while k < 3
                invariant
                    k <= 3,
                    la == a.l,
                    lb == b.l,
                    al == la,
                    bl == lb,
                    la < MAX_L,
                    lb < MAX_L,
                    cap == powers(ca),
                    cbp == powers(cb),
                    is_component(cap, al),
                    is_component(cbp, bl),
                    n_pp@ == attraction_block(a, al + 1, b, bl + 1, charges@),
                    n_pp@.len() == block_size(al + 1, bl + 1),
                    bl > 0 ==> n_pm@ == attraction_block(a, al + 1, b, bl - 1, charges@)
                        && n_pm@.len() == block_size(al + 1, bl - 1),
                    al > 0 ==> n_mp@ == attraction_block(a, al - 1, b, bl + 1, charges@)
                        && n_mp@.len() == block_size(al - 1, bl + 1),
                    al > 0 && bl > 0 ==> n_mm@ == attraction_block(a, al - 1, b, bl - 1, charges@)
                        && n_mm@.len() == block_size(al - 1, bl - 1),
                    v0 == pvp_axis(a, b, charges@, cap, cbp, 0, T::count(0)),
                    v1 == pvp_axis(a, b, charges@, cap, cbp, 1, v0),
                    v == (if k == 0 {
                        T::count(0)
                    } else if k == 1 {
                        v0
                    } else if k == 2 {
                        v1
                    } else {
                        pvp_value(a, b, charges@, cap, cbp)
                    }),
                decreases 3 - k,
            {
                let ghost start = v;
                let ak = power_of(ca, k);
                let bk = power_of(cb, k);
                let a_up = inc(ca, k);
                let b_up = inc(cb, k);
                v = v.plus(
                    T::from_count(4).times(a.exp).times(b.exp).times(
                        entry_of(&n_pp, Ghost(al + 1), lb + 1, a_up, b_up),
                    ),
                );
                if bk > 0 {
                    let b_dn = dec(cb, k);
                    v = v.minus(
                        T::from_count(2).times(a.exp).times(T::from_count(bk as u64)).times(
                            entry_of(&n_pm, Ghost(al + 1), lb - 1, a_up, b_dn),
                        ),
                    );
                }
                if ak > 0 {
                    let a_dn = dec(ca, k);
                    v = v.minus(
                        T::from_count(2).times(b.exp).times(T::from_count(ak as u64)).times(
                            entry_of(&n_mp, Ghost(al - 1), lb + 1, a_dn, b_up),
                        ),
                    );
                    if bk > 0 {
                        let b_dn = dec(cb, k);
                        assert(0 <= ak * bk <= 36) by (nonlinear_arith)
                            requires
                                0 <= ak <= 6,
                                0 <= bk <= 6,
                        ;
                        v = v.plus(
                            T::from_count((ak * bk) as u64).times(
                                entry_of(&n_mm, Ghost(al - 1), lb - 1, a_dn, b_dn),
                            ),
                        );
                    }
                }
                assert(v == pvp_axis(a, b, charges@, cap, cbp, k as int, start));
                k = k + 1;
            }
            let idx: usize = ia * nb + ib;
            out[idx] = out[idx].plus(scale.times(v));
            proof {
                assert(T::prod(scale, v) == g(idx as int));
                lemma_added_step(old_out, idx as int, g);
            }
            ib = ib + 1;
        }
        proof {
            assert(ia * nb + nb == (ia + 1) * nb) by (nonlinear_arith);
        }
        ia = ia + 1;
    }
}

} // verus!
