//! First derivatives of two-electron blocks with respect to the center of one shell.
//!
//! The block is evaluated with the shell raised, every primitive weighted by twice its
//! exponent, and with the shell lowered. Both include the contraction over all four
//! shells. The engine is that of the quartet itself.
use vstd::prelude::*;

use crate::engine::deriv::{accumulate_center_derivative, derivative_entries, slice_view, AxisDeriv};
use crate::engine::os::Prim;
use crate::engine::os_eri::{coulomb_shell_into, MAX_L};
use crate::engine::pairs::ShellRef;
use crate::engine::rys::{
    coulomb_into, erf_coulomb_into, lemma_quartet_sizes, lemma_repelled_len, repulsion_added,
    root_count,
};
use crate::flat::added;
use crate::integrals::Engine;
use crate::math::am::{cart_count, n_cart};
use crate::math::rys::RysTables;
use crate::quartet::{
    cart_size, lemma_recurrence_block, primitives_at, recurrence_entry, recurs,
    resolves_to_recurrence, shown, zero_block, Four, ShellView, Side, Tables,
};
use crate::scalar::{filled, Real, Scalar};
use crate::spherical::{function_block4, held, transform_block4_into};
use crate::tensor::nth;

verus! {

/// Four shells with the one at `pos` replaced.
pub open spec fn replaced<T>(q: Four<T>, pos: int, v: ShellView<T>) -> Four<T> {
    (
        if pos == 0 {
            v
        } else {
            q.0
        },
        if pos == 1 {
            v
        } else {
            q.1
        },
        if pos == 2 {
            v
        } else {
            q.2
        },
        if pos == 3 {
            v
        } else {
            q.3
        },
    )
}

/// Coefficients, each times two and times its exponent.
pub open spec fn weighted<T: Scalar>(s: ShellView<T>) -> Seq<T> {
    Seq::new(
        s.1.2.len(),
        |i: int| T::prod(T::prod(s.1.2[i], T::count(2)), s.1.1[i]),
    )
}

/// The factor of a primitive quartet: the product of the coefficients, and where the
/// shell at `pos` is raised, twice the exponent of its primitive.
pub open spec fn shift_scale<T: Scalar>(
    q: Four<T>,
    pos: int,
    up: bool,
    a: int,
    b: int,
    c: int,
    d: int,
) -> T {
    let base = T::prod(
        T::prod(T::prod(T::prod(T::count(1), q.0.1.2[a]), q.1.1.2[b]), q.2.1.2[c]),
        q.3.1.2[d],
    );
    if up {
        T::prod(base, T::prod(T::count(2), nth(q, pos).1.1[nth((a, b, c, d), pos)]))
    } else {
        base
    }
}

/// The block of a quartet of which the shell at `pos` has been shifted, over all
/// primitive quartets before `(a, b, c, d)`, by quadrature.
pub open spec fn shifted_quadrature<T: Real>(
    rys: RysTables<T>,
    q: Four<T>,
    pos: int,
    up: bool,
    omega: Option<T>,
    a: int,
    b: int,
    c: int,
    d: int,
) -> Seq<T>
    decreases a, b, c, d,
{
    if d > 0 {
        repulsion_added(
            rys,
            shifted_quadrature(rys, q, pos, up, omega, a, b, c, d - 1),
            primitives_at(q, a, b, c, d - 1),
            omega,
            shift_scale(q, pos, up, a, b, c, d - 1),
        )
    } else if c > 0 {
        shifted_quadrature(rys, q, pos, up, omega, a, b, c - 1, q.3.1.2.len() as int)
    } else if b > 0 {
        shifted_quadrature(rys, q, pos, up, omega, a, b - 1, q.2.1.2.len() as int, 0)
    } else if a > 0 {
        shifted_quadrature(rys, q, pos, up, omega, a - 1, q.1.1.2.len() as int, 0, 0)
    } else {
        zero_block(q)
    }
}

/// The angular momentum of a shell, raised or lowered by one.
pub open spec fn shifted_momentum(l: int, up: bool) -> int {
    if up {
        l + 1
    } else {
        l - 1
    }
}

/// The block of a quartet with the shell at `pos` raised and weighted, or lowered.
pub open spec fn shifted_block<T: Real>(
    rys: RysTables<T>,
    engine: Engine,
    omega: Option<T>,
    q: Four<T>,
    pos: int,
    up: bool,
) -> Seq<T> {
    let s = nth(q, pos);
    let l = shifted_momentum(s.0, up);
    if omega is None && recurs(engine, q) {
        let v = replaced(
            q,
            pos,
            (
                l,
                (
                    s.1.0,
                    s.1.1,
                    if up {
                        weighted(s)
                    } else {
                        s.1.2
                    },
                ),
            ),
        );
        Seq::new(cart_size(v) as nat, |k: int| T::sum(T::count(0), recurrence_entry(v, k)))
    } else {
        let v = replaced(q, pos, (l, s.1));
        shifted_quadrature(rys, v, pos, up, omega, v.0.1.2.len() as int, 0, 0, 0)
    }
}

/// The lowered block, if the shell at `pos` can be lowered.
pub open spec fn lowered_block<T: Real>(
    rys: RysTables<T>,
    engine: Engine,
    omega: Option<T>,
    q: Four<T>,
    pos: int,
) -> Option<Seq<T>> {
    if nth(q, pos).0 > 0 {
        Some(shifted_block(rys, engine, omega, q, pos, false))
    } else {
        None
    }
}

/// The derivative of a block of angular momenta `l` along an axis of index `pos`.
pub open spec fn quartet_axis(l: (int, int, int, int), pos: int, axis: int) -> AxisDeriv {
    let (na, nb, nc, nd) = (cart_count(l.0), cart_count(l.1), cart_count(l.2), cart_count(l.3));
    AxisDeriv {
        l: nth(l, pos) as usize,
        cart_axis: axis as usize,
        outer: (if pos == 0 {
            1
        } else if pos == 1 {
            na
        } else if pos == 2 {
            na * nb
        } else {
            na * nb * nc
        }) as usize,
        inner: (if pos == 0 {
            nb * nc * nd
        } else if pos == 1 {
            nc * nd
        } else if pos == 2 {
            nd
        } else {
            1
        }) as usize,
    }
}

/// The angular momenta of four shells.
pub open spec fn momenta_of<T>(q: Four<T>) -> (int, int, int, int) {
    (q.0.0, q.1.0, q.2.0, q.3.0)
}

/// The derivative of the Cartesian block of a quartet with respect to the center of the
/// shell at `pos`, along an axis.
pub open spec fn center_block<T: Real>(
    rys: RysTables<T>,
    engine: Engine,
    omega: Option<T>,
    q: Four<T>,
    pos: int,
    axis: int,
) -> Seq<T> {
    added(
        zero_block(q),
        cart_size(q),
        derivative_entries(
            quartet_axis(momenta_of(q), pos, axis),
            T::count(1),
            shifted_block(rys, engine, omega, q, pos, true),
            lowered_block(rys, engine, omega, q, pos),
        ),
    )
}

/// The derivative of the block of a quartet in the components of its shells.
pub open spec fn gradient_block<T: Real>(
    rys: RysTables<T>,
    engine: Engine,
    omega: Option<T>,
    s: [Side<T>; 4],
    pos: int,
    axis: int,
) -> Seq<T> {
    function_block4(
        *s[0].shell,
        *s[1].shell,
        *s[2].shell,
        *s[3].shell,
        center_block(rys, engine, omega, shown(s), pos, axis),
    )
}

/// The length of a block does not change as primitive quartets are added.
proof fn lemma_shifted_len<T: Real>(
    rys: RysTables<T>,
    q: Four<T>,
    pos: int,
    up: bool,
    omega: Option<T>,
    a: int,
    b: int,
    c: int,
    d: int,
)
    requires
        cart_size(q) >= 0,
    ensures
        shifted_quadrature(rys, q, pos, up, omega, a, b, c, d).len() == cart_size(q),
    decreases a, b, c, d,
{
    if d > 0 {
        lemma_shifted_len(rys, q, pos, up, omega, a, b, c, d - 1);
        let s = primitives_at(q, a, b, c, d - 1);
        lemma_repelled_len(
            rys,
            shifted_quadrature(rys, q, pos, up, omega, a, b, c, d - 1),
            s,
            omega,
            shift_scale(q, pos, up, a, b, c, d - 1),
            root_count(s.0.l as int, s.1.l as int, s.2.l as int, s.3.l as int),
        );
    } else if c > 0 {
        lemma_shifted_len(rys, q, pos, up, omega, a, b, c - 1, q.3.1.2.len() as int);
    } else if b > 0 {
        lemma_shifted_len(rys, q, pos, up, omega, a, b - 1, q.2.1.2.len() as int, 0);
    } else if a > 0 {
        lemma_shifted_len(rys, q, pos, up, omega, a - 1, q.1.1.2.len() as int, 0, 0);
    }
}

/// What four shell references show.
spec fn shown_refs<T>(r: [ShellRef<T>; 4]) -> Four<T> {
    (
        (r[0].l as int, r[0].contraction()),
        (r[1].l as int, r[1].contraction()),
        (r[2].l as int, r[2].contraction()),
        (r[3].l as int, r[3].contraction()),
    )
}

/// A reference has as many coefficients as exponents, and a supported angular momentum.
spec fn ref_fits<T>(r: ShellRef<T>) -> bool {
    r.l <= MAX_L && r.coeffs@.len() == r.exps@.len()
}

/// Add a shifted quartet by quadrature to a block of zeros.
#[verifier::spinoff_prover]
#[verifier::rlimit(60)]
fn rys_shifted<T: Real>(
    rys: &RysTables<T>,
    r: [ShellRef<T>; 4],
    pos: usize,
    up: bool,
    omega: Option<T>,
    block: &mut Vec<T>,
)
    requires
        rys.valid(),
        pos < 4,
        ref_fits(r[0]) && ref_fits(r[1]) && ref_fits(r[2]) && ref_fits(r[3]),
        old(block)@ == zero_block(shown_refs(r)),
    ensures
        final(block)@ == shifted_quadrature(
            *rys,
            shown_refs(r),
            pos as int,
            up,
            omega,
            shown_refs(r).0.1.2.len() as int,
            0,
            0,
            0,
        ),
{
    let ghost q = shown_refs(r);
    proof {
        lemma_quartet_sizes(q.0.0, q.1.0, q.2.0, q.3.0);
    }
    let (ea, eb, ec, ed) = (r[0].coeffs, r[1].coeffs, r[2].coeffs, r[3].coeffs);
    let mut a: usize = 0;
    while a < ea.len()
        invariant
            a <= ea@.len(),
            pos < 4,
            rys.valid(),
            ref_fits(r[0]) && ref_fits(r[1]) && ref_fits(r[2]) && ref_fits(r[3]),
            q == shown_refs(r),
            ea == r[0].coeffs,
            eb == r[1].coeffs,
            ec == r[2].coeffs,
            ed == r[3].coeffs,
            cart_size(q) >= 1,
            block@ == shifted_quadrature(*rys, q, pos as int, up, omega, a as int, 0, 0, 0),
        decreases ea@.len() - a,
    {
        let mut b: usize = 0;
        while b < eb.len()
            invariant
                a < ea@.len(),
                b <= eb@.len(),
                pos < 4,
                rys.valid(),
                ref_fits(r[0]) && ref_fits(r[1]) && ref_fits(r[2]) && ref_fits(r[3]),
                q == shown_refs(r),
                ea == r[0].coeffs,
                eb == r[1].coeffs,
                ec == r[2].coeffs,
                ed == r[3].coeffs,
                cart_size(q) >= 1,
                block@ == shifted_quadrature(
                    *rys,
                    q,
                    pos as int,
                    up,
                    omega,
                    a as int,
                    b as int,
                    0,
                    0,
                ),
            decreases eb@.len() - b,
        {
            let mut c: usize = 0;
            while c < ec.len()
                invariant
                    a < ea@.len(),
                    b < eb@.len(),
                    c <= ec@.len(),
                    pos < 4,
                    rys.valid(),
                    ref_fits(r[0]) && ref_fits(r[1]) && ref_fits(r[2]) && ref_fits(r[3]),
                    q == shown_refs(r),
                    ea == r[0].coeffs,
                    eb == r[1].coeffs,
                    ec == r[2].coeffs,
                    ed == r[3].coeffs,
                    cart_size(q) >= 1,
                    block@ == shifted_quadrature(
                        *rys,
                        q,
                        pos as int,
                        up,
                        omega,
                        a as int,
                        b as int,
                        c as int,
                        0,
                    ),
                decreases ec@.len() - c,
            {
                let mut d: usize = 0;
                while d < ed.len()
                    invariant
                        a < ea@.len(),
                        b < eb@.len(),
                        c < ec@.len(),
                        d <= ed@.len(),
                        pos < 4,
                        rys.valid(),
                        ref_fits(r[0]) && ref_fits(r[1]) && ref_fits(r[2]) && ref_fits(r[3]),
                        q == shown_refs(r),
                        ea == r[0].coeffs,
                        eb == r[1].coeffs,
                        ec == r[2].coeffs,
                        ed == r[3].coeffs,
                        cart_size(q) >= 1,
                        block@ == shifted_quadrature(
                            *rys,
                            q,
                            pos as int,
                            up,
                            omega,
                            a as int,
                            b as int,
                            c as int,
                            d as int,
                        ),
                    decreases ed@.len() - d,
                {
                    let mut scale = T::from_count(1).times(ea[a]).times(eb[b]).times(ec[c]).times(
                        ed[d],
                    );
                    if up {
                        let alpha = if pos == 0 {
                            r[0].exps[a]
                        } else if pos == 1 {
                            r[1].exps[b]
                        } else if pos == 2 {
                            r[2].exps[c]
                        } else {
                            r[3].exps[d]
                        };
                        scale = scale.times(T::from_count(2).times(alpha));
                    }
                    let pa = Prim::new(r[0].exps[a], r[0].center, r[0].l);
                    let pb = Prim::new(r[1].exps[b], r[1].center, r[1].l);
                    let pc = Prim::new(r[2].exps[c], r[2].center, r[2].l);
                    let pd = Prim::new(r[3].exps[d], r[3].center, r[3].l);
                    proof {
                        let (ia, ib, ic, id) = (a as int, b as int, c as int, d as int);
                        lemma_shifted_len(*rys, q, pos as int, up, omega, ia, ib, ic, id);
                        assert((pa, pb, pc, pd) == primitives_at(q, ia, ib, ic, id));
                        assert(scale == shift_scale(q, pos as int, up, ia, ib, ic, id));
                    }
                    match omega {
                        None => {
                            coulomb_into(rys, pa, pb, pc, pd, scale, block.as_mut_slice());
                        },
                        Some(w) => {
                            erf_coulomb_into(rys, pa, pb, pc, pd, w, scale, block.as_mut_slice());
                        },
                    }
                    d = d + 1;
                }
                c = c + 1;
            }
            b = b + 1;
        }
        a = a + 1;
    }
}

/// The reference of a shell, or the given one in its place.
fn ref_or<'a, T: Real>(s: &Side<'a, T>, here: bool, other: ShellRef<'a, T>) -> (r: ShellRef<'a, T>)
    ensures
        r == other || !here,
        !here ==> (r.l as int, r.contraction()) == s.shown() && r.coeffs@ == s.eff@ && r.exps@
            == s.shell.exponents@,
{
    if here {
        other
    } else {
        s.shell_ref()
    }
}

/// The block of a quartet with the shell at `pos` raised and weighted, or lowered.
#[verifier::spinoff_prover]
#[verifier::rlimit(40)]
fn shifted_quartet<T: Real>(
    tables: &Tables<T>,
    recurrence: bool,
    omega: Option<T>,
    s: [Side<T>; 4],
    pos: usize,
    up: bool,
    Ghost(engine): Ghost<Engine>,
) -> (block: Vec<T>)
    requires
        tables.valid(),
        forall|i: int| 0 <= i < 4 ==> (#[trigger] s[i]).valid(),
        pos < 4,
        up ==> s[pos as int].shell.l < MAX_L,
        !up ==> s[pos as int].shell.l > 0,
        recurrence == (omega is None && recurs(engine, shown(s))),
    ensures
        block@ == shifted_block(tables.rys, engine, omega, shown(s), pos as int, up),
        block@.len() == cart_size(
            replaced(
                shown(s),
                pos as int,
                (
                    shifted_momentum(s[pos as int].shell.l as int, up),
                    nth(shown(s), pos as int).1,
                ),
            ),
        ),
{
    assert(s[0].valid() && s[1].valid() && s[2].valid() && s[3].valid());
    let ghost q = shown(s);
    let side = s[pos];
    assert(nth(q, pos as int) == side.shown());
    let lp: usize = if up {
        side.shell.l + 1
    } else {
        side.shell.l - 1
    };
    let mut wide: Vec<T> = Vec::new();
    let mut i: usize = 0;
    while i < side.eff.len()
        invariant
            i <= side.eff@.len(),
            side.eff@.len() == side.shell.exponents@.len(),
            wide@.len() == i,
            forall|k: int| 0 <= k < i ==> #[trigger] wide@[k] == weighted(side.shown())[k],
        decreases side.eff@.len() - i,
    {
        wide.push(side.eff[i].times(T::from_count(2)).times(side.shell.exponents[i]));
        i = i + 1;
    }
    assert(wide@ =~= weighted(side.shown()));
    let coeffs = if recurrence && up {
        wide.as_slice()
    } else {
        side.eff.as_slice()
    };
    let moved = ShellRef {
        center: side.shell.center,
        l: lp,
        exps: side.shell.exponents.as_slice(),
        coeffs,
    };
    let r0 = ref_or(&s[0], pos == 0, moved);
    let r1 = ref_or(&s[1], pos == 1, moved);
    let r2 = ref_or(&s[2], pos == 2, moved);
    let r3 = ref_or(&s[3], pos == 3, moved);
    let r = [r0, r1, r2, r3];
    let ghost v = shown_refs(r);
    proof {
        assert(v == replaced(q, pos as int, (lp as int, moved.contraction())));
        lemma_quartet_sizes(v.0.0, v.1.0, v.2.0, v.3.0);
    }
    let size: usize = n_cart(r0.l) * n_cart(r1.l) * n_cart(r2.l) * n_cart(r3.l);
    let mut block = filled(size, T::from_count(0));
    assert(block@ =~= zero_block(v));
    if recurrence {
        coulomb_shell_into(&tables.boys, r0, r1, r2, r3, block.as_mut_slice());
        proof {
            lemma_recurrence_block(seq![r0, r1, r2, r3], v, block@);
        }
    } else {
        rys_shifted(&tables.rys, r, pos, up, omega, &mut block);
        proof {
            lemma_shifted_len(
                tables.rys,
                v,
                pos as int,
                up,
                omega,
                v.0.1.2.len() as int,
                0,
                0,
                0,
            );
        }
    }
    block
}

/// Whether the numbers of entries before and after index `pos` of a block fit, each
/// multiplied up from its first factor.
spec fn sides_fit(pos: int, dims: [usize; 4]) -> bool {
    if pos == 0 {
        dims[1] * dims[2] <= usize::MAX && dims[1] * dims[2] * dims[3] <= usize::MAX
    } else if pos == 1 {
        dims[2] * dims[3] <= usize::MAX
    } else if pos == 2 {
        dims[0] * dims[1] <= usize::MAX
    } else {
        dims[0] * dims[1] <= usize::MAX && dims[0] * dims[1] * dims[2] <= usize::MAX
    }
}

/// They fit where the block does and has entries.
proof fn lemma_sides_fit(pos: int, dims: [usize; 4])
    requires
        0 <= pos < 4,
        1 <= dims[0],
        1 <= dims[1],
        1 <= dims[2],
        1 <= dims[3],
        dims[0] * dims[1] * dims[2] * dims[3] <= usize::MAX,
    ensures
        sides_fit(pos, dims),
{
    let (a, b, c, d) = (dims[0] as int, dims[1] as int, dims[2] as int, dims[3] as int);
    assert(a * b <= a * b * c && a * b * c <= a * b * c * d && b * c <= b * c * d && b * c * d <= a
        * (b * c * d) && a * (b * c * d) == a * b * c * d && c * d <= (a * b) * (c * d) && (a * b)
        * (c * d) == a * b * c * d) by (nonlinear_arith)
        requires
            1 <= a,
            1 <= b,
            1 <= c,
            1 <= d,
    ;
}

/// The number of entries before and after index `pos` of a block.
fn eri_outer_inner(pos: usize, dims: [usize; 4]) -> (r: (usize, usize))
    requires
        pos < 4,
        sides_fit(pos as int, dims),
    ensures
        r.0 == (if pos == 0 {
            1
        } else if pos == 1 {
            dims[0] as int
        } else if pos == 2 {
            dims[0] * dims[1]
        } else {
            dims[0] * dims[1] * dims[2]
        }),
        r.1 == (if pos == 0 {
            dims[1] * dims[2] * dims[3]
        } else if pos == 1 {
            dims[2] * dims[3]
        } else if pos == 2 {
            dims[3] as int
        } else {
            1
        }),
{
    let (a, b, c, d) = (dims[0], dims[1], dims[2], dims[3]);
    if pos == 0 {
        (1, b * c * d)
    } else if pos == 1 {
        (a, c * d)
    } else if pos == 2 {
        (a * b, d)
    } else {
        (a * b * c, 1)
    }
}

/// The sizes of the raised, the lowered and the plain block as products of what is
/// before, at and after an index.
proof fn lemma_axis_sizes<T>(q: Four<T>, pos: int, l: int, v: ShellView<T>)
    requires
        0 <= pos < 4,
        v.0 == l,
        0 <= q.0.0 <= 6,
        0 <= q.1.0 <= 6,
        0 <= q.2.0 <= 6,
        0 <= q.3.0 <= 6,
    ensures
        cart_size(replaced(q, pos, v)) == quartet_axis(momenta_of(q), pos, 0).outer * cart_count(l)
            * quartet_axis(momenta_of(q), pos, 0).inner,
{
    lemma_quartet_sizes(q.0.0, q.1.0, q.2.0, q.3.0);
    let (a, b, c, d) = (
        cart_count(q.0.0),
        cart_count(q.1.0),
        cart_count(q.2.0),
        cart_count(q.3.0),
    );
    let n = cart_count(l);
    assert(b * c * d <= 21952) by (nonlinear_arith)
        requires
            1 <= b <= 28,
            1 <= c <= 28,
            1 <= d <= 28,
    ;
    assert(c * d <= 784) by (nonlinear_arith)
        requires
            1 <= c <= 28,
            1 <= d <= 28,
    ;
    if pos == 0 {
        assert(n * b * c * d == 1 * n * (b * c * d)) by (nonlinear_arith);
    } else if pos == 1 {
        assert(a * n * c * d == a * n * (c * d)) by (nonlinear_arith);
    } else if pos == 2 {
        assert(a * b * n * d == (a * b) * n * d) by (nonlinear_arith);
    } else {
        assert(a * b * c * n == (a * b * c) * n * 1) by (nonlinear_arith);
    }
}

/// The derivatives of the Cartesian block of a quartet with respect to the center of the
/// shell at `pos`, from its raised and lowered blocks.
#[verifier::spinoff_prover]
#[verifier::rlimit(40)]
fn combine_center_derivative<T: Real>(
    s: [Side<T>; 4],
    pos: usize,
    axis: usize,
    raised: &Vec<T>,
    lowered: &Option<Vec<T>>,
    Ghost(rys): Ghost<RysTables<T>>,
    Ghost(engine): Ghost<Engine>,
    Ghost(omega): Ghost<Option<T>>,
) -> (block: Vec<T>)
    requires
        forall|i: int| 0 <= i < 4 ==> (#[trigger] s[i]).valid(),
        pos < 4,
        axis < 3,
        s[pos as int].shell.l < MAX_L,
        raised@ == shifted_block(rys, engine, omega, shown(s), pos as int, true),
        held(*lowered) == lowered_block(rys, engine, omega, shown(s), pos as int),
        raised@.len() == cart_size(
            replaced(
                shown(s),
                pos as int,
                (s[pos as int].shell.l + 1, nth(shown(s), pos as int).1),
            ),
        ),
        lowered matches Some(v) ==> v@.len() == cart_size(
            replaced(
                shown(s),
                pos as int,
                (s[pos as int].shell.l - 1, nth(shown(s), pos as int).1),
            ),
        ),
    ensures
        block@ == center_block(rys, engine, omega, shown(s), pos as int, axis as int),
        block@.len() == cart_size(shown(s)),
{
    assert(s[0].valid() && s[1].valid() && s[2].valid() && s[3].valid());
    let ghost q = shown(s);
    let side = s[pos];
    let ghost l = side.shell.l as int;
    assert(nth(q, pos as int) == side.shown());
    let dims = [
        s[0].shell.n_cart(),
        s[1].shell.n_cart(),
        s[2].shell.n_cart(),
        s[3].shell.n_cart(),
    ];
    proof {
        lemma_quartet_sizes(q.0.0, q.1.0, q.2.0, q.3.0);
        lemma_axis_sizes(q, pos as int, l + 1, (l + 1, side.shown().1));
        lemma_axis_sizes(q, pos as int, l - 1, (l - 1, side.shown().1));
        lemma_axis_sizes(q, pos as int, l, side.shown());
        assert(replaced(q, pos as int, side.shown()) == q);
        assert((l + 2) * (l + 3) <= 100) by (nonlinear_arith)
            requires
                0 <= l <= 5,
        ;
    }
    proof {
        lemma_sides_fit(pos as int, dims);
    }
    let (outer, inner) = eri_outer_inner(pos, dims);
    let size: usize = dims[0] * dims[1] * dims[2] * dims[3];
    let mut block = filled(size, T::from_count(0));
    assert(block@ =~= zero_block(q));
    let d = AxisDeriv { l: side.shell.l, cart_axis: axis, outer, inner };
    assert(d == quartet_axis(momenta_of(q), pos as int, axis as int));
    let low: Option<&[T]> = match lowered {
        None => None,
        Some(v) => Some(v.as_slice()),
    };
    assert(slice_view(low) == lowered_block(rys, engine, omega, q, pos as int));
    accumulate_center_derivative(
        d,
        T::from_count(1),
        raised.as_slice(),
        low,
        block.as_mut_slice(),
    );
    block
}

/// The raised and the lowered block of a quartet.
fn eri_pos_blocks<T: Real>(
    tables: &Tables<T>,
    engine: Engine,
    omega: Option<T>,
    s: [Side<T>; 4],
    pos: usize,
) -> (r: (Vec<T>, Option<Vec<T>>))
    requires
        tables.valid(),
        forall|i: int| 0 <= i < 4 ==> (#[trigger] s[i]).valid(),
        pos < 4,
        s[pos as int].shell.l < MAX_L,
    ensures
        r.0@ == shifted_block(tables.rys, engine, omega, shown(s), pos as int, true),
        held(r.1) == lowered_block(tables.rys, engine, omega, shown(s), pos as int),
        r.0@.len() == cart_size(
            replaced(
                shown(s),
                pos as int,
                (s[pos as int].shell.l + 1, nth(shown(s), pos as int).1),
            ),
        ),
        r.1 matches Some(v) ==> v@.len() == cart_size(
            replaced(
                shown(s),
                pos as int,
                (s[pos as int].shell.l - 1, nth(shown(s), pos as int).1),
            ),
        ),
{
    assert(nth(shown(s), pos as int) == s[pos as int].shown());
    let recurrence = omega.is_none() && resolves_to_recurrence(engine, s);
    let raised = shifted_quartet(tables, recurrence, omega, s, pos, true, Ghost(engine));
    let lowered = if s[pos].shell.l > 0 {
        Some(shifted_quartet(tables, recurrence, omega, s, pos, false, Ghost(engine)))
    } else {
        None
    };
    (raised, lowered)
}

/// Whether the three blocks are the derivatives of a quartet along the axes.
pub open spec fn are_gradient_blocks<T: Real>(
    blocks: Seq<Vec<T>>,
    rys: RysTables<T>,
    engine: Engine,
    omega: Option<T>,
    s: [Side<T>; 4],
    pos: int,
) -> bool {
    &&& blocks.len() == 3
    &&& forall|axis: int|
        0 <= axis < 3 ==> (#[trigger] blocks[axis])@ == gradient_block(
            rys,
            engine,
            omega,
            s,
            pos,
            axis,
        ) && blocks[axis]@.len() == s[0].shell.functions() * s[1].shell.functions()
            * s[2].shell.functions() * s[3].shell.functions()
}

/// The derivatives of the block of a quartet with respect to the center of the shell at
/// `pos`, along the three axes, in the components of the shells.
pub(crate) fn quartet_grad_eri_pos<T: Real>(
    tables: &Tables<T>,
    engine: Engine,
    omega: Option<T>,
    s: [Side<T>; 4],
    pos: usize,
) -> (blocks: Vec<Vec<T>>)
    requires
        tables.valid(),
        forall|i: int| 0 <= i < 4 ==> (#[trigger] s[i]).valid(),
        pos < 4,
        s[pos as int].shell.l < MAX_L,
    ensures
        are_gradient_blocks(blocks@, tables.rys, engine, omega, s, pos as int),
{
    assert(s[0].valid() && s[1].valid() && s[2].valid() && s[3].valid());
    let (raised, lowered) = eri_pos_blocks(tables, engine, omega, s, pos);
    let shells = [s[0].shell, s[1].shell, s[2].shell, s[3].shell];
    let mats = [s[0].mat, s[1].mat, s[2].mat, s[3].mat];
    let mut blocks: Vec<Vec<T>> = Vec::new();
    let mut tmp: Vec<T> = Vec::new();
    let mut axis: usize = 0;
    while axis < 3
        invariant
            axis <= 3,
            forall|i: int| 0 <= i < 4 ==> (#[trigger] s[i]).valid(),
            s[0].valid() && s[1].valid() && s[2].valid() && s[3].valid(),
            shells == [s[0].shell, s[1].shell, s[2].shell, s[3].shell],
            mats == [s[0].mat, s[1].mat, s[2].mat, s[3].mat],
            pos < 4,
            s[pos as int].shell.l < MAX_L,
            raised@ == shifted_block(tables.rys, engine, omega, shown(s), pos as int, true),
            held(lowered) == lowered_block(tables.rys, engine, omega, shown(s), pos as int),
            raised@.len() == cart_size(
                replaced(
                    shown(s),
                    pos as int,
                    (s[pos as int].shell.l + 1, nth(shown(s), pos as int).1),
                ),
            ),
            lowered matches Some(v) ==> v@.len() == cart_size(
                replaced(
                    shown(s),
                    pos as int,
                    (s[pos as int].shell.l - 1, nth(shown(s), pos as int).1),
                ),
            ),
            blocks@.len() == axis,
            forall|k: int|
                0 <= k < axis ==> (#[trigger] blocks@[k])@ == gradient_block(
                    tables.rys,
                    engine,
                    omega,
                    s,
                    pos as int,
                    k,
                ) && blocks@[k]@.len() == s[0].shell.functions() * s[1].shell.functions()
                    * s[2].shell.functions() * s[3].shell.functions(),
        decreases 3 - axis,
    {
        let mut block = combine_center_derivative(
            s,
            pos,
            axis,
            &raised,
            &lowered,
            Ghost(tables.rys),
            Ghost(engine),
            Ghost(omega),
        );
        transform_block4_into(shells, mats, &mut block, &mut tmp);
        blocks.push(block);
        axis = axis + 1;
    }
    blocks
}

} // verus!
