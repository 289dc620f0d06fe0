//! The block of one quartet of contracted shells.
//!
//! A quartet is evaluated by the recurrence engine or by quadrature over every
//! quadruple of primitives, and its Cartesian block is then brought to the components
//! of the shells.
use vstd::prelude::*;

use crate::engine::os::Prim;
use crate::engine::os_eri::{
    coulomb_shell_into, coulomb_shell_pairs_into, eri_value, quartet_added, quartet_value,
};
use crate::engine::pairs::{difference, shell_pairs, Contraction, ShellPairData, ShellRef};
use crate::engine::rys::{
    coulomb_into, erf_coulomb_into, lemma_quartet_sizes, lemma_repelled_len, quadruple_at,
    quartet_size, repulsion_added, root_count,
};
use crate::flat::{lemma_quad_index, quad, quad_parts};
use crate::integrals::{recurrence_threshold, select_engine, Engine};
use crate::math::am::cart_count;
use crate::math::boys::BoysTable;
use crate::math::rys::RysTables;
use crate::scalar::{filled, Real, Scalar};
use crate::shell::Shell;
use crate::spherical::{function_block4, held, shell_matrix, transform_block4_into};

verus! {

/// The tables that the two engines read.
pub struct Tables<T> {
    pub boys: BoysTable<T>,
    pub rys: RysTables<T>,
}

impl<T: Real> Tables<T> {
    /// Whether both tables are valid.
    pub open spec fn valid(self) -> bool {
        self.boys.valid() && self.rys.valid()
    }
}

/// A shell with the coefficients its primitives are contracted with and its
/// transform.
#[derive(Clone, Copy, Debug)]
pub struct Side<'a, T> {
    pub shell: &'a Shell<T>,
    pub eff: &'a Vec<T>,
    pub mat: &'a Option<Vec<T>>,
}

/// The angular momentum and the contraction of a shell.
pub type ShellView<T> = (int, Contraction<T>);

/// Four shells, in the order of the integral.
pub type Four<T> = (ShellView<T>, ShellView<T>, ShellView<T>, ShellView<T>);

/// A shell contracted with its normalized coefficients.
pub open spec fn normalized<T: Real>(s: Shell<T>) -> ShellView<T> {
    (s.l as int, (s.center, s.exponents@, s.effectives()))
}

impl<'a, T: Real> Side<'a, T> {
    /// Whether there is a coefficient for every primitive, and the transform is that
    /// of the shell.
    pub open spec fn valid(self) -> bool {
        &&& self.shell.valid()
        &&& self.eff@.len() == self.shell.exponents@.len()
        &&& held(*self.mat) == shell_matrix::<T>(self.shell.kind, self.shell.l as int)
    }

    /// The angular momentum and the contraction.
    pub open spec fn shown(self) -> ShellView<T> {
        (self.shell.l as int, (self.shell.center, self.shell.exponents@, self.eff@))
    }

    /// The shell as the recurrence engine sees it.
    pub fn shell_ref(&self) -> (r: ShellRef<'a, T>)
        ensures
            r.l == self.shell.l,
            r.center == self.shell.center,
            r.contraction() == self.shown().1,
    {
        ShellRef {
            center: self.shell.center,
            l: self.shell.l,
            exps: self.shell.exponents.as_slice(),
            coeffs: self.eff.as_slice(),
        }
    }
}

/// Whether the recurrence engine is taken for half-momenta `ne` and `nf` and the given
/// number of primitive quadruples.
pub open spec fn takes_recurrence(engine: Engine, ne: int, nf: int, degree: int) -> bool {
    match engine {
        Engine::OsHgp => true,
        Engine::Rys => false,
        Engine::Auto => match recurrence_threshold(ne, nf) {
            Some(t) => degree >= t,
            None => false,
        },
    }
}

/// Number of primitive quadruples of four shells.
pub open spec fn contraction_degree<T>(q: Four<T>) -> int {
    (q.0.1.1.len() * q.1.1.1.len() * q.2.1.1.len() * q.3.1.1.len()) as int
}

/// Whether the recurrence engine is taken for four shells.
pub open spec fn recurs<T>(engine: Engine, q: Four<T>) -> bool {
    takes_recurrence(engine, q.0.0 + q.1.0, q.2.0 + q.3.0, contraction_degree(q))
}

/// The product of four counts, or the largest count if that is smaller.
fn capped_product(a: usize, b: usize, c: usize, d: usize) -> (r: usize)
    requires
        a >= 1,
        b >= 1,
        c >= 1,
        d >= 1,
    ensures
        r == (if a * b * c * d <= usize::MAX {
            a * b * c * d
        } else {
            usize::MAX as int
        }),
{
    assert(a * b * c * d >= a * b * c && a * b * c >= a * b) by (nonlinear_arith)
        requires
            a >= 1,
            b >= 1,
            c >= 1,
            d >= 1,
    ;
    match a.checked_mul(b) {
        None => usize::MAX,
        Some(ab) => match ab.checked_mul(c) {
            None => usize::MAX,
            Some(abc) => match abc.checked_mul(d) {
                None => usize::MAX,
                Some(abcd) => abcd,
            },
        },
    }
}

/// Whether the recurrence engine is taken for four shells.
pub fn resolves_to_recurrence<T: Real>(engine: Engine, s: [Side<T>; 4]) -> (r: bool)
    requires
        forall|i: int| 0 <= i < 4 ==> (#[trigger] s[i]).valid(),
    ensures
        r == recurs(engine, (s[0].shown(), s[1].shown(), s[2].shown(), s[3].shown())),
{
    assert(s[0].valid() && s[1].valid() && s[2].valid() && s[3].valid());
    match engine {
        Engine::OsHgp => true,
        Engine::Rys => false,
        Engine::Auto => {
            let degree = capped_product(
                s[0].shell.n_prim(),
                s[1].shell.n_prim(),
                s[2].shell.n_prim(),
                s[3].shell.n_prim(),
            );
            match select_engine(
                s[0].shell.l + s[1].shell.l,
                s[2].shell.l + s[3].shell.l,
                degree,
            ) {
                Engine::OsHgp => true,
                _ => false,
            }
        },
    }
}

/// Entry `k` of the Cartesian block of four shells by the recurrence engine.
pub open spec fn recurrence_entry<T: Real>(q: Four<T>, k: int) -> T {
    let (a, b, c, d) = quadruple_at(q.0.0, q.1.0, q.2.0, q.3.0, k);
    eri_value(
        shell_pairs(q.0.1, q.1.1),
        shell_pairs(q.2.1, q.3.1),
        q.0.0 + q.1.0,
        q.2.0 + q.3.0,
        difference(q.0.1.0, q.1.1.0),
        difference(q.2.1.0, q.3.1.0),
        a,
        b,
        c,
        d,
    )
}

/// Size of the Cartesian block of four shells.
pub open spec fn cart_size<T>(q: Four<T>) -> int {
    quartet_size(q.0.0, q.1.0, q.2.0, q.3.0)
}

/// A block of zeros for four shells.
pub open spec fn zero_block<T: Scalar>(q: Four<T>) -> Seq<T> {
    Seq::new(cart_size(q) as nat, |k: int| T::count(0))
}

/// Primitive `i` of a shell.
pub open spec fn primitive_of<T>(s: ShellView<T>, i: int) -> Prim<T> {
    Prim { exp: s.1.1[i], center: s.1.0, l: s.0 as usize }
}

/// The primitive quadruple with the given indices.
pub open spec fn primitives_at<T>(q: Four<T>, a: int, b: int, c: int, d: int) -> (
    Prim<T>,
    Prim<T>,
    Prim<T>,
    Prim<T>,
) {
    (
        primitive_of(q.0, a),
        primitive_of(q.1, b),
        primitive_of(q.2, c),
        primitive_of(q.3, d),
    )
}

/// The product of the coefficients of a primitive quadruple.
pub open spec fn coefficient_at<T: Scalar>(q: Four<T>, a: int, b: int, c: int, d: int) -> T {
    T::prod(T::prod(T::prod(q.0.1.2[a], q.1.1.2[b]), q.2.1.2[c]), q.3.1.2[d])
}

/// The Cartesian block of four shells by quadrature, over all primitive quadruples
/// that come before `(a, b, c, d)` in row-major order.
pub open spec fn quadrature_block<T: Real>(
    rys: RysTables<T>,
    q: Four<T>,
    omega: Option<T>,
    a: int,
    b: int,
    c: int,
    d: int,
) -> Seq<T>
    decreases a, b, c, d,
{
    if d > 0 {
        repulsion_added(
            rys,
            quadrature_block(rys, q, omega, a, b, c, d - 1),
            primitives_at(q, a, b, c, d - 1),
            omega,
            coefficient_at(q, a, b, c, d - 1),
        )
    } else if c > 0 {
        quadrature_block(rys, q, omega, a, b, c - 1, q.3.1.2.len() as int)
    } else if b > 0 {
        quadrature_block(rys, q, omega, a, b - 1, q.2.1.2.len() as int, 0)
    } else if a > 0 {
        quadrature_block(rys, q, omega, a - 1, q.1.1.2.len() as int, 0, 0)
    } else {
        zero_block(q)
    }
}

/// Which operator a family of integrals is taken of.
#[derive(Clone, Copy, Debug)]
pub enum EriKernel<T> {
    /// `1/r`.
    Coulomb,
    /// `erf(omega r)/r`, for a finite `omega` above zero.
    Erf { omega: T },
}

/// The Cartesian block of four shells by quadrature.
pub open spec fn quadrature<T: Real>(rys: RysTables<T>, q: Four<T>, omega: Option<T>) -> Seq<T> {
    quadrature_block(rys, q, omega, q.0.1.2.len() as int, 0, 0, 0)
}

/// The Cartesian block of four shells.
pub open spec fn cart_block<T: Real>(
    rys: RysTables<T>,
    engine: Engine,
    omega: Option<T>,
    q: Four<T>,
) -> Seq<T> {
    if omega is None && recurs(engine, q) {
        Seq::new(cart_size(q) as nat, |k: int| T::sum(T::count(0), recurrence_entry(q, k)))
    } else {
        quadrature(rys, q, omega)
    }
}

/// What four sides show.
pub open spec fn shown<T: Real>(s: [Side<T>; 4]) -> Four<T> {
    (s[0].shown(), s[1].shown(), s[2].shown(), s[3].shown())
}

/// The block of four shells in their components.
pub open spec fn side_block<T: Real>(
    rys: RysTables<T>,
    engine: Engine,
    omega: Option<T>,
    s: [Side<T>; 4],
) -> Seq<T> {
    function_block4(
        *s[0].shell,
        *s[1].shell,
        *s[2].shell,
        *s[3].shell,
        cart_block(rys, engine, omega, shown(s)),
    )
}

/// Quadrature keeps the size of the block.
pub proof fn lemma_quadrature_len<T: Real>(
    rys: RysTables<T>,
    q: Four<T>,
    omega: Option<T>,
    a: int,
    b: int,
    c: int,
    d: int,
)
    requires
        cart_size(q) >= 0,
    ensures
        quadrature_block(rys, q, omega, a, b, c, d).len() == cart_size(q),
    decreases a, b, c, d,
{
    if d > 0 {
        lemma_quadrature_len(rys, q, omega, a, b, c, d - 1);
        let s = primitives_at(q, a, b, c, d - 1);
        lemma_repelled_len(
            rys,
            quadrature_block(rys, q, omega, a, b, c, d - 1),
            s,
            omega,
            coefficient_at(q, a, b, c, d - 1),
            root_count(s.0.l as int, s.1.l as int, s.2.l as int, s.3.l as int),
        );
    } else if c > 0 {
        lemma_quadrature_len(rys, q, omega, a, b, c - 1, q.3.1.2.len() as int);
    } else if b > 0 {
        lemma_quadrature_len(rys, q, omega, a, b - 1, q.2.1.2.len() as int, 0);
    } else if a > 0 {
        lemma_quadrature_len(rys, q, omega, a - 1, q.1.1.2.len() as int, 0, 0);
    }
}

/// Contract four shells by quadrature into a block of zeros.
#[verifier::spinoff_prover]
#[verifier::rlimit(40)]
fn contract_quartet_rys<T: Real>(
    rys: &RysTables<T>,
    s: [Side<T>; 4],
    omega: Option<T>,
    block: &mut Vec<T>,
)
    requires
        rys.valid(),
        forall|i: int| 0 <= i < 4 ==> (#[trigger] s[i]).valid(),
        old(block)@ == zero_block(shown(s)),
    ensures
        final(block)@ == quadrature(*rys, shown(s), omega),
{
    assert(s[0].valid() && s[1].valid() && s[2].valid() && s[3].valid());
    let ghost q = shown(s);
    proof {
        lemma_quartet_sizes(q.0.0, q.1.0, q.2.0, q.3.0);
    }
    let (ea, eb, ec, ed) = (s[0].eff, s[1].eff, s[2].eff, s[3].eff);
    let mut a: usize = 0;
    while a < ea.len()
        invariant
            a <= ea@.len(),
            rys.valid(),
            s[0].valid(),
            s[1].valid(),
            s[2].valid(),
            s[3].valid(),
            q == shown(s),
            ea == s[0].eff,
            eb == s[1].eff,
            ec == s[2].eff,
            ed == s[3].eff,
            cart_size(q) >= 1,
            block@ == quadrature_block(*rys, q, omega, a as int, 0, 0, 0),
        decreases ea@.len() - a,
    {
        let mut b: usize = 0;
        while b < eb.len()
            invariant
                a < ea@.len(),
                b <= eb@.len(),
                rys.valid(),
                s[0].valid(),
                s[1].valid(),
                s[2].valid(),
                s[3].valid(),
                q == shown(s),
                ea == s[0].eff,
                eb == s[1].eff,
                ec == s[2].eff,
                ed == s[3].eff,
                cart_size(q) >= 1,
                block@ == quadrature_block(*rys, q, omega, a as int, b as int, 0, 0),
            decreases eb@.len() - b,
        {
            let mut c: usize = 0;
            while c < ec.len()
                invariant
                    a < ea@.len(),
                    b < eb@.len(),
                    c <= ec@.len(),
                    rys.valid(),
                    s[0].valid(),
                    s[1].valid(),
                    s[2].valid(),
                    s[3].valid(),
                    q == shown(s),
                    ea == s[0].eff,
                    eb == s[1].eff,
                    ec == s[2].eff,
                    ed == s[3].eff,
                    cart_size(q) >= 1,
                    block@ == quadrature_block(*rys, q, omega, a as int, b as int, c as int, 0),
                decreases ec@.len() - c,
            {
                let mut d: usize = 0;
                while d < ed.len()
                    invariant
                        a < ea@.len(),
                        b < eb@.len(),
                        c < ec@.len(),
                        d <= ed@.len(),
                        rys.valid(),
                        s[0].valid(),
                        s[1].valid(),
                        s[2].valid(),
                        s[3].valid(),
                        q == shown(s),
                        ea == s[0].eff,
                        eb == s[1].eff,
                        ec == s[2].eff,
                        ed == s[3].eff,
                        cart_size(q) >= 1,
                        block@ == quadrature_block(
                            *rys,
                            q,
                            omega,
                            a as int,
                            b as int,
                            c as int,
                            d as int,
                        ),
                    decreases ed@.len() - d,
                {
                    let scale = ea[a].times(eb[b]).times(ec[c]).times(ed[d]);
                    let (pa, pb, pc, pd) = (
                        s[0].shell.prim(a),
                        s[1].shell.prim(b),
                        s[2].shell.prim(c),
                        s[3].shell.prim(d),
                    );
                    proof {
                        lemma_quadrature_len(
                            *rys,
                            q,
                            omega,
                            a as int,
                            b as int,
                            c as int,
                            d as int,
                        );
                        assert((pa, pb, pc, pd) == primitives_at(
                            q,
                            a as int,
                            b as int,
                            c as int,
                            d as int,
                        ));
                        assert(scale == coefficient_at(
                            q,
                            a as int,
                            b as int,
                            c as int,
                            d as int,
                        ));
                    }
                    match omega {
                        None => {
                            coulomb_into(rys, pa, pb, pc, pd, scale, block.as_mut_slice());
                        },
                        Some(w) => {
                            erf_coulomb_into(rys, pa, pb, pc, pd, w, scale, block.as_mut_slice());
                        },
                    }
                    d = d + 1;
                }
                c = c + 1;
            }
            b = b + 1;
        }
        a = a + 1;
    }
}

/// What the recurrence engine leaves of a block of zeros.
pub proof fn lemma_recurrence_block<T: Real>(s: Seq<ShellRef<T>>, q: Four<T>, new: Seq<T>)
    requires
        s.len() == 4,
        s[0].l <= 6,
        s[1].l <= 6,
        s[2].l <= 6,
        s[3].l <= 6,
        q.0 == (s[0].l as int, s[0].contraction()),
        q.1 == (s[1].l as int, s[1].contraction()),
        q.2 == (s[2].l as int, s[2].contraction()),
        q.3 == (s[3].l as int, s[3].contraction()),
        quartet_added(
            s,
            shell_pairs(q.0.1, q.1.1),
            shell_pairs(q.2.1, q.3.1),
            zero_block(q),
            new,
        ),
    ensures
        new == Seq::new(
            cart_size(q) as nat,
            |k: int| T::sum(T::count(0), recurrence_entry(q, k)),
        ),
{
    let goal = Seq::new(
        cart_size(q) as nat,
        |k: int| T::sum(T::count(0), recurrence_entry(q, k)),
    );
    lemma_quartet_sizes(q.0.0, q.1.0, q.2.0, q.3.0);
    let (na, nb, nc, nd) = (
        cart_count(q.0.0),
        cart_count(q.1.0),
        cart_count(q.2.0),
        cart_count(q.3.0),
    );
    assert forall|k: int| 0 <= k < cart_size(q) implies #[trigger] new[k] == goal[k] by {
        lemma_quad_index(k, na, nb, nc, nd);
        let (ia, ib, ic, id) = quad_parts(k, nb, nc, nd);
        assert(new[quad(ia, nb, ib, nc, ic, nd, id)] == T::sum(
            zero_block(q)[quad(ia, nb, ib, nc, ic, nd, id)],
            quartet_value(
                s,
                shell_pairs(q.0.1, q.1.1),
                shell_pairs(q.2.1, q.3.1),
                ia,
                ib,
                ic,
                id,
            ),
        ));
    }
    assert(new =~= goal);
}

/// Buffers that a sweep over quartets keeps: the block and its partner in the
/// transforms. What they hold between quartets has no effect on a result.
pub struct QuartetScratch<T> {
    pub block: Vec<T>,
    pub tmp: Vec<T>,
}

impl<T> QuartetScratch<T> {
    /// Empty buffers.
    pub fn new() -> (r: Self)
        ensures
            r.block@.len() == 0,
            r.tmp@.len() == 0,
    {
        QuartetScratch { block: Vec::new(), tmp: Vec::new() }
    }
}

/// The Cartesian block of four shells, whose primitive pairs may be given.
fn cartesian_quartet<T: Real>(
    tables: &Tables<T>,
    engine: Engine,
    omega: Option<T>,
    s: [Side<T>; 4],
    given: Option<(&ShellPairData<T>, &ShellPairData<T>)>,
    block: &mut Vec<T>,
)
    requires
        tables.valid(),
        forall|i: int| 0 <= i < 4 ==> (#[trigger] s[i]).valid(),
        given matches Some((bra, ket)) ==> bra.pairs@ == shell_pairs(
            s[0].shown().1,
            s[1].shown().1,
        ) && ket.pairs@ == shell_pairs(s[2].shown().1, s[3].shown().1),
    ensures
        final(block)@ == cart_block(tables.rys, engine, omega, shown(s)),
        final(block)@.len() == cart_size(shown(s)),
{
    assert(s[0].valid() && s[1].valid() && s[2].valid() && s[3].valid());
    let ghost q = shown(s);
    proof {
        lemma_quartet_sizes(q.0.0, q.1.0, q.2.0, q.3.0);
        lemma_quadrature_len(tables.rys, q, omega, q.0.1.2.len() as int, 0, 0, 0);
    }
    let size: usize = s[0].shell.n_cart() * s[1].shell.n_cart() * s[2].shell.n_cart()
        * s[3].shell.n_cart();
    *block = filled(size, T::from_count(0));
    assert(block@ =~= zero_block(q));
    if omega.is_none() && resolves_to_recurrence(engine, s) {
        let (a, b, c, d) = (
            s[0].shell_ref(),
            s[1].shell_ref(),
            s[2].shell_ref(),
            s[3].shell_ref(),
        );
        match given {
            Some((bra, ket)) => {
                coulomb_shell_pairs_into(
                    &tables.boys,
                    a,
                    b,
                    c,
                    d,
                    bra,
                    ket,
                    block.as_mut_slice(),
                );
            },
            None => {
                coulomb_shell_into(&tables.boys, a, b, c, d, block.as_mut_slice());
            },
        }
        proof {
            lemma_recurrence_block(seq![a, b, c, d], q, block@);
        }
    } else {
        contract_quartet_rys(&tables.rys, s, omega, block);
    }
}

/// The block of four shells in their components, left in `scratch.block`. Returns its
/// length.
pub fn quartet_into_scratch<T: Real>(
    scratch: &mut QuartetScratch<T>,
    tables: &Tables<T>,
    engine: Engine,
    s: [Side<T>; 4],
) -> (len: usize)
    requires
        tables.valid(),
        forall|i: int| 0 <= i < 4 ==> (#[trigger] s[i]).valid(),
    ensures
        final(scratch).block@ == side_block(tables.rys, engine, None, s),
        len == final(scratch).block@.len(),
        len == s[0].shell.functions() * s[1].shell.functions() * s[2].shell.functions()
            * s[3].shell.functions(),
{
    quartet_kernel_into(scratch, tables, engine, None, s, None);
    scratch.block.len()
}

/// [`quartet_into_scratch`] with the primitive pairs of bra and ket given. The
/// quadrature engine has no use for them.
pub fn quartet_into_scratch_pairs<T: Real>(
    scratch: &mut QuartetScratch<T>,
    tables: &Tables<T>,
    engine: Engine,
    s: [Side<T>; 4],
    bra_pairs: &ShellPairData<T>,
    ket_pairs: &ShellPairData<T>,
) -> (len: usize)
    requires
        tables.valid(),
        forall|i: int| 0 <= i < 4 ==> (#[trigger] s[i]).valid(),
        bra_pairs.pairs@ == shell_pairs(s[0].shown().1, s[1].shown().1),
        ket_pairs.pairs@ == shell_pairs(s[2].shown().1, s[3].shown().1),
    ensures
        final(scratch).block@ == side_block(tables.rys, engine, None, s),
        len == final(scratch).block@.len(),
        len == s[0].shell.functions() * s[1].shell.functions() * s[2].shell.functions()
            * s[3].shell.functions(),
{
    quartet_kernel_into(scratch, tables, engine, None, s, Some((bra_pairs, ket_pairs)));
    scratch.block.len()
}

/// The block of four shells of the kernel `erf(omega r)/r`, by quadrature.
pub fn quartet_into_scratch_erf<T: Real>(
    scratch: &mut QuartetScratch<T>,
    tables: &Tables<T>,
    s: [Side<T>; 4],
    omega: T,
) -> (len: usize)
    requires
        tables.valid(),
        forall|i: int| 0 <= i < 4 ==> (#[trigger] s[i]).valid(),
    ensures
        final(scratch).block@ == side_block(tables.rys, Engine::Rys, Some(omega), s),
        len == final(scratch).block@.len(),
        len == s[0].shell.functions() * s[1].shell.functions() * s[2].shell.functions()
            * s[3].shell.functions(),
{
    quartet_kernel_into(scratch, tables, Engine::Rys, Some(omega), s, None);
    scratch.block.len()
}

/// The block of four shells in their components, of the kernel that `omega` chooses.
pub fn quartet_kernel_into<T: Real>(
    scratch: &mut QuartetScratch<T>,
    tables: &Tables<T>,
    engine: Engine,
    omega: Option<T>,
    s: [Side<T>; 4],
    given: Option<(&ShellPairData<T>, &ShellPairData<T>)>,
)
    requires
        tables.valid(),
        forall|i: int| 0 <= i < 4 ==> (#[trigger] s[i]).valid(),
        given matches Some((bra, ket)) ==> bra.pairs@ == shell_pairs(
            s[0].shown().1,
            s[1].shown().1,
        ) && ket.pairs@ == shell_pairs(s[2].shown().1, s[3].shown().1),
    ensures
        final(scratch).block@ == side_block(tables.rys, engine, omega, s),
        final(scratch).block@.len() == s[0].shell.functions() * s[1].shell.functions()
            * s[2].shell.functions() * s[3].shell.functions(),
{
    assert(s[0].valid() && s[1].valid() && s[2].valid() && s[3].valid());
    cartesian_quartet(tables, engine, omega, s, given, &mut scratch.block);
    let shells = [s[0].shell, s[1].shell, s[2].shell, s[3].shell];
    let mats = [s[0].mat, s[1].mat, s[2].mat, s[3].mat];
    transform_block4_into(shells, mats, &mut scratch.block, &mut scratch.tmp);
}

} // verus!
