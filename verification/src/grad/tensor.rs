//! The gradient of the repulsion tensor.
use vstd::prelude::*;

use crate::engine::os_eri::MAX_L;
use crate::error::IntegralError;
use crate::flat::{lemma_quad_in_range, lemma_quad_index, lemma_quad_order, quad, quad_parts};
use crate::grad::contract::advance;
use crate::grad::force::{piece, ForceJob};
use crate::grad::matrix::{
    grad_base, lemma_grad_base, lemma_grad_bases_apart, lemma_product_bound, residual,
    translational_residual,
};
use crate::grad::quartet::{are_gradient_blocks, gradient_block, quartet_grad_eri_pos};
use crate::integrals::Engine;
use crate::math::rys::RysTables;
use crate::offsets::{are_lengths, start};
use crate::one_electron::lemma_ranges_fit;
use crate::quartet::Tables;
use crate::scalar::{filled, Real, Scalar};
use crate::shell::{
    atom_of, function_counts, law_every_shell_has_an_atom, lemma_function_counts, Basis, Shell,
};
use crate::shell_pairs::Prepared;
use crate::tensor::{is_function, lemma_slot4, lemma_total_steps, nth, slot4, total, At};

verus! {

/// Four functions.
pub type Quad = (At, At, At, At);

/// Whether four numbers name functions.
pub open spec fn are_functions(lens: Seq<int>, f: Quad) -> bool {
    is_function(lens, f.0) && is_function(lens, f.1) && is_function(lens, f.2) && is_function(
        lens,
        f.3,
    )
}

/// The place of four functions in a tensor.
pub open spec fn slot_of(lens: Seq<int>, f: Quad) -> int {
    slot4(lens, f.0, f.1, f.2, f.3)
}

/// The place of four functions in the block of their shells.
pub open spec fn entry_of(lens: Seq<int>, f: Quad) -> int {
    quad(f.0.1, lens[f.1.0], f.1.1, lens[f.2.0], f.2.1, lens[f.3.0], f.3.1)
}

/// The shells of four functions.
pub open spec fn shells_at(f: Quad) -> (int, int, int, int) {
    (f.0.0, f.1.0, f.2.0, f.3.0)
}

/// The derivative of the block of four shells with respect to the center of one of them.
pub open spec fn shell_gradient<T: Real>(
    rys: RysTables<T>,
    engine: Engine,
    shells: Seq<Shell<T>>,
    q: (int, int, int, int),
    pos: int,
    axis: int,
) -> Seq<T> {
    let job = ForceJob {
        shells: (
            piece(shells[q.0]),
            piece(shells[q.1]),
            piece(shells[q.2]),
            piece(shells[q.3]),
        ),
        atoms: (None, None, None, None),
        dims: (0, 0, 0, 0),
        offs: (0, 0, 0, 0),
    };
    job.block(rys, engine, None, pos, axis)
}

/// The derivative of `(xy|zw)` with respect to atom `c` along `axis`, after the shells
/// before `n` have been differentiated.
pub open spec fn tensor_gradient<T: Real>(
    rys: RysTables<T>,
    engine: Engine,
    shells: Seq<Shell<T>>,
    c: int,
    axis: int,
    f: Quad,
    n: int,
) -> T
    decreases n,
{
    if n <= 0 {
        T::count(0)
    } else {
        let v = tensor_gradient(rys, engine, shells, c, axis, f, n - 1);
        if atom_of(shells, nth(shells_at(f), n - 1)) == c {
            T::sum(
                v,
                shell_gradient(rys, engine, shells, shells_at(f), n - 1, axis)[entry_of(
                    function_counts(shells),
                    f,
                )],
            )
        } else {
            v
        }
    }
}

/// The gradient of the repulsion tensor: for every atom and axis a tensor over the
/// functions.
#[derive(Clone, Debug)]
pub struct GradientEri<T> {
    natom: usize,
    nao: usize,
    data: Vec<T>,
}

/// The number of entries of a tensor over `n` functions.
pub open spec fn tensor_size(n: int) -> int {
    n * n * n * n
}

impl<T: Real> GradientEri<T> {
    /// The number of atoms.
    pub closed spec fn atom_count(self) -> int {
        self.natom as int
    }

    /// The number of functions.
    pub closed spec fn size(self) -> int {
        self.nao as int
    }

    /// The entries, by atom, axis and the four functions.
    pub closed spec fn values(self) -> Seq<T> {
        self.data@
    }

    /// The entries are as many as the atoms, axes and functions ask for.
    pub open spec fn valid(self) -> bool {
        &&& self.values().len() == self.atom_count() * 3 * tensor_size(self.size())
        &&& self.size() >= 0
        &&& self.atom_count() >= 0
        &&& tensor_size(self.size()) <= usize::MAX
    }

    /// The number of atoms.
    #[must_use]
    pub fn natom(&self) -> (n: usize)
        ensures
            n == self.atom_count(),
    {
        self.natom
    }

    /// The number of functions.
    #[must_use]
    pub fn nao(&self) -> (n: usize)
        ensures
            n == self.size(),
    {
        self.nao
    }

    /// The derivative of the tensor with respect to an atom along an axis.
    #[must_use]
    pub fn block(&self, atom: usize, axis: usize) -> (r: &[T])
        requires
            self.valid(),
            atom < self.atom_count(),
            axis < 3,
        ensures
            r@ == self.values().subrange(
                grad_base(atom as int, axis as int, tensor_size(self.size())),
                grad_base(atom as int, axis as int, tensor_size(self.size())) + tensor_size(
                    self.size(),
                ),
            ),
    {
        proof {
            lemma_total_steps(self.nao as int);
        }
        if self.nao == 0 {
            proof {
                assert(tensor_size(0) == 0);
                assert(grad_base(atom as int, axis as int, 0) == 0) by (nonlinear_arith)
                    requires
                        grad_base(atom as int, axis as int, 0) == crate::flat::pair(
                            atom as int,
                            3,
                            axis as int,
                        ) * 0,
                ;
            }
            return vstd::slice::slice_subrange(self.data.as_slice(), 0, 0);
        }
        let nn: usize = self.nao * self.nao * self.nao * self.nao;
        let len = self.data.len();
        proof {
            lemma_grad_base(atom as int, self.natom as int, axis as int, nn as int, 0);
            lemma_product_bound(self.natom as int * 3, nn as int);
        }
        let off: usize = (atom * 3 + axis) * nn;
        vstd::slice::slice_subrange(self.data.as_slice(), off, off + nn)
    }

    /// The largest magnitude of a sum of derivatives over all atoms.
    #[must_use]
    pub fn max_translational_residual(&self) -> (r: T)
        requires
            self.valid(),
        ensures
            r == residual(self.values(), tensor_size(self.size()), self.atom_count(), 3, 0),
    {
        proof {
            lemma_total_steps(self.nao as int);
            if self.nao == 0 {
                assert(tensor_size(0) == 0);
            }
        }
        translational_residual(
            &self.data,
            self.nao * self.nao * self.nao * self.nao,
            self.natom,
        )
    }
}

/// Whether `data` holds the gradient of the repulsion tensor.
pub open spec fn is_tensor_gradient<T: Real>(
    data: Seq<T>,
    natom: int,
    rys: RysTables<T>,
    engine: Engine,
    shells: Seq<Shell<T>>,
) -> bool {
    let lens = function_counts(shells);
    let nn = tensor_size(total(lens));
    &&& data.len() == natom * 3 * nn
    &&& forall|c: int, axis: int, f: Quad|
        0 <= c < natom && 0 <= axis < 3 && are_functions(lens, f) ==> #[trigger] data[grad_base(
            c,
            axis,
            nn,
        ) + slot_of(lens, f)] == tensor_gradient(rys, engine, shells, c, axis, f, 4)
}

/// Whether `new` is `old` with the entries of `block` before `k` added to the tensor of
/// atom `d` along `bxis` at the places of the functions of four shells.
spec fn block_added<T: Scalar>(
    old: Seq<T>,
    new: Seq<T>,
    lens: Seq<int>,
    natom: int,
    d: int,
    bxis: int,
    q: (int, int, int, int),
    block: Seq<T>,
    k: int,
) -> bool {
    let nn = tensor_size(total(lens));
    &&& new.len() == old.len()
    &&& forall|c: int, axis: int, f: Quad|
        0 <= c < natom && 0 <= axis < 3 && are_functions(lens, f) ==> #[trigger] new[grad_base(
            c,
            axis,
            nn,
        ) + slot_of(lens, f)] == (if c == d && axis == bxis && shells_at(f) == q && entry_of(
            lens,
            f,
        ) < k {
            T::sum(old[grad_base(c, axis, nn) + slot_of(lens, f)], block[entry_of(lens, f)])
        } else {
            old[grad_base(c, axis, nn) + slot_of(lens, f)]
        })
}

/// Add a block to the tensor of an atom along an axis.
#[verifier::spinoff_prover]
#[verifier::rlimit(80)]
fn add_block_eri<T: Scalar>(
    data: &mut Vec<T>,
    n: usize,
    natom: usize,
    atom: usize,
    axis: usize,
    q: [usize; 4],
    offs: &Vec<usize>,
    dims: [usize; 4],
    block: &Vec<T>,
    Ghost(lens): Ghost<Seq<int>>,
)
    requires
        are_lengths(lens),
        n == total(lens),
        atom < natom,
        axis < 3,
        old(data)@.len() == natom * 3 * tensor_size(n as int),
        q[0] < lens.len(),
        q[1] < lens.len(),
        q[2] < lens.len(),
        q[3] < lens.len(),
        offs@.len() == lens.len(),
        forall|s: int| 0 <= s < lens.len() ==> #[trigger] offs@[s] == start(lens, s),
        dims[0] == lens[q[0] as int],
        dims[1] == lens[q[1] as int],
        dims[2] == lens[q[2] as int],
        dims[3] == lens[q[3] as int],
        1 <= dims[0],
        1 <= dims[1],
        1 <= dims[2],
        1 <= dims[3],
        block@.len() == dims[0] * dims[1] * dims[2] * dims[3],
    ensures
        block_added(
            old(data)@,
            final(data)@,
            lens,
            natom as int,
            atom as int,
            axis as int,
            (q[0] as int, q[1] as int, q[2] as int, q[3] as int),
            block@,
            block@.len() as int,
        ),
{
    let ghost was = data@;
    let len = data.len();
    let ghost nn = tensor_size(n as int);
    let ghost qq = (q[0] as int, q[1] as int, q[2] as int, q[3] as int);
    let (nb, nc, nd) = (dims[1], dims[2], dims[3]);
    proof {
        lemma_ranges_fit(lens, qq.0);
        lemma_ranges_fit(lens, qq.1);
        lemma_ranges_fit(lens, qq.2);
        lemma_ranges_fit(lens, qq.3);
        assert(offs@[qq.0] == start(lens, qq.0) && offs@[qq.1] == start(lens, qq.1));
        assert(offs@[qq.2] == start(lens, qq.2) && offs@[qq.3] == start(lens, qq.3));
        lemma_total_steps(n as int);
        lemma_product_bound(natom as int * 3, nn);
        lemma_grad_base(atom as int, natom as int, axis as int, nn, 0);
    }
    let base: usize = (atom * 3 + axis) * (n * n * n * n);
    let (o0, o1, o2, o3) = (offs[q[0]], offs[q[1]], offs[q[2]], offs[q[3]]);
    let mut k: usize = 0;
    assert forall|f: Quad| are_functions(lens, f) && shells_at(f) == qq implies 0
        <= #[trigger] entry_of(lens, f) < block@.len() by {
        lemma_quad_in_range(
            f.0.1,
            dims[0] as int,
            f.1.1,
            nb as int,
            f.2.1,
            nc as int,
            f.3.1,
            nd as int,
        );
    }
    while k < block.len()
        invariant
            k <= block@.len(),
            are_lengths(lens),
            n == total(lens),
            n >= 1,
            nn == tensor_size(n as int),
            atom < natom,
            axis < 3,
            was.len() == natom * 3 * nn,
            was.len() <= usize::MAX,
            data@.len() == was.len(),
            base == grad_base(atom as int, axis as int, nn),
            qq == (q[0] as int, q[1] as int, q[2] as int, q[3] as int),
            qq.0 < lens.len(),
            qq.1 < lens.len(),
            qq.2 < lens.len(),
            qq.3 < lens.len(),
            o0 == start(lens, qq.0),
            o1 == start(lens, qq.1),
            o2 == start(lens, qq.2),
            o3 == start(lens, qq.3),
            o0 + dims[0] <= n,
            o1 + nb <= n,
            o2 + nc <= n,
            o3 + nd <= n,
            dims[0] == lens[qq.0],
            nb == lens[qq.1],
            nc == lens[qq.2],
            nd == lens[qq.3],
            1 <= nb,
            1 <= nc,
            1 <= nd,
            block@.len() == dims[0] * nb * nc * nd,
            forall|f: Quad|
                are_functions(lens, f) && shells_at(f) == qq ==> 0 <= #[trigger] entry_of(lens, f)
                    < block@.len(),
            block_added(
                was,
                data@,
                lens,
                natom as int,
                atom as int,
                axis as int,
                qq,
                block@,
                k as int,
            ),
        decreases block@.len() - k,
    {
        let d: usize = k % nd;
        let c: usize = k / nd % nc;
        let b: usize = k / nd / nc % nb;
        let a: usize = k / nd / nc / nb;
        let ghost f0: Quad = (
            (qq.0, a as int),
            (qq.1, b as int),
            (qq.2, c as int),
            (qq.3, d as int),
        );
        proof {
            lemma_quad_index(k as int, dims[0] as int, nb as int, nc as int, nd as int);
            assert(quad_parts(k as int, nb as int, nc as int, nd as int) == (
                a as int,
                b as int,
                c as int,
                d as int,
            ));
            assert(are_functions(lens, f0));
            assert(entry_of(lens, f0) == k);
            let m = n as int;
            lemma_quad_in_range(o0 + a, m, o1 + b, m, o2 + c, m, o3 + d, m);
            lemma_grad_base(atom as int, natom as int, axis as int, nn, slot_of(lens, f0));
            assert(was[grad_base(atom as int, axis as int, nn) + slot_of(lens, f0)]
                == data@[grad_base(atom as int, axis as int, nn) + slot_of(lens, f0)]);
        }
        let ghost before = data@;
        let at: usize = base + ((((o0 + a) * n + (o1 + b)) * n + (o2 + c)) * n + (o3 + d));
        assert(at == grad_base(atom as int, axis as int, nn) + slot_of(lens, f0));
        data[at] = data[at].plus(block[k]);
        proof {
            assert forall|e: int, ax: int, f: Quad|
                0 <= e < natom && 0 <= ax < 3 && are_functions(lens, f) implies #[trigger] data@[grad_base(
                e,
                ax,
                nn,
            ) + slot_of(lens, f)] == (if e == atom && ax == axis && shells_at(f) == qq && entry_of(
                lens,
                f,
            ) < k + 1 {
                T::sum(was[grad_base(e, ax, nn) + slot_of(lens, f)], block@[entry_of(lens, f)])
            } else {
                was[grad_base(e, ax, nn) + slot_of(lens, f)]
            }) by {
                lemma_slot4(lens, f.0, f.1, f.2, f.3, f0.0, f0.1, f0.2, f0.3);
                lemma_grad_base(e, natom as int, ax, nn, slot_of(lens, f));
                assert(before[grad_base(e, ax, nn) + slot_of(lens, f)] == (if e == atom && ax
                    == axis && shells_at(f) == qq && entry_of(lens, f) < k {
                    T::sum(was[grad_base(e, ax, nn) + slot_of(lens, f)], block@[entry_of(lens, f)])
                } else {
                    was[grad_base(e, ax, nn) + slot_of(lens, f)]
                }));
                if (e, ax) != (atom as int, axis as int) {
                    lemma_grad_bases_apart(
                        e,
                        ax,
                        atom as int,
                        axis as int,
                        nn,
                        slot_of(lens, f),
                    );
                } else if shells_at(f) == qq {
                    lemma_quad_order(
                        f.0.1,
                        f.1.1,
                        f.2.1,
                        f.3.1,
                        a as int,
                        b as int,
                        c as int,
                        d as int,
                        nb as int,
                        nc as int,
                        nd as int,
                    );
                }
            }
        }
        k = k + 1;
    }
}

/// The entry of a gradient after all quartets before number `count` and, for that
/// quartet, the shells before `pos` and of the next the axes before `ax`.
spec fn partial<T: Real>(
    rys: RysTables<T>,
    engine: Engine,
    shells: Seq<Shell<T>>,
    count: int,
    pos: int,
    ax: int,
    c: int,
    axis: int,
    f: Quad,
) -> T {
    let n = shells.len() as int;
    let q = shells_at(f);
    let number = quad(q.0, n, q.1, n, q.2, n, q.3);
    if number < count {
        tensor_gradient(rys, engine, shells, c, axis, f, 4)
    } else if number == count {
        tensor_gradient(
            rys,
            engine,
            shells,
            c,
            axis,
            f,
            if axis < ax {
                pos + 1
            } else {
                pos
            },
        )
    } else {
        T::count(0)
    }
}

/// Whether the gradient holds the entries of `partial`.
spec fn is_partial<T: Real>(
    data: Seq<T>,
    natom: int,
    rys: RysTables<T>,
    engine: Engine,
    shells: Seq<Shell<T>>,
    count: int,
    pos: int,
    ax: int,
) -> bool {
    let lens = function_counts(shells);
    let nn = tensor_size(total(lens));
    &&& data.len() == natom * 3 * nn
    &&& forall|c: int, axis: int, f: Quad|
        0 <= c < natom && 0 <= axis < 3 && are_functions(lens, f) ==> #[trigger] data[grad_base(
            c,
            axis,
            nn,
        ) + slot_of(lens, f)] == partial(rys, engine, shells, count, pos, ax, c, axis, f)
}

impl<T: Real> Basis<T> {
    /// Whether the gradient of the repulsion tensor can be indexed.
    pub open spec fn tensor_gradient_fits(self) -> bool {
        &&& self.tensor_fits()
        &&& self.atom_total() * 3 * tensor_size(self.size()) <= usize::MAX
    }

    /// The gradient of the repulsion tensor.
    pub fn eri_grad(&self, tables: &Tables<T>) -> (r: Result<GradientEri<T>, IntegralError<T>>)
        requires
            tables.valid(),
            self.valid(),
            self.tensor_gradient_fits(),
        ensures
            r is Ok <==> self.can_differentiate(),
            r matches Err(e) ==> e == self.grad_error(),
            r matches Ok(g) ==> g.valid() && g.atom_count() == self.atom_total() && g.size()
                == self.size() && is_tensor_gradient(
                g.values(),
                self.atom_total(),
                tables.rys,
                Engine::Auto,
                self.shells@,
            ),
    {
        self.eri_grad_with(tables, Engine::Auto)
    }

    /// Add what one quartet contributes to the gradient.
    #[verifier::spinoff_prover]
    #[verifier::rlimit(80)]
    fn add_quartet_gradient(
        &self,
        tables: &Tables<T>,
        engine: Engine,
        data: &mut Vec<T>,
        prep: &Prepared<T>,
        offs: &Vec<usize>,
        satom: &Vec<usize>,
        n: usize,
        natom: usize,
        q: [usize; 4],
    )
        requires
            tables.valid(),
            self.valid(),
            self.can_differentiate(),
            prep.valid(),
            prep.shells@ == self.shells@,
            offs@.len() == self.shells@.len(),
            forall|s: int| 0 <= s < offs@.len() ==> #[trigger] offs@[s] == self.offset(s),
            satom@.len() == self.shells@.len(),
            forall|s: int|
                0 <= s < satom@.len() ==> #[trigger] satom@[s] == atom_of(self.shells@, s),
            n == self.size(),
            natom == self.atom_total(),
            q[0] < self.shells@.len(),
            q[1] < self.shells@.len(),
            q[2] < self.shells@.len(),
            q[3] < self.shells@.len(),
            is_partial(
                old(data)@,
                natom as int,
                tables.rys,
                engine,
                self.shells@,
                quad(
                    q[0] as int,
                    self.shells@.len() as int,
                    q[1] as int,
                    self.shells@.len() as int,
                    q[2] as int,
                    self.shells@.len() as int,
                    q[3] as int,
                ),
                0,
                0,
            ),
        ensures
            is_partial(
                final(data)@,
                natom as int,
                tables.rys,
                engine,
                self.shells@,
                quad(
                    q[0] as int,
                    self.shells@.len() as int,
                    q[1] as int,
                    self.shells@.len() as int,
                    q[2] as int,
                    self.shells@.len() as int,
                    q[3] as int,
                ),
                4,
                0,
            ),
    {
        let ghost shells = self.shells@;
        let ghost lens = function_counts(shells);
        let ghost m = shells.len() as int;
        let ghost nn = tensor_size(total(lens));
        let ghost qq = (q[0] as int, q[1] as int, q[2] as int, q[3] as int);
        let ghost count = quad(qq.0, m, qq.1, m, qq.2, m, qq.3);
        let s = [
            prep.side(q[0]),
            prep.side(q[1]),
            prep.side(q[2]),
            prep.side(q[3]),
        ];
        let dims = [
            s[0].shell.n_func(),
            s[1].shell.n_func(),
            s[2].shell.n_func(),
            s[3].shell.n_func(),
        ];
        proof {
            lemma_function_counts(shells);
        }
        let mut pos: usize = 0;
        while pos < 4
            invariant
                pos <= 4,
                tables.valid(),
                self.valid(),
                self.can_differentiate(),
                shells == self.shells@,
                lens == function_counts(shells),
                are_lengths(lens),
                lens.len() == shells.len(),
                m == shells.len(),
                nn == tensor_size(total(lens)),
                qq == (q[0] as int, q[1] as int, q[2] as int, q[3] as int),
                qq.0 < m,
                qq.1 < m,
                qq.2 < m,
                qq.3 < m,
                count == quad(qq.0, m, qq.1, m, qq.2, m, qq.3),
                forall|i: int| 0 <= i < 4 ==> (#[trigger] s[i]).valid(),
                *s[0].shell == shells[qq.0] && s[0].shown() == crate::quartet::normalized(
                    shells[qq.0],
                ),
                *s[1].shell == shells[qq.1] && s[1].shown() == crate::quartet::normalized(
                    shells[qq.1],
                ),
                *s[2].shell == shells[qq.2] && s[2].shown() == crate::quartet::normalized(
                    shells[qq.2],
                ),
                *s[3].shell == shells[qq.3] && s[3].shown() == crate::quartet::normalized(
                    shells[qq.3],
                ),
                dims[0] == lens[qq.0],
                dims[1] == lens[qq.1],
                dims[2] == lens[qq.2],
                dims[3] == lens[qq.3],
                1 <= dims[0],
                1 <= dims[1],
                1 <= dims[2],
                1 <= dims[3],
                offs@.len() == shells.len(),
                forall|s: int| 0 <= s < offs@.len() ==> #[trigger] offs@[s] == start(lens, s),
                satom@.len() == shells.len(),
                forall|s: int| 0 <= s < satom@.len() ==> #[trigger] satom@[s] == atom_of(shells, s),
                n == total(lens),
                natom == self.atom_total(),
                is_partial(
                    data@,
                    natom as int,
                    tables.rys,
                    engine,
                    shells,
                    count,
                    pos as int,
                    0,
                ),
            decreases 4 - pos,
        {
            let sh = q[pos];
            proof {
                assert(sh == nth(qq, pos as int));
                assert(shells[sh as int].l < MAX_L);
                assert(*s[pos as int].shell == shells[sh as int]);
                law_every_shell_has_an_atom(shells, sh as int, m);
            }
            let blocks = quartet_grad_eri_pos(tables, engine, None, s, pos);
            let at = satom[sh];
            let mut axis: usize = 0;
            while axis < 3
                invariant
                    axis <= 3,
                    pos < 4,
                    shells == self.shells@,
                    lens == function_counts(shells),
                    are_lengths(lens),
                    lens.len() == shells.len(),
                    m == shells.len(),
                    nn == tensor_size(total(lens)),
                    qq == (q[0] as int, q[1] as int, q[2] as int, q[3] as int),
                    0 <= qq.0 < m,
                    0 <= qq.1 < m,
                    0 <= qq.2 < m,
                    0 <= qq.3 < m,
                    count == quad(qq.0, m, qq.1, m, qq.2, m, qq.3),
                    sh == nth(qq, pos as int),
                    at == atom_of(shells, sh as int),
                    at < natom,
                    *s[0].shell == shells[qq.0] && s[0].shown() == crate::quartet::normalized(
                        shells[qq.0],
                    ),
                    *s[1].shell == shells[qq.1] && s[1].shown() == crate::quartet::normalized(
                        shells[qq.1],
                    ),
                    *s[2].shell == shells[qq.2] && s[2].shown() == crate::quartet::normalized(
                        shells[qq.2],
                    ),
                    *s[3].shell == shells[qq.3] && s[3].shown() == crate::quartet::normalized(
                        shells[qq.3],
                    ),
                    are_gradient_blocks(
                        blocks@,
                        tables.rys,
                        engine,
                        None,
                        s,
                        pos as int,
                    ),
                    dims[0] == lens[qq.0],
                    dims[1] == lens[qq.1],
                    dims[2] == lens[qq.2],
                    dims[3] == lens[qq.3],
                    1 <= dims[0],
                    1 <= dims[1],
                    1 <= dims[2],
                    1 <= dims[3],
                    offs@.len() == shells.len(),
                    forall|s: int| 0 <= s < offs@.len() ==> #[trigger] offs@[s] == start(lens, s),
                    n == total(lens),
                    natom == self.atom_total(),
                    is_partial(
                        data@,
                        natom as int,
                        tables.rys,
                        engine,
                        shells,
                        count,
                        pos as int,
                        axis as int,
                    ),
                decreases 3 - axis,
            {
                let ghost before = data@;
                proof {
                    assert(blocks@[axis as int]@ == gradient_block(
                        tables.rys,
                        engine,
                        None,
                        s,
                        pos as int,
                        axis as int,
                    ));
                    assert(gradient_block(
                        tables.rys,
                        engine,
                        None,
                        s,
                        pos as int,
                        axis as int,
                    ) == shell_gradient(
                        tables.rys,
                        engine,
                        shells,
                        qq,
                        pos as int,
                        axis as int,
                    ));
                }
                add_block_eri(
                    data,
                    n,
                    natom,
                    at,
                    axis,
                    q,
                    offs,
                    dims,
                    &blocks[axis],
                    Ghost(lens),
                );
                proof {
                    let block = blocks@[axis as int]@;
                    assert forall|c: int, ax: int, f: Quad|
                        0 <= c < natom && 0 <= ax < 3 && are_functions(
                            lens,
                            f,
                        ) implies #[trigger] data@[grad_base(c, ax, nn) + slot_of(lens, f)]
                        == partial(
                        tables.rys,
                        engine,
                        shells,
                        count,
                        pos as int,
                        axis + 1,
                        c,
                        ax,
                        f,
                    ) by {
                        let g = shells_at(f);
                        lemma_quad_order(
                            g.0,
                            g.1,
                            g.2,
                            g.3,
                            qq.0,
                            qq.1,
                            qq.2,
                            qq.3,
                            m,
                            m,
                            m,
                        );
                        assert(before[grad_base(c, ax, nn) + slot_of(lens, f)] == partial(
                            tables.rys,
                            engine,
                            shells,
                            count,
                            pos as int,
                            axis as int,
                            c,
                            ax,
                            f,
                        ));
                        if g == qq {
                            lemma_quad_in_range(
                                f.0.1,
                                dims[0] as int,
                                f.1.1,
                                dims[1] as int,
                                f.2.1,
                                dims[2] as int,
                                f.3.1,
                                dims[3] as int,
                            );
                        }
                    }
                }
                axis = axis + 1;
            }
            proof {
                assert forall|c: int, ax: int, f: Quad|
                    0 <= c < natom && 0 <= ax < 3 && are_functions(
                        lens,
                        f,
                    ) implies #[trigger] data@[grad_base(c, ax, nn) + slot_of(lens, f)] == partial(
                    tables.rys,
                    engine,
                    shells,
                    count,
                    pos + 1,
                    0,
                    c,
                    ax,
                    f,
                ) by {
                    assert(partial(
                        tables.rys,
                        engine,
                        shells,
                        count,
                        pos as int,
                        3,
                        c,
                        ax,
                        f,
                    ) == partial(tables.rys, engine, shells, count, pos + 1, 0, c, ax, f));
                }
            }
            pos = pos + 1;
        }
    }

    /// [`Basis::eri_grad`] with the engine given.
    #[verifier::spinoff_prover]
    #[verifier::rlimit(60)]
    pub fn eri_grad_with(&self, tables: &Tables<T>, engine: Engine) -> (r: Result<
        GradientEri<T>,
        IntegralError<T>,
    >)
        requires
            tables.valid(),
            self.valid(),
            self.tensor_gradient_fits(),
        ensures
            r is Ok <==> self.can_differentiate(),
            r matches Err(e) ==> e == self.grad_error(),
            r matches Ok(g) ==> g.valid() && g.atom_count() == self.atom_total() && g.size()
                == self.size() && is_tensor_gradient(
                g.values(),
                self.atom_total(),
                tables.rys,
                engine,
                self.shells@,
            ),
    {
        if let Err(e) = self.check_grad_l() {
            return Err(e);
        }
        let ghost shells = self.shells@;
        let ghost lens = function_counts(shells);
        let ghost m = shells.len() as int;
        let ghost nn = tensor_size(total(lens));
        proof {
            lemma_function_counts(shells);
            crate::offsets::lemma_start_grows(lens, 0, m);
            lemma_total_steps(self.size());
        }
        let n = self.nao();
        let offs = self.offsets();
        let satom = self.shell_atom();
        let atoms = self.atoms();
        let prep = Prepared::new(&self.shells);
        let nsh = self.shells.len();
        let natom = atoms.len();
        proof {
            if n >= 1 {
                lemma_product_bound(natom * 3, nn);
            } else {
                if nsh > 0 {
                    lemma_ranges_fit(lens, 0);
                    assert(lens[0] >= 1);
                }
                assert(natom == 0);
            }
        }
        let mut data = filled(natom * 3 * (n * n * n * n), T::from_count(0));
        proof {
            assert(quad(0, m, 0, m, 0, m, 0) == 0) by {
                assert(0 * m == 0) by (nonlinear_arith);
            }
            if m == 0 {
                assert(m * m * m * m == 0) by (nonlinear_arith)
                    requires
                        m == 0,
                ;
            }
            assert(is_partial(data@, natom as int, tables.rys, engine, shells, 0, 0, 0)) by {
                assert forall|c: int, ax: int, f: Quad|
                    0 <= c < natom && 0 <= ax < 3 && are_functions(
                        lens,
                        f,
                    ) implies #[trigger] data@[grad_base(c, ax, nn) + slot_of(lens, f)] == partial(
                    tables.rys,
                    engine,
                    shells,
                    0,
                    0,
                    0,
                    c,
                    ax,
                    f,
                ) by {
                    lemma_slot4(lens, f.0, f.1, f.2, f.3, f.0, f.1, f.2, f.3);
                    lemma_grad_base(c, natom as int, ax, nn, slot_of(lens, f));
                    let g = shells_at(f);
                    lemma_quad_in_range(g.0, m, g.1, m, g.2, m, g.3, m);
                }
            }
        }
        let (mut i, mut j, mut k, mut l): (usize, usize, usize, usize) = (0, 0, 0, 0);
        let ghost mut count: int = 0;
        while i < nsh
            invariant
                i <= nsh,
                nsh > 0 ==> j < nsh && k < nsh && l < nsh,
                m == nsh,
                m == shells.len(),
                shells == self.shells@,
                lens == function_counts(shells),
                nn == tensor_size(total(lens)),
                tables.valid(),
                self.valid(),
                self.can_differentiate(),
                prep.valid(),
                prep.shells@ == shells,
                n == self.size(),
                natom == self.atom_total(),
                offs@.len() == nsh,
                forall|s: int| 0 <= s < nsh ==> #[trigger] offs@[s] == self.offset(s),
                satom@.len() == nsh,
                forall|s: int| 0 <= s < nsh ==> #[trigger] satom@[s] == atom_of(shells, s),
                count == quad(i as int, m, j as int, m, k as int, m, l as int),
                count <= m * m * m * m,
                i == nsh ==> count == m * m * m * m,
                is_partial(data@, natom as int, tables.rys, engine, shells, count, 0, 0),
            decreases m * m * m * m - count,
        {
            proof {
                lemma_quad_in_range(i as int, m, j as int, m, k as int, m, l as int, m);
            }
            self.add_quartet_gradient(
                tables,
                engine,
                &mut data,
                &prep,
                &offs,
                &satom,
                n,
                natom,
                [i, j, k, l],
            );
            let next = advance(i, j, k, l, nsh);
            i = next.0;
            j = next.1;
            k = next.2;
            l = next.3;
            proof {
                assert forall|c: int, ax: int, f: Quad|
                    0 <= c < natom && 0 <= ax < 3 && are_functions(
                        lens,
                        f,
                    ) implies #[trigger] data@[grad_base(c, ax, nn) + slot_of(lens, f)] == partial(
                    tables.rys,
                    engine,
                    shells,
                    count + 1,
                    0,
                    0,
                    c,
                    ax,
                    f,
                ) by {
                    assert(partial(tables.rys, engine, shells, count, 4, 0, c, ax, f) == partial(
                        tables.rys,
                        engine,
                        shells,
                        count + 1,
                        0,
                        0,
                        c,
                        ax,
                        f,
                    ));
                }
                count = count + 1;
            }
        }
        proof {
            assert forall|c: int, ax: int, f: Quad|
                0 <= c < natom && 0 <= ax < 3 && are_functions(lens, f) implies #[trigger] data@[grad_base(
                c,
                ax,
                nn,
            ) + slot_of(lens, f)] == tensor_gradient(tables.rys, engine, shells, c, ax, f, 4) by {
                let g = shells_at(f);
                lemma_quad_in_range(g.0, m, g.1, m, g.2, m, g.3, m);
            }
        }
        Ok(GradientEri { natom, nao: n, data })
    }
}

} // verus!
