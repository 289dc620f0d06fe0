//! Contractions of two-electron gradients with a density.
//!
//! The derivative blocks of one quartet at a time are multiplied into the matching
//! entries of the density and added up on the atoms of the differentiated shells. The
//! gradient itself is never held.
use vstd::prelude::*;

use crate::engine::os_eri::MAX_L;
use crate::flat::{lemma_quad_in_range, lemma_quad_index, quad, quad_parts};
use crate::grad::quartet::{are_gradient_blocks, center_block, gradient_block, quartet_grad_eri_pos};
use crate::integrals::Engine;
use crate::math::rys::RysTables;
use crate::quartet::{normalized, shown, Four, ShellView, Side, Tables};
use crate::scalar::{Real, Scalar};
use crate::shell::{function_count, Shell, ShellKind};
use crate::spherical::component_block4;
use crate::tensor::nth;

verus! {

/// A shell of a quartet: its kind and its primitives.
pub type Piece<T> = (ShellKind, ShellView<T>);

/// A shell of a basis as a piece of a quartet.
pub open spec fn piece<T: Real>(s: Shell<T>) -> Piece<T> {
    (s.kind, normalized(s))
}

/// One quartet of a contraction: its shells, the atoms of those that are differentiated,
/// the dimensions of the density and the offsets of the shells in it.
#[verifier::ext_equal]
pub struct ForceJob<T> {
    pub shells: (Piece<T>, Piece<T>, Piece<T>, Piece<T>),
    pub atoms: (Option<int>, Option<int>, Option<int>, Option<int>),
    pub dims: (int, int, int, int),
    pub offs: (int, int, int, int),
}

impl<T: Real> ForceJob<T> {
    /// The primitives of the four shells.
    pub open spec fn four(self) -> Four<T> {
        (self.shells.0.1, self.shells.1.1, self.shells.2.1, self.shells.3.1)
    }

    /// The number of components of a shell.
    pub open spec fn count(self, pos: int) -> int {
        function_count(nth(self.shells, pos).0, nth(self.shells, pos).1.0)
    }

    /// The number of entries of a block.
    pub open spec fn size(self) -> int {
        self.count(0) * self.count(1) * self.count(2) * self.count(3)
    }

    /// The derivative of the block with respect to the center of one of its shells.
    pub open spec fn block(
        self,
        rys: RysTables<T>,
        engine: Engine,
        omega: Option<T>,
        pos: int,
        axis: int,
    ) -> Seq<T> {
        component_block4(
            (self.shells.0.0, self.shells.0.1.0),
            (self.shells.1.0, self.shells.1.1.0),
            (self.shells.2.0, self.shells.2.1.0),
            (self.shells.3.0, self.shells.3.1.0),
            center_block(rys, engine, omega, self.four(), pos, axis),
        )
    }

    /// The place in the density of entry `k` of a block.
    pub open spec fn place(self, k: int) -> int {
        let p = quad_parts(k, self.count(1), self.count(2), self.count(3));
        quad(
            self.offs.0 + p.0,
            self.dims.1,
            self.offs.1 + p.1,
            self.dims.2,
            self.offs.2 + p.2,
            self.dims.3,
            self.offs.3 + p.3,
        )
    }

    /// The sum of the first `n` entries of a block, each times its entry of the density.
    pub open spec fn dot(self, gamma: Seq<T>, block: Seq<T>, n: int) -> T
        decreases n,
    {
        if n <= 0 {
            T::count(0)
        } else {
            T::sum(
                self.dot(gamma, block, n - 1),
                T::prod(gamma[self.place(n - 1)], block[n - 1]),
            )
        }
    }

    /// The force on atom `c` along `axis` after the shells before `n` have been
    /// differentiated.
    pub open spec fn force(
        self,
        before: T,
        rys: RysTables<T>,
        engine: Engine,
        omega: Option<T>,
        gamma: Seq<T>,
        c: int,
        axis: int,
        n: int,
    ) -> T
        decreases n,
    {
        if n <= 0 {
            before
        } else {
            let v = self.force(before, rys, engine, omega, gamma, c, axis, n - 1);
            if nth(self.atoms, n - 1) == Some(c) {
                T::sum(
                    v,
                    self.dot(gamma, self.block(rys, engine, omega, n - 1, axis), self.size()),
                )
            } else {
                v
            }
        }
    }

    /// The offsets leave room for the shells, and the density has the entries that the
    /// dimensions ask for.
    pub open spec fn fits(self, gamma: Seq<T>) -> bool {
        &&& 0 <= self.offs.0 && self.offs.0 + self.count(0) <= self.dims.0
        &&& 0 <= self.offs.1 && self.offs.1 + self.count(1) <= self.dims.1
        &&& 0 <= self.offs.2 && self.offs.2 + self.count(2) <= self.dims.2
        &&& 0 <= self.offs.3 && self.offs.3 + self.count(3) <= self.dims.3
        &&& gamma.len() == self.dims.0 * self.dims.1 * self.dims.2 * self.dims.3
    }
}

/// The force on atom `c` along `axis` from the first `n` quartets of a contraction.
pub open spec fn force_after<T: Real>(
    jobs: spec_fn(int) -> ForceJob<T>,
    rys: RysTables<T>,
    engine: Engine,
    omega: Option<T>,
    gamma: Seq<T>,
    c: int,
    axis: int,
    n: int,
) -> T
    decreases n,
{
    if n <= 0 {
        T::count(0)
    } else {
        jobs(n - 1).force(
            force_after(jobs, rys, engine, omega, gamma, c, axis, n - 1),
            rys,
            engine,
            omega,
            gamma,
            c,
            axis,
            4,
        )
    }
}

/// The sum of the entries of a block, each times its entry of the density.
#[verifier::spinoff_prover]
#[verifier::rlimit(40)]
fn dot_block<T: Real>(
    gamma: &[T],
    dims: [usize; 4],
    offs: [usize; 4],
    n: [usize; 4],
    block: &Vec<T>,
    Ghost(job): Ghost<ForceJob<T>>,
) -> (acc: T)
    requires
        job.fits(gamma@),
        job.dims == (dims[0] as int, dims[1] as int, dims[2] as int, dims[3] as int),
        job.offs == (offs[0] as int, offs[1] as int, offs[2] as int, offs[3] as int),
        n[0] == job.count(0),
        n[1] == job.count(1),
        n[2] == job.count(2),
        n[3] == job.count(3),
        1 <= n[1],
        1 <= n[2],
        1 <= n[3],
        block@.len() == job.size(),
    ensures
        acc == job.dot(gamma@, block@, job.size()),
{
    let mut acc = T::from_count(0);
    let len = gamma.len();
    let (nb, nc, nd) = (n[1], n[2], n[3]);
    let mut k: usize = 0;
    while k < block.len()
        invariant
            k <= block@.len(),
            job.fits(gamma@),
            job.dims == (dims[0] as int, dims[1] as int, dims[2] as int, dims[3] as int),
            job.offs == (offs[0] as int, offs[1] as int, offs[2] as int, offs[3] as int),
            n[0] == job.count(0),
            nb == job.count(1),
            nc == job.count(2),
            nd == job.count(3),
            1 <= nb,
            1 <= nc,
            1 <= nd,
            gamma@.len() <= usize::MAX,
            block@.len() == job.size(),
            acc == job.dot(gamma@, block@, k as int),
        decreases block@.len() - k,
    {
        let d: usize = k % nd;
        let c: usize = k / nd % nc;
        let b: usize = k / nd / nc % nb;
        let a: usize = k / nd / nc / nb;
        proof {
            lemma_quad_index(k as int, n[0] as int, nb as int, nc as int, nd as int);
            assert(quad_parts(k as int, nb as int, nc as int, nd as int) == (
                a as int,
                b as int,
                c as int,
                d as int,
            ));
            lemma_quad_in_range(
                offs[0] + a,
                dims[0] as int,
                offs[1] + b,
                dims[1] as int,
                offs[2] + c,
                dims[2] as int,
                offs[3] + d,
                dims[3] as int,
            );
        }
        let at: usize = (((offs[0] + a) * dims[1] + (offs[1] + b)) * dims[2] + (offs[2] + c))
            * dims[3] + (offs[3] + d);
        acc = acc.plus(gamma[at].times(block[k]));
        k = k + 1;
    }
    acc
}

/// Whether every force is that of `job.force` over the shells before `n`, and of the
/// next shell the axes before `ax`.
spec fn forces_added<T: Real>(
    old: Seq<[T; 3]>,
    new: Seq<[T; 3]>,
    job: ForceJob<T>,
    rys: RysTables<T>,
    engine: Engine,
    omega: Option<T>,
    gamma: Seq<T>,
    n: int,
    ax: int,
) -> bool {
    &&& new.len() == old.len()
    &&& forall|c: int, axis: int|
        0 <= c < old.len() && 0 <= axis < 3 ==> #[trigger] new[c][axis] == job.force(
            old[c][axis],
            rys,
            engine,
            omega,
            gamma,
            c,
            axis,
            if axis < ax {
                n + 1
            } else {
                n
            },
        )
}

/// A force with `v` added along `axis`.
fn push_along<T: Scalar>(f: [T; 3], axis: usize, v: T) -> (r: [T; 3])
    requires
        axis < 3,
    ensures
        forall|k: int|
            0 <= k < 3 ==> #[trigger] r[k] == (if k == axis {
                T::sum(f[k], v)
            } else {
                f[k]
            }),
{
    if axis == 0 {
        [f[0].plus(v), f[1], f[2]]
    } else if axis == 1 {
        [f[0], f[1].plus(v), f[2]]
    } else {
        [f[0], f[1], f[2].plus(v)]
    }
}

/// Add what one quartet contributes to the forces.
#[verifier::spinoff_prover]
#[verifier::rlimit(60)]
pub(crate) fn add_forces<T: Real>(
    tables: &Tables<T>,
    engine: Engine,
    omega: Option<T>,
    s: [Side<T>; 4],
    atoms: [Option<usize>; 4],
    gamma: &[T],
    dims: [usize; 4],
    offs: [usize; 4],
    forces: &mut Vec<[T; 3]>,
    Ghost(job): Ghost<ForceJob<T>>,
)
    requires
        tables.valid(),
        forall|i: int| 0 <= i < 4 ==> (#[trigger] s[i]).valid(),
        forall|i: int|
            0 <= i < 4 ==> nth(job.shells, i) == ((#[trigger] s[i]).shell.kind, s[i].shown()),
        forall|i: int|
            0 <= i < 4 ==> nth(job.atoms, i) == (match #[trigger] atoms[i] {
                None => None,
                Some(c) => Some(c as int),
            }),
        forall|i: int|
            0 <= i < 4 ==> (#[trigger] atoms[i] matches Some(c) ==> c < old(forces)@.len()
                && s[i].shell.l < MAX_L),
        job.fits(gamma@),
        job.dims == (dims[0] as int, dims[1] as int, dims[2] as int, dims[3] as int),
        job.offs == (offs[0] as int, offs[1] as int, offs[2] as int, offs[3] as int),
    ensures
        final(forces)@.len() == old(forces)@.len(),
        forall|c: int, axis: int|
            0 <= c < old(forces)@.len() && 0 <= axis < 3 ==> #[trigger] final(forces)@[c][axis]
                == job.force(
                old(forces)@[c][axis],
                tables.rys,
                engine,
                omega,
                gamma@,
                c,
                axis,
                4,
            ),
{
    let ghost was = forces@;
    proof {
        assert(s[0].valid() && s[1].valid() && s[2].valid() && s[3].valid());
        assert(nth(job.shells, 0) == (s[0].shell.kind, s[0].shown()));
        assert(nth(job.shells, 1) == (s[1].shell.kind, s[1].shown()));
        assert(nth(job.shells, 2) == (s[2].shell.kind, s[2].shown()));
        assert(nth(job.shells, 3) == (s[3].shell.kind, s[3].shown()));
        assert(job.four() == shown(s));
    }
    let n = [
        s[0].shell.n_func(),
        s[1].shell.n_func(),
        s[2].shell.n_func(),
        s[3].shell.n_func(),
    ];
    let mut pos: usize = 0;
    while pos < 4
        invariant
            pos <= 4,
            tables.valid(),
            forall|i: int| 0 <= i < 4 ==> (#[trigger] s[i]).valid(),
            nth(job.shells, 0) == (s[0].shell.kind, s[0].shown()),
            nth(job.shells, 1) == (s[1].shell.kind, s[1].shown()),
            nth(job.shells, 2) == (s[2].shell.kind, s[2].shown()),
            nth(job.shells, 3) == (s[3].shell.kind, s[3].shown()),
            job.four() == shown(s),
            forall|i: int|
                0 <= i < 4 ==> nth(job.atoms, i) == (match #[trigger] atoms[i] {
                    None => None,
                    Some(c) => Some(c as int),
                }),
            forall|i: int|
                0 <= i < 4 ==> (#[trigger] atoms[i] matches Some(c) ==> c < was.len()
                    && s[i].shell.l < MAX_L),
            job.fits(gamma@),
            job.dims == (dims[0] as int, dims[1] as int, dims[2] as int, dims[3] as int),
            job.offs == (offs[0] as int, offs[1] as int, offs[2] as int, offs[3] as int),
            n[0] == job.count(0),
            n[1] == job.count(1),
            n[2] == job.count(2),
            n[3] == job.count(3),
            1 <= n[1],
            1 <= n[2],
            1 <= n[3],
            forces_added(was, forces@, job, tables.rys, engine, omega, gamma@, pos as int, 0),
        decreases 4 - pos,
    {
        assert(nth(job.atoms, pos as int) == (match atoms[pos as int] {
            None => None::<int>,
            Some(c) => Some(c as int),
        }));
        if let Some(at) = atoms[pos] {
            assert(atoms[pos as int] matches Some(c) ==> c < was.len() && s[pos as int].shell.l
                < MAX_L);
            let blocks = quartet_grad_eri_pos(tables, engine, omega, s, pos);
            let mut axis: usize = 0;
            while axis < 3
                invariant
                    axis <= 3,
                    pos < 4,
                    at < was.len(),
                    nth(job.atoms, pos as int) == Some(at as int),
                    nth(job.shells, 0) == (s[0].shell.kind, s[0].shown()),
                    nth(job.shells, 1) == (s[1].shell.kind, s[1].shown()),
                    nth(job.shells, 2) == (s[2].shell.kind, s[2].shown()),
                    nth(job.shells, 3) == (s[3].shell.kind, s[3].shown()),
                    job.four() == shown(s),
                    are_gradient_blocks(
                        blocks@,
                        tables.rys,
                        engine,
                        omega,
                        s,
                        pos as int,
                    ),
                    job.fits(gamma@),
                    job.dims == (dims[0] as int, dims[1] as int, dims[2] as int, dims[3] as int),
                    job.offs == (offs[0] as int, offs[1] as int, offs[2] as int, offs[3] as int),
                    n[0] == job.count(0),
                    n[1] == job.count(1),
                    n[2] == job.count(2),
                    n[3] == job.count(3),
                    1 <= n[1],
                    1 <= n[2],
                    1 <= n[3],
                    forces_added(
                        was,
                        forces@,
                        job,
                        tables.rys,
                        engine,
                        omega,
                        gamma@,
                        pos as int,
                        axis as int,
                    ),
                decreases 3 - axis,
            {
                let ghost before = forces@;
                proof {
                    assert(blocks@[axis as int]@ == gradient_block(
                        tables.rys,
                        engine,
                        omega,
                        s,
                        pos as int,
                        axis as int,
                    ));
                    assert(gradient_block(
                        tables.rys,
                        engine,
                        omega,
                        s,
                        pos as int,
                        axis as int,
                    ) == job.block(tables.rys, engine, omega, pos as int, axis as int));
                }
                let v = dot_block(gamma, dims, offs, n, &blocks[axis], Ghost(job));
                forces[at] = push_along(forces[at], axis, v);
                proof {
                    assert forall|c: int, ax: int|
                        0 <= c < was.len() && 0 <= ax < 3 implies #[trigger] forces@[c][ax]
                        == job.force(
                        was[c][ax],
                        tables.rys,
                        engine,
                        omega,
                        gamma@,
                        c,
                        ax,
                        if ax < axis + 1 {
                            pos + 1
                        } else {
                            pos as int
                        },
                    ) by {
                        assert(before[c][ax] == job.force(
                            was[c][ax],
                            tables.rys,
                            engine,
                            omega,
                            gamma@,
                            c,
                            ax,
                            if ax < axis {
                                pos + 1
                            } else {
                                pos as int
                            },
                        ));
                    }
                }
                axis = axis + 1;
            }
        }
        proof {
            assert forall|c: int, ax: int|
                0 <= c < was.len() && 0 <= ax < 3 implies #[trigger] forces@[c][ax] == job.force(
                was[c][ax],
                tables.rys,
                engine,
                omega,
                gamma@,
                c,
                ax,
                pos + 1,
            ) by {}
        }
        pos = pos + 1;
    }
}

} // verus!
