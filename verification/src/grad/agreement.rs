//! The contraction of the repulsion gradient and the gradient itself.
//!
//! Contracting with a density never holds the gradient. Without rounding it gives what
//! the entries of the gradient give, each times its entry of the density.
use vstd::prelude::*;
use vstd::set_lib::set_int_range;

use crate::exact::{
    adds_exactly, distributes_exactly, lemma_regrouped, lemma_same_sum, lemma_sum_empty,
    lemma_sum_insert, lemma_sum_of_sums, lemma_sum_range, lemma_zero_sum, sum_before, sum_over,
};
use crate::flat::{lemma_quad_in_range, lemma_quad_index, lemma_quad_parts, quad, quad_parts};
use crate::grad::contract::repulsion_jobs;
use crate::grad::force::force_after;
use crate::grad::tensor::{
    are_functions, entry_of, shell_gradient, shells_at, slot_of, tensor_gradient, tensor_size,
    Quad,
};
use crate::integrals::Engine;
use crate::math::rys::RysTables;
use crate::offsets::are_lengths;
use crate::scalar::{Real, Scalar};
use crate::shell::{atom_of, function_counts, lemma_function_counts, Shell};
use crate::tensor::{function_of, lemma_function_of, lemma_slot4, nth, total};

verus! {

/// The number of the quartet of four functions.
spec fn quartet_of(nsh: int, f: Quad) -> int {
    quad(f.0.0, nsh, f.1.0, nsh, f.2.0, nsh, f.3.0)
}

/// The number of entries of quartet `n`.
spec fn entries(lens: Seq<int>, n: int) -> int {
    let q = quad_parts(n, lens.len() as int, lens.len() as int, lens.len() as int);
    lens[q.0] * lens[q.1] * lens[q.2] * lens[q.3]
}

/// The functions of entry `k` of quartet `n`.
spec fn functions_at(lens: Seq<int>, n: int, k: int) -> Quad {
    let q = quad_parts(n, lens.len() as int, lens.len() as int, lens.len() as int);
    let p = quad_parts(k, lens[q.1], lens[q.2], lens[q.3]);
    ((q.0, p.0), (q.1, p.1), (q.2, p.2), (q.3, p.3))
}

/// Whether four functions come before entry `k` of quartet `n`.
spec fn comes_before(lens: Seq<int>, n: int, k: int, f: Quad) -> bool {
    let at = quartet_of(lens.len() as int, f);
    at < n || at == n && entry_of(lens, f) < k
}

/// The places of the functions before entry `k` of quartet `n`.
spec fn places_before(lens: Seq<int>, n: int, k: int) -> Set<int> {
    Set::new(
        |s: int|
            exists|f: Quad|
                are_functions(lens, f) && #[trigger] slot_of(lens, f) == s && comes_before(
                    lens,
                    n,
                    k,
                    f,
                ),
    )
}

/// Whether there are shells and all of them have functions.
spec fn has_functions(lens: Seq<int>) -> bool {
    forall|i: int| 0 <= i < lens.len() ==> 1 <= #[trigger] lens[i]
}

proof fn lemma_functions_at(lens: Seq<int>, n: int, k: int)
    requires
        has_functions(lens),
        0 <= n < tensor_size(lens.len() as int),
        0 <= k < entries(lens, n),
    ensures
        are_functions(lens, functions_at(lens, n, k)),
        quartet_of(lens.len() as int, functions_at(lens, n, k)) == n,
        entry_of(lens, functions_at(lens, n, k)) == k,
{
    let m = lens.len() as int;
    lemma_quad_index(n, m, m, m, m);
    let q = quad_parts(n, m, m, m);
    assert(lens[q.0] >= 1 && lens[q.1] >= 1 && lens[q.2] >= 1 && lens[q.3] >= 1);
    lemma_quad_index(k, lens[q.0], lens[q.1], lens[q.2], lens[q.3]);
}

proof fn lemma_functions_are_theirs(lens: Seq<int>, f: Quad)
    requires
        has_functions(lens),
        are_functions(lens, f),
    ensures
        0 <= quartet_of(lens.len() as int, f) < tensor_size(lens.len() as int),
        0 <= entry_of(lens, f) < entries(lens, quartet_of(lens.len() as int, f)),
        functions_at(lens, quartet_of(lens.len() as int, f), entry_of(lens, f)) == f,
{
    let m = lens.len() as int;
    lemma_quad_parts(f.0.0, m, f.1.0, m, f.2.0, m, f.3.0);
    lemma_quad_in_range(f.0.0, m, f.1.0, m, f.2.0, m, f.3.0, m);
    lemma_quad_parts(f.0.1, lens[f.1.0], f.1.1, lens[f.2.0], f.2.1, lens[f.3.0], f.3.1);
    lemma_quad_in_range(
        f.0.1,
        lens[f.0.0],
        f.1.1,
        lens[f.1.0],
        f.2.1,
        lens[f.2.0],
        f.3.1,
        lens[f.3.0],
    );
}

proof fn lemma_next_place(lens: Seq<int>, n: int, k: int)
    requires
        has_functions(lens),
        0 <= n < tensor_size(lens.len() as int),
        0 <= k < entries(lens, n),
    ensures
        ({
            let s = slot_of(lens, functions_at(lens, n, k));
            &&& !places_before(lens, n, k).contains(s)
            &&& places_before(lens, n, k + 1) == places_before(lens, n, k).insert(s)
        }),
{
    let f = functions_at(lens, n, k);
    let s = slot_of(lens, f);
    lemma_functions_at(lens, n, k);
    if places_before(lens, n, k).contains(s) {
        let g = choose|g: Quad|
            are_functions(lens, g) && #[trigger] slot_of(lens, g) == s && comes_before(
                lens,
                n,
                k,
                g,
            );
        lemma_slot4(lens, f.0, f.1, f.2, f.3, g.0, g.1, g.2, g.3);
        assert(false);
    }
    let (before, after) = (places_before(lens, n, k), places_before(lens, n, k + 1));
    assert forall|t: int| #[trigger] after.contains(t) == before.insert(s).contains(t) by {
        if after.contains(t) {
            let g = choose|g: Quad|
                are_functions(lens, g) && #[trigger] slot_of(lens, g) == t && comes_before(
                    lens,
                    n,
                    k + 1,
                    g,
                );
            if !comes_before(lens, n, k, g) {
                lemma_functions_are_theirs(lens, g);
                assert(g == f);
            }
        }
        if before.contains(t) {
            let g = choose|g: Quad|
                are_functions(lens, g) && #[trigger] slot_of(lens, g) == t && comes_before(
                    lens,
                    n,
                    k,
                    g,
                );
            assert(comes_before(lens, n, k + 1, g));
        }
        assert(comes_before(lens, n, k + 1, f));
    }
    assert(after =~= before.insert(s));
}

proof fn lemma_next_quartet(lens: Seq<int>, n: int)
    requires
        has_functions(lens),
    ensures
        places_before(lens, n, entries(lens, n)) == places_before(lens, n + 1, 0),
{
    let (one, two) = (
        places_before(lens, n, entries(lens, n)),
        places_before(lens, n + 1, 0),
    );
    assert forall|t: int| #[trigger] one.contains(t) == two.contains(t) by {
        if one.contains(t) {
            let g = choose|g: Quad|
                are_functions(lens, g) && #[trigger] slot_of(lens, g) == t && comes_before(
                    lens,
                    n,
                    entries(lens, n),
                    g,
                );
            assert(comes_before(lens, n + 1, 0, g));
        }
        if two.contains(t) {
            let g = choose|g: Quad|
                are_functions(lens, g) && #[trigger] slot_of(lens, g) == t && comes_before(
                    lens,
                    n + 1,
                    0,
                    g,
                );
            lemma_functions_are_theirs(lens, g);
            assert(entry_of(lens, g) >= 0);
            assert(comes_before(lens, n, entries(lens, n), g));
        }
    }
    assert(one =~= two);
}

proof fn lemma_all_places(lens: Seq<int>)
    requires
        has_functions(lens),
    ensures
        places_before(lens, tensor_size(lens.len() as int), 0) == set_int_range(
            0,
            tensor_size(total(lens)),
        ),
{
    let m = lens.len() as int;
    let n = total(lens);
    let all = places_before(lens, tensor_size(m), 0);
    assert(are_lengths(lens));
    assert forall|t: int| #[trigger] all.contains(t) == set_int_range(0, tensor_size(n)).contains(
        t,
    ) by {
        if all.contains(t) {
            let g = choose|g: Quad|
                are_functions(lens, g) && #[trigger] slot_of(lens, g) == t && comes_before(
                    lens,
                    tensor_size(m),
                    0,
                    g,
                );
            lemma_slot4(lens, g.0, g.1, g.2, g.3, g.0, g.1, g.2, g.3);
        }
        if 0 <= t < tensor_size(n) {
            crate::offsets::lemma_start_grows(lens, 0, m);
            lemma_quad_index(t, n, n, n, n);
            let p = quad_parts(t, n, n, n);
            lemma_function_of(lens, p.0);
            lemma_function_of(lens, p.1);
            lemma_function_of(lens, p.2);
            lemma_function_of(lens, p.3);
            let g = (
                function_of(lens, p.0),
                function_of(lens, p.1),
                function_of(lens, p.2),
                function_of(lens, p.3),
            );
            lemma_functions_are_theirs(lens, g);
            assert(slot_of(lens, g) == t);
            assert(comes_before(lens, tensor_size(m), 0, g));
        }
    }
    assert(all =~= set_int_range(0, tensor_size(n)));
}

/// The sum over the places before entry `k` of quartet `n`.
proof fn lemma_sum_before_entry<T: Scalar>(lens: Seq<int>, h: spec_fn(int) -> T, n: int, k: int)
    requires
        adds_exactly::<T>(),
        has_functions(lens),
        0 <= n < tensor_size(lens.len() as int),
        0 <= k <= entries(lens, n),
        places_before(lens, n, 0).finite(),
    ensures
        places_before(lens, n, k).finite(),
        sum_over(places_before(lens, n, k), h) == T::sum(
            sum_over(places_before(lens, n, 0), h),
            sum_before(|j: int| h(slot_of(lens, functions_at(lens, n, j))), k),
        ),
    decreases k,
{
    let v = |j: int| h(slot_of(lens, functions_at(lens, n, j)));
    let base = sum_over(places_before(lens, n, 0), h);
    if k == 0 {
        lemma_regrouped(base, base, T::count(0));
    } else {
        lemma_sum_before_entry(lens, h, n, k - 1);
        lemma_next_place(lens, n, k - 1);
        let s = slot_of(lens, functions_at(lens, n, k - 1));
        lemma_sum_insert(places_before(lens, n, k - 1), h, s);
        assert(v(k - 1) == h(s));
        lemma_regrouped(base, sum_before(v, k - 1), v(k - 1));
    }
}

/// The derivative of an entry of quartet `n` after the shells before `m` have been
/// differentiated.
spec fn entry_gradient<T: Real>(
    rys: RysTables<T>,
    engine: Engine,
    shells: Seq<Shell<T>>,
    c: int,
    axis: int,
    n: int,
    m: int,
    k: int,
) -> T {
    tensor_gradient(rys, engine, shells, c, axis, functions_at(function_counts(shells), n, k), m)
}

/// What a quartet adds to a force, shell by shell.
proof fn lemma_quartet_force<T: Real>(
    rys: RysTables<T>,
    engine: Engine,
    shells: Seq<Shell<T>>,
    gamma: Seq<T>,
    before: T,
    c: int,
    axis: int,
    n: int,
    m: int,
)
    requires
        adds_exactly::<T>(),
        distributes_exactly::<T>(),
        forall|s: int| 0 <= s < shells.len() ==> (#[trigger] shells[s]).valid(),
        0 <= n < tensor_size(shells.len() as int),
        0 <= m <= 4,
    ensures
        repulsion_jobs(shells)(n).force(before, rys, engine, None, gamma, c, axis, m) == T::sum(
            before,
            sum_before(
                |k: int|
                    T::prod(
                        gamma[repulsion_jobs(shells)(n).place(k)],
                        entry_gradient(rys, engine, shells, c, axis, n, m, k),
                    ),
                repulsion_jobs(shells)(n).size(),
            ),
        ),
    decreases m,
{
    reveal(distributes_exactly);
    let lens = function_counts(shells);
    lemma_function_counts(shells);
    let job = repulsion_jobs(shells)(n);
    let size = job.size();
    let now = |k: int|
        T::prod(gamma[job.place(k)], entry_gradient(rys, engine, shells, c, axis, n, m, k));
    if m == 0 {
        assert forall|k: int| #[trigger] now(k) == T::count(0) by {}
        lemma_zero_sum(now, size);
        lemma_regrouped(before, before, T::count(0));
    } else {
        lemma_quartet_force(rys, engine, shells, gamma, before, c, axis, n, m - 1);
        let was = |k: int|
            T::prod(gamma[job.place(k)], entry_gradient(rys, engine, shells, c, axis, n, m - 1, k));
        let sm = shells.len() as int;
        lemma_quad_index(n, sm, sm, sm, sm);
        let q = quad_parts(n, sm, sm, sm);
        assert(nth(job.atoms, m - 1) == Some(atom_of(shells, nth(q, m - 1))));
        let block = job.block(rys, engine, None, m - 1, axis);
        assert(block == shell_gradient(rys, engine, shells, q, m - 1, axis));
        let own = |k: int| T::prod(gamma[job.place(k)], block[k]);
        lemma_dot_is_a_sum(job, gamma, block, size);
        if atom_of(shells, nth(q, m - 1)) == c {
            assert forall|k: int| 0 <= k < size implies #[trigger] now(k) == T::sum(
                was(k),
                own(k),
            ) by {
                assert(job.count(0) == lens[q.0] && job.count(1) == lens[q.1] && job.count(2)
                    == lens[q.2] && job.count(3) == lens[q.3]);
                lemma_functions_at(lens, n, k);
                let f = functions_at(lens, n, k);
                assert(shells_at(f) == q);
                assert(entry_of(lens, f) == k);
            }
            lemma_sum_of_sums(was, own, now, size);
            lemma_same_sum(|k: int| T::prod(gamma[job.place(k)], block[k]), own, size);
            lemma_regrouped(before, sum_before(was, size), sum_before(own, size));
        } else {
            assert forall|k: int| 0 <= k < size implies #[trigger] now(k) == was(k) by {
                assert(job.count(0) == lens[q.0] && job.count(1) == lens[q.1] && job.count(2)
                    == lens[q.2] && job.count(3) == lens[q.3]);
                lemma_functions_at(lens, n, k);
                assert(shells_at(functions_at(lens, n, k)) == q);
            }
            lemma_same_sum(was, now, size);
        }
    }
}

proof fn lemma_dot_is_a_sum<T: Real>(
    job: crate::grad::force::ForceJob<T>,
    gamma: Seq<T>,
    block: Seq<T>,
    n: int,
)
    ensures
        job.dot(gamma, block, n) == sum_before(
            |k: int| T::prod(gamma[job.place(k)], block[k]),
            n,
        ),
    decreases n,
{
    if n > 0 {
        lemma_dot_is_a_sum(job, gamma, block, n - 1);
    }
}

proof fn lemma_forces_so_far<T: Real>(
    rys: RysTables<T>,
    engine: Engine,
    shells: Seq<Shell<T>>,
    gamma: Seq<T>,
    grad: Seq<T>,
    c: int,
    axis: int,
    n: int,
)
    requires
        adds_exactly::<T>(),
        distributes_exactly::<T>(),
        forall|s: int| 0 <= s < shells.len() ==> (#[trigger] shells[s]).valid(),
        is_entry_list(rys, engine, shells, grad, c, axis),
        0 <= n <= tensor_size(shells.len() as int),
    ensures
        places_before(function_counts(shells), n, 0).finite(),
        force_after(repulsion_jobs(shells), rys, engine, None, gamma, c, axis, n) == sum_over(
            places_before(function_counts(shells), n, 0),
            |s: int| T::prod(gamma[s], grad[s]),
        ),
    decreases n,
{
    let lens = function_counts(shells);
    lemma_function_counts(shells);
    let h = |s: int| T::prod(gamma[s], grad[s]);
    if n == 0 {
        assert forall|t: int| !places_before(lens, 0, 0).contains(t) by {
            if places_before(lens, 0, 0).contains(t) {
                let g = choose|g: Quad|
                    are_functions(lens, g) && #[trigger] slot_of(lens, g) == t && comes_before(
                        lens,
                        0,
                        0,
                        g,
                    );
                lemma_functions_are_theirs(lens, g);
            }
        }
        assert(places_before(lens, 0, 0) =~= Set::empty());
        lemma_sum_empty(h);
    } else {
        lemma_forces_so_far(rys, engine, shells, gamma, grad, c, axis, n - 1);
        let jobs = repulsion_jobs(shells);
        let job = jobs(n - 1);
        let before = force_after(jobs, rys, engine, None, gamma, c, axis, n - 1);
        lemma_quartet_force(rys, engine, shells, gamma, before, c, axis, n - 1, 4);
        let sm = shells.len() as int;
        lemma_quad_index(n - 1, sm, sm, sm, sm);
        let q = quad_parts(n - 1, sm, sm, sm);
        assert(job.count(0) == lens[q.0] && job.count(1) == lens[q.1] && job.count(2) == lens[q.2]
            && job.count(3) == lens[q.3]);
        let size = job.size();
        assert(size == entries(lens, n - 1));
        assert(0 <= size) by (nonlinear_arith)
            requires
                size == lens[q.0] * lens[q.1] * lens[q.2] * lens[q.3],
                lens[q.0] >= 1,
                lens[q.1] >= 1,
                lens[q.2] >= 1,
                lens[q.3] >= 1,
        ;
        let now = |k: int|
            T::prod(
                gamma[job.place(k)],
                entry_gradient(rys, engine, shells, c, axis, n - 1, 4, k),
            );
        let placed = |j: int| h(slot_of(lens, functions_at(lens, n - 1, j)));
        assert forall|k: int| 0 <= k < size implies #[trigger] placed(k) == now(k) by {
            lemma_functions_at(lens, n - 1, k);
            let f = functions_at(lens, n - 1, k);
            assert(grad[slot_of(lens, f)] == tensor_gradient(
                rys,
                engine,
                shells,
                c,
                axis,
                f,
                4,
            ));
            assert(job.place(k) == slot_of(lens, f));
        }
        lemma_same_sum(now, placed, size);
        lemma_sum_before_entry(lens, h, n - 1, size);
        lemma_next_quartet(lens, n - 1);
    }
}

/// Whether a list holds the derivatives of all entries with respect to atom `c` along
/// `axis`, at the places of their functions.
pub open spec fn is_entry_list<T: Real>(
    rys: RysTables<T>,
    engine: Engine,
    shells: Seq<Shell<T>>,
    grad: Seq<T>,
    c: int,
    axis: int,
) -> bool {
    forall|f: Quad|
        are_functions(function_counts(shells), f) ==> #[trigger] grad[slot_of(
            function_counts(shells),
            f,
        )] == tensor_gradient(rys, engine, shells, c, axis, f, 4)
}

/// The force on an atom is the sum of the entries of the gradient, each times its entry
/// of the density, in any arithmetic that adds and distributes exactly.
pub proof fn law_forces_contract_the_gradient<T: Real>(
    rys: RysTables<T>,
    engine: Engine,
    shells: Seq<Shell<T>>,
    gamma: Seq<T>,
    grad: Seq<T>,
    c: int,
    axis: int,
)
    requires
        adds_exactly::<T>(),
        distributes_exactly::<T>(),
        forall|s: int| 0 <= s < shells.len() ==> (#[trigger] shells[s]).valid(),
        is_entry_list(rys, engine, shells, grad, c, axis),
    ensures
        force_after(
            repulsion_jobs(shells),
            rys,
            engine,
            None,
            gamma,
            c,
            axis,
            tensor_size(shells.len() as int),
        ) == sum_before(
            |s: int| T::prod(gamma[s], grad[s]),
            tensor_size(total(function_counts(shells))),
        ),
{
    let lens = function_counts(shells);
    let m = shells.len() as int;
    lemma_function_counts(shells);
    assert(0 <= tensor_size(m)) by (nonlinear_arith)
        requires
            0 <= m,
            tensor_size(m) == m * m * m * m,
    ;
    lemma_forces_so_far(rys, engine, shells, gamma, grad, c, axis, tensor_size(m));
    lemma_all_places(lens);
    let n = total(lens);
    crate::offsets::lemma_start_grows(lens, 0, m);
    assert(0 <= tensor_size(n)) by (nonlinear_arith)
        requires
            0 <= n,
            tensor_size(n) == n * n * n * n,
    ;
    lemma_sum_range(|s: int| T::prod(gamma[s], grad[s]), tensor_size(n));
}

} // verus!
