//! The canonical shell pairs `(i, j)`, `i >= j`, and what is computed once per shell
//! and once per pair.
use vstd::prelude::*;

use crate::engine::pairs::{shell_pair_data, shell_pairs, ShellPairData};
use crate::math::am::{lemma_triangle_grows, lemma_triangle_step, triangle};
use crate::quartet::{normalized, Side};
use crate::scalar::Real;
use crate::shell::{effective_coeffs, Shell};
use crate::spherical::{held, shell_matrix, shell_transform};

verus! {

/// Index of the canonical pair `(i, j)`.
pub open spec fn pair_number(i: int, j: int) -> int {
    triangle(i) + j
}

/// Index of the canonical pair `(i, j)`.
pub fn tri_idx(i: usize, j: usize) -> (k: usize)
    requires
        i >= j,
        i < usize::MAX,
        pair_number(i as int, j as int) <= usize::MAX,
    ensures
        k == pair_number(i as int, j as int),
{
    proof {
        lemma_triangle_step(i as int);
        let h = i as int / 2;
        if i % 2 == 0 {
            assert(i == 2 * h);
            assert(i * (i + 1) == 2 * (h * (i + 1))) by (nonlinear_arith)
                requires
                    i == 2 * h,
            ;
        } else {
            let g = (i + 1) / 2;
            assert(i + 1 == 2 * g);
            assert(i * (i + 1) == 2 * (i * g)) by (nonlinear_arith)
                requires
                    i + 1 == 2 * g,
            ;
        }
    }
    let t: usize = if i % 2 == 0 {
        (i / 2) * (i + 1)
    } else {
        i * ((i + 1) / 2)
    };
    t + j
}

/// Different canonical pairs have different indices, in the order of `i`, then `j`;
/// those of `n` shells are below `triangle(n)`.
pub proof fn law_pair_numbers_order_pairs(i: int, j: int, k: int, l: int, n: int)
    requires
        0 <= j <= i < n,
        0 <= l <= k < n,
    ensures
        0 <= pair_number(i, j) < triangle(n),
        pair_number(i, j) == pair_number(k, l) <==> i == k && j == l,
        pair_number(i, j) < pair_number(k, l) <==> i < k || (i == k && j < l),
{
    lemma_triangle_grows(i, n);
    lemma_triangle_grows(k, n);
    if i < k {
        lemma_triangle_grows(i, k);
    } else {
        lemma_triangle_grows(k, i);
    }
}

/// The canonical shell pairs of `nsh` shells, in the order of their indices.
pub fn canonical_shell_pairs(nsh: usize) -> (pairs: Vec<(usize, usize)>)
    ensures
        pairs@.len() == triangle(nsh as int),
        forall|k: int|
            0 <= k < pairs@.len() ==> (#[trigger] pairs@[k]).1 <= pairs@[k].0 < nsh && pair_number(
                pairs@[k].0 as int,
                pairs@[k].1 as int,
            ) == k,
{
    let mut pairs: Vec<(usize, usize)> = Vec::new();
    let mut i: usize = 0;
    proof {
        lemma_triangle_step(0);
    }
    while i < nsh
        invariant
            i <= nsh,
            pairs@.len() == triangle(i as int),
            forall|k: int|
                0 <= k < pairs@.len() ==> (#[trigger] pairs@[k]).1 <= pairs@[k].0 < nsh
                    && pair_number(pairs@[k].0 as int, pairs@[k].1 as int) == k,
        decreases nsh - i,
    {
        let mut j: usize = 0;
        while j <= i
            invariant
                j <= i + 1,
                i < nsh,
                pairs@.len() == triangle(i as int) + j,
                forall|k: int|
                    0 <= k < pairs@.len() ==> (#[trigger] pairs@[k]).1 <= pairs@[k].0 < nsh
                        && pair_number(pairs@[k].0 as int, pairs@[k].1 as int) == k,
            decreases i + 1 - j,
        {
            pairs.push((i, j));
            j = j + 1;
        }
        proof {
            lemma_triangle_step(i as int);
        }
        i = i + 1;
    }
    pairs
}

/// Every canonical pair stands in the list, at its index.
pub proof fn law_every_pair_is_listed(pairs: Seq<(usize, usize)>, nsh: int, i: int, j: int)
    requires
        pairs.len() == triangle(nsh),
        forall|k: int|
            0 <= k < pairs.len() ==> (#[trigger] pairs[k]).1 <= pairs[k].0 < nsh && pair_number(
                pairs[k].0 as int,
                pairs[k].1 as int,
            ) == k,
        0 <= j <= i < nsh,
    ensures
        0 <= pair_number(i, j) < pairs.len(),
        pairs[pair_number(i, j)].0 == i,
        pairs[pair_number(i, j)].1 == j,
{
    law_pair_numbers_order_pairs(i, j, i, j, nsh);
    let k = pair_number(i, j);
    law_pair_numbers_order_pairs(pairs[k].0 as int, pairs[k].1 as int, i, j, nsh);
}

/// What is computed once per shell: its normalized coefficients and its transform.
pub struct Prepared<'b, T> {
    pub shells: &'b Vec<Shell<T>>,
    pub eff: Vec<Vec<T>>,
    pub c2s: Vec<Option<Vec<T>>>,
}

/// Whether every shell is valid.
pub open spec fn all_valid<T: Real>(shells: Seq<Shell<T>>) -> bool {
    forall|s: int| 0 <= s < shells.len() ==> (#[trigger] shells[s]).valid()
}

impl<'b, T: Real> Prepared<'b, T> {
    /// Whether what is held is that of the shells.
    pub open spec fn valid(self) -> bool {
        &&& all_valid(self.shells@)
        &&& self.eff@.len() == self.shells@.len()
        &&& self.c2s@.len() == self.shells@.len()
        &&& forall|s: int|
            0 <= s < self.shells@.len() ==> (#[trigger] self.eff@[s])@
                == self.shells@[s].effectives()
        &&& forall|s: int|
            0 <= s < self.shells@.len() ==> held(#[trigger] self.c2s@[s]) == shell_matrix::<T>(
                self.shells@[s].kind,
                self.shells@[s].l as int,
            )
    }

    /// Prepare the shells of a basis.
    pub fn new(shells: &'b Vec<Shell<T>>) -> (r: Self)
        requires
            all_valid(shells@),
        ensures
            r.valid(),
            r.shells == shells,
    {
        let mut eff: Vec<Vec<T>> = Vec::new();
        let mut c2s: Vec<Option<Vec<T>>> = Vec::new();
        let mut s: usize = 0;
        while s < shells.len()
            invariant
                s <= shells@.len(),
                all_valid(shells@),
                eff@.len() == s,
                c2s@.len() == s,
                forall|k: int| 0 <= k < s ==> (#[trigger] eff@[k])@ == shells@[k].effectives(),
                forall|k: int|
                    0 <= k < s ==> held(#[trigger] c2s@[k]) == shell_matrix::<T>(
                        shells@[k].kind,
                        shells@[k].l as int,
                    ),
            decreases shells@.len() - s,
        {
            assert(shells@[s as int].valid());
            eff.push(effective_coeffs(&shells[s]));
            c2s.push(shell_transform(&shells[s]));
            s = s + 1;
        }
        Prepared { shells, eff, c2s }
    }

    /// Shell `s` as one side of a quartet.
    pub fn side(&self, s: usize) -> (r: Side<'_, T>)
        requires
            self.valid(),
            s < self.shells@.len(),
        ensures
            r.valid(),
            *r.shell == self.shells@[s as int],
            r.shown() == normalized(self.shells@[s as int]),
    {
        assert(self.shells@[s as int].valid());
        let r = Side { shell: &self.shells[s], eff: &self.eff[s], mat: &self.c2s[s] };
        assert(self.eff@[s as int]@ == self.shells@[s as int].effectives());
        assert(held(self.c2s@[s as int]) == shell_matrix::<T>(
            self.shells@[s as int].kind,
            self.shells@[s as int].l as int,
        ));
        r
    }
}

/// Whether `data` holds the primitive pairs of every canonical pair of shells.
pub open spec fn holds_pairs<T: Real>(data: Seq<ShellPairData<T>>, shells: Seq<Shell<T>>) -> bool {
    &&& data.len() == triangle(shells.len() as int)
    &&& forall|i: int, j: int|
        0 <= j <= i < shells.len() ==> #[trigger] data[pair_number(i, j)].pairs@ == shell_pairs(
            normalized(shells[i]).1,
            normalized(shells[j]).1,
        )
}

/// The primitive pairs of every canonical pair of shells, by index.
pub fn shell_pair_datas<T: Real>(prep: &Prepared<T>) -> (data: Vec<ShellPairData<T>>)
    requires
        prep.valid(),
    ensures
        holds_pairs(data@, prep.shells@),
{
    let mut data: Vec<ShellPairData<T>> = Vec::new();
    let mut i: usize = 0;
    let nsh = prep.shells.len();
    proof {
        lemma_triangle_step(0);
    }
    while i < nsh
        invariant
            i <= nsh,
            nsh == prep.shells@.len(),
            prep.valid(),
            data@.len() == triangle(i as int),
            forall|k: int, l: int|
                0 <= l <= k < i ==> #[trigger] data@[pair_number(k, l)].pairs@ == shell_pairs(
                    normalized(prep.shells@[k]).1,
                    normalized(prep.shells@[l]).1,
                ),
        decreases nsh - i,
    {
        let mut j: usize = 0;
        while j <= i
            invariant
                j <= i + 1,
                i < nsh,
                nsh == prep.shells@.len(),
                prep.valid(),
                data@.len() == pair_number(i as int, j as int),
                forall|k: int, l: int|
                    0 <= l <= k && (k < i || (k == i && l < j)) ==> #[trigger] data@[pair_number(
                        k,
                        l,
                    )].pairs@ == shell_pairs(
                        normalized(prep.shells@[k]).1,
                        normalized(prep.shells@[l]).1,
                    ),
            decreases i + 1 - j,
        {
            let (a, b) = (prep.side(i), prep.side(j));
            let ghost before = data@;
            data.push(shell_pair_data(a.shell_ref(), b.shell_ref()));
            proof {
                assert forall|k: int, l: int|
                    0 <= l <= k && (k < i || (k == i && l < j + 1)) implies #[trigger] data@[pair_number(
                    k,
                    l,
                )].pairs@ == shell_pairs(
                    normalized(prep.shells@[k]).1,
                    normalized(prep.shells@[l]).1,
                ) by {
                    law_pair_numbers_order_pairs(k, l, i as int, j as int, nsh as int);
                    if k < i || l < j {
                        assert(data@[pair_number(k, l)] == before[pair_number(k, l)]);
                    }
                }
            }
            j = j + 1;
        }
        proof {
            lemma_triangle_step(i as int);
        }
        i = i + 1;
    }
    data
}

} // verus!
