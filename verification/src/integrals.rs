//! Engine dispatch and the assembly of integral blocks into matrices and tensors.
use vstd::prelude::*;

verus! {

/// Which two-electron engine evaluates a quartet of shells.
#[derive(Debug, Clone, Copy, PartialEq, Eq, Structural)]
pub enum Engine {
    /// Dispatch by total angular momentum and contraction degree.
    Auto,
    /// The recurrence engine (low angular momentum, high contraction).
    OsHgp,
    /// The quadrature engine (general; the fallback at high angular momentum).
    Rys,
}

impl Default for Engine {
    fn default() -> (e: Engine)
        ensures
            e == Engine::Auto,
    {
        Engine::Auto
    }
}

/// The contraction degree from which the recurrence engine is taken for
/// half-momenta `ne` and `nf`, where it is taken at all.
pub open spec fn recurrence_threshold(ne: int, nf: int) -> Option<int> {
    if ne + nf <= 5 {
        Some(1)
    } else if ne + nf >= 17 {
        None
    } else if ne <= 6 && nf <= 6 {
        Some(3)
    } else {
        Some(16)
    }
}

/// Dispatch policy: the recurrence engine from the threshold of the table below
/// on, the quadrature engine otherwise.
///
/// | half-momenta                          | threshold |
/// |---------------------------------------|-----------|
/// | `ne + nf <= 5`                        | 1         |
/// | `ne + nf` in 6..=16, both at most 6   | 3         |
/// | `ne + nf` in 6..=16, one at least 7   | 16        |
/// | `ne + nf >= 17`                       | none      |
#[must_use]
pub fn select_engine(ne: usize, nf: usize, contraction_degree: usize) -> (e: Engine)
    requires
        ne + nf <= usize::MAX,
    ensures
        e == match recurrence_threshold(ne as int, nf as int) {
            Some(t) => if contraction_degree >= t {
                Engine::OsHgp
            } else {
                Engine::Rys
            },
            None => Engine::Rys,
        },
{
    let l_total: usize = ne + nf;
    let has_fast_kernel = ne <= 6 && nf <= 6;
    let threshold: usize = if l_total <= 5 {
        1
    } else if l_total <= 16 && has_fast_kernel {
        3
    } else if l_total <= 16 {
        16
    } else {
        return Engine::Rys;
    };
    if contraction_degree >= threshold {
        Engine::OsHgp
    } else {
        Engine::Rys
    }
}

} // verus!
