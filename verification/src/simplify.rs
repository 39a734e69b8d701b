//! The fixed-point simplification driver: expand, flatten, fold
//! constants, group like terms, canonicalize, and repeat until nothing
//! changes or the iteration cap is spent. Convergence is not guaranteed;
//! the cap bounds the work and the best tree found is returned.

use vstd::prelude::*;
use crate::view::{TreeView, wf};
use crate::math_type::MathType;
use crate::rewrite::{expand_t, flatten_t, reduce_t, combine_t};
use crate::sort::norm;

verus! {

/// One round of the driver: expand, flatten, fold constants, group like
/// terms, then canonicalize.
pub open spec fn simp_step(t: TreeView) -> TreeView {
    norm(combine_t(reduce_t(flatten_t(expand_t(t)))))
}

/// The driver's answer with `fuel` rounds left beyond the first: the
/// first repeated tree, or the last one computed when the fuel runs out.
pub open spec fn simplify_fuel(prev: TreeView, fuel: nat) -> TreeView
    decreases fuel,
{
    let next = simp_step(prev);
    if next == prev {
        next
    } else if fuel == 0 {
        prev
    } else {
        simplify_fuel(next, (fuel - 1) as nat)
    }
}

/// How many extra rounds the driver may take after its first one.
pub open spec fn simplify_cap() -> nat {
    90
}

impl MathType {
    /// Simplifies this tree by iterating the rewrite passes to a fixed
    /// point, with a hard cap on the number of rounds: the first tree
    /// that a round leaves unchanged, or the last computed tree when the
    /// cap is reached without convergence.
    pub fn simplify(&self) -> (r: MathType)
        requires
            wf(self@),
        ensures
            r@ == simplify_fuel(self@, simplify_cap()),
            wf(r@),
    {
        let mut prev = self.clone();
        let mut i: usize = 0;
        loop
            invariant
                wf(prev@),
                i <= 90,
                simplify_fuel(self@, simplify_cap()) == simplify_fuel(prev@, (90 - i) as nat),
            decreases 90 - i,
        {
            let mut next = prev.expand().flatten().reduce_neutral().combine();
            next.sort();
            proof {
                crate::sort::lemma_norm_wf(combine_t(reduce_t(flatten_t(expand_t(prev@)))));
                assert(next@ == simp_step(prev@));
            }
            if next.tree_eq(&prev) {
                return next;
            }
            i += 1;
            if i > 90 {
                return prev;
            }
            prev = next;
        }
    }
}

} // verus!
