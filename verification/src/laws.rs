use vstd::prelude::*;
use crate::ssa::Builder;
use crate::ssa::is_param;
use crate::ssa::vd_wired;

verus! {

/// Trivial-merge collapse: in any state the engine hands back, a block
/// parameter that survives is a genuine merge point. Its incoming values,
/// excluding those that resolve back to the parameter itself, never
/// collapse to a single value; in particular a loop-header parameter fed
/// by one outside value and by itself cannot remain, so a read resolves
/// to the outside value alone.
pub proof fn lemma_surviving_param_is_genuine_merge(s: Builder, p: int, z: int)
    requires
        s.wf(),
        s.collapsed(),
        0 <= p < s.nvalues(),
        is_param(s.values@[p]),
        vd_wired(s.values@[p]),
    ensures
        !s.sole_survivor(p, z),
{
}

}
