//! The positions of a range at which something holds.

use vstd::prelude::*;

verus! {

/// The positions of `lo..hi` at which `pred` holds, in ascending order.
pub open spec fn indices_where(pred: spec_fn(int) -> bool, lo: int, hi: int) -> Seq<int>
    decreases hi - lo,
{
    if lo < hi {
        let before = indices_where(pred, lo, hi - 1);
        if pred(hi - 1) {
            before.push(hi - 1)
        } else {
            before
        }
    } else {
        Seq::empty()
    }
}

/// `indices_where` lists each position of `lo..hi` at which `pred` holds
/// once, in ascending order, and nothing else.
pub proof fn lemma_indices_where(pred: spec_fn(int) -> bool, lo: int, hi: int)
    ensures
        forall|k: int|
            0 <= k < indices_where(pred, lo, hi).len() ==> lo <= (#[trigger] indices_where(
                pred,
                lo,
                hi,
            )[k]) < hi && pred(indices_where(pred, lo, hi)[k]),
        forall|k: int, l: int|
            0 <= k < l < indices_where(pred, lo, hi).len() ==> (#[trigger] indices_where(
                pred,
                lo,
                hi,
            )[k]) < (#[trigger] indices_where(pred, lo, hi)[l]),
        forall|j: int| lo <= j < hi && pred(j) ==> indices_where(pred, lo, hi).contains(j),
    decreases hi - lo,
{
    if lo < hi {
        lemma_indices_where(pred, lo, hi - 1);
        let before = indices_where(pred, lo, hi - 1);
        let all = indices_where(pred, lo, hi);
        assert forall|j: int| lo <= j < hi && pred(j) implies all.contains(j) by {
            if j == hi - 1 {
                assert(all[all.len() - 1] == j);
            } else {
                assert(before.contains(j));
                let k = choose|k: int| 0 <= k < before.len() && before[k] == j;
                assert(all[k] == j);
            }
        }
    }
}

} // verus!
