//! Positions in strictly increasing sequences of indices.
use vstd::prelude::*;

verus! {

/// A position of `w` in `order`.
pub open spec fn position(order: Seq<int>, w: int) -> int {
    choose|m: int| 0 <= m < order.len() && order[m] == w
}

/// In a strictly increasing sequence, the element at `m` is found at `m`.
pub proof fn lemma_position(order: Seq<int>, m: int)
    requires
        forall|i: int, j: int| 0 <= i < j < order.len() ==> order[i] < order[j],
        0 <= m < order.len(),
    ensures
        position(order, order[m]) == m,
{
    let p = position(order, order[m]);
    assert(0 <= p < order.len() && order[p] == order[m]);
    if p < m {
        assert(order[p] < order[m]);
    } else if m < p {
        assert(order[m] < order[p]);
    }
}

} // verus!
