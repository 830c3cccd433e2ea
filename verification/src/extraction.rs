use vstd::prelude::*;
use vstd::multiset::Multiset;
use crate::order::{total_order, le};

verus! {

/// `k` occurs in `keys` and no key of `keys` is smaller.
pub open spec fn is_least<T: Ord>(k: T, keys: Multiset<T>) -> bool {
    &&& keys.contains(k)
    &&& forall|x: T| keys.contains(x) ==> le(k, x)
}

/// What a run of extractions down to the empty heap can return from `keys`:
/// each key in `out` is the least of what was left when it was taken, and
/// nothing is left at the end.
pub open spec fn drained<T: Ord>(keys: Multiset<T>, out: Seq<T>) -> bool
    decreases out.len(),
{
    if out.len() == 0 {
        keys.len() == 0
    } else {
        is_least(out[0], keys) && drained(keys.remove(out[0]), out.drop_first())
    }
}

/// Extracting until the heap is empty returns as many keys as the heap held,
/// all of them keys of the heap, in ascending order.
pub proof fn lemma_drained_ascends<T: Ord>(keys: Multiset<T>, out: Seq<T>)
    requires
        total_order::<T>(),
        drained(keys, out),
    ensures
        out.len() == keys.len(),
        forall|i: int| 0 <= i < out.len() ==> keys.contains(#[trigger] out[i]),
        forall|i: int, j: int| 0 <= i <= j < out.len() ==> le(#[trigger] out[i], #[trigger] out[j]),
    decreases out.len(),
{
    if out.len() > 0 {
        let rest = out.drop_first();
        let left = keys.remove(out[0]);
        lemma_drained_ascends(left, rest);
        assert forall|i: int| 0 <= i < out.len() implies keys.contains(#[trigger] out[i]) by {
            if i > 0 {
                assert(out[i] == rest[i - 1]);
                assert(left.contains(rest[i - 1]));
            }
        }
        assert forall|i: int, j: int| 0 <= i <= j < out.len() implies le(
            #[trigger] out[i],
            #[trigger] out[j],
        ) by {
            if i == 0 {
                assert(keys.contains(out[j]));
            } else {
                assert(out[i] == rest[i - 1]);
                assert(out[j] == rest[j - 1]);
            }
        }
    }
}

} // verus!
