//! Searching a sequence.

use vstd::prelude::*;

verus! {

/// The index at which `item` first stands in `items`.
pub open spec fn position<T>(items: Seq<T>, item: T) -> Option<nat>
    decreases items.len(),
{
    if items.len() == 0 {
        None
    } else {
        match position(items.drop_last(), item) {
            Some(k) => Some(k),
            None => if items.last() == item {
                Some((items.len() - 1) as nat)
            } else {
                None
            },
        }
    }
}

/// `position` gives the first index at which the item stands, and `None`
/// only where it stands nowhere.
pub proof fn lemma_position<T>(items: Seq<T>, item: T)
    ensures
        match position(items, item) {
            Some(k) => k < items.len() && items[k as int] == item && forall|j: int|
                0 <= j < k ==> items[j] != item,
            None => forall|j: int| 0 <= j < items.len() ==> items[j] != item,
        },
    decreases items.len(),
{
    if items.len() > 0 {
        let front = items.drop_last();
        lemma_position(front, item);
        match position(front, item) {
            Some(k) => {
                assert(items[k as int] == front[k as int]);
                assert forall|j: int| 0 <= j < k implies items[j] != item by {
                    assert(items[j] == front[j]);
                }
            },
            None => {
                assert forall|j: int| 0 <= j < items.len() - 1 implies items[j] != item by {
                    assert(items[j] == front[j]);
                }
            },
        }
    }
}

} // verus!
