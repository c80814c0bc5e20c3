//! Where something comes first.
use vstd::prelude::*;

verus! {

/// The index of the first of `items` that is `item`, if there is one.
pub open spec fn first_index<A>(items: Seq<A>, item: A) -> Option<int>
    decreases items.len(),
{
    if items.len() == 0 {
        None
    } else if items[0] == item {
        Some(0)
    } else {
        match first_index(items.drop_first(), item) {
            Some(i) => Some(i + 1),
            None => None,
        }
    }
}

/// What is found is the item, nothing before it is, and nothing is found only where
/// the item does not occur.
pub proof fn law_first_index<A>(items: Seq<A>, item: A)
    ensures
        match first_index(items, item) {
            Some(i) => {
                &&& 0 <= i < items.len()
                &&& items[i] == item
                &&& forall|j: int| 0 <= j < i ==> items[j] != item
                &&& items.contains(item)
            },
            None => !items.contains(item),
        },
    decreases items.len(),
{
    if items.len() > 0 && items[0] != item {
        let rest = items.drop_first();
        law_first_index(rest, item);
        match first_index(rest, item) {
            Some(i) => {
                assert(items[i + 1] == rest[i]);
                assert forall|j: int| 0 <= j < i + 1 implies items[j] != item by {
                    if j > 0 {
                        assert(rest[j - 1] != item);
                    }
                }
            },
            None => {
                assert forall|j: int| 0 <= j < items.len() implies items[j] != item by {
                    if j > 0 {
                        assert(rest.contains(rest[j - 1]));
                    }
                }
            },
        }
    }
}

} // verus!
