//! Finding the first occurrence of an item in a sequence.

use vstd::prelude::*;

verus! {

/// `found` is the index of the first `needle` in `items`, if there is one.
pub open spec fn is_first_index<A>(items: Seq<A>, needle: A, found: Option<int>) -> bool {
    match found {
        Some(i) => {
            &&& 0 <= i < items.len()
            &&& items[i] == needle
            &&& forall|j: int| 0 <= j < i ==> items[j] != needle
        },
        None => forall|j: int| 0 <= j < items.len() ==> items[j] != needle,
    }
}

/// The first index that holds `needle` is what `Seq::index_of_first` names.
pub proof fn lemma_first_index<A>(items: Seq<A>, needle: A, found: Option<int>)
    requires
        is_first_index(items, needle, found),
    ensures
        items.index_of_first(needle) == found,
{
    items.index_of_first_ensures(needle);
    match items.index_of_first(needle) {
        Some(k) => {
            match found {
                Some(i) => {
                    if k < i {
                        assert(items[k] != needle);
                    } else if i < k {
                        assert(items[i] != needle);
                    }
                },
                None => {
                    assert(items[k] != needle);
                },
            }
        },
        None => {
            if let Some(i) = found {
                assert(items.contains(needle));
            }
        },
    }
}

/// What `Seq::index_of_first` names is the first index that holds `needle`.
pub proof fn lemma_index_of_first<A>(items: Seq<A>, needle: A)
    ensures
        is_first_index(items, needle, items.index_of_first(needle)),
{
    items.index_of_first_ensures(needle);
    if items.index_of_first(needle) is None {
        assert forall|j: int| 0 <= j < items.len() implies items[j] != needle by {
            if items[j] == needle {
                assert(items.contains(needle));
            }
        }
    }
}

} // verus!
