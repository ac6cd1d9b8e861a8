//! Views of sequences and options of values that have a view.
use vstd::prelude::*;

verus! {

/// The views of the items of a sequence.
pub open spec fn views<T: View>(items: Seq<T>) -> Seq<T::V> {
    items.map_values(|item: T| item@)
}

/// The view of what an option holds.
pub open spec fn some_view<T: View>(item: Option<T>) -> Option<T::V> {
    match item {
        Some(item) => Some(item@),
        None => None,
    }
}

/// The views of the items of vectors.
pub open spec fn nested<T: View>(lists: Seq<Vec<T>>) -> Seq<Seq<T::V>> {
    lists.map_values(|list: Vec<T>| views(list@))
}

/// Appending an item appends its view.
pub proof fn lemma_push<T: View>(items: Seq<T>, item: T)
    ensures
        views(items.push(item)) == views(items).push(item@),
{
    assert(views(items.push(item)) =~= views(items).push(item@));
}

/// Appending a vector appends the views of its items.
pub proof fn lemma_push_nested<T: View>(lists: Seq<Vec<T>>, list: Vec<T>)
    ensures
        nested(lists.push(list)) == nested(lists).push(views(list@)),
{
    assert(nested(lists.push(list)) =~= nested(lists).push(views(list@)));
}

} // verus!
