//! What holds of every difference between two snapshots.

use crate::diff::DiffView;
use crate::item::ItemView;
use crate::resolution::{is_diff_of, news, olds, went};
use crate::unique::{
    forced, lemma_accounted, lemma_change_members, lemma_flipped_sorted, lemma_forced_both_ways,
    lemma_reversed_accounts, lemma_same_counts, lemma_sorted_same, reversed,
};
use vstd::multiset::Multiset;
use vstd::prelude::*;

verus! {

/// Between these snapshots there is one way only to pair what went with what
/// came: at each path nothing went, or nothing came, or those of which there
/// are no fewer are all the same item.
pub open spec fn pairing_is_forced(old_items: Seq<ItemView>, new_items: Seq<ItemView>) -> bool {
    forced(went(old_items, new_items), went(new_items, old_items))
}

/// Counts are conserved: an item is removed, or the old item of a change, as
/// often as the old snapshot holds it more often than the new one, and it is
/// added, or the new item of a change, as often as the new snapshot holds it
/// more often than the old one.
pub proof fn lemma_counts_are_conserved(
    d: DiffView,
    old_items: Seq<ItemView>,
    new_items: Seq<ItemView>,
    v: ItemView,
)
    requires
        is_diff_of(d, old_items, new_items),
    ensures
        d.removed.to_multiset().count(v) + olds(d.changed).to_multiset().count(v) == if old_items.to_multiset().count(
            v,
        ) >= new_items.to_multiset().count(v) {
            old_items.to_multiset().count(v) - new_items.to_multiset().count(v)
        } else {
            0
        },
        d.added.to_multiset().count(v) + news(d.changed).to_multiset().count(v) == if new_items.to_multiset().count(
            v,
        ) >= old_items.to_multiset().count(v) {
            new_items.to_multiset().count(v) - old_items.to_multiset().count(v)
        } else {
            0
        },
{
    lemma_accounted(d, went(old_items, new_items), went(new_items, old_items), v);
}

/// Swapping the snapshots swaps the difference, where the pairing is forced:
/// what was removed is added, what was added is removed, and each change goes
/// the other way, in the same place of the list.
pub proof fn lemma_swapped_snapshots(
    d: DiffView,
    e: DiffView,
    old_items: Seq<ItemView>,
    new_items: Seq<ItemView>,
)
    requires
        is_diff_of(d, old_items, new_items),
        is_diff_of(e, new_items, old_items),
        pairing_is_forced(old_items, new_items),
    ensures
        e == reversed(d),
{
    let rem = went(old_items, new_items);
    let add = went(new_items, old_items);
    lemma_reversed_accounts(d, rem, add);
    lemma_flipped_sorted(d, rem, add);
    lemma_forced_both_ways(rem, add);
    lemma_same_counts(e, reversed(d), add, rem);
    lemma_sorted_same(e, reversed(d));
}

/// A snapshot differs from itself in nothing.
pub proof fn lemma_equal_snapshots(d: DiffView, items: Seq<ItemView>)
    requires
        is_diff_of(d, items, items),
    ensures
        d.is_empty(),
{
    lemma_same_bags(d, items, items);
}

/// Two snapshots that hold the same items equally often, in whatever order,
/// differ in nothing.
pub proof fn lemma_same_bags(d: DiffView, old_items: Seq<ItemView>, new_items: Seq<ItemView>)
    requires
        is_diff_of(d, old_items, new_items),
        old_items.to_multiset() == new_items.to_multiset(),
    ensures
        d.is_empty(),
{
    let none = Multiset::<ItemView>::empty();
    assert(went(old_items, new_items) =~= none);
    assert(went(new_items, old_items) =~= none);
    d.removed.to_multiset_ensures();
    d.added.to_multiset_ensures();
    olds(d.changed).to_multiset_ensures();
    assert(d.removed.to_multiset().len() + olds(d.changed).to_multiset().len() == none.len());
    assert(d.added.to_multiset().len() + news(d.changed).to_multiset().len() == none.len());
}

/// Where no item came, what went is removed and nothing else happened.
pub proof fn lemma_only_removals(d: DiffView, old_items: Seq<ItemView>, new_items: Seq<ItemView>)
    requires
        is_diff_of(d, old_items, new_items),
        went(new_items, old_items) == Multiset::<ItemView>::empty(),
    ensures
        d.removed.to_multiset() == went(old_items, new_items),
        d.changed.len() == 0,
        d.added.len() == 0,
{
    let none = Multiset::<ItemView>::empty();
    d.added.to_multiset_ensures();
    news(d.changed).to_multiset_ensures();
    olds(d.changed).to_multiset_ensures();
    assert(d.added.to_multiset().len() + news(d.changed).to_multiset().len() == none.len());
    assert(olds(d.changed).to_multiset() =~= none);
    assert(d.removed.to_multiset() =~= went(old_items, new_items));
}

/// Where no item went, what came is added and nothing else happened.
pub proof fn lemma_only_additions(d: DiffView, old_items: Seq<ItemView>, new_items: Seq<ItemView>)
    requires
        is_diff_of(d, old_items, new_items),
        went(old_items, new_items) == Multiset::<ItemView>::empty(),
    ensures
        d.added.to_multiset() == went(new_items, old_items),
        d.changed.len() == 0,
        d.removed.len() == 0,
{
    let none = Multiset::<ItemView>::empty();
    d.removed.to_multiset_ensures();
    news(d.changed).to_multiset_ensures();
    olds(d.changed).to_multiset_ensures();
    assert(d.removed.to_multiset().len() + olds(d.changed).to_multiset().len() == none.len());
    assert(news(d.changed).to_multiset() =~= none);
    assert(d.added.to_multiset() =~= went(new_items, old_items));
}

/// Paths are local: a change stays on one path, and no path has both a
/// removed and an added item.
pub proof fn lemma_paths_are_local(d: DiffView, old_items: Seq<ItemView>, new_items: Seq<ItemView>)
    requires
        is_diff_of(d, old_items, new_items),
    ensures
        forall|i: int|
            0 <= i < d.changed.len() ==> (#[trigger] d.changed[i]).old.path
                == d.changed[i].new.path,
        forall|i: int, j: int|
            0 <= i < d.removed.len() && 0 <= j < d.added.len() ==> (#[trigger] d.removed[i]).path
                != (#[trigger] d.added[j]).path,
{
}

/// The two items of a change differ.
pub proof fn lemma_changes_change(
    d: DiffView,
    old_items: Seq<ItemView>,
    new_items: Seq<ItemView>,
    i: int,
)
    requires
        is_diff_of(d, old_items, new_items),
        0 <= i < d.changed.len(),
    ensures
        d.changed[i].old != d.changed[i].new,
{
    d.changed.to_multiset_ensures();
    assert(d.changed.contains(d.changed[i]));
    lemma_change_members(d, went(old_items, new_items), went(new_items, old_items), d.changed[i]);
}

/// The difference is determined, where the pairing is forced: snapshots that
/// hold the same items equally often, in whatever order, have one difference.
pub proof fn lemma_determined(
    d: DiffView,
    e: DiffView,
    old_items: Seq<ItemView>,
    new_items: Seq<ItemView>,
    old_reordered: Seq<ItemView>,
    new_reordered: Seq<ItemView>,
)
    requires
        is_diff_of(d, old_items, new_items),
        is_diff_of(e, old_reordered, new_reordered),
        old_items.to_multiset() == old_reordered.to_multiset(),
        new_items.to_multiset() == new_reordered.to_multiset(),
        pairing_is_forced(old_items, new_items),
    ensures
        d == e,
{
    lemma_same_counts(d, e, went(old_items, new_items), went(new_items, old_items));
    lemma_sorted_same(d, e);
}

} // verus!
