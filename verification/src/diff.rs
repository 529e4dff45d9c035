//! The difference between two snapshots of a library's public items.

use crate::bag::{bag_difference, bag_of};
use crate::by_path::{bag_to_path_map, expand, PathView};
use crate::item::{ItemView, PublicItem};
use crate::order::{lemma_asymmetric, relation, Ordered, Relation, StrictOrder};
use crate::pairing::{
    left_over, left_over_so_far, lemma_left_over_step, lemma_made_step, lemma_nothing_elsewhere,
    listed, made_of, made_so_far, map_so_far, pair_off, pairs_up, take_group,
};
use crate::resolution::{is_diff_of, lemma_listings_give_diff, pairs_up_listings};
use crate::sorting::sort;
use vstd::prelude::*;
use core::cmp::Ordering;
use vstd::std_specs::cmp::{PartialEqSpecImpl, PartialOrdSpecImpl};

verus! {

/// An item that was replaced by another at the same path.
#[derive(Debug, Eq)]
pub struct ChangedPublicItem {
    /// How the item used to look.
    pub old: PublicItem,
    /// How the item looks now.
    pub new: PublicItem,
}

/// What a changed item stands for.
pub struct ChangeView {
    pub old: ItemView,
    pub new: ItemView,
}

impl StrictOrder for ChangeView {
    /// Changes are ordered by the old item, and for one old item by the new one.
    open spec fn lt(self, other: Self) -> bool {
        self.old.lt(other.old) || (self.old == other.old && self.new.lt(other.new))
    }

    proof fn lemma_irreflexive(x: Self) {
        ItemView::lemma_irreflexive(x.old);
        ItemView::lemma_irreflexive(x.new);
    }

    proof fn lemma_transitive(x: Self, y: Self, z: Self) {
        if x.old.lt(y.old) && y.old.lt(z.old) {
            ItemView::lemma_transitive(x.old, y.old, z.old);
        }
        if x.new.lt(y.new) && y.new.lt(z.new) {
            ItemView::lemma_transitive(x.new, y.new, z.new);
        }
    }

    proof fn lemma_connected(x: Self, y: Self) {
        ItemView::lemma_connected(x.old, y.old);
        ItemView::lemma_connected(x.new, y.new);
    }
}

impl DeepView for ChangedPublicItem {
    type V = ChangeView;

    open spec fn deep_view(&self) -> ChangeView {
        ChangeView { old: self.old@, new: self.new@ }
    }
}

impl View for ChangedPublicItem {
    type V = ChangeView;

    open spec fn view(&self) -> ChangeView {
        self.deep_view()
    }
}

impl Ordered for ChangedPublicItem {
    fn compare(&self, other: &Self) -> (r: Relation) {
        match self.old.compare(&other.old) {
            Relation::Before => Relation::Before,
            Relation::After => {
                proof {
                    ItemView::lemma_connected(self@.old, other@.old);
                    lemma_asymmetric(other@.old, self@.old);
                }
                Relation::After
            },
            Relation::Same => {
                let r = self.new.compare(&other.new);
                proof {
                    ItemView::lemma_irreflexive(self@.old);
                }
                r
            },
        }
    }
}

impl Clone for ChangedPublicItem {
    fn clone(&self) -> (r: Self)
        ensures
            r@ == self@,
    {
        ChangedPublicItem { old: self.old.clone(), new: self.new.clone() }
    }
}

impl PartialEq for ChangedPublicItem {
    fn eq(&self, other: &Self) -> (r: bool) {
        match self.compare(other) {
            Relation::Same => true,
            _ => false,
        }
    }
}

impl PartialEqSpecImpl for ChangedPublicItem {
    open spec fn obeys_eq_spec() -> bool {
        true
    }

    /// Two changes are equal when their old items and their new items are.
    open spec fn eq_spec(&self, other: &Self) -> bool {
        self@ == other@
    }
}

impl PartialOrd for ChangedPublicItem {
    fn partial_cmp(&self, other: &Self) -> (r: Option<Ordering>) {
        Some(self.compare(other).to_ordering())
    }
}

impl PartialOrdSpecImpl for ChangedPublicItem {
    open spec fn obeys_partial_cmp_spec() -> bool {
        true
    }

    /// Changes compare as what they stand for: by old item, then by new item.
    open spec fn partial_cmp_spec(&self, other: &Self) -> Option<Ordering> {
        Some(relation(self@, other@).ordering())
    }
}

/// What was removed from, changed in and added to a library's public items.
#[derive(Debug, PartialEq, Eq)]
pub struct PublicItemsDiff {
    /// The items that were removed. Sorted.
    pub removed: Vec<PublicItem>,
    /// The items that were replaced by another at the same path. Sorted.
    pub changed: Vec<ChangedPublicItem>,
    /// The items that were added. Sorted.
    pub added: Vec<PublicItem>,
}

/// What a difference stands for.
pub struct DiffView {
    pub removed: Seq<ItemView>,
    pub changed: Seq<ChangeView>,
    pub added: Seq<ItemView>,
}

impl DiffView {
    /// Nothing was removed, changed or added.
    pub open spec fn is_empty(self) -> bool {
        self.removed.len() == 0 && self.changed.len() == 0 && self.added.len() == 0
    }
}

impl DeepView for PublicItemsDiff {
    type V = DiffView;

    open spec fn deep_view(&self) -> DiffView {
        DiffView {
            removed: self.removed.deep_view(),
            changed: self.changed.deep_view(),
            added: self.added.deep_view(),
        }
    }
}

impl View for PublicItemsDiff {
    type V = DiffView;

    open spec fn view(&self) -> DiffView {
        self.deep_view()
    }
}

impl Clone for PublicItemsDiff {
    fn clone(&self) -> (r: Self)
        ensures
            r@ == self@,
    {
        let removed = self.removed.clone();
        let changed = self.changed.clone();
        let added = self.added.clone();
        proof {
            assert(removed.deep_view() =~= self.removed.deep_view());
            assert(changed.deep_view() =~= self.changed.deep_view());
            assert(added.deep_view() =~= self.added.deep_view());
        }
        PublicItemsDiff { removed, changed, added }
    }
}

impl PublicItemsDiff {
    /// Pairs off what was removed with what was added, path by path.
    ///
    /// Each list gives values with counts; a value stands for as many items as
    /// its count says. Under each path the items stand in the order of their
    /// list. The last item removed from a path is paired with the last one
    /// added to it, and so on backwards: each pair is a change. What finds no
    /// partner is removed or added for good.
    pub fn from_candidates(
        all_removed: Vec<(PublicItem, usize)>,
        all_added: Vec<(PublicItem, usize)>,
    ) -> (diff: Self)
        ensures
            pairs_up(diff@, expand(all_removed.deep_view()), expand(all_added.deep_view())),
    {
        let ghost rem = expand(all_removed.deep_view());
        let ghost add = expand(all_added.deep_view());
        let mut removed_paths = bag_to_path_map(all_removed);
        let mut added_paths = bag_to_path_map(all_added);

        let mut removed: Vec<PublicItem> = Vec::new();
        let mut changed: Vec<ChangedPublicItem> = Vec::new();
        let mut added: Vec<PublicItem> = Vec::new();

        let mut touched_paths = removed_paths.keys();
        let mut more_paths = added_paths.keys();
        let ghost first_paths = touched_paths.deep_view();
        let ghost second_paths = more_paths.deep_view();
        touched_paths.append(&mut more_paths);
        let ghost paths = touched_paths.deep_view();
        proof {
            assert(paths =~= first_paths + second_paths);
            assert forall|p: PathView| #[trigger] removed_paths.has(p) implies listed(
                paths,
                paths.len() as int,
                p,
            ) by {
                let j = choose|j: int| 0 <= j < first_paths.len() && first_paths[j] == p;
                assert(paths[j] == p);
            }
            assert forall|p: PathView| #[trigger] added_paths.has(p) implies listed(
                paths,
                paths.len() as int,
                p,
            ) by {
                let j = choose|j: int| 0 <= j < second_paths.len() && second_paths[j] == p;
                assert(paths[first_paths.len() + j] == p);
            }
            assert(removed.deep_view() =~= Seq::<ItemView>::empty());
            assert(added.deep_view() =~= Seq::<ItemView>::empty());
            assert(changed.deep_view() =~= Seq::<ChangeView>::empty());
            removed.deep_view().to_multiset_ensures();
            changed.deep_view().to_multiset_ensures();
        }

        let mut i: usize = 0;
        while i < touched_paths.len()
            invariant
                i <= touched_paths.len(),
                paths == touched_paths.deep_view(),
                map_so_far(removed_paths, rem, paths, i as int),
                map_so_far(added_paths, add, paths, i as int),
                left_over_so_far(removed.deep_view(), rem, add, paths, i as int),
                made_so_far(changed.deep_view(), rem, add, paths, i as int),
                left_over_so_far(added.deep_view(), add, rem, paths, i as int),
            decreases touched_paths.len() - i,
        {
            let removed_items = take_group(
                &mut removed_paths,
                &touched_paths[i],
                Ghost(rem),
                Ghost(paths),
                Ghost(i as int),
            );
            let added_items = take_group(
                &mut added_paths,
                &touched_paths[i],
                Ghost(add),
                Ghost(paths),
                Ghost(i as int),
            );
            proof {
                lemma_left_over_step(removed.deep_view(), rem, add, paths, i as int);
                lemma_made_step(changed.deep_view(), rem, add, paths, i as int);
                lemma_left_over_step(added.deep_view(), add, rem, paths, i as int);
            }
            pair_off(removed_items, added_items, &mut removed, &mut changed, &mut added);
            i += 1;
        }
        proof {
            let n = paths.len() as int;
            assert forall|v: ItemView| #[trigger]
                removed.deep_view().to_multiset().count(v) == left_over(rem, add, v) by {
                if !listed(paths, n, v.path) {
                    lemma_nothing_elsewhere(removed_paths, added_paths, rem, add, paths, v.path);
                }
            }
            assert forall|v: ItemView| #[trigger]
                added.deep_view().to_multiset().count(v) == left_over(add, rem, v) by {
                if !listed(paths, n, v.path) {
                    lemma_nothing_elsewhere(removed_paths, added_paths, rem, add, paths, v.path);
                }
            }
            assert forall|c: ChangeView| #[trigger]
                changed.deep_view().to_multiset().count(c) == made_of(rem, add, c) by {
                if !listed(paths, n, c.old.path) {
                    lemma_nothing_elsewhere(
                        removed_paths,
                        added_paths,
                        rem,
                        add,
                        paths,
                        c.old.path,
                    );
                }
            }
        }
        let removed = sort(removed);
        let changed = sort(changed);
        let added = sort(added);
        PublicItemsDiff { removed, changed, added }
    }

    /// The difference between the items of an old and of a new snapshot.
    ///
    /// Items count as often as they occur. An item that the old snapshot holds
    /// more often than the new one went, as often as the surplus says; one
    /// that the new snapshot holds more often came. On each path those that
    /// went are paired with those that came, as far as they go round: each
    /// pair is a change. The rest is removed or added.
    ///
    /// Which of the items of a path finds which partner depends on the order
    /// in which the bags hand out what went and what came, and that order is
    /// not settled. The result is what [`Self::from_candidates`] gives for one
    /// such order; all that does not depend on it is settled.
    #[must_use]
    pub fn between(old_items: Vec<PublicItem>, new_items: Vec<PublicItem>) -> (diff: Self)
        ensures
            is_diff_of(diff@, old_items.deep_view(), new_items.deep_view()),
            pairs_up_listings(diff@, old_items.deep_view(), new_items.deep_view()),
    {
        let old_bag = bag_of(old_items);
        let new_bag = bag_of(new_items);
        let all_removed = bag_difference(&old_bag, &new_bag);
        let all_added = bag_difference(&new_bag, &old_bag);
        let ghost rem = all_removed.deep_view();
        let ghost add = all_added.deep_view();
        let diff = Self::from_candidates(all_removed, all_added);
        proof {
            assert(pairs_up(diff@, expand(rem), expand(add)));
            lemma_listings_give_diff(diff@, old_items.deep_view(), new_items.deep_view());
        }
        diff
    }

    /// Whether nothing was removed, changed or added.
    #[must_use]
    pub fn is_empty(&self) -> (r: bool)
        ensures
            r == self@.is_empty(),
    {
        self.removed.is_empty() && self.changed.is_empty() && self.added.is_empty()
    }
}

} // verus!
