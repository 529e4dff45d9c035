//! Bags of items, kept in a `hashbag::HashBag`.
//!
//! What this file claims of `HashBag` is read off its source and not proved.
//! A bag finds an item again by `==` and by its hash. `==` on items is proved
//! to hold exactly of items that stand for the same value; the hash is the
//! derived one, which equal items share.

use crate::item::{ItemView, PublicItem};
use hashbag::HashBag;
use std::collections::hash_map::RandomState;
use vstd::multiset::Multiset;
use vstd::prelude::*;

verus! {

/// `hashbag::HashBag`, of which the verifier sees no more than this file says.
#[verifier::external_type_specification]
#[verifier::external_body]
#[verifier::reject_recursive_types(T)]
#[verifier::reject_recursive_types(S)]
pub struct ExHashBag<T, S>(HashBag<T, S>);

/// What a bag holds: each value as often as it was put in.
pub uninterp spec fn bag_items(bag: HashBag<PublicItem, RandomState>) -> Multiset<ItemView>;

/// `d` lists what `a` holds more often than `b`: each such value once, with
/// the number of occurrences by which `a` exceeds `b`.
pub open spec fn is_difference(
    d: Seq<(ItemView, usize)>,
    a: Multiset<ItemView>,
    b: Multiset<ItemView>,
) -> bool {
    &&& forall|i: int|
        0 <= i < d.len() ==> 0 < (#[trigger] d[i]).1 == a.count(d[i].0) - b.count(d[i].0)
    &&& forall|i: int, j: int| 0 <= i < j < d.len() ==> (#[trigger] d[i]).0 != (#[trigger] d[j]).0
    &&& forall|v: ItemView|
        a.count(v) > b.count(v) ==> exists|i: int| 0 <= i < d.len() && (#[trigger] d[i]).0 == v
}

/// `HashBag::new`: a bag that holds nothing.
#[verifier::external_body]
pub(crate) fn bag_new() -> (bag: HashBag<PublicItem, RandomState>)
    ensures
        bag_items(bag) == Multiset::<ItemView>::empty(),
{
    HashBag::new()
}

/// `HashBag::insert`: the bag holds the item once more than before, and
/// everything else as before. The call returns how often the bag held the
/// item before. The bag counts its items in a `usize`, so it must not be full.
#[verifier::external_body]
pub(crate) fn bag_insert(bag: &mut HashBag<PublicItem, RandomState>, item: PublicItem) -> (before:
    usize)
    requires
        bag_items(*old(bag)).len() < usize::MAX,
    ensures
        bag_items(*final(bag)) == bag_items(*old(bag)).insert(item@),
        before == bag_items(*old(bag)).count(item@),
{
    bag.insert(item)
}

/// `HashBag::difference`: the values that `a` holds more often than `b`, each
/// once and with the surplus as its count, in no order that could be named.
#[verifier::external_body]
pub(crate) fn bag_difference(
    a: &HashBag<PublicItem, RandomState>,
    b: &HashBag<PublicItem, RandomState>,
) -> (d: Vec<(PublicItem, usize)>)
    ensures
        is_difference(d.deep_view(), bag_items(*a), bag_items(*b)),
{
    a.difference(b).map(|(item, count)| (item.clone(), count)).collect()
}

/// Puts the items of a vector into a bag.
pub fn bag_of(items: Vec<PublicItem>) -> (bag: HashBag<PublicItem, RandomState>)
    ensures
        bag_items(bag) == items.deep_view().to_multiset(),
{
    let ghost whole = items.deep_view();
    let mut rest = items;
    let mut bag = bag_new();
    proof {
        whole.to_multiset_ensures();
        assert(whole.len() == rest.len());
        assert(bag_items(bag).add(rest.deep_view().to_multiset()) =~= whole.to_multiset());
    }
    while rest.len() > 0
        invariant
            bag_items(bag).add(rest.deep_view().to_multiset()) == whole.to_multiset(),
            whole.len() <= usize::MAX,
        decreases rest.len(),
    {
        let ghost before = rest.deep_view();
        let item = rest.pop().unwrap();
        proof {
            assert(before =~= rest.deep_view().push(item@));
            vstd::seq_lib::to_multiset_build(rest.deep_view(), item@);
            before.to_multiset_ensures();
            whole.to_multiset_ensures();
            assert(bag_items(bag).len() + before.len() == whole.len());
        }
        bag_insert(&mut bag, item);
        assert(bag_items(bag).add(rest.deep_view().to_multiset()) =~= whole.to_multiset());
    }
    proof {
        assert(rest.deep_view() =~= Seq::<ItemView>::empty());
        rest.deep_view().to_multiset_ensures();
        assert(bag_items(bag) =~= whole.to_multiset());
    }
    bag
}

} // verus!
