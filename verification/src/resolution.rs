//! What every difference between two snapshots satisfies, and why the result
//! of pairing off satisfies it.

use crate::bag::is_difference;
use crate::by_path::{at_path, expand, on_path, repeat, PathView};
use crate::counting::lemma_count_add;
use crate::diff::{ChangeView, DiffView};
use crate::item::ItemView;
use crate::pairing::{left_over, made_of, paired, pairs_up, unpaired};
use crate::order::{lemma_sorted_unique, sorted};
use vstd::multiset::Multiset;
use vstd::prelude::*;

verus! {

/// The old items of a list of changes, in its order.
pub open spec fn olds(changed: Seq<ChangeView>) -> Seq<ItemView> {
    Seq::new(changed.len(), |i: int| changed[i].old)
}

/// The new items of a list of changes, in its order.
pub open spec fn news(changed: Seq<ChangeView>) -> Seq<ItemView> {
    Seq::new(changed.len(), |i: int| changed[i].new)
}

/// `d` accounts for the bag `rem` of items that went and the bag `add` of
/// items that came: each item that went is removed or the old item of a
/// change, each item that came is added or the new item of a change, a change
/// stays on one path, and no path has both a removed and an added item.
pub open spec fn accounts_for(d: DiffView, rem: Multiset<ItemView>, add: Multiset<ItemView>) -> bool {
    &&& d.removed.to_multiset().add(olds(d.changed).to_multiset()) == rem
    &&& d.added.to_multiset().add(news(d.changed).to_multiset()) == add
    &&& forall|i: int|
        0 <= i < d.changed.len() ==> (#[trigger] d.changed[i]).old.path == d.changed[i].new.path
    &&& forall|i: int, j: int|
        0 <= i < d.removed.len() && 0 <= j < d.added.len() ==> (#[trigger] d.removed[i]).path != (
        #[trigger] d.added[j]).path
}

/// `d` accounts for the items that went and the items that came, and each of
/// its three lists is sorted.
pub open spec fn resolves(d: DiffView, rem: Multiset<ItemView>, add: Multiset<ItemView>) -> bool {
    &&& sorted(d.removed)
    &&& sorted(d.changed)
    &&& sorted(d.added)
    &&& accounts_for(d, rem, add)
}

/// The items that the first snapshot holds more often than the second, each
/// as often as the surplus says.
pub open spec fn went(old_items: Seq<ItemView>, new_items: Seq<ItemView>) -> Multiset<ItemView> {
    old_items.to_multiset().sub(new_items.to_multiset())
}

/// `d` is a difference between the snapshots `old_items` and `new_items`: it
/// accounts for what the old snapshot holds more often than the new one, and
/// for what the new one holds more often than the old one.
pub open spec fn is_diff_of(d: DiffView, old_items: Seq<ItemView>, new_items: Seq<ItemView>) -> bool {
    resolves(d, went(old_items, new_items), went(new_items, old_items))
}

/// `d` comes of pairing off: what the old snapshot holds more often than the
/// new one, listed in some order, against what the new one holds more often
/// than the old one, listed in some order. Each listing names a value once,
/// with its surplus, and the copies of a value stand together.
pub open spec fn pairs_up_listings(
    d: DiffView,
    old_items: Seq<ItemView>,
    new_items: Seq<ItemView>,
) -> bool {
    exists|rem: Seq<(ItemView, usize)>, add: Seq<(ItemView, usize)>|
        is_difference(rem, old_items.to_multiset(), new_items.to_multiset()) && is_difference(
            add,
            new_items.to_multiset(),
            old_items.to_multiset(),
        ) && #[trigger] pairs_up(d, expand(rem), expand(add))
}

/// The test whether a change has `v` as its old item.
pub open spec fn old_is(v: ItemView) -> spec_fn(ChangeView) -> bool {
    |c: ChangeView| c.old == v
}

/// The test whether a change has `v` as its new item.
pub open spec fn new_is(v: ItemView) -> spec_fn(ChangeView) -> bool {
    |c: ChangeView| c.new == v
}

/// An item is the old item of as many changes of a list as the list holds
/// changes with that old item.
pub proof fn lemma_count_olds(s: Seq<ChangeView>, v: ItemView)
    ensures
        olds(s).to_multiset().count(v) == s.to_multiset().filter(old_is(v)).len(),
    decreases s.len(),
{
    let f = old_is(v);
    if s.len() == 0 {
        s.to_multiset_ensures();
        olds(s).to_multiset_ensures();
        assert(s.to_multiset().filter(f) =~= Multiset::empty());
        assert(olds(s).to_multiset() =~= Multiset::empty());
    } else {
        let t = s.drop_last();
        let c = s.last();
        lemma_count_olds(t, v);
        assert(s =~= t.push(c));
        assert(olds(s) =~= olds(t).push(c.old));
        vstd::seq_lib::to_multiset_build(t, c);
        vstd::seq_lib::to_multiset_build(olds(t), c.old);
        if c.old == v {
            assert(s.to_multiset().filter(f) =~= t.to_multiset().filter(f).insert(c));
        } else {
            assert(s.to_multiset().filter(f) =~= t.to_multiset().filter(f));
        }
    }
}

/// An item is the new item of as many changes of a list as the list holds
/// changes with that new item.
pub proof fn lemma_count_news(s: Seq<ChangeView>, v: ItemView)
    ensures
        news(s).to_multiset().count(v) == s.to_multiset().filter(new_is(v)).len(),
    decreases s.len(),
{
    let f = new_is(v);
    if s.len() == 0 {
        s.to_multiset_ensures();
        news(s).to_multiset_ensures();
        assert(s.to_multiset().filter(f) =~= Multiset::empty());
        assert(news(s).to_multiset() =~= Multiset::empty());
    } else {
        let t = s.drop_last();
        let c = s.last();
        lemma_count_news(t, v);
        assert(s =~= t.push(c));
        assert(news(s) =~= news(t).push(c.new));
        vstd::seq_lib::to_multiset_build(t, c);
        vstd::seq_lib::to_multiset_build(news(t), c.new);
        if c.new == v {
            assert(s.to_multiset().filter(f) =~= t.to_multiset().filter(f).insert(c));
        } else {
            assert(s.to_multiset().filter(f) =~= t.to_multiset().filter(f));
        }
    }
}

/// Pairing off loses nothing: the old items of the pairs and what is left
/// over of the first list make up the first list, and likewise the second.
pub proof fn lemma_pairing_keeps(xs: Seq<ItemView>, ys: Seq<ItemView>)
    ensures
        (olds(paired(xs, ys)) + unpaired(xs, ys)).to_multiset() == xs.to_multiset(),
        (news(paired(xs, ys)) + unpaired(ys, xs)).to_multiset() == ys.to_multiset(),
{
    assert(olds(paired(xs, ys)) + unpaired(xs, ys) =~= xs.reverse());
    assert(news(paired(xs, ys)) + unpaired(ys, xs) =~= ys.reverse());
    xs.lemma_reverse_to_multiset();
    ys.lemma_reverse_to_multiset();
}

/// An item occurs among those at its own path as often as among all, and not
/// at all among those at another path.
pub proof fn lemma_at_path_count(items: Seq<ItemView>, path: PathView, v: ItemView)
    ensures
        at_path(items, path).to_multiset().count(v) == if v.path == path {
            items.to_multiset().count(v)
        } else {
            0
        },
    decreases items.len(),
{
    if items.len() == 0 {
        reveal(Seq::filter);
        items.to_multiset_ensures();
        assert(items.to_multiset() =~= Multiset::empty());
    } else {
        let t = items.drop_last();
        let x = items.last();
        lemma_at_path_count(t, path, v);
        assert(items =~= t.push(x));
        t.lemma_filter_push(x, on_path(path));
        vstd::seq_lib::to_multiset_build(t, x);
        vstd::seq_lib::to_multiset_build(at_path(t, path), x);
    }
}

/// A pair that was made holds an item of each list.
pub proof fn lemma_paired_members(xs: Seq<ItemView>, ys: Seq<ItemView>, c: ChangeView)
    requires
        paired(xs, ys).to_multiset().count(c) > 0,
    ensures
        xs.contains(c.old),
        ys.contains(c.new),
{
    let s = paired(xs, ys);
    s.to_multiset_ensures();
    let i = choose|i: int| 0 <= i < s.len() && s[i] == c;
    assert(xs[xs.len() - 1 - i] == c.old);
    assert(ys[ys.len() - 1 - i] == c.new);
}

/// What lives at a path has that path.
pub proof fn lemma_at_path_member(items: Seq<ItemView>, path: PathView, v: ItemView)
    requires
        at_path(items, path).contains(v),
    ensures
        v.path == path,
        items.contains(v),
{
    let s = at_path(items, path);
    let i = choose|i: int| 0 <= i < s.len() && s[i] == v;
    items.lemma_filter_pred(on_path(path), i);
    lemma_at_path_count(items, path, v);
    s.to_multiset_ensures();
    items.to_multiset_ensures();
}

/// A pair is made only of two items of one path.
pub proof fn lemma_made_on_one_path(rem: Seq<ItemView>, add: Seq<ItemView>, c: ChangeView)
    requires
        made_of(rem, add, c) > 0,
    ensures
        c.old.path == c.new.path,
        rem.contains(c.old),
        add.contains(c.new),
{
    lemma_paired_members(at_path(rem, c.old.path), at_path(add, c.old.path), c);
    lemma_at_path_member(rem, c.old.path, c.old);
    lemma_at_path_member(add, c.old.path, c.new);
}

/// An item is the old item of as many changes as pairing off at its path makes with it.
proof fn lemma_olds_of_diff(d: DiffView, rem: Seq<ItemView>, add: Seq<ItemView>, v: ItemView)
    requires
        pairs_up(d, rem, add),
    ensures
        olds(d.changed).to_multiset().count(v) == olds(
            paired(at_path(rem, v.path), at_path(add, v.path)),
        ).to_multiset().count(v),
{
    let here = paired(at_path(rem, v.path), at_path(add, v.path));
    let f = old_is(v);
    lemma_count_olds(d.changed, v);
    lemma_count_olds(here, v);
    assert forall|c: ChangeView|
        d.changed.to_multiset().filter(f).count(c) == here.to_multiset().filter(f).count(c) by {
        if c.old == v {
            assert(d.changed.to_multiset().count(c) == made_of(rem, add, c));
        }
    }
    assert(d.changed.to_multiset().filter(f) =~= here.to_multiset().filter(f));
}

/// An item is the new item of as many changes as pairing off at its path makes with it.
proof fn lemma_news_of_diff(d: DiffView, rem: Seq<ItemView>, add: Seq<ItemView>, v: ItemView)
    requires
        pairs_up(d, rem, add),
    ensures
        news(d.changed).to_multiset().count(v) == news(
            paired(at_path(rem, v.path), at_path(add, v.path)),
        ).to_multiset().count(v),
{
    let here = paired(at_path(rem, v.path), at_path(add, v.path));
    let f = new_is(v);
    lemma_count_news(d.changed, v);
    lemma_count_news(here, v);
    assert forall|c: ChangeView|
        d.changed.to_multiset().filter(f).count(c) == here.to_multiset().filter(f).count(c) by {
        if c.new == v {
            assert(d.changed.to_multiset().count(c) == made_of(rem, add, c));
            if c.old.path != v.path {
                if made_of(rem, add, c) > 0 {
                    lemma_made_on_one_path(rem, add, c);
                }
                if here.to_multiset().count(c) > 0 {
                    lemma_paired_members(at_path(rem, v.path), at_path(add, v.path), c);
                    lemma_at_path_member(rem, v.path, c.old);
                }
            }
        }
    }
    assert(d.changed.to_multiset().filter(f) =~= here.to_multiset().filter(f));
}

/// The result of pairing off accounts for the items that went and the items
/// that came.
pub proof fn lemma_pairs_up_resolves(d: DiffView, rem: Seq<ItemView>, add: Seq<ItemView>)
    requires
        pairs_up(d, rem, add),
    ensures
        resolves(d, rem.to_multiset(), add.to_multiset()),
{
    assert forall|v: ItemView|
        d.removed.to_multiset().add(olds(d.changed).to_multiset()).count(v)
            == rem.to_multiset().count(v) by {
        let xs = at_path(rem, v.path);
        let ys = at_path(add, v.path);
        assert(d.removed.to_multiset().count(v) == left_over(rem, add, v));
        lemma_olds_of_diff(d, rem, add, v);
        lemma_count_add(olds(paired(xs, ys)), unpaired(xs, ys), v);
        lemma_pairing_keeps(xs, ys);
        lemma_at_path_count(rem, v.path, v);
    }
    assert(d.removed.to_multiset().add(olds(d.changed).to_multiset()) =~= rem.to_multiset());
    assert forall|v: ItemView|
        d.added.to_multiset().add(news(d.changed).to_multiset()).count(v) == add.to_multiset().count(
            v,
        ) by {
        let xs = at_path(rem, v.path);
        let ys = at_path(add, v.path);
        assert(d.added.to_multiset().count(v) == left_over(add, rem, v));
        lemma_news_of_diff(d, rem, add, v);
        lemma_count_add(news(paired(xs, ys)), unpaired(ys, xs), v);
        lemma_pairing_keeps(xs, ys);
        lemma_at_path_count(add, v.path, v);
    }
    assert(d.added.to_multiset().add(news(d.changed).to_multiset()) =~= add.to_multiset());
    assert forall|i: int| 0 <= i < d.changed.len() implies (#[trigger] d.changed[i]).old.path
        == d.changed[i].new.path by {
        let c = d.changed[i];
        d.changed.to_multiset_ensures();
        assert(d.changed.contains(c));
        assert(d.changed.to_multiset().count(c) == made_of(rem, add, c));
        lemma_made_on_one_path(rem, add, c);
    }
    assert forall|i: int, j: int|
        0 <= i < d.removed.len() && 0 <= j < d.added.len() implies (#[trigger] d.removed[i]).path
        != (#[trigger] d.added[j]).path by {
        let v = d.removed[i];
        let w = d.added[j];
        d.removed.to_multiset_ensures();
        d.added.to_multiset_ensures();
        assert(d.removed.contains(v));
        assert(d.added.contains(w));
        assert(d.removed.to_multiset().count(v) == left_over(rem, add, v));
        assert(d.added.to_multiset().count(w) == left_over(add, rem, w));
        if v.path == w.path {
            let xs = at_path(rem, v.path);
            let ys = at_path(add, v.path);
            unpaired(xs, ys).to_multiset_ensures();
            unpaired(ys, xs).to_multiset_ensures();
            assert(unpaired(xs, ys).len() > 0);
            assert(unpaired(ys, xs).len() > 0);
        }
    }
}

/// Pairing off has one result: the two lists settle it.
pub proof fn lemma_pairs_up_once(d: DiffView, e: DiffView, rem: Seq<ItemView>, add: Seq<ItemView>)
    requires
        pairs_up(d, rem, add),
        pairs_up(e, rem, add),
    ensures
        d == e,
{
    assert forall|v: ItemView|
        d.removed.to_multiset().count(v) == e.removed.to_multiset().count(v) by {
        assert(d.removed.to_multiset().count(v) == left_over(rem, add, v));
        assert(e.removed.to_multiset().count(v) == left_over(rem, add, v));
    }
    assert forall|c: ChangeView|
        d.changed.to_multiset().count(c) == e.changed.to_multiset().count(c) by {
        assert(d.changed.to_multiset().count(c) == made_of(rem, add, c));
        assert(e.changed.to_multiset().count(c) == made_of(rem, add, c));
    }
    assert forall|v: ItemView| d.added.to_multiset().count(v) == e.added.to_multiset().count(v) by {
        assert(d.added.to_multiset().count(v) == left_over(add, rem, v));
        assert(e.added.to_multiset().count(v) == left_over(add, rem, v));
    }
    assert(d.removed.to_multiset() =~= e.removed.to_multiset());
    assert(d.changed.to_multiset() =~= e.changed.to_multiset());
    assert(d.added.to_multiset() =~= e.added.to_multiset());
    lemma_sorted_unique(d.removed, e.removed);
    lemma_sorted_unique(d.changed, e.changed);
    lemma_sorted_unique(d.added, e.added);
}

/// What comes of pairing off listings of what two snapshots hold more often
/// than each other is a difference between the snapshots.
pub proof fn lemma_listings_give_diff(d: DiffView, old_items: Seq<ItemView>, new_items: Seq<ItemView>)
    requires
        pairs_up_listings(d, old_items, new_items),
    ensures
        is_diff_of(d, old_items, new_items),
{
    let (rem, add) = choose|rem: Seq<(ItemView, usize)>, add: Seq<(ItemView, usize)>|
        is_difference(rem, old_items.to_multiset(), new_items.to_multiset()) && is_difference(
            add,
            new_items.to_multiset(),
            old_items.to_multiset(),
        ) && #[trigger] pairs_up(d, expand(rem), expand(add));
    lemma_expand_difference(rem, old_items.to_multiset(), new_items.to_multiset());
    lemma_expand_difference(add, new_items.to_multiset(), old_items.to_multiset());
    lemma_pairs_up_resolves(d, expand(rem), expand(add));
}

/// How often `v` is counted by a list of counted values.
pub open spec fn counted_in(counted: Seq<(ItemView, usize)>, v: ItemView) -> nat
    decreases counted.len(),
{
    if counted.len() == 0 {
        0
    } else {
        counted_in(counted.drop_last(), v) + if counted.last().0 == v {
            counted.last().1 as nat
        } else {
            0
        }
    }
}

/// Copies of one value hold that value as often as there are copies, and no other.
pub proof fn lemma_repeat_count(w: ItemView, n: nat, v: ItemView)
    ensures
        repeat(w, n).to_multiset().count(v) == if w == v {
            n
        } else {
            0
        },
    decreases n,
{
    if n == 0 {
        repeat(w, n).to_multiset_ensures();
        assert(repeat(w, n).to_multiset() =~= Multiset::empty());
    } else {
        lemma_repeat_count(w, (n - 1) as nat, v);
        assert(repeat(w, n) =~= repeat(w, (n - 1) as nat).push(w));
        vstd::seq_lib::to_multiset_build(repeat(w, (n - 1) as nat), w);
    }
}

/// The items that counted values stand for hold each value as often as it is counted.
pub proof fn lemma_expand_count(counted: Seq<(ItemView, usize)>, v: ItemView)
    ensures
        expand(counted).to_multiset().count(v) == counted_in(counted, v),
    decreases counted.len(),
{
    if counted.len() == 0 {
        expand(counted).to_multiset_ensures();
        assert(expand(counted).to_multiset() =~= Multiset::empty());
    } else {
        lemma_expand_count(counted.drop_last(), v);
        lemma_count_add(
            expand(counted.drop_last()),
            repeat(counted.last().0, counted.last().1 as nat),
            v,
        );
        lemma_repeat_count(counted.last().0, counted.last().1 as nat, v);
    }
}

/// Where no value is listed twice, a value is counted as its one entry says,
/// and not at all if it has none.
pub proof fn lemma_counted_once(counted: Seq<(ItemView, usize)>, v: ItemView)
    requires
        forall|i: int, j: int|
            0 <= i < j < counted.len() ==> (#[trigger] counted[i]).0 != (#[trigger] counted[j]).0,
    ensures
        forall|i: int|
            0 <= i < counted.len() && (#[trigger] counted[i]).0 == v ==> counted_in(counted, v)
                == counted[i].1,
        (forall|i: int| 0 <= i < counted.len() ==> (#[trigger] counted[i]).0 != v) ==> counted_in(
            counted,
            v,
        ) == 0,
    decreases counted.len(),
{
    if counted.len() > 0 {
        let t = counted.drop_last();
        assert forall|i: int, j: int| 0 <= i < j < t.len() implies (#[trigger] t[i]).0 != (
        #[trigger] t[j]).0 by {
            assert(t[i] == counted[i] && t[j] == counted[j]);
        }
        lemma_counted_once(t, v);
        assert forall|i: int| 0 <= i < counted.len() && (#[trigger] counted[i]).0 == v implies counted_in(
            counted,
            v,
        ) == counted[i].1 by {
            if i < t.len() {
                assert(t[i] == counted[i]);
                assert(counted[i].0 != counted[counted.len() - 1].0);
            } else {
                assert forall|k: int| 0 <= k < t.len() implies (#[trigger] t[k]).0 != v by {
                    assert(t[k] == counted[k]);
                    assert(counted[k].0 != counted[counted.len() - 1].0);
                }
            }
        }
        if forall|i: int| 0 <= i < counted.len() ==> (#[trigger] counted[i]).0 != v {
            assert forall|k: int| 0 <= k < t.len() implies (#[trigger] t[k]).0 != v by {
                assert(t[k] == counted[k]);
            }
            assert(counted[counted.len() - 1].0 != v);
        }
    }
}

/// A list of what one bag holds more often than another stands for the
/// first bag less the second.
pub proof fn lemma_expand_difference(
    counted: Seq<(ItemView, usize)>,
    a: Multiset<ItemView>,
    b: Multiset<ItemView>,
)
    requires
        is_difference(counted, a, b),
    ensures
        expand(counted).to_multiset() == a.sub(b),
{
    assert forall|v: ItemView| expand(counted).to_multiset().count(v) == a.sub(b).count(v) by {
        lemma_expand_count(counted, v);
        lemma_counted_once(counted, v);
        if a.count(v) > b.count(v) {
            let i = choose|i: int| 0 <= i < counted.len() && (#[trigger] counted[i]).0 == v;
            assert(counted[i].1 == a.count(v) - b.count(v));
        } else {
            assert forall|i: int| 0 <= i < counted.len() implies (#[trigger] counted[i]).0 != v by {
                assert(0 < counted[i].1 == a.count(counted[i].0) - b.count(counted[i].0));
            }
        }
    }
    assert(expand(counted).to_multiset() =~= a.sub(b));
}

} // verus!
