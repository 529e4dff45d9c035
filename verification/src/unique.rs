//! When the items that went and the items that came leave only one way to
//! account for them.

use crate::by_path::{on_path, PathView};
use crate::counting::{lemma_filter_add, lemma_filter_insert, lemma_has_member, lemma_len_of_one_kind};
use crate::diff::{ChangeView, DiffView};
use crate::item::ItemView;
use crate::order::{at_most, lemma_sorted_unique, sorted, StrictOrder};
use crate::resolution::{accounts_for, lemma_count_news, lemma_count_olds, new_is, news, old_is, olds};
use vstd::multiset::Multiset;
use vstd::prelude::*;

verus! {

/// How many of the items of a bag live at `path`.
pub open spec fn total_at(m: Multiset<ItemView>, path: PathView) -> nat {
    m.filter(on_path(path)).len()
}

/// A bag holds a value no more often than it holds items at the value's path.
pub proof fn lemma_count_within_total(m: Multiset<ItemView>, v: ItemView)
    ensures
        m.count(v) <= total_at(m, v.path),
{
    assert(m.filter(on_path(v.path)).count(v) == m.count(v));
}

/// A bag that holds items at a path holds one there.
pub proof fn lemma_member_at(m: Multiset<ItemView>, path: PathView) -> (v: ItemView)
    requires
        total_at(m, path) > 0,
    ensures
        v.path == path,
        m.count(v) > 0,
{
    let v = lemma_has_member(m.filter(on_path(path)));
    v
}

/// Where every change stays on one path, as many old items as new items of
/// the changes live at any path.
pub proof fn lemma_olds_news_at(s: Seq<ChangeView>, path: PathView)
    requires
        forall|i: int| 0 <= i < s.len() ==> (#[trigger] s[i]).old.path == s[i].new.path,
    ensures
        total_at(olds(s).to_multiset(), path) == total_at(news(s).to_multiset(), path),
    decreases s.len(),
{
    let f = on_path(path);
    if s.len() == 0 {
        assert(olds(s) =~= news(s));
    } else {
        let t = s.drop_last();
        let c = s.last();
        assert forall|i: int| 0 <= i < t.len() implies (#[trigger] t[i]).old.path
            == t[i].new.path by {
            assert(t[i] == s[i]);
        }
        lemma_olds_news_at(t, path);
        assert(olds(s) =~= olds(t).push(c.old));
        assert(news(s) =~= news(t).push(c.new));
        vstd::seq_lib::to_multiset_build(olds(t), c.old);
        vstd::seq_lib::to_multiset_build(news(t), c.new);
        lemma_filter_insert(olds(t).to_multiset(), c.old, f);
        lemma_filter_insert(news(t).to_multiset(), c.new, f);
        assert(c.old.path == c.new.path);
    }
}

/// At each path the items that went are removed or changed, the items that
/// came are added or changed, and as many as can be are changed: as many as
/// the fewer of those that went and those that came.
pub proof fn lemma_path_totals(
    d: DiffView,
    rem: Multiset<ItemView>,
    add: Multiset<ItemView>,
    path: PathView,
)
    requires
        accounts_for(d, rem, add),
    ensures
        total_at(olds(d.changed).to_multiset(), path) == total_at(
            news(d.changed).to_multiset(),
            path,
        ),
        total_at(olds(d.changed).to_multiset(), path) == if total_at(rem, path) <= total_at(
            add,
            path,
        ) {
            total_at(rem, path)
        } else {
            total_at(add, path)
        },
        total_at(d.removed.to_multiset(), path) + total_at(olds(d.changed).to_multiset(), path)
            == total_at(rem, path),
        total_at(d.added.to_multiset(), path) + total_at(news(d.changed).to_multiset(), path)
            == total_at(add, path),
{
    let f = on_path(path);
    lemma_filter_add(d.removed.to_multiset(), olds(d.changed).to_multiset(), f);
    lemma_filter_add(d.added.to_multiset(), news(d.changed).to_multiset(), f);
    lemma_olds_news_at(d.changed, path);
    if total_at(d.removed.to_multiset(), path) > 0 && total_at(d.added.to_multiset(), path) > 0 {
        let v = lemma_member_at(d.removed.to_multiset(), path);
        let w = lemma_member_at(d.added.to_multiset(), path);
        d.removed.to_multiset_ensures();
        d.added.to_multiset_ensures();
        let i = choose|i: int| 0 <= i < d.removed.len() && d.removed[i] == v;
        let j = choose|j: int| 0 <= j < d.added.len() && d.added[j] == w;
        assert(d.removed[i].path != d.added[j].path);
    }
}

/// The bag holds one value only, however often.
pub open spec fn of_one_kind(m: Multiset<ItemView>) -> bool {
    forall|v: ItemView, w: ItemView| m.count(v) > 0 && m.count(w) > 0 ==> v == w
}

/// Those of a bag's items that live at `path`.
pub open spec fn living_at(m: Multiset<ItemView>, path: PathView) -> Multiset<ItemView> {
    m.filter(on_path(path))
}

/// At `path` there is one way only to pair what went with what came: nothing
/// went, or nothing came, or those of which there are no fewer are all the
/// same item.
pub open spec fn forced_at(rem: Multiset<ItemView>, add: Multiset<ItemView>, path: PathView) -> bool {
    ||| total_at(rem, path) == 0
    ||| total_at(add, path) == 0
    ||| (total_at(rem, path) <= total_at(add, path) && of_one_kind(living_at(add, path)))
    ||| (total_at(add, path) <= total_at(rem, path) && of_one_kind(living_at(rem, path)))
}

/// At every path there is one way only to pair what went with what came.
pub open spec fn forced(rem: Multiset<ItemView>, add: Multiset<ItemView>) -> bool {
    forall|path: PathView| forced_at(rem, add, path)
}

/// Whether the pairing is forced does not depend on which are the items
/// that went and which the items that came.
pub proof fn lemma_forced_both_ways(rem: Multiset<ItemView>, add: Multiset<ItemView>)
    requires
        forced(rem, add),
    ensures
        forced(add, rem),
{
    assert forall|path: PathView| forced_at(add, rem, path) by {
        assert(forced_at(rem, add, path));
    }
}

/// A change read backwards.
pub open spec fn flip(c: ChangeView) -> ChangeView {
    ChangeView { old: c.new, new: c.old }
}

/// Each change of a list read backwards.
pub open spec fn flipped(s: Seq<ChangeView>) -> Seq<ChangeView> {
    Seq::new(s.len(), |i: int| flip(s[i]))
}

/// A difference read backwards: what was removed is added, what was added is
/// removed, and each change goes the other way. The changes keep their places.
pub open spec fn reversed(d: DiffView) -> DiffView {
    DiffView { removed: d.added, changed: flipped(d.changed), added: d.removed }
}

/// A difference read backwards accounts for what came as gone and for what
/// went as come.
pub proof fn lemma_reversed_accounts(d: DiffView, rem: Multiset<ItemView>, add: Multiset<ItemView>)
    requires
        accounts_for(d, rem, add),
    ensures
        accounts_for(reversed(d), add, rem),
{
    assert(olds(flipped(d.changed)) =~= news(d.changed));
    assert(news(flipped(d.changed)) =~= olds(d.changed));
    let r = reversed(d);
    assert forall|i: int| 0 <= i < r.changed.len() implies (#[trigger] r.changed[i]).old.path
        == r.changed[i].new.path by {
        assert(d.changed[i].old.path == d.changed[i].new.path);
    }
    assert forall|i: int, j: int|
        0 <= i < r.removed.len() && 0 <= j < r.added.len() implies (#[trigger] r.removed[i]).path
        != (#[trigger] r.added[j]).path by {
        assert(d.removed[j].path != d.added[i].path);
    }
}

/// A list read backwards holds a change read backwards as often as the list
/// holds the change.
pub proof fn lemma_flipped_count(s: Seq<ChangeView>, c: ChangeView)
    ensures
        flipped(s).to_multiset().count(flip(c)) == s.to_multiset().count(c),
    decreases s.len(),
{
    if s.len() == 0 {
        assert(flipped(s) =~= s);
        s.to_multiset_ensures();
        assert(s.to_multiset() =~= Multiset::empty());
    } else {
        let t = s.drop_last();
        lemma_flipped_count(t, c);
        assert(s =~= t.push(s.last()));
        assert(flipped(s) =~= flipped(t).push(flip(s.last())));
        vstd::seq_lib::to_multiset_build(t, s.last());
        vstd::seq_lib::to_multiset_build(flipped(t), flip(s.last()));
        assert(flip(s.last()) == flip(c) <==> s.last() == c) by {
            assert(flip(flip(s.last())) == s.last());
            assert(flip(flip(c)) == c);
        }
    }
}

/// How often `v` must be removed, where the pairing at its path is forced:
/// if more went than came at the path, as often as it went, less what came.
pub open spec fn removed_count(rem: Multiset<ItemView>, add: Multiset<ItemView>, v: ItemView) -> nat {
    if total_at(rem, v.path) > total_at(add, v.path) && rem.count(v) > 0 {
        (rem.count(v) - total_at(add, v.path)) as nat
    } else {
        0
    }
}

/// How often the change `c` must be made, where the pairing at its path is
/// forced. Where all that came are one item, each item that went is paired
/// with it; else all that went are one item, and it is paired with each that came.
pub open spec fn changed_count(rem: Multiset<ItemView>, add: Multiset<ItemView>, c: ChangeView) -> nat {
    let path = c.old.path;
    if c.new.path != path || total_at(rem, path) == 0 || total_at(add, path) == 0 {
        0
    } else if total_at(rem, path) <= total_at(add, path) && of_one_kind(living_at(add, path)) {
        if add.count(c.new) > 0 {
            rem.count(c.old)
        } else {
            0
        }
    } else {
        if rem.count(c.old) > 0 {
            add.count(c.new)
        } else {
            0
        }
    }
}

/// An item is removed and changed as often as it went, added and changed as
/// often as it came.
pub proof fn lemma_accounted(d: DiffView, rem: Multiset<ItemView>, add: Multiset<ItemView>, v: ItemView)
    requires
        accounts_for(d, rem, add),
    ensures
        d.removed.to_multiset().count(v) + olds(d.changed).to_multiset().count(v) == rem.count(v),
        d.added.to_multiset().count(v) + news(d.changed).to_multiset().count(v) == add.count(v),
{
}

/// What a difference holds of a change, it holds of the change's old item and
/// of its new item, and the two live at one path.
pub proof fn lemma_change_members(
    d: DiffView,
    rem: Multiset<ItemView>,
    add: Multiset<ItemView>,
    c: ChangeView,
)
    requires
        accounts_for(d, rem, add),
        d.changed.to_multiset().count(c) > 0,
    ensures
        c.old.path == c.new.path,
        d.changed.to_multiset().count(c) <= olds(d.changed).to_multiset().count(c.old),
        d.changed.to_multiset().count(c) <= news(d.changed).to_multiset().count(c.new),
        rem.count(c.old) > 0,
        add.count(c.new) > 0,
        total_at(rem, c.old.path) > 0,
        total_at(add, c.old.path) > 0,
{
    d.changed.to_multiset_ensures();
    let i = choose|i: int| 0 <= i < d.changed.len() && d.changed[i] == c;
    assert(d.changed[i].old.path == d.changed[i].new.path);
    lemma_count_olds(d.changed, c.old);
    lemma_count_news(d.changed, c.new);
    assert(d.changed.to_multiset().filter(old_is(c.old)).count(c) == d.changed.to_multiset().count(
        c,
    ));
    assert(d.changed.to_multiset().filter(new_is(c.new)).count(c) == d.changed.to_multiset().count(
        c,
    ));
    lemma_accounted(d, rem, add, c.old);
    lemma_accounted(d, rem, add, c.new);
    lemma_count_within_total(rem, c.old);
    lemma_count_within_total(add, c.new);
}

/// Where the pairing at an item's path is forced, it is settled how often
/// the item is removed.
pub proof fn lemma_removed_count(
    d: DiffView,
    rem: Multiset<ItemView>,
    add: Multiset<ItemView>,
    v: ItemView,
)
    requires
        accounts_for(d, rem, add),
        forced_at(rem, add, v.path),
    ensures
        d.removed.to_multiset().count(v) == removed_count(rem, add, v),
{
    let p = v.path;
    let f = on_path(p);
    lemma_path_totals(d, rem, add, p);
    lemma_accounted(d, rem, add, v);
    lemma_count_within_total(d.removed.to_multiset(), v);
    lemma_count_within_total(olds(d.changed).to_multiset(), v);
    if total_at(rem, p) > total_at(add, p) && total_at(add, p) > 0 && rem.count(v) > 0 {
        assert(of_one_kind(living_at(rem, p)));
        assert forall|w: ItemView| w != v implies living_at(rem, p).count(w) == 0 by {
            assert(living_at(rem, p).count(v) == rem.count(v));
        }
        lemma_len_of_one_kind(living_at(rem, p), v);
        let here = d.removed.to_multiset().filter(f);
        assert forall|w: ItemView| w != v implies here.count(w) == 0 by {
            lemma_accounted(d, rem, add, w);
            assert(living_at(rem, p).count(w) == 0);
        }
        lemma_len_of_one_kind(here, v);
    }
}

/// Where all that came at a path are one item, and no more went than came,
/// each item that went is changed into that item.
proof fn lemma_changed_into_one(
    d: DiffView,
    rem: Multiset<ItemView>,
    add: Multiset<ItemView>,
    c: ChangeView,
)
    requires
        accounts_for(d, rem, add),
        c.old.path == c.new.path,
        0 < total_at(rem, c.old.path) <= total_at(add, c.old.path),
        of_one_kind(living_at(add, c.old.path)),
    ensures
        d.changed.to_multiset().count(c) == if add.count(c.new) > 0 {
            rem.count(c.old)
        } else {
            0
        },
{
    let p = c.old.path;
    lemma_path_totals(d, rem, add, p);
    lemma_accounted(d, rem, add, c.old);
    lemma_count_within_total(d.removed.to_multiset(), c.old);
    if d.changed.to_multiset().count(c) > 0 {
        lemma_change_members(d, rem, add, c);
    }
    if add.count(c.new) > 0 {
        let same_old = d.changed.to_multiset().filter(old_is(c.old));
        lemma_count_olds(d.changed, c.old);
        assert forall|e: ChangeView| e != c implies same_old.count(e) == 0 by {
            if same_old.count(e) > 0 {
                lemma_change_members(d, rem, add, e);
                assert(living_at(add, p).count(e.new) > 0);
                assert(living_at(add, p).count(c.new) > 0);
            }
        }
        lemma_len_of_one_kind(same_old, c);
    }
}

/// Where the pairing at a change's path is forced, it is settled how often
/// the change is made.
pub proof fn lemma_changed_count(
    d: DiffView,
    rem: Multiset<ItemView>,
    add: Multiset<ItemView>,
    c: ChangeView,
)
    requires
        accounts_for(d, rem, add),
        forced_at(rem, add, c.old.path),
    ensures
        d.changed.to_multiset().count(c) == changed_count(rem, add, c),
{
    let p = c.old.path;
    if d.changed.to_multiset().count(c) > 0 {
        lemma_change_members(d, rem, add, c);
    }
    if c.new.path == p && total_at(rem, p) > 0 && total_at(add, p) > 0 {
        if total_at(rem, p) <= total_at(add, p) && of_one_kind(living_at(add, p)) {
            lemma_changed_into_one(d, rem, add, c);
        } else {
            lemma_reversed_accounts(d, rem, add);
            lemma_changed_into_one(reversed(d), add, rem, flip(c));
            lemma_flipped_count(d.changed, c);
        }
    }
}

/// Where the pairing is forced everywhere, sorted changes stay sorted when
/// each is read backwards: the changes of one path differ in their old items
/// only or in their new items only.
pub proof fn lemma_flipped_sorted(d: DiffView, rem: Multiset<ItemView>, add: Multiset<ItemView>)
    requires
        accounts_for(d, rem, add),
        sorted(d.changed),
        forced(rem, add),
    ensures
        sorted(flipped(d.changed)),
{
    let s = d.changed;
    let t = flipped(s);
    assert forall|i: int, j: int| 0 <= i < j < t.len() implies at_most(
        #[trigger] t[i],
        #[trigger] t[j],
    ) by {
        let a = s[i];
        let b = s[j];
        assert(at_most(a, b));
        assert(a.old.path == a.new.path);
        assert(b.old.path == b.new.path);
        s.to_multiset_ensures();
        assert(s.contains(a));
        assert(s.contains(b));
        lemma_change_members(d, rem, add, a);
        lemma_change_members(d, rem, add, b);
        ItemView::lemma_irreflexive(a.new);
        ItemView::lemma_irreflexive(a.old);
        Seq::<Seq<char>>::lemma_irreflexive(a.old.path);
        if a.old.path == b.old.path {
            let p = a.old.path;
            assert(forced_at(rem, add, p));
            assert(living_at(rem, p).count(a.old) > 0);
            assert(living_at(rem, p).count(b.old) > 0);
            assert(living_at(add, p).count(a.new) > 0);
            assert(living_at(add, p).count(b.new) > 0);
        }
    }
}

/// Two differences that account for the same items, where the pairing is
/// forced everywhere, hold the same items and changes equally often.
pub proof fn lemma_same_counts(
    d: DiffView,
    e: DiffView,
    rem: Multiset<ItemView>,
    add: Multiset<ItemView>,
)
    requires
        accounts_for(d, rem, add),
        accounts_for(e, rem, add),
        forced(rem, add),
    ensures
        d.removed.to_multiset() == e.removed.to_multiset(),
        d.changed.to_multiset() == e.changed.to_multiset(),
        d.added.to_multiset() == e.added.to_multiset(),
{
    lemma_reversed_accounts(d, rem, add);
    lemma_reversed_accounts(e, rem, add);
    assert forall|v: ItemView|
        d.removed.to_multiset().count(v) == e.removed.to_multiset().count(v) by {
        assert(forced_at(rem, add, v.path));
        lemma_removed_count(d, rem, add, v);
        lemma_removed_count(e, rem, add, v);
    }
    assert forall|v: ItemView| d.added.to_multiset().count(v) == e.added.to_multiset().count(v) by {
        assert(forced_at(rem, add, v.path));
        lemma_removed_count(reversed(d), add, rem, v);
        lemma_removed_count(reversed(e), add, rem, v);
    }
    assert forall|c: ChangeView|
        d.changed.to_multiset().count(c) == e.changed.to_multiset().count(c) by {
        assert(forced_at(rem, add, c.old.path));
        lemma_changed_count(d, rem, add, c);
        lemma_changed_count(e, rem, add, c);
    }
    assert(d.removed.to_multiset() =~= e.removed.to_multiset());
    assert(d.changed.to_multiset() =~= e.changed.to_multiset());
    assert(d.added.to_multiset() =~= e.added.to_multiset());
}

/// Two sorted differences that hold the same items and changes equally often are equal.
pub proof fn lemma_sorted_same(d: DiffView, e: DiffView)
    requires
        sorted(d.removed),
        sorted(d.changed),
        sorted(d.added),
        sorted(e.removed),
        sorted(e.changed),
        sorted(e.added),
        d.removed.to_multiset() == e.removed.to_multiset(),
        d.changed.to_multiset() == e.changed.to_multiset(),
        d.added.to_multiset() == e.added.to_multiset(),
    ensures
        d == e,
{
    lemma_sorted_unique(d.removed, e.removed);
    lemma_sorted_unique(d.changed, e.changed);
    lemma_sorted_unique(d.added, e.added);
}

} // verus!
