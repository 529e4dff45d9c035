//! Pairing off, path by path, the items that went with the items that came.

use crate::by_path::{at_path, on_path, ItemsWithPath, PathView};
use crate::counting::lemma_count_add;
use crate::diff::{ChangeView, ChangedPublicItem, DiffView};
use crate::item::{ItemView, PublicItem};
use crate::order::sorted;
use vstd::multiset::Multiset;
use vstd::prelude::*;

verus! {

/// The pairs that come of two lists of items when the last of one is paired
/// with the last of the other, then the last but one of each, and so on until
/// one list is used up.
pub open spec fn paired(xs: Seq<ItemView>, ys: Seq<ItemView>) -> Seq<ChangeView> {
    Seq::new(
        if xs.len() <= ys.len() {
            xs.len()
        } else {
            ys.len()
        },
        |i: int| ChangeView { old: xs[xs.len() - 1 - i], new: ys[ys.len() - 1 - i] },
    )
}

/// What is left of `xs` when its last items were paired with those of `ys`,
/// the last one left coming first.
pub open spec fn unpaired(xs: Seq<ItemView>, ys: Seq<ItemView>) -> Seq<ItemView> {
    Seq::new(
        if xs.len() > ys.len() {
            (xs.len() - ys.len()) as nat
        } else {
            0
        },
        |i: int| xs[xs.len() - ys.len() - 1 - i],
    )
}

/// `n`, but at least 0 and at most `top`.
pub open spec fn clip(n: int, top: int) -> int {
    if n < 0 {
        0
    } else if n > top {
        top
    } else {
        n
    }
}

/// Pairs the items removed from one path with the items added to it, from the
/// last of each list backwards. Each pair is a change; what is left of the
/// longer list is removed or added for good.
pub fn pair_off(
    removed_items: Vec<PublicItem>,
    added_items: Vec<PublicItem>,
    removed: &mut Vec<PublicItem>,
    changed: &mut Vec<ChangedPublicItem>,
    added: &mut Vec<PublicItem>,
)
    ensures
        final(removed).deep_view() == old(removed).deep_view() + unpaired(
            removed_items.deep_view(),
            added_items.deep_view(),
        ),
        final(changed).deep_view() == old(changed).deep_view() + paired(
            removed_items.deep_view(),
            added_items.deep_view(),
        ),
        final(added).deep_view() == old(added).deep_view() + unpaired(
            added_items.deep_view(),
            removed_items.deep_view(),
        ),
{
    let ghost xs = removed_items.deep_view();
    let ghost ys = added_items.deep_view();
    let ghost removed_before = removed.deep_view();
    let ghost changed_before = changed.deep_view();
    let ghost added_before = added.deep_view();
    let mut removed_items = removed_items;
    let mut added_items = added_items;
    let ghost mut t: int = 0;
    loop
        invariant
            0 <= t,
            xs.len() >= t || ys.len() >= t,
            removed_items.deep_view() == xs.take(clip(xs.len() - t, xs.len() as int)),
            added_items.deep_view() == ys.take(clip(ys.len() - t, ys.len() as int)),
            removed.deep_view() == removed_before + unpaired(xs, ys).take(
                clip(t - ys.len(), unpaired(xs, ys).len() as int),
            ),
            changed.deep_view() == changed_before + paired(xs, ys).take(
                clip(t, paired(xs, ys).len() as int),
            ),
            added.deep_view() == added_before + unpaired(ys, xs).take(
                clip(t - xs.len(), unpaired(ys, xs).len() as int),
            ),
        ensures
            removed.deep_view() == removed_before + unpaired(xs, ys),
            changed.deep_view() == changed_before + paired(xs, ys),
            added.deep_view() == added_before + unpaired(ys, xs),
        decreases xs.len() + ys.len() - t,
    {
        let ghost removed_now = removed.deep_view();
        let ghost changed_now = changed.deep_view();
        let ghost added_now = added.deep_view();
        let ghost left_x = removed_items.deep_view();
        let ghost left_y = added_items.deep_view();
        match (removed_items.pop(), added_items.pop()) {
            (Some(x), Some(y)) => {
                let ghost c = ChangeView { old: x@, new: y@ };
                changed.push(ChangedPublicItem { old: x, new: y });
                proof {
                    assert(x@ == left_x[left_x.len() - 1]);
                    assert(y@ == left_y[left_y.len() - 1]);
                    assert(changed.deep_view() =~= changed_now.push(c));
                    assert(paired(xs, ys).take(t + 1) =~= paired(xs, ys).take(t).push(c));
                    assert(changed.deep_view() =~= changed_before + paired(xs, ys).take(t + 1));
                    assert(removed_items.deep_view() =~= xs.take(xs.len() - t - 1));
                    assert(added_items.deep_view() =~= ys.take(ys.len() - t - 1));
                }
            },
            (Some(x), None) => {
                removed.push(x);
                proof {
                    let n = t - ys.len();
                    assert(x@ == left_x[left_x.len() - 1]);
                    assert(left_y.len() == 0 && left_x.len() == xs.len() - t);
                    assert(0 <= n < unpaired(xs, ys).len());
                    assert(unpaired(xs, ys)[n] == xs[xs.len() - ys.len() - 1 - n]);
                    assert(unpaired(xs, ys)[n] == x@);
                    assert(removed.deep_view() =~= removed_now.push(x@));
                    assert(unpaired(xs, ys).take(n + 1) =~= unpaired(xs, ys).take(n).push(x@));
                    assert(removed.deep_view() =~= removed_before + unpaired(xs, ys).take(n + 1));
                    assert(removed_items.deep_view() =~= xs.take(xs.len() - t - 1));
                    assert(added_items.deep_view() =~= ys.take(0));
                }
            },
            (None, Some(y)) => {
                added.push(y);
                proof {
                    let n = t - xs.len();
                    assert(y@ == left_y[left_y.len() - 1]);
                    assert(left_x.len() == 0 && left_y.len() == ys.len() - t);
                    assert(0 <= n < unpaired(ys, xs).len());
                    assert(unpaired(ys, xs)[n] == ys[ys.len() - xs.len() - 1 - n]);
                    assert(unpaired(ys, xs)[n] == y@);
                    assert(added.deep_view() =~= added_now.push(y@));
                    assert(unpaired(ys, xs).take(n + 1) =~= unpaired(ys, xs).take(n).push(y@));
                    assert(added.deep_view() =~= added_before + unpaired(ys, xs).take(n + 1));
                    assert(added_items.deep_view() =~= ys.take(ys.len() - t - 1));
                    assert(removed_items.deep_view() =~= xs.take(0));
                }
            },
            (None, None) => {
                proof {
                    assert(left_x.len() == 0 && left_y.len() == 0);
                    assert(t >= xs.len() && t >= ys.len());
                    assert(clip(t - ys.len(), unpaired(xs, ys).len() as int) == unpaired(
                        xs,
                        ys,
                    ).len());
                    assert(clip(t - xs.len(), unpaired(ys, xs).len() as int) == unpaired(
                        ys,
                        xs,
                    ).len());
                    assert(clip(t, paired(xs, ys).len() as int) == paired(xs, ys).len());
                    assert(unpaired(xs, ys).take(unpaired(xs, ys).len() as int) =~= unpaired(
                        xs,
                        ys,
                    ));
                    assert(unpaired(ys, xs).take(unpaired(ys, xs).len() as int) =~= unpaired(
                        ys,
                        xs,
                    ));
                    assert(paired(xs, ys).take(paired(xs, ys).len() as int) =~= paired(xs, ys));
                }
                break ;
            },
        }
        proof {
            t = t + 1;
        }
    }
}

/// How often `v` is left over at its path when what `xs` holds there is paired
/// off with what `ys` holds there.
pub open spec fn left_over(xs: Seq<ItemView>, ys: Seq<ItemView>, v: ItemView) -> nat {
    unpaired(at_path(xs, v.path), at_path(ys, v.path)).to_multiset().count(v)
}

/// How often the pair `c` is made when what `xs` holds at the path of the
/// pair's old item is paired off with what `ys` holds there.
pub open spec fn made_of(xs: Seq<ItemView>, ys: Seq<ItemView>, c: ChangeView) -> nat {
    paired(at_path(xs, c.old.path), at_path(ys, c.old.path)).to_multiset().count(c)
}

/// `d` is what pairing off gives for the removed items `rem` and the added
/// items `add`: path by path the last of those removed is paired with the last
/// of those added, and so on backwards; the pairs are the changes, the rest is
/// removed or added, and each of the three lists is sorted.
pub open spec fn pairs_up(d: DiffView, rem: Seq<ItemView>, add: Seq<ItemView>) -> bool {
    &&& sorted(d.removed)
    &&& sorted(d.changed)
    &&& sorted(d.added)
    &&& forall|v: ItemView| #[trigger] d.removed.to_multiset().count(v) == left_over(rem, add, v)
    &&& forall|c: ChangeView| #[trigger] d.changed.to_multiset().count(c) == made_of(rem, add, c)
    &&& forall|v: ItemView| #[trigger] d.added.to_multiset().count(v) == left_over(add, rem, v)
}

/// `path` is among the first `i` of `paths`.
pub open spec fn listed(paths: Seq<PathView>, i: int, path: PathView) -> bool {
    exists|j: int| 0 <= j < i && j < paths.len() && #[trigger] paths[j] == path
}

/// The first `i + 1` paths are the first `i` and the one at place `i`.
proof fn lemma_listed_next(paths: Seq<PathView>, i: int, path: PathView)
    requires
        0 <= i < paths.len(),
    ensures
        listed(paths, i + 1, path) <==> listed(paths, i, path) || paths[i] == path,
{
    if listed(paths, i, path) {
        let j = choose|j: int| 0 <= j < i && j < paths.len() && #[trigger] paths[j] == path;
        assert(0 <= j < i + 1 && paths[j] == path);
    }
    if paths[i] == path {
        assert(0 <= i < i + 1 && paths[i] == path);
    }
}

/// What is left over of items of one path holds no item of another path.
proof fn lemma_unpaired_elsewhere(xs: Seq<ItemView>, ys: Seq<ItemView>, path: PathView, v: ItemView)
    requires
        forall|j: int| 0 <= j < xs.len() ==> (#[trigger] xs[j]).path == path,
        v.path != path,
    ensures
        unpaired(xs, ys).to_multiset().count(v) == 0,
{
    let u = unpaired(xs, ys);
    u.to_multiset_ensures();
    if u.contains(v) {
        let i = choose|i: int| 0 <= i < u.len() && u[i] == v;
        assert(xs[xs.len() - ys.len() - 1 - i].path == path);
    }
}

/// The pairs made of items of one path hold no old item of another path.
proof fn lemma_paired_elsewhere(xs: Seq<ItemView>, ys: Seq<ItemView>, path: PathView, c: ChangeView)
    requires
        forall|j: int| 0 <= j < xs.len() ==> (#[trigger] xs[j]).path == path,
        c.old.path != path,
    ensures
        paired(xs, ys).to_multiset().count(c) == 0,
{
    let u = paired(xs, ys);
    u.to_multiset_ensures();
    if u.contains(c) {
        let i = choose|i: int| 0 <= i < u.len() && u[i] == c;
        assert(xs[xs.len() - 1 - i].path == path);
    }
}

/// What `items` holds at `path`, unless `path` is among the first `i` of
/// `paths`: then nothing.
pub open spec fn still_at(items: Seq<ItemView>, paths: Seq<PathView>, i: int, path: PathView) -> Seq<
    ItemView,
> {
    if listed(paths, i, path) {
        Seq::empty()
    } else {
        at_path(items, path)
    }
}

/// `out` holds what is left over of `xs` against `ys` at the first `i` of
/// `paths`, and nothing else.
pub open spec fn left_over_so_far(
    out: Seq<ItemView>,
    xs: Seq<ItemView>,
    ys: Seq<ItemView>,
    paths: Seq<PathView>,
    i: int,
) -> bool {
    forall|v: ItemView| #[trigger]
        out.to_multiset().count(v) == if listed(paths, i, v.path) {
            left_over(xs, ys, v)
        } else {
            0
        }
}

/// `out` holds the pairs made of `xs` and `ys` at the first `i` of `paths`,
/// and nothing else.
pub open spec fn made_so_far(
    out: Seq<ChangeView>,
    xs: Seq<ItemView>,
    ys: Seq<ItemView>,
    paths: Seq<PathView>,
    i: int,
) -> bool {
    forall|c: ChangeView| #[trigger]
        out.to_multiset().count(c) == if listed(paths, i, c.old.path) {
            made_of(xs, ys, c)
        } else {
            0
        }
}

/// The map still groups what `items` holds at each path that is not among
/// the first `i` of `paths`, it holds nothing for those that are, and it has
/// groups for none but the paths listed.
pub open spec fn map_so_far(
    map: ItemsWithPath,
    items: Seq<ItemView>,
    paths: Seq<PathView>,
    i: int,
) -> bool {
    &&& map.wf()
    &&& forall|p: PathView| #[trigger] map.items_at(p) == still_at(items, paths, i, p)
    &&& forall|p: PathView| #[trigger] map.has(p) ==> listed(paths, paths.len() as int, p)
}

/// What is still at a path lives there.
proof fn lemma_items_of_path(items: Seq<ItemView>, paths: Seq<PathView>, i: int, path: PathView)
    ensures
        forall|j: int|
            0 <= j < still_at(items, paths, i, path).len() ==> (#[trigger] still_at(
                items,
                paths,
                i,
                path,
            )[j]).path == path,
{
    let s = still_at(items, paths, i, path);
    assert forall|j: int| 0 <= j < s.len() implies (#[trigger] s[j]).path == path by {
        items.lemma_filter_pred(on_path(path), j);
    }
}

/// Pairing off at the next path adds what is left over there, and nothing
/// that lives elsewhere.
pub(crate) proof fn lemma_left_over_step(
    out: Seq<ItemView>,
    xs: Seq<ItemView>,
    ys: Seq<ItemView>,
    paths: Seq<PathView>,
    i: int,
)
    requires
        0 <= i < paths.len(),
        left_over_so_far(out, xs, ys, paths, i),
    ensures
        left_over_so_far(
            out + unpaired(still_at(xs, paths, i, paths[i]), still_at(ys, paths, i, paths[i])),
            xs,
            ys,
            paths,
            i + 1,
        ),
{
    let q = paths[i];
    let here_x = still_at(xs, paths, i, q);
    let here_y = still_at(ys, paths, i, q);
    let more = unpaired(here_x, here_y);
    lemma_items_of_path(xs, paths, i, q);
    assert forall|v: ItemView| #[trigger]
        (out + more).to_multiset().count(v) == if listed(paths, i + 1, v.path) {
            left_over(xs, ys, v)
        } else {
            0
        } by {
        lemma_count_add(out, more, v);
        lemma_listed_next(paths, i, v.path);
        assert(out.to_multiset().count(v) == if listed(paths, i, v.path) {
            left_over(xs, ys, v)
        } else {
            0
        });
        if v.path != q {
            lemma_unpaired_elsewhere(here_x, here_y, q, v);
        } else if listed(paths, i, q) {
            assert(more =~= Seq::empty());
            more.to_multiset_ensures();
        }
    }
}

/// Pairing off at the next path adds the pairs made there, and none of
/// another path.
pub(crate) proof fn lemma_made_step(
    out: Seq<ChangeView>,
    xs: Seq<ItemView>,
    ys: Seq<ItemView>,
    paths: Seq<PathView>,
    i: int,
)
    requires
        0 <= i < paths.len(),
        made_so_far(out, xs, ys, paths, i),
    ensures
        made_so_far(
            out + paired(still_at(xs, paths, i, paths[i]), still_at(ys, paths, i, paths[i])),
            xs,
            ys,
            paths,
            i + 1,
        ),
{
    let q = paths[i];
    let here_x = still_at(xs, paths, i, q);
    let here_y = still_at(ys, paths, i, q);
    let more = paired(here_x, here_y);
    lemma_items_of_path(xs, paths, i, q);
    assert forall|c: ChangeView| #[trigger]
        (out + more).to_multiset().count(c) == if listed(paths, i + 1, c.old.path) {
            made_of(xs, ys, c)
        } else {
            0
        } by {
        lemma_count_add(out, more, c);
        lemma_listed_next(paths, i, c.old.path);
        assert(out.to_multiset().count(c) == if listed(paths, i, c.old.path) {
            made_of(xs, ys, c)
        } else {
            0
        });
        if c.old.path != q {
            lemma_paired_elsewhere(here_x, here_y, q, c);
        } else if listed(paths, i, q) {
            assert(more =~= Seq::empty());
            more.to_multiset_ensures();
        }
    }
}

/// Takes what the map groups under the path at place `i` of `paths`.
pub(crate) fn take_group(map: &mut ItemsWithPath, path: &Vec<String>, Ghost(items): Ghost<Seq<ItemView>>, Ghost(
    paths,
): Ghost<Seq<PathView>>, Ghost(i): Ghost<int>) -> (taken: Vec<PublicItem>)
    requires
        0 <= i < paths.len(),
        paths[i] == path.deep_view(),
        map_so_far(*old(map), items, paths, i),
    ensures
        map_so_far(*final(map), items, paths, i + 1),
        taken.deep_view() == still_at(items, paths, i, paths[i]),
{
    let ghost before = *map;
    let taken = match map.remove(path) {
        Some(group) => group,
        None => Vec::new(),
    };
    proof {
        let after = *map;
        assert(before.items_at(paths[i]) == still_at(items, paths, i, paths[i]));
        assert(taken.deep_view() =~= before.items_at(paths[i]));
        assert forall|p: PathView| #[trigger] after.items_at(p) == still_at(items, paths, i + 1, p) by {
            lemma_listed_next(paths, i, p);
            assert(before.items_at(p) == still_at(items, paths, i, p));
        }
        assert forall|p: PathView| #[trigger] after.has(p) implies listed(
            paths,
            paths.len() as int,
            p,
        ) by {
            assert(before.has(p));
        }
    }
    taken
}

/// At a path that was never listed neither list holds an item, so that
/// nothing is paired and nothing left over there.
pub(crate) proof fn lemma_nothing_elsewhere(
    removed_paths: ItemsWithPath,
    added_paths: ItemsWithPath,
    rem: Seq<ItemView>,
    add: Seq<ItemView>,
    paths: Seq<PathView>,
    path: PathView,
)
    requires
        map_so_far(removed_paths, rem, paths, paths.len() as int),
        map_so_far(added_paths, add, paths, paths.len() as int),
        !listed(paths, paths.len() as int, path),
    ensures
        unpaired(at_path(rem, path), at_path(add, path)).to_multiset() == Multiset::<
            ItemView,
        >::empty(),
        unpaired(at_path(add, path), at_path(rem, path)).to_multiset() == Multiset::<
            ItemView,
        >::empty(),
        paired(at_path(rem, path), at_path(add, path)).to_multiset() == Multiset::<
            ChangeView,
        >::empty(),
{
    let n = paths.len() as int;
    assert(removed_paths.items_at(path) == still_at(rem, paths, n, path));
    assert(added_paths.items_at(path) == still_at(add, paths, n, path));
    assert(!removed_paths.has(path));
    assert(!added_paths.has(path));
    let x = at_path(rem, path);
    let y = at_path(add, path);
    assert(x.len() == 0 && y.len() == 0);
    assert(unpaired(x, y) =~= Seq::empty());
    assert(unpaired(y, x) =~= Seq::empty());
    assert(paired(x, y) =~= Seq::empty());
    unpaired(x, y).to_multiset_ensures();
    paired(x, y).to_multiset_ensures();
    assert(unpaired(x, y).to_multiset() =~= Multiset::<ItemView>::empty());
    assert(unpaired(y, x).to_multiset() =~= Multiset::<ItemView>::empty());
    assert(paired(x, y).to_multiset() =~= Multiset::<ChangeView>::empty());
}

} // verus!
