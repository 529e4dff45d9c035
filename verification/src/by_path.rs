//! Items grouped by the path they live at.

use crate::item::{ItemView, PublicItem};
use crate::order::{compare_seqs, lemma_asymmetric, Relation, StrictOrder};
use vstd::prelude::*;

verus! {

/// What a path stands for: its segments, outermost first.
pub type PathView = Seq<Seq<char>>;

/// `n` copies of `v`.
pub open spec fn repeat(v: ItemView, n: nat) -> Seq<ItemView> {
    Seq::new(n, |i: int| v)
}

/// The items that a list of counted values stands for: each value as often as
/// its count says, in the order of the list.
pub open spec fn expand(counted: Seq<(ItemView, usize)>) -> Seq<ItemView>
    decreases counted.len(),
{
    if counted.len() == 0 {
        Seq::empty()
    } else {
        expand(counted.drop_last()) + repeat(counted.last().0, counted.last().1 as nat)
    }
}

/// The test whether an item lives at `path`.
pub open spec fn on_path(path: PathView) -> spec_fn(ItemView) -> bool {
    |v: ItemView| v.path == path
}

/// Those of `items` that live at `path`, in their order.
pub open spec fn at_path(items: Seq<ItemView>, path: PathView) -> Seq<ItemView> {
    items.filter(on_path(path))
}

/// Of copies of one item, a path selects all or none.
pub proof fn lemma_at_path_repeat(v: ItemView, n: nat, path: PathView)
    ensures
        at_path(repeat(v, n), path) == if v.path == path {
            repeat(v, n)
        } else {
            Seq::empty()
        },
    decreases n,
{
    reveal(Seq::filter);
    if n > 0 {
        lemma_at_path_repeat(v, (n - 1) as nat, path);
        assert(repeat(v, n).drop_last() =~= repeat(v, (n - 1) as nat));
        assert(repeat(v, (n - 1) as nat).push(v) =~= repeat(v, n));
    } else {
        assert(repeat(v, n) =~= Seq::empty());
    }
}

/// A further counted value adds its copies at its own path and nothing elsewhere.
pub proof fn lemma_at_path_expand_push(
    counted: Seq<(ItemView, usize)>,
    next: (ItemView, usize),
    path: PathView,
)
    ensures
        at_path(expand(counted.push(next)), path) == if next.0.path == path {
            at_path(expand(counted), path) + repeat(next.0, next.1 as nat)
        } else {
            at_path(expand(counted), path)
        },
{
    assert(counted.push(next).drop_last() =~= counted);
    Seq::filter_distributes_over_add(expand(counted), repeat(next.0, next.1 as nat), on_path(path));
    lemma_at_path_repeat(next.0, next.1 as nat, path);
    assert(at_path(expand(counted), path) + Seq::<ItemView>::empty() =~= at_path(
        expand(counted),
        path,
    ));
}

/// The items that live at one path.
pub struct PathGroup {
    pub path: Vec<String>,
    pub items: Vec<PublicItem>,
}

impl PathGroup {
    /// Every item of the group lives at the group's path.
    pub open spec fn wf(&self) -> bool {
        forall|j: int|
            0 <= j < self.items.len() ==> (#[trigger] self.items.deep_view()[j]).path
                == self.path.deep_view()
    }
}

/// Items grouped by path: one group for each path, the groups in the order
/// of their paths.
pub struct ItemsWithPath {
    pub groups: Vec<PathGroup>,
}

impl ItemsWithPath {
    /// The path of the group at place `i`.
    pub open spec fn path_of(&self, i: int) -> PathView {
        self.groups@[i].path.deep_view()
    }

    /// Each group holds items of its own path only, and the paths of the
    /// groups ascend.
    pub open spec fn wf(&self) -> bool {
        &&& forall|i: int| 0 <= i < self.groups.len() ==> (#[trigger] self.groups@[i]).wf()
        &&& forall|i: int, j: int|
            0 <= i < j < self.groups.len() ==> (#[trigger] self.path_of(i)).lt(
                #[trigger] self.path_of(j),
            )
    }

    /// There is a group for `path`.
    pub open spec fn has(&self, path: PathView) -> bool {
        exists|i: int| 0 <= i < self.groups.len() && #[trigger] self.path_of(i) == path
    }

    /// The items grouped under `path`, in the order they were added; none if
    /// there is no group for it.
    pub open spec fn items_at(&self, path: PathView) -> Seq<ItemView> {
        if self.has(path) {
            let i = choose|i: int| 0 <= i < self.groups.len() && #[trigger] self.path_of(i) == path;
            self.groups@[i].items.deep_view()
        } else {
            Seq::empty()
        }
    }

    /// No two groups share a path.
    pub proof fn lemma_paths_differ(&self, i: int, j: int)
        requires
            self.wf(),
            0 <= i < self.groups.len(),
            0 <= j < self.groups.len(),
            i != j,
        ensures
            self.path_of(i) != self.path_of(j),
    {
        if i < j {
            lemma_asymmetric(self.path_of(i), self.path_of(j));
        } else {
            lemma_asymmetric(self.path_of(j), self.path_of(i));
        }
    }

    /// The group at place `i` is the group for its path.
    pub proof fn lemma_group(&self, i: int)
        requires
            self.wf(),
            0 <= i < self.groups.len(),
        ensures
            self.has(self.path_of(i)),
            self.items_at(self.path_of(i)) == self.groups@[i].items.deep_view(),
    {
        let p = self.path_of(i);
        let k = choose|k: int| 0 <= k < self.groups.len() && #[trigger] self.path_of(k) == p;
        if k != i {
            self.lemma_paths_differ(i, k);
        }
    }

    /// A map without groups.
    pub fn new() -> (map: Self)
        ensures
            map.wf(),
            forall|p: PathView| !map.has(p),
    {
        ItemsWithPath { groups: Vec::new() }
    }

    /// The place of the group for `path` and `true`, if there is one; else
    /// the place where it would have to stand, and `false`.
    pub fn locate(&self, path: &Vec<String>) -> (place: (usize, bool))
        requires
            self.wf(),
        ensures
            place.0 <= self.groups.len(),
            place.1 ==> place.0 < self.groups.len() && self.path_of(place.0 as int)
                == path.deep_view(),
            !place.1 ==> !self.has(path.deep_view()),
            forall|k: int| 0 <= k < place.0 ==> (#[trigger] self.path_of(k)).lt(path.deep_view()),
            !place.1 ==> forall|k: int|
                place.0 <= k < self.groups.len() ==> path.deep_view().lt(#[trigger] self.path_of(k)),
    {
        let ghost p = path.deep_view();
        let mut lo: usize = 0;
        let mut hi: usize = self.groups.len();
        while lo < hi
            invariant
                lo <= hi <= self.groups.len(),
                p == path.deep_view(),
                self.wf(),
                forall|k: int| 0 <= k < lo ==> (#[trigger] self.path_of(k)).lt(p),
                forall|k: int| hi <= k < self.groups.len() ==> p.lt(#[trigger] self.path_of(k)),
            decreases hi - lo,
        {
            let mid = lo + (hi - lo) / 2;
            let ghost m = self.path_of(mid as int);
            match compare_seqs(&self.groups[mid].path, path) {
                Relation::Same => {
                    return (mid, true);
                },
                Relation::Before => {
                    assert forall|k: int| 0 <= k < mid + 1 implies (#[trigger] self.path_of(k)).lt(
                        p,
                    ) by {
                        if k < mid {
                            assert(self.path_of(k).lt(m));
                            PathView::lemma_transitive(self.path_of(k), m, p);
                        }
                    }
                    lo = mid + 1;
                },
                Relation::After => {
                    proof {
                        PathView::lemma_connected(m, p);
                    }
                    assert forall|k: int| mid <= k < self.groups.len() implies p.lt(
                        #[trigger] self.path_of(k),
                    ) by {
                        if k > mid {
                            assert(m.lt(self.path_of(k)));
                            PathView::lemma_transitive(p, m, self.path_of(k));
                        }
                    }
                    hi = mid;
                },
            }
        }
        proof {
            if self.has(p) {
                let k = choose|k: int| 0 <= k < self.groups.len() && #[trigger] self.path_of(k) == p;
                PathView::lemma_irreflexive(p);
                if k < lo {
                    assert(self.path_of(k).lt(p));
                } else {
                    assert(p.lt(self.path_of(k)));
                }
            }
        }
        (lo, false)
    }

    /// The place of the group for `path`, if there is one.
    pub fn position(&self, path: &Vec<String>) -> (at: Option<usize>)
        requires
            self.wf(),
        ensures
            match at {
                Some(i) => i < self.groups.len() && self.path_of(i as int) == path.deep_view(),
                None => !self.has(path.deep_view()),
            },
    {
        let (at, found) = self.locate(path);
        if found {
            Some(at)
        } else {
            None
        }
    }

    /// The place of the group for `path`, which is made if there is none:
    /// a group without items.
    pub fn position_or_insert(&mut self, path: &Vec<String>) -> (at: usize)
        requires
            old(self).wf(),
        ensures
            final(self).wf(),
            at < final(self).groups.len(),
            final(self).path_of(at as int) == path.deep_view(),
            forall|p: PathView| final(self).has(p) <==> old(self).has(p) || p == path.deep_view(),
            forall|p: PathView| final(self).items_at(p) == old(self).items_at(p),
    {
        let ghost before = *self;
        let (at, found) = self.locate(path);
        if !found {
            let group = PathGroup { path: copy_path(path), items: Vec::new() };
            assert(group.wf());
            self.groups.insert(at, group);
            proof {
                let after = *self;
                let q = path.deep_view();
                assert forall|k: int| 0 <= k < after.groups.len() implies #[trigger] after.path_of(k)
                    == (if k < at {
                    before.path_of(k)
                } else if k == at {
                    q
                } else {
                    before.path_of(k - 1)
                }) && (k != at ==> after.groups@[k] == before.groups@[if k < at {
                    k
                } else {
                    k - 1
                }]) by {}
                assert(after.wf()) by {
                    assert forall|i: int| 0 <= i < after.groups.len() implies (
                    #[trigger] after.groups@[i]).wf() by {
                        if i != at {
                            assert(before.groups@[if i < at { i } else { i - 1 }].wf());
                        }
                    }
                    assert forall|i: int, j: int| 0 <= i < j < after.groups.len() implies (
                    #[trigger] after.path_of(i)).lt(#[trigger] after.path_of(j)) by {
                        let bi = if i < at { i } else { i - 1 };
                        let bj = if j < at { j } else { j - 1 };
                        if i == at {
                            assert(q.lt(before.path_of(bj)));
                        } else if j == at {
                            assert(before.path_of(bi).lt(q));
                        } else {
                            assert(before.path_of(bi).lt(before.path_of(bj)));
                        }
                    }
                }
                assert forall|p: PathView| after.has(p) <==> before.has(p) || p == q by {
                    if before.has(p) {
                        let i = choose|i: int|
                            0 <= i < before.groups.len() && #[trigger] before.path_of(i) == p;
                        assert(after.path_of(if i < at { i } else { i + 1 }) == p);
                    }
                    if p == q {
                        assert(after.path_of(at as int) == p);
                    }
                    if after.has(p) && p != q {
                        let k = choose|k: int|
                            0 <= k < after.groups.len() && #[trigger] after.path_of(k) == p;
                        assert(before.path_of(if k < at { k } else { k - 1 }) == p);
                    }
                }
                assert forall|p: PathView| after.items_at(p) == before.items_at(p) by {
                    if p == q {
                        after.lemma_group(at as int);
                        assert(after.groups@[at as int].items.deep_view() =~= Seq::<
                            ItemView,
                        >::empty());
                    } else if before.has(p) {
                        let i = choose|i: int|
                            0 <= i < before.groups.len() && #[trigger] before.path_of(i) == p;
                        before.lemma_group(i);
                        let k = if i < at { i } else { i + 1 };
                        assert(after.path_of(k) == p);
                        after.lemma_group(k);
                    }
                }
            }
        }
        at
    }

    /// Puts `occurrences` copies of `item` behind the items grouped under its
    /// path, in a new group if the path had none.
    pub fn add(&mut self, item: &PublicItem, occurrences: usize)
        requires
            old(self).wf(),
        ensures
            final(self).wf(),
            final(self).items_at(item@.path) == old(self).items_at(item@.path) + repeat(
                item@,
                occurrences as nat,
            ),
            forall|p: PathView| p != item@.path ==> final(self).items_at(p) == old(self).items_at(p),
            forall|p: PathView| final(self).has(p) <==> old(self).has(p) || p == item@.path,
    {
        let ghost before = *self;
        let mut copies = copies_of(item, occurrences);
        let at = self.position_or_insert(&item.path);
        let ghost between = *self;
        proof {
            between.lemma_group(at as int);
            assert(between.items_at(item@.path) == before.items_at(item@.path));
        }
        self.groups[at].items.append(&mut copies);
        proof {
            let after = *self;
            assert(after.groups@.len() == between.groups@.len());
            assert(forall|i: int|
                0 <= i < after.groups.len() ==> #[trigger] after.path_of(i) == between.path_of(i));
            assert(forall|i: int|
                0 <= i < after.groups.len() && i != at ==> after.groups@[i] == between.groups@[i]);
            assert(after.groups@[at as int].items.deep_view() =~= before.items_at(item@.path)
                + repeat(item@, occurrences as nat));
            assert(after.groups@[at as int].wf()) by {
                assert(between.groups@[at as int].wf());
            }
            assert(after.wf()) by {
                assert forall|i: int| 0 <= i < after.groups.len() implies (
                #[trigger] after.groups@[i]).wf() by {
                    if i != at {
                        assert(between.groups@[i].wf());
                    }
                }
                assert forall|i: int, j: int| 0 <= i < j < after.groups.len() implies (
                #[trigger] after.path_of(i)).lt(#[trigger] after.path_of(j)) by {
                    assert(between.path_of(i).lt(between.path_of(j)));
                }
            }
            after.lemma_group(at as int);
            assert forall|p: PathView| after.has(p) <==> between.has(p) by {
                if between.has(p) {
                    let i = choose|i: int|
                        0 <= i < between.groups.len() && #[trigger] between.path_of(i) == p;
                    assert(after.path_of(i) == p);
                }
                if after.has(p) {
                    let i = choose|i: int|
                        0 <= i < after.groups.len() && #[trigger] after.path_of(i) == p;
                    assert(between.path_of(i) == p);
                }
            }
            assert forall|p: PathView| p != item@.path implies after.items_at(p)
                == before.items_at(p) by {
                assert(between.items_at(p) == before.items_at(p));
                if between.has(p) {
                    let i = choose|i: int|
                        0 <= i < between.groups.len() && #[trigger] between.path_of(i) == p;
                    between.lemma_group(i);
                    assert(after.path_of(i) == p);
                    after.lemma_group(i);
                }
            }
        }
    }

    /// Takes the group for `path` out of the map and hands out its items.
    pub fn remove(&mut self, path: &Vec<String>) -> (taken: Option<Vec<PublicItem>>)
        requires
            old(self).wf(),
        ensures
            final(self).wf(),
            match taken {
                Some(items) => old(self).has(path.deep_view()) && items.deep_view() == old(
                    self,
                ).items_at(path.deep_view()),
                None => !old(self).has(path.deep_view()),
            },
            !final(self).has(path.deep_view()),
            forall|p: PathView| p != path.deep_view() ==> final(self).has(p) == old(self).has(p),
            forall|p: PathView|
                p != path.deep_view() ==> final(self).items_at(p) == old(self).items_at(p),
    {
        let ghost before = *self;
        match self.position(path) {
            None => None,
            Some(at) => {
                let group = self.groups.remove(at);
                proof {
                    let after = *self;
                    before.lemma_group(at as int);
                    assert forall|i: int| 0 <= i < after.groups.len() implies #[trigger] after.path_of(
                        i,
                    ) == before.path_of(if i < at { i } else { i + 1 }) && after.groups@[i]
                        == before.groups@[if i < at { i } else { i + 1 }] by {}
                    assert(after.wf()) by {
                        assert forall|i: int| 0 <= i < after.groups.len() implies (
                        #[trigger] after.groups@[i]).wf() by {
                            assert(before.groups@[if i < at { i } else { i + 1 }].wf());
                        }
                        assert forall|i: int, j: int| 0 <= i < j < after.groups.len() implies (
                        #[trigger] after.path_of(i)).lt(#[trigger] after.path_of(j)) by {
                            assert(before.path_of(if i < at { i } else { i + 1 }).lt(
                                before.path_of(if j < at { j } else { j + 1 }),
                            ));
                        }
                    }
                    assert(!after.has(path.deep_view())) by {
                        if after.has(path.deep_view()) {
                            let i = choose|i: int|
                                0 <= i < after.groups.len() && #[trigger] after.path_of(i)
                                    == path.deep_view();
                            before.lemma_paths_differ(if i < at { i } else { i + 1 }, at as int);
                        }
                    }
                    assert forall|p: PathView| p != path.deep_view() implies (after.has(p)
                        == before.has(p) && after.items_at(p) == before.items_at(p)) by {
                        if before.has(p) {
                            let i = choose|i: int|
                                0 <= i < before.groups.len() && #[trigger] before.path_of(i) == p;
                            before.lemma_group(i);
                            let k = if i < at { i } else { i - 1 };
                            assert(after.path_of(k) == p);
                            after.lemma_group(k);
                        }
                        if after.has(p) {
                            let i = choose|i: int|
                                0 <= i < after.groups.len() && #[trigger] after.path_of(i) == p;
                            assert(before.path_of(if i < at { i } else { i + 1 }) == p);
                        }
                    }
                }
                Some(group.items)
            },
        }
    }

    /// The paths that the map has a group for, in ascending order.
    pub fn keys(&self) -> (paths: Vec<Vec<String>>)
        ensures
            paths.len() == self.groups.len(),
            forall|k: int| 0 <= k < paths.len() ==> #[trigger] paths.deep_view()[k] == self.path_of(k),
            forall|p: PathView| self.has(p) <==> paths.deep_view().contains(p),
    {
        let mut paths: Vec<Vec<String>> = Vec::new();
        let mut i: usize = 0;
        while i < self.groups.len()
            invariant
                i <= self.groups.len(),
                paths.len() == i,
                forall|k: int| 0 <= k < i ==> #[trigger] paths.deep_view()[k] == self.path_of(k),
            decreases self.groups.len() - i,
        {
            let ghost listed = paths.deep_view();
            paths.push(copy_path(&self.groups[i].path));
            assert(paths.deep_view() =~= listed.push(self.path_of(i as int)));
            i += 1;
        }
        proof {
            assert forall|p: PathView| self.has(p) <==> paths.deep_view().contains(p) by {
                if self.has(p) {
                    let k = choose|k: int|
                        0 <= k < self.groups.len() && #[trigger] self.path_of(k) == p;
                    assert(paths.deep_view()[k] == p);
                }
                if paths.deep_view().contains(p) {
                    let k = choose|k: int|
                        0 <= k < paths.deep_view().len() && paths.deep_view()[k] == p;
                    assert(self.path_of(k) == p);
                }
            }
        }
        paths
    }
}

/// One of the first `k` counted values lives at `path`.
pub open spec fn names_path(counted: Seq<(ItemView, usize)>, k: int, path: PathView) -> bool {
    exists|j: int| 0 <= j < k && j < counted.len() && (#[trigger] counted[j]).0.path == path
}

/// The paths named by the first `k + 1` counted values are those named by the
/// first `k`, and the path of the value at place `k`.
pub proof fn lemma_names_path_next(counted: Seq<(ItemView, usize)>, k: int, path: PathView)
    requires
        0 <= k < counted.len(),
    ensures
        names_path(counted, k + 1, path) <==> names_path(counted, k, path) || counted[k].0.path
            == path,
{
    if names_path(counted, k, path) {
        let j = choose|j: int| 0 <= j < k && j < counted.len() && (#[trigger] counted[j]).0.path == path;
        assert(0 <= j < k + 1 && counted[j].0.path == path);
    }
    if counted[k].0.path == path {
        assert(0 <= k < k + 1 && counted[k].0.path == path);
    }
}

/// Groups counted items by path: there is a group for each path that the
/// list names, and under each path stand, in the order of the list, the
/// copies of every item that lives there.
pub fn bag_to_path_map(difference: Vec<(PublicItem, usize)>) -> (map: ItemsWithPath)
    ensures
        map.wf(),
        forall|p: PathView| map.items_at(p) == at_path(expand(difference.deep_view()), p),
        forall|p: PathView| map.has(p) <==> names_path(difference.deep_view(), difference.len() as int, p),
{
    let ghost counted = difference.deep_view();
    let mut map = ItemsWithPath::new();
    let mut k: usize = 0;
    proof {
        reveal(Seq::filter);
        assert(counted.take(0) =~= Seq::empty());
    }
    while k < difference.len()
        invariant
            k <= difference.len(),
            counted == difference.deep_view(),
            map.wf(),
            forall|p: PathView| #[trigger] map.items_at(p) == at_path(expand(counted.take(k as int)), p),
            forall|p: PathView| #[trigger] map.has(p) <==> names_path(counted, k as int, p),
        decreases difference.len() - k,
    {
        let ghost before = map;
        map.add(&difference[k].0, difference[k].1);
        proof {
            let next = counted[k as int];
            assert(next.0 == difference@[k as int].0@);
            assert(next.1 == difference@[k as int].1);
            assert(counted.take(k + 1) =~= counted.take(k as int).push(next));
            assert forall|p: PathView| #[trigger] map.items_at(p) == at_path(
                expand(counted.take(k + 1)),
                p,
            ) by {
                lemma_at_path_expand_push(counted.take(k as int), next, p);
                assert(before.items_at(p) == at_path(expand(counted.take(k as int)), p));
            }
            assert forall|p: PathView| #[trigger] map.has(p) <==> names_path(counted, k + 1, p) by {
                lemma_names_path_next(counted, k as int, p);
                assert(before.has(p) <==> names_path(counted, k as int, p));
            }
        }
        k += 1;
    }
    proof {
        assert(counted.take(k as int) =~= counted);
    }
    map
}

/// A copy of a path.
pub fn copy_path(path: &Vec<String>) -> (r: Vec<String>)
    ensures
        r.deep_view() == path.deep_view(),
{
    let r = path.clone();
    assert(r.deep_view() =~= path.deep_view());
    r
}

/// `n` copies of an item.
pub fn copies_of(item: &PublicItem, n: usize) -> (r: Vec<PublicItem>)
    ensures
        r.deep_view() == repeat(item@, n as nat),
{
    let mut r: Vec<PublicItem> = Vec::new();
    let mut k: usize = 0;
    while k < n
        invariant
            k <= n,
            r.deep_view() =~= repeat(item@, k as nat),
        decreases n - k,
    {
        let ghost before = r.deep_view();
        let copy = item.clone();
        assert(copy@ == item@);
        r.push(copy);
        assert(r.deep_view() =~= before.push(item@));
        k += 1;
    }
    r
}

} // verus!
