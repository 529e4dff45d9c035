//! Strict total orders on mathematical values, and three-way comparison of the
//! executable values that stand for them.

use core::cmp::Ordering;
use vstd::prelude::*;
use vstd::std_specs::iter::IteratorSpec;

verus! {

/// A strict total order on the values of a type.
pub trait StrictOrder: Sized {
    /// `self` comes strictly before `other`.
    spec fn lt(self, other: Self) -> bool;

    /// No value comes before itself.
    proof fn lemma_irreflexive(x: Self)
        ensures
            !x.lt(x),
    ;

    /// What comes before a value comes before all that the value comes before.
    proof fn lemma_transitive(x: Self, y: Self, z: Self)
        requires
            x.lt(y),
            y.lt(z),
        ensures
            x.lt(z),
    ;

    /// Of two different values one comes before the other.
    proof fn lemma_connected(x: Self, y: Self)
        ensures
            x == y || x.lt(y) || y.lt(x),
    ;
}

/// How one value stands to another in a strict total order.
#[derive(Clone, Copy, Debug, PartialEq, Eq, Structural)]
pub enum Relation {
    Before,
    Same,
    After,
}

impl Relation {
    /// The same in the words of the standard library.
    pub open spec fn ordering(self) -> Ordering {
        match self {
            Relation::Before => Ordering::Less,
            Relation::Same => Ordering::Equal,
            Relation::After => Ordering::Greater,
        }
    }

    /// The same in the words of the standard library.
    pub fn to_ordering(self) -> (o: Ordering)
        ensures
            o == self.ordering(),
    {
        match self {
            Relation::Before => Ordering::Less,
            Relation::Same => Ordering::Equal,
            Relation::After => Ordering::Greater,
        }
    }
}

/// The relation of `a` to `b`.
pub open spec fn relation<T: StrictOrder>(a: T, b: T) -> Relation {
    if a == b {
        Relation::Same
    } else if a.lt(b) {
        Relation::Before
    } else {
        Relation::After
    }
}

/// `a` is `b` or comes before it.
pub open spec fn at_most<T: StrictOrder>(a: T, b: T) -> bool {
    a == b || a.lt(b)
}

/// Every element is at most each element after it.
pub open spec fn sorted<T: StrictOrder>(s: Seq<T>) -> bool {
    forall|i: int, j: int| 0 <= i < j < s.len() ==> at_most(#[trigger] s[i], #[trigger] s[j])
}

/// No two values come before each other.
pub proof fn lemma_asymmetric<T: StrictOrder>(x: T, y: T)
    requires
        x.lt(y),
    ensures
        !y.lt(x),
        x != y,
{
    T::lemma_irreflexive(x);
    if y.lt(x) {
        T::lemma_transitive(x, y, x);
    }
}

/// `at_most` is transitive.
pub proof fn lemma_at_most_transitive<T: StrictOrder>(x: T, y: T, z: T)
    requires
        at_most(x, y),
        at_most(y, z),
    ensures
        at_most(x, z),
{
    if x.lt(y) && y.lt(z) {
        T::lemma_transitive(x, y, z);
    }
}

/// Of two values, one is at most the other; if each is at most the other they are equal.
pub proof fn lemma_at_most_total<T: StrictOrder>(x: T, y: T)
    ensures
        at_most(x, y) || y.lt(x),
        at_most(x, y) && at_most(y, x) ==> x == y,
        at_most(x, y) ==> !y.lt(x),
{
    T::lemma_connected(x, y);
    T::lemma_irreflexive(x);
    if x.lt(y) {
        lemma_asymmetric(x, y);
    }
}

impl StrictOrder for char {
    /// Characters are ordered by code point.
    open spec fn lt(self, other: Self) -> bool {
        self < other
    }

    proof fn lemma_irreflexive(x: Self) {
    }

    proof fn lemma_transitive(x: Self, y: Self, z: Self) {
    }

    proof fn lemma_connected(x: Self, y: Self) {
    }
}

/// `a` and `b` hold the same elements at their first `k` places.
pub open spec fn agree_upto<T>(a: Seq<T>, b: Seq<T>, k: int) -> bool {
    &&& 0 <= k <= a.len()
    &&& k <= b.len()
    &&& forall|j: int| 0 <= j < k ==> a[j] == b[j]
}

/// Place `k` shows that `a` comes before `b`: up to there they agree, and there
/// `a` ends while `b` goes on, or `a` holds the smaller element.
pub open spec fn decides<T: StrictOrder>(a: Seq<T>, b: Seq<T>, k: int) -> bool {
    &&& agree_upto(a, b, k)
    &&& if k == a.len() {
        k < b.len()
    } else {
        k < b.len() && a[k].lt(b[k])
    }
}

impl<T: StrictOrder> StrictOrder for Seq<T> {
    /// Sequences are ordered lexicographically: by the first place at which they
    /// differ, a proper prefix coming before what extends it.
    open spec fn lt(self, other: Self) -> bool {
        exists|k: int| decides(self, other, k)
    }

    proof fn lemma_irreflexive(x: Self) {
        if x.lt(x) {
            let k = choose|k: int| decides(x, x, k);
            T::lemma_irreflexive(x[k]);
        }
    }

    proof fn lemma_transitive(x: Self, y: Self, z: Self) {
        let i = choose|k: int| decides(x, y, k);
        let j = choose|k: int| decides(y, z, k);
        if i < j {
            assert(decides(x, z, i));
        } else if j < i {
            assert(decides(x, z, j));
        } else {
            if i < x.len() {
                T::lemma_transitive(x[i], y[i], z[i]);
            }
            assert(decides(x, z, i));
        }
    }

    proof fn lemma_connected(x: Self, y: Self) {
        lemma_connected_from(x, y, 0);
    }
}

/// Two sequences that agree on their first `k` places are equal, or one
/// comes before the other.
proof fn lemma_connected_from<T: StrictOrder>(x: Seq<T>, y: Seq<T>, k: int)
    requires
        agree_upto(x, y, k),
    ensures
        x == y || x.lt(y) || y.lt(x),
    decreases x.len() - k,
{
    if k < x.len() && k < y.len() && x[k] == y[k] {
        lemma_connected_from(x, y, k + 1);
    } else {
        lemma_first_difference(x, y, k);
        if k < x.len() && k < y.len() {
            T::lemma_connected(x[k], y[k]);
        }
    }
}

/// Only the first place at which two sequences differ can decide between them.
proof fn lemma_decides_once<T: StrictOrder>(a: Seq<T>, b: Seq<T>, k: int, j: int)
    requires
        agree_upto(a, b, k),
        k == a.len() || k == b.len() || a[k] != b[k],
        decides(a, b, j),
    ensures
        j == k,
{
    if j < k {
        T::lemma_irreflexive(a[j]);
    }
}

/// Two sequences that agree on their first `k` places, and no further, are
/// ordered by what stands at place `k`.
proof fn lemma_first_difference<T: StrictOrder>(a: Seq<T>, b: Seq<T>, k: int)
    requires
        agree_upto(a, b, k),
    ensures
        k == a.len() && k == b.len() ==> a == b,
        k == a.len() && k < b.len() ==> a.lt(b) && !b.lt(a) && a != b,
        k < a.len() && k == b.len() ==> b.lt(a) && !a.lt(b) && a != b,
        k < a.len() && k < b.len() && a[k] != b[k] ==> a != b && (a.lt(b) <==> a[k].lt(b[k])) && (
        b.lt(a) <==> b[k].lt(a[k])),
{
    if k == a.len() && k == b.len() {
        assert(a =~= b);
    } else if k == a.len() || k == b.len() || a[k] != b[k] {
        assert(agree_upto(b, a, k));
        if a.lt(b) {
            let j = choose|j: int| decides(a, b, j);
            lemma_decides_once(a, b, k, j);
        }
        if b.lt(a) {
            let j = choose|j: int| decides(b, a, j);
            lemma_decides_once(b, a, k, j);
        }
        if k == a.len() {
            assert(decides(a, b, k));
        } else if k == b.len() {
            assert(decides(b, a, k));
        } else {
            if a[k].lt(b[k]) {
                assert(decides(a, b, k));
            }
            if b[k].lt(a[k]) {
                assert(decides(b, a, k));
            }
        }
    }
}

/// Two sequences that agree on their first `k` places stand to each other as
/// their lengths say, if one of them ends there, and else as their elements at
/// place `k` do, if these differ.
pub proof fn lemma_decided_at<T: StrictOrder>(a: Seq<T>, b: Seq<T>, k: int)
    requires
        agree_upto(a, b, k),
    ensures
        k == a.len() && k == b.len() ==> a == b,
        k == a.len() && k < b.len() ==> relation(a, b) == Relation::Before,
        k < a.len() && k == b.len() ==> relation(a, b) == Relation::After,
        k < a.len() && k < b.len() && a[k] != b[k] ==> relation(a, b) == relation(a[k], b[k]),
{
    lemma_first_difference(a, b, k);
    if k < a.len() && k < b.len() {
        T::lemma_connected(a[k], b[k]);
        if a[k].lt(b[k]) {
            lemma_asymmetric(a[k], b[k]);
        }
    }
}

/// A sorted sequence is determined by the elements it holds and how often.
pub proof fn lemma_sorted_unique<T: StrictOrder>(x: Seq<T>, y: Seq<T>)
    requires
        sorted(x),
        sorted(y),
        x.to_multiset() == y.to_multiset(),
    ensures
        x == y,
    decreases x.len(),
{
    broadcast use vstd::seq_lib::group_to_multiset_ensures;

    x.to_multiset_ensures();
    y.to_multiset_ensures();
    if x.len() == 0 {
        assert(x =~= y);
    } else {
        assert(y.to_multiset().count(x[0]) > 0);
        assert(x.to_multiset().count(y[0]) > 0);
        let i = choose|i: int| 0 <= i < y.len() && y[i] == x[0];
        let j = choose|j: int| 0 <= j < x.len() && x[j] == y[0];
        assert(at_most(x[0], x[j])) by {
            if j > 0 {
                assert(at_most(x[0], x[j]));
            }
        }
        assert(at_most(y[0], y[i])) by {
            if i > 0 {
                assert(at_most(y[0], y[i]));
            }
        }
        lemma_at_most_total(x[0], y[0]);
        assert(x[0] == y[0]);
        assert(x.remove(0) =~= x.drop_first());
        assert(y.remove(0) =~= y.drop_first());
        assert(x.drop_first().to_multiset() == y.drop_first().to_multiset());
        assert(sorted(x.drop_first())) by {
            assert forall|i: int, j: int| 0 <= i < j < x.drop_first().len() implies at_most(
                #[trigger] x.drop_first()[i],
                #[trigger] x.drop_first()[j],
            ) by {
                assert(at_most(x[i + 1], x[j + 1]));
            }
        }
        assert(sorted(y.drop_first())) by {
            assert forall|i: int, j: int| 0 <= i < j < y.drop_first().len() implies at_most(
                #[trigger] y.drop_first()[i],
                #[trigger] y.drop_first()[j],
            ) by {
                assert(at_most(y[i + 1], y[j + 1]));
            }
        }
        lemma_sorted_unique(x.drop_first(), y.drop_first());
        assert(x =~= seq![x[0]] + x.drop_first());
        assert(y =~= seq![y[0]] + y.drop_first());
    }
}

/// Executable values that can be compared, in the order of what they stand for.
pub trait Ordered: DeepView + Sized where Self::V: StrictOrder {
    /// How `self` stands to `other`.
    fn compare(&self, other: &Self) -> (r: Relation)
        ensures
            r == relation(self.deep_view(), other.deep_view()),
    ;
}

/// Compares two strings character by character.
pub fn compare_text(a: &str, b: &str) -> (r: Relation)
    ensures
        r == relation(a@, b@),
{
    broadcast use vstd::string::group_string_axioms;

    let mut rest_a = a.chars();
    let mut rest_b = b.chars();
    let ghost mut k: int = 0;
    loop
        invariant
            agree_upto(a@, b@, k),
            rest_a.remaining() == a@.subrange(k, a@.len() as int),
            rest_b.remaining() == b@.subrange(k, b@.len() as int),
        decreases a@.len() - k,
    {
        proof {
            lemma_decided_at(a@, b@, k);
        }
        match (rest_a.next(), rest_b.next()) {
            (Some(c), Some(d)) => {
                assert(c == a@[k] && d == b@[k]);
                if c < d {
                    return Relation::Before;
                }
                if d < c {
                    return Relation::After;
                }
                proof {
                    k = k + 1;
                }
            },
            (None, Some(_)) => {
                return Relation::Before;
            },
            (Some(_), None) => {
                return Relation::After;
            },
            (None, None) => {
                return Relation::Same;
            },
        }
    }
}

impl Ordered for String {
    fn compare(&self, other: &Self) -> (r: Relation) {
        compare_text(self.as_str(), other.as_str())
    }
}

/// Compares two vectors element by element.
pub fn compare_seqs<T: Ordered>(a: &Vec<T>, b: &Vec<T>) -> (r: Relation) where T::V: StrictOrder
    ensures
        r == relation(a.deep_view(), b.deep_view()),
{
    let mut i: usize = 0;
    while i < a.len() && i < b.len()
        invariant
            agree_upto(a.deep_view(), b.deep_view(), i as int),
        decreases a.len() - i,
    {
        proof {
            lemma_decided_at(a.deep_view(), b.deep_view(), i as int);
        }
        match a[i].compare(&b[i]) {
            Relation::Before => {
                return Relation::Before;
            },
            Relation::After => {
                return Relation::After;
            },
            Relation::Same => {},
        }
        i += 1;
    }
    proof {
        lemma_decided_at(a.deep_view(), b.deep_view(), i as int);
    }
    if i < b.len() {
        Relation::Before
    } else if i < a.len() {
        Relation::After
    } else {
        Relation::Same
    }
}

} // verus!
