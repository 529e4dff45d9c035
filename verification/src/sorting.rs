//! Sorting a vector into the order of what its elements stand for.

use crate::order::{
    at_most, lemma_at_most_total, lemma_at_most_transitive, sorted, Ordered, Relation, StrictOrder,
};
use vstd::prelude::*;

verus! {

/// Every element is at least each element after it.
pub open spec fn descending<T: StrictOrder>(s: Seq<T>) -> bool {
    forall|i: int, j: int| 0 <= i < j < s.len() ==> at_most(#[trigger] s[j], #[trigger] s[i])
}

/// No element of `s` is greater than an element of `t`.
pub open spec fn all_at_most<T: StrictOrder>(s: Seq<T>, t: Seq<T>) -> bool {
    forall|i: int, k: int|
        0 <= i < s.len() && 0 <= k < t.len() ==> at_most(#[trigger] s[i], #[trigger] t[k])
}

/// A vector's elements from the last to the first.
pub fn reversed<T: DeepView>(v: Vec<T>) -> (r: Vec<T>)
    ensures
        r.deep_view() == v.deep_view().reverse(),
{
    let ghost whole = v.deep_view();
    let mut rest = v;
    let mut r: Vec<T> = Vec::new();
    while rest.len() > 0
        invariant
            rest.len() + r.len() == whole.len(),
            rest.deep_view() == whole.take(rest.len() as int),
            forall|i: int| 0 <= i < r.len() ==> #[trigger] r.deep_view()[i] == whole[whole.len() - 1 - i],
        decreases rest.len(),
    {
        let ghost before = r.deep_view();
        let ghost n = rest.len();
        let ghost left = rest.deep_view();
        let x = rest.pop().unwrap();
        assert(x.deep_view() == left[n - 1]);
        r.push(x);
        assert(r.deep_view() =~= before.push(x.deep_view()));
        assert(rest.deep_view() =~= whole.take(rest.len() as int));
    }
    assert(r.deep_view() =~= whole.reverse());
    r
}

/// Merges two sorted vectors into one: the result is sorted and holds what
/// the two hold together.
pub fn merge<T: Ordered>(a: Vec<T>, b: Vec<T>) -> (r: Vec<T>) where T::V: StrictOrder
    requires
        sorted(a.deep_view()),
        sorted(b.deep_view()),
    ensures
        sorted(r.deep_view()),
        r.deep_view().to_multiset() == a.deep_view().to_multiset().add(b.deep_view().to_multiset()),
{
    let ghost xs = a.deep_view();
    let ghost ys = b.deep_view();
    let mut a = a;
    let mut b = b;
    // the greatest element left goes first: `down` descends
    let mut down: Vec<T> = Vec::new();
    proof {
        assert(down.deep_view() =~= Seq::<T::V>::empty());
        down.deep_view().to_multiset_ensures();
        assert(a.deep_view().to_multiset().add(b.deep_view().to_multiset()).add(
            down.deep_view().to_multiset(),
        ) =~= xs.to_multiset().add(ys.to_multiset()));
    }
    loop
        invariant
            sorted(a.deep_view()),
            sorted(b.deep_view()),
            descending(down.deep_view()),
            all_at_most(a.deep_view(), down.deep_view()),
            all_at_most(b.deep_view(), down.deep_view()),
            a.deep_view().to_multiset().add(b.deep_view().to_multiset()).add(
                down.deep_view().to_multiset(),
            ) == xs.to_multiset().add(ys.to_multiset()),
        ensures
            a.len() == 0,
            b.len() == 0,
            descending(down.deep_view()),
            down.deep_view().to_multiset() == xs.to_multiset().add(ys.to_multiset()),
        decreases a.len() + b.len(),
    {
        if a.len() == 0 && b.len() == 0 {
            proof {
                assert(a.deep_view() =~= Seq::<T::V>::empty());
                assert(b.deep_view() =~= Seq::<T::V>::empty());
                a.deep_view().to_multiset_ensures();
                b.deep_view().to_multiset_ensures();
                assert(down.deep_view().to_multiset() =~= xs.to_multiset().add(ys.to_multiset()));
            }
            break ;
        }
        let from_a = if b.len() == 0 {
            true
        } else if a.len() == 0 {
            false
        } else {
            match a[a.len() - 1].compare(&b[b.len() - 1]) {
                Relation::Before => false,
                _ => true,
            }
        };
        let ghost a_before = a.deep_view();
        let ghost b_before = b.deep_view();
        let ghost down_before = down.deep_view();
        proof {
            if a.len() > 0 && b.len() > 0 {
                assert(a_before.last() == a@[a.len() - 1].deep_view());
                assert(b_before.last() == b@[b.len() - 1].deep_view());
                lemma_at_most_total(b_before.last(), a_before.last());
            }
        }
        if from_a {
            let x = a.pop().unwrap();
            let ghost m = x.deep_view();
            down.push(x);
            proof {
                assert(a.deep_view() =~= a_before.drop_last());
                assert(a_before =~= a.deep_view().push(m));
                assert(down.deep_view() =~= down_before.push(m));
                lemma_take_last(a_before, b_before, down_before);
                vstd::seq_lib::to_multiset_build(a.deep_view(), m);
                vstd::seq_lib::to_multiset_build(down_before, m);
                assert(a.deep_view().to_multiset().add(b.deep_view().to_multiset()).add(
                    down.deep_view().to_multiset(),
                ) =~= a_before.to_multiset().add(b_before.to_multiset()).add(
                    down_before.to_multiset(),
                ));
            }
        } else {
            let x = b.pop().unwrap();
            let ghost m = x.deep_view();
            down.push(x);
            proof {
                assert(b.deep_view() =~= b_before.drop_last());
                assert(b_before =~= b.deep_view().push(m));
                assert(down.deep_view() =~= down_before.push(m));
                lemma_take_last(b_before, a_before, down_before);
                vstd::seq_lib::to_multiset_build(b.deep_view(), m);
                vstd::seq_lib::to_multiset_build(down_before, m);
                assert(a.deep_view().to_multiset().add(b.deep_view().to_multiset()).add(
                    down.deep_view().to_multiset(),
                ) =~= a_before.to_multiset().add(b_before.to_multiset()).add(
                    down_before.to_multiset(),
                ));
            }
        }
    }
    let ghost d = down.deep_view();
    let r = reversed(down);
    proof {
        d.lemma_reverse_to_multiset();
        assert forall|i: int, j: int| 0 <= i < j < d.reverse().len() implies at_most(
            #[trigger] d.reverse()[i],
            #[trigger] d.reverse()[j],
        ) by {
            assert(at_most(d[d.len() - 1 - i], d[d.len() - 1 - j]));
        }
    }
    r
}

/// Taking the last element of a sorted sequence, which is at least the last
/// of another, and putting it behind a descending sequence of elements that
/// are no smaller than any of the two, keeps all this so.
proof fn lemma_take_last<T: StrictOrder>(from: Seq<T>, other: Seq<T>, down: Seq<T>)
    requires
        from.len() > 0,
        sorted(from),
        sorted(other),
        descending(down),
        all_at_most(from, down),
        all_at_most(other, down),
        other.len() > 0 ==> at_most(other.last(), from.last()),
    ensures
        sorted(from.drop_last()),
        descending(down.push(from.last())),
        all_at_most(from.drop_last(), down.push(from.last())),
        all_at_most(other, down.push(from.last())),
{
    let x = from.last();
    let rest = from.drop_last();
    let more = down.push(x);
    assert forall|i: int, j: int| 0 <= i < j < rest.len() implies at_most(
        #[trigger] rest[i],
        #[trigger] rest[j],
    ) by {
        assert(at_most(from[i], from[j]));
    }
    assert forall|i: int, j: int| 0 <= i < j < more.len() implies at_most(
        #[trigger] more[j],
        #[trigger] more[i],
    ) by {
        if j < down.len() {
            assert(at_most(down[j], down[i]));
        } else {
            assert(at_most(from[from.len() - 1], down[i]));
        }
    }
    assert forall|i: int, k: int| 0 <= i < rest.len() && 0 <= k < more.len() implies at_most(
        #[trigger] rest[i],
        #[trigger] more[k],
    ) by {
        if k < down.len() {
            assert(at_most(from[i], down[k]));
        } else {
            assert(at_most(from[i], from[from.len() - 1]));
        }
    }
    assert forall|i: int, k: int| 0 <= i < other.len() && 0 <= k < more.len() implies at_most(
        #[trigger] other[i],
        #[trigger] more[k],
    ) by {
        if k < down.len() {
            assert(at_most(other[i], down[k]));
        } else {
            if i < other.len() - 1 {
                assert(at_most(other[i], other[other.len() - 1]));
            }
            lemma_at_most_transitive(other[i], other.last(), x);
        }
    }
}

/// Sorts a vector. The result holds what the vector held, each element as
/// often, in ascending order.
pub fn sort<T: Ordered>(v: Vec<T>) -> (r: Vec<T>) where T::V: StrictOrder
    ensures
        sorted(r.deep_view()),
        r.deep_view().to_multiset() == v.deep_view().to_multiset(),
    decreases v.len(),
{
    if v.len() <= 1 {
        return v;
    }
    let ghost whole = v.deep_view();
    let mut left = v;
    let right = left.split_off(left.len() / 2);
    proof {
        assert(whole =~= left.deep_view() + right.deep_view());
        vstd::seq_lib::lemma_multiset_commutative(left.deep_view(), right.deep_view());
    }
    let left = sort(left);
    let right = sort(right);
    merge(left, right)
}

} // verus!
