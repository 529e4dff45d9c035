//! Counting in sequences and bags.

use vstd::multiset::Multiset;
use vstd::prelude::*;

verus! {

/// A value occurs in a concatenation as often as in its two parts together.
pub proof fn lemma_count_add<T>(s: Seq<T>, t: Seq<T>, v: T)
    ensures
        (s + t).to_multiset().count(v) == s.to_multiset().count(v) + t.to_multiset().count(v),
{
    vstd::seq_lib::lemma_multiset_commutative(s, t);
}

/// A bag that holds one value only has as many elements as it holds that value.
pub proof fn lemma_len_of_one_kind<T>(m: Multiset<T>, v: T)
    requires
        forall|w: T| w != v ==> m.count(w) == 0,
    ensures
        m.len() == m.count(v),
    decreases m.count(v),
{
    if m.count(v) == 0 {
        assert(m =~= Multiset::empty());
    } else {
        let rest = m.remove(v);
        assert(m =~= rest.insert(v));
        lemma_len_of_one_kind(rest, v);
    }
}

/// A bag with an element holds some value.
pub proof fn lemma_has_member<T>(m: Multiset<T>) -> (v: T)
    requires
        m.len() > 0,
    ensures
        m.count(v) > 0,
{
    m.choose()
}

/// Selecting from two bags together selects from each.
pub proof fn lemma_filter_add<T>(a: Multiset<T>, b: Multiset<T>, f: spec_fn(T) -> bool)
    ensures
        a.add(b).filter(f) == a.filter(f).add(b.filter(f)),
{
    assert(a.add(b).filter(f) =~= a.filter(f).add(b.filter(f)));
}

/// Selecting after an insertion selects the new element or not.
pub proof fn lemma_filter_insert<T>(m: Multiset<T>, x: T, f: spec_fn(T) -> bool)
    ensures
        m.insert(x).filter(f) == if f(x) {
            m.filter(f).insert(x)
        } else {
            m.filter(f)
        },
{
    if f(x) {
        assert(m.insert(x).filter(f) =~= m.filter(f).insert(x));
    } else {
        assert(m.insert(x).filter(f) =~= m.filter(f));
    }
}

} // verus!
