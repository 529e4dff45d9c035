//! A public item: where it lives, and how it is rendered.

use crate::order::{
    compare_seqs, lemma_asymmetric, relation, Ordered, Relation, StrictOrder,
};
use crate::tokens::{Token, TokenView};
use vstd::prelude::*;
use core::cmp::Ordering;
use vstd::std_specs::cmp::{PartialEqSpecImpl, PartialOrdSpecImpl};

verus! {

/// One item of a library's public surface.
#[derive(Debug, Eq, Hash)]
pub struct PublicItem {
    /// The segments of the item's path, outermost first.
    pub path: Vec<String>,
    /// The tokens that the item is rendered with.
    pub tokens: Vec<Token>,
}

/// What an item stands for: its path and its rendering.
pub struct ItemView {
    pub path: Seq<Seq<char>>,
    pub tokens: Seq<TokenView>,
}

impl StrictOrder for ItemView {
    /// Items are ordered by path, and on one path by rendering.
    open spec fn lt(self, other: Self) -> bool {
        self.path.lt(other.path) || (self.path == other.path && self.tokens.lt(other.tokens))
    }

    proof fn lemma_irreflexive(x: Self) {
        Seq::<Seq<char>>::lemma_irreflexive(x.path);
        Seq::<TokenView>::lemma_irreflexive(x.tokens);
    }

    proof fn lemma_transitive(x: Self, y: Self, z: Self) {
        if x.path.lt(y.path) && y.path.lt(z.path) {
            Seq::<Seq<char>>::lemma_transitive(x.path, y.path, z.path);
        }
        if x.tokens.lt(y.tokens) && y.tokens.lt(z.tokens) {
            Seq::<TokenView>::lemma_transitive(x.tokens, y.tokens, z.tokens);
        }
    }

    proof fn lemma_connected(x: Self, y: Self) {
        Seq::<Seq<char>>::lemma_connected(x.path, y.path);
        Seq::<TokenView>::lemma_connected(x.tokens, y.tokens);
    }
}

impl DeepView for PublicItem {
    type V = ItemView;

    open spec fn deep_view(&self) -> ItemView {
        ItemView { path: self.path.deep_view(), tokens: self.tokens.deep_view() }
    }
}

impl View for PublicItem {
    type V = ItemView;

    open spec fn view(&self) -> ItemView {
        self.deep_view()
    }
}

impl PublicItem {
    /// An item with the given path and rendering.
    pub fn new(path: Vec<String>, tokens: Vec<Token>) -> (item: Self)
        ensures
            item@ == (ItemView { path: path.deep_view(), tokens: tokens.deep_view() }),
    {
        PublicItem { path, tokens }
    }
}

impl Ordered for PublicItem {
    fn compare(&self, other: &Self) -> (r: Relation) {
        match compare_seqs(&self.path, &other.path) {
            Relation::Before => Relation::Before,
            Relation::After => {
                proof {
                    Seq::<Seq<char>>::lemma_connected(self@.path, other@.path);
                    lemma_asymmetric(other@.path, self@.path);
                }
                Relation::After
            },
            Relation::Same => {
                let r = compare_seqs(&self.tokens, &other.tokens);
                proof {
                    Seq::<Seq<char>>::lemma_irreflexive(self@.path);
                }
                r
            },
        }
    }
}

impl Clone for PublicItem {
    fn clone(&self) -> (r: Self)
        ensures
            r@ == self@,
    {
        let path = self.path.clone();
        let tokens = self.tokens.clone();
        proof {
            assert(path.deep_view() =~= self.path.deep_view());
            assert(tokens.deep_view() =~= self.tokens.deep_view());
        }
        PublicItem { path, tokens }
    }
}

impl PartialEq for PublicItem {
    fn eq(&self, other: &Self) -> (r: bool) {
        match self.compare(other) {
            Relation::Same => true,
            _ => false,
        }
    }
}

impl PartialEqSpecImpl for PublicItem {
    open spec fn obeys_eq_spec() -> bool {
        true
    }

    /// Two items are equal when their paths and their renderings are.
    open spec fn eq_spec(&self, other: &Self) -> bool {
        self@ == other@
    }
}

impl PartialOrd for PublicItem {
    fn partial_cmp(&self, other: &Self) -> (r: Option<Ordering>) {
        Some(self.compare(other).to_ordering())
    }
}

impl PartialOrdSpecImpl for PublicItem {
    open spec fn obeys_partial_cmp_spec() -> bool {
        true
    }

    /// Items compare as what they stand for: by path, then by rendering.
    open spec fn partial_cmp_spec(&self, other: &Self) -> Option<Ordering> {
        Some(relation(self@, other@).ordering())
    }
}

} // verus!
