//! The tokens that an item is rendered with.

use crate::order::{
    compare_text, lemma_asymmetric, relation, Ordered, Relation, StrictOrder,
};
use vstd::prelude::*;
use core::cmp::Ordering;
use vstd::std_specs::cmp::{PartialEqSpecImpl, PartialOrdSpecImpl};

verus! {

/// One token of an item's rendering: what kind of token it is, and its text.
#[derive(Debug, Eq, Hash)]
pub enum Token {
    /// A symbol, like `=` or `::<`.
    Symbol(String),
    /// A qualifier, like `pub` or `const`.
    Qualifier(String),
    /// The kind of an item, like `fn` or `trait`.
    Kind(String),
    /// A single space.
    Whitespace,
    /// An identifier, like a variable's name or a part of a path.
    Identifier(String),
    /// An annotation, like an attribute.
    Annotation(String),
    /// The identifier `self` or `Self`.
    Self_(String),
    /// The name of a function.
    Function(String),
    /// A lifetime with its apostrophe, like `'a`.
    Lifetime(String),
    /// A keyword, like `impl`.
    Keyword(String),
    /// A generic parameter, like `T`.
    Generic(String),
    /// A primitive type, like `usize`.
    Primitive(String),
    /// A type, like `Iterator`.
    Type(String),
}

/// What a token stands for: the place of its kind among the kinds, and its text.
pub struct TokenView {
    pub kind: nat,
    pub text: Seq<char>,
}

impl StrictOrder for TokenView {
    /// Tokens are ordered by kind, and within a kind by text.
    open spec fn lt(self, other: Self) -> bool {
        self.kind < other.kind || (self.kind == other.kind && self.text.lt(other.text))
    }

    proof fn lemma_irreflexive(x: Self) {
        Seq::<char>::lemma_irreflexive(x.text);
    }

    proof fn lemma_transitive(x: Self, y: Self, z: Self) {
        if x.text.lt(y.text) && y.text.lt(z.text) {
            Seq::<char>::lemma_transitive(x.text, y.text, z.text);
        }
    }

    proof fn lemma_connected(x: Self, y: Self) {
        Seq::<char>::lemma_connected(x.text, y.text);
    }
}

impl DeepView for Token {
    type V = TokenView;

    open spec fn deep_view(&self) -> TokenView {
        match self {
            Token::Symbol(s) => TokenView { kind: 0, text: s@ },
            Token::Qualifier(s) => TokenView { kind: 1, text: s@ },
            Token::Kind(s) => TokenView { kind: 2, text: s@ },
            Token::Whitespace => TokenView { kind: 3, text: " "@ },
            Token::Identifier(s) => TokenView { kind: 4, text: s@ },
            Token::Annotation(s) => TokenView { kind: 5, text: s@ },
            Token::Self_(s) => TokenView { kind: 6, text: s@ },
            Token::Function(s) => TokenView { kind: 7, text: s@ },
            Token::Lifetime(s) => TokenView { kind: 8, text: s@ },
            Token::Keyword(s) => TokenView { kind: 9, text: s@ },
            Token::Generic(s) => TokenView { kind: 10, text: s@ },
            Token::Primitive(s) => TokenView { kind: 11, text: s@ },
            Token::Type(s) => TokenView { kind: 12, text: s@ },
        }
    }
}

impl View for Token {
    type V = TokenView;

    open spec fn view(&self) -> TokenView {
        self.deep_view()
    }
}

impl Token {
    /// A symbol token with the given text.
    pub fn symbol(text: &str) -> (t: Self)
        ensures
            t matches Token::Symbol(s) && s@ == text@,
    {
        Token::Symbol(text.to_owned())
    }

    /// A qualifier token with the given text.
    pub fn qualifier(text: &str) -> (t: Self)
        ensures
            t matches Token::Qualifier(s) && s@ == text@,
    {
        Token::Qualifier(text.to_owned())
    }

    /// A kind token with the given text.
    pub fn kind(text: &str) -> (t: Self)
        ensures
            t matches Token::Kind(s) && s@ == text@,
    {
        Token::Kind(text.to_owned())
    }

    /// An identifier token with the given text.
    pub fn identifier(text: &str) -> (t: Self)
        ensures
            t matches Token::Identifier(s) && s@ == text@,
    {
        Token::Identifier(text.to_owned())
    }

    /// An annotation token with the given text.
    pub fn annotation(text: &str) -> (t: Self)
        ensures
            t matches Token::Annotation(s) && s@ == text@,
    {
        Token::Annotation(text.to_owned())
    }

    /// A token for `self` or `Self`.
    pub fn self_(text: &str) -> (t: Self)
        ensures
            t matches Token::Self_(s) && s@ == text@,
    {
        Token::Self_(text.to_owned())
    }

    /// A function-name token with the given text.
    pub fn function(text: &str) -> (t: Self)
        ensures
            t matches Token::Function(s) && s@ == text@,
    {
        Token::Function(text.to_owned())
    }

    /// A lifetime token with the given text.
    pub fn lifetime(text: &str) -> (t: Self)
        ensures
            t matches Token::Lifetime(s) && s@ == text@,
    {
        Token::Lifetime(text.to_owned())
    }

    /// A keyword token with the given text.
    pub fn keyword(text: &str) -> (t: Self)
        ensures
            t matches Token::Keyword(s) && s@ == text@,
    {
        Token::Keyword(text.to_owned())
    }

    /// A generic-parameter token with the given text.
    pub fn generic(text: &str) -> (t: Self)
        ensures
            t matches Token::Generic(s) && s@ == text@,
    {
        Token::Generic(text.to_owned())
    }

    /// A primitive-type token with the given text.
    pub fn primitive(text: &str) -> (t: Self)
        ensures
            t matches Token::Primitive(s) && s@ == text@,
    {
        Token::Primitive(text.to_owned())
    }

    /// A type token with the given text.
    pub fn type_(text: &str) -> (t: Self)
        ensures
            t matches Token::Type(s) && s@ == text@,
    {
        Token::Type(text.to_owned())
    }

    /// The place of this token's kind among the kinds.
    pub fn rank(&self) -> (r: u8)
        ensures
            r == self@.kind,
    {
        match self {
            Token::Symbol(_) => 0,
            Token::Qualifier(_) => 1,
            Token::Kind(_) => 2,
            Token::Whitespace => 3,
            Token::Identifier(_) => 4,
            Token::Annotation(_) => 5,
            Token::Self_(_) => 6,
            Token::Function(_) => 7,
            Token::Lifetime(_) => 8,
            Token::Keyword(_) => 9,
            Token::Generic(_) => 10,
            Token::Primitive(_) => 11,
            Token::Type(_) => 12,
        }
    }

    /// The text of this token.
    pub fn text(&self) -> (r: &str)
        ensures
            r@ == self@.text,
    {
        match self {
            Token::Symbol(s)
            | Token::Qualifier(s)
            | Token::Kind(s)
            | Token::Identifier(s)
            | Token::Annotation(s)
            | Token::Self_(s)
            | Token::Function(s)
            | Token::Lifetime(s)
            | Token::Keyword(s)
            | Token::Generic(s)
            | Token::Primitive(s)
            | Token::Type(s) => s.as_str(),
            Token::Whitespace => " ",
        }
    }
}

impl Ordered for Token {
    fn compare(&self, other: &Self) -> (r: Relation) {
        let a = self.rank();
        let b = other.rank();
        if a < b {
            Relation::Before
        } else if b < a {
            Relation::After
        } else {
            let r = compare_text(self.text(), other.text());
            proof {
                if self@.text.lt(other@.text) {
                    lemma_asymmetric(self@.text, other@.text);
                }
            }
            r
        }
    }
}

impl Clone for Token {
    fn clone(&self) -> (r: Self)
        ensures
            r == *self,
    {
        match self {
            Token::Symbol(s) => Token::Symbol(s.clone()),
            Token::Qualifier(s) => Token::Qualifier(s.clone()),
            Token::Kind(s) => Token::Kind(s.clone()),
            Token::Whitespace => Token::Whitespace,
            Token::Identifier(s) => Token::Identifier(s.clone()),
            Token::Annotation(s) => Token::Annotation(s.clone()),
            Token::Self_(s) => Token::Self_(s.clone()),
            Token::Function(s) => Token::Function(s.clone()),
            Token::Lifetime(s) => Token::Lifetime(s.clone()),
            Token::Keyword(s) => Token::Keyword(s.clone()),
            Token::Generic(s) => Token::Generic(s.clone()),
            Token::Primitive(s) => Token::Primitive(s.clone()),
            Token::Type(s) => Token::Type(s.clone()),
        }
    }
}

impl PartialEq for Token {
    fn eq(&self, other: &Self) -> (r: bool) {
        match self.compare(other) {
            Relation::Same => true,
            _ => false,
        }
    }
}

impl PartialEqSpecImpl for Token {
    open spec fn obeys_eq_spec() -> bool {
        true
    }

    /// Two tokens are equal when they are of one kind and hold the same text.
    open spec fn eq_spec(&self, other: &Self) -> bool {
        self@ == other@
    }
}

impl PartialOrd for Token {
    fn partial_cmp(&self, other: &Self) -> (r: Option<Ordering>) {
        Some(self.compare(other).to_ordering())
    }
}

impl PartialOrdSpecImpl for Token {
    open spec fn obeys_partial_cmp_spec() -> bool {
        true
    }

    /// Tokens compare as what they stand for: by kind, then by text.
    open spec fn partial_cmp_spec(&self, other: &Self) -> Option<Ordering> {
        Some(relation(self@, other@).ordering())
    }
}

} // verus!
