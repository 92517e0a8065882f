//! Commodity symbols and tags.
//!
//! Both are names compared by their text: two symbols made from the
//! same string are equal, and a symbol gives back the string it was
//! made from.

use vstd::prelude::*;

verus! {

/// A commodity symbol such as `$`, `EUR` or `"AAPL 2025"`.
/// The empty symbol stands for "no commodity".
#[derive(Clone, Debug, PartialEq, Eq, Hash, PartialOrd, Ord)]
pub struct Symbol {
    name: String,
}

impl View for Symbol {
    type V = Seq<char>;

    closed spec fn view(&self) -> Seq<char> {
        self.name@
    }
}

impl Symbol {
    /// The symbol named `n`.
    pub fn new(n: &str) -> (r: Symbol)
        ensures
            r@ == n@,
    {
        Symbol { name: n.to_owned() }
    }

    /// The symbol whose name is the given characters.
    pub fn from_chars(cs: &[char]) -> (r: Symbol)
        ensures
            r@ == cs@,
    {
        Symbol { name: crate::text::string_of(cs) }
    }

    /// True for the empty symbol, the one made from `""`.
    pub fn is_empty(&self) -> (r: bool)
        ensures
            r == (self@.len() == 0),
    {
        self.name.as_str().is_empty()
    }

    /// The name of the symbol.
    pub fn name(&self) -> (r: String)
        ensures
            r@ == self@,
    {
        self.name.clone()
    }

    /// A second symbol with the same name.
    pub fn duplicate(&self) -> (r: Symbol)
        ensures
            r == *self,
            r@ == self@,
    {
        Symbol { name: self.name.clone() }
    }

    /// Whether two symbols have the same name.
    pub fn same(&self, other: &Symbol) -> (r: bool)
        ensures
            r == (self@ == other@),
    {
        self.name == other.name
    }
}

/// A tag attached to a transaction or posting, e.g. `:payee:`.
#[derive(Clone, Debug, PartialEq, Eq, Hash, PartialOrd, Ord)]
pub struct Tag {
    name: String,
}

impl View for Tag {
    type V = Seq<char>;

    closed spec fn view(&self) -> Seq<char> {
        self.name@
    }
}

impl Tag {
    /// The tag named `n`.
    pub fn new(n: &str) -> (r: Tag)
        ensures
            r@ == n@,
    {
        Tag { name: n.to_owned() }
    }

    /// The tag whose name is the given characters.
    pub fn from_chars(cs: &[char]) -> (r: Tag)
        ensures
            r@ == cs@,
    {
        Tag { name: crate::text::string_of(cs) }
    }

    /// The name of the tag, the string it was made from.
    pub fn name(&self) -> (r: String)
        ensures
            r@ == self@,
    {
        self.name.clone()
    }

    /// A second tag with the same name.
    pub fn duplicate(&self) -> (r: Tag)
        ensures
            r == *self,
            r@ == self@,
    {
        Tag { name: self.name.clone() }
    }

    /// Whether two tags have the same name.
    pub fn same(&self, other: &Tag) -> (r: bool)
        ensures
            r == (self@ == other@),
    {
        self.name == other.name
    }
}

} // verus!
