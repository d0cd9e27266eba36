//! Sets of texts.

use vstd::prelude::*;
use vstd::hash_set::StringHashSet;

verus! {

/// A set of texts.
pub struct TextSet {
    items: StringHashSet,
}

impl View for TextSet {
    type V = Set<Seq<char>>;

    closed spec fn view(&self) -> Set<Seq<char>> {
        self.items@
    }
}

impl TextSet {
    /// The empty set.
    pub fn new() -> (r: Self)
        ensures
            r@ == Set::<Seq<char>>::empty(),
    {
        TextSet { items: StringHashSet::new() }
    }

    /// Adds a text; whether it was not there before.
    pub fn insert(&mut self, text: String) -> (r: bool)
        ensures
            final(self)@ == old(self)@.insert(text@),
            r == !old(self)@.contains(text@),
    {
        self.items.insert(text)
    }

    /// Whether a text is in the set.
    pub fn contains(&self, text: &str) -> (r: bool)
        ensures
            r == self@.contains(text@),
    {
        self.items.contains(text)
    }

    /// How many texts are in the set.
    pub fn len(&self) -> (r: usize)
        ensures
            r == self@.len(),
    {
        self.items.len()
    }

    /// Whether the set is empty.
    pub fn is_empty(&self) -> (r: bool)
        ensures
            r == (self@ == Set::<Seq<char>>::empty()),
    {
        let r: bool = self.items.is_empty();
        assert(self@.is_empty() <==> self@ == Set::<Seq<char>>::empty());
        r
    }
}

} // verus!
