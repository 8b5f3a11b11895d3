use vstd::prelude::*;
use crate::string_map::StringMap;

verus! {

/// A set of strings. Its view is the set of their character sequences.
#[derive(Debug)]
pub struct StringSet {
    map: StringMap<()>,
}

impl View for StringSet {
    type V = Set<Seq<char>>;

    closed spec fn view(&self) -> Set<Seq<char>> {
        self.map@.dom()
    }
}

impl StringSet {
    /// The members in the order in which they are stored.
    pub closed spec fn elements(&self) -> Seq<Seq<char>> {
        self.map.key_order()
    }

    /// The empty set.
    pub fn new() -> (set: Self)
        ensures
            set@ == Set::<Seq<char>>::empty(),
            set.elements() == Seq::<Seq<char>>::empty(),
    {
        let set = StringSet { map: StringMap::new() };
        assert(set@ =~= Set::<Seq<char>>::empty());
        set
    }

    /// Adds `item`; the result tells whether it was new.
    pub fn insert(&mut self, item: String) -> (added: bool)
        ensures
            final(self)@ == old(self)@.insert(item@),
            added == !old(self)@.contains(item@),
            final(self).elements() == if added {
                old(self).elements().push(item@)
            } else {
                old(self).elements()
            },
    {
        if self.map.contains_key(item.as_str()) {
            assert(self@.insert(item@) =~= self@);
            false
        } else {
            self.map.insert(item, ());
            assert(self.map@.dom() =~= old(self).map@.dom().insert(item@));
            true
        }
    }

    /// Takes `item` out; the result tells whether it was a member.
    pub fn remove(&mut self, item: &str) -> (removed: bool)
        ensures
            final(self)@ == old(self)@.remove(item@),
            removed == old(self)@.contains(item@),
            final(self).elements() == old(self).elements().remove_value(item@),
    {
        let removed = self.map.remove(item);
        assert(self.map@.dom() =~= old(self).map@.dom().remove(item@));
        removed.is_some()
    }

    /// Whether `item` is a member.
    pub fn contains(&self, item: &str) -> (found: bool)
        ensures
            found == self@.contains(item@),
    {
        self.map.contains_key(item)
    }

    /// Empties the set.
    pub fn clear(&mut self)
        ensures
            final(self)@ == Set::<Seq<char>>::empty(),
            final(self).elements() == Seq::<Seq<char>>::empty(),
    {
        self.map = StringMap::new();
        assert(self@ =~= Set::<Seq<char>>::empty());
    }

    /// The number of members, with what ties the stored order to the view:
    /// it lists every member exactly once.
    pub fn len(&self) -> (n: usize)
        ensures
            n == self@.len(),
            n == self.elements().len(),
            self@.finite(),
            self.elements().no_duplicates(),
            self.elements().to_set() == self@,
    {
        self.map.len()
    }

    /// Whether the set has no member.
    pub fn is_empty(&self) -> (empty: bool)
        ensures
            empty == (self@ == Set::<Seq<char>>::empty()),
    {
        self.map.is_empty()
    }

    /// The member at place `index` of the stored order, or `None` past its end.
    pub fn get_at(&self, index: usize) -> (item: Option<&String>)
        ensures
            match item {
                Some(s) => index < self.elements().len() && s@ == self.elements()[index as int]
                    && self@.contains(s@),
                None => index >= self.elements().len(),
            },
    {
        self.map.key_at(index)
    }
}

} // verus!
