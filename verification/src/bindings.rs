//! The name table of a single scope.
//!
//! A [`Bindings`] value maps identifiers to values.  Names are kept in a hash
//! index that points into a vector of value slots, so that a bound value can
//! be overwritten or transformed in place without being moved.

use vstd::hash_map::StringHashMap;
use vstd::prelude::*;

verus! {

/// A finite map from identifiers to values of type `T`.
///
/// Its view is the mathematical map `Map<Seq<char>, T>` from an identifier's
/// characters to the value bound to it.
pub struct Bindings<T> {
    /// For every bound identifier, the position of its value in `slots`.
    index: StringHashMap<usize>,
    /// The bound values, in the order in which their names were first bound.
    slots: Vec<T>,
}

impl<T> View for Bindings<T> {
    type V = Map<Seq<char>, T>;

    closed spec fn view(&self) -> Map<Seq<char>, T> {
        Map::new(
            |id: Seq<char>| self.index@.contains_key(id),
            |id: Seq<char>| self.slots@[self.index@[id] as int],
        )
    }
}

impl<T> Bindings<T> {
    /// Representation invariant: every name points at a slot of its own.
    pub closed spec fn wf(&self) -> bool {
        &&& forall|id: Seq<char>| #[trigger]
            self.index@.contains_key(id) ==> self.index@[id] < self.slots@.len()
        &&& forall|a: Seq<char>, b: Seq<char>|
            #![trigger self.index@[a], self.index@[b]]
            self.index@.contains_key(a) && self.index@.contains_key(b) && self.index@[a]
                == self.index@[b] ==> a == b
    }

    /// A table that binds nothing.
    pub fn new() -> (table: Self)
        ensures
            table.wf(),
            table@ == Map::<Seq<char>, T>::empty(),
    {
        Bindings { index: StringHashMap::new(), slots: Vec::new() }
    }

    /// The slot that holds the value bound to `id`, if `id` is bound.
    fn slot_of(&self, id: &str) -> (slot: Option<usize>)
        requires
            self.wf(),
        ensures
            match slot {
                Some(n) => self.index@.contains_key(id@) && self.index@[id@] == n && n
                    < self.slots@.len(),
                None => !self.index@.contains_key(id@),
            },
    {
        match self.index.get(id) {
            Some(slot) => Some(*slot),
            None => None,
        }
    }

    /// Whether `id` is bound.
    pub fn contains(&self, id: &str) -> (found: bool)
        ensures
            found == self@.contains_key(id@),
    {
        self.index.contains_key(id)
    }

    /// The value bound to `id`, if there is one.
    pub fn get(&self, id: &str) -> (found: Option<&T>)
        requires
            self.wf(),
        ensures
            match found {
                Some(v) => self@.contains_key(id@) && *v == self@[id@],
                None => !self@.contains_key(id@),
            },
    {
        match self.slot_of(id) {
            Some(slot) => Some(&self.slots[slot]),
            None => None,
        }
    }

    /// Binds `id` to `val`, replacing the value of an earlier binding of `id`.
    pub fn insert(&mut self, id: String, val: T)
        requires
            old(self).wf(),
        ensures
            final(self).wf(),
            final(self)@ == old(self)@.insert(id@, val),
    {
        match self.slot_of(id.as_str()) {
            Some(slot) => {
                self.slots[slot] = val;
            },
            None => {
                let slot = self.slots.len();
                self.slots.push(val);
                self.index.insert(id, slot);
            },
        }
    }

    /// Overwrites the value bound to `id` with `val` and returns `None`; where
    /// `id` is not bound, changes nothing and hands `val` back.
    pub fn replace(&mut self, id: &str, val: T) -> (unused: Option<T>)
        requires
            old(self).wf(),
        ensures
            final(self).wf(),
            old(self)@.contains_key(id@) ==> unused is None && final(self)@ == old(self)@.insert(
                id@,
                val,
            ),
            !old(self)@.contains_key(id@) ==> unused == Some(val) && final(self)@ == old(self)@,
    {
        match self.slot_of(id) {
            Some(slot) => {
                self.slots[slot] = val;
                None
            },
            None => Some(val),
        }
    }

    /// Applies `f` to the value bound to `id`, in place, and returns what `f`
    /// returned; where `id` is not bound, changes nothing and returns `None`.
    pub fn update<A, F: Fn(&mut T) -> A>(&mut self, id: &str, f: F) -> (out: Option<A>)
        requires
            old(self).wf(),
            forall|x: &mut T|
                old(self)@.contains_key(id@) && *x == old(self)@[id@] ==> call_requires(f, (x,)),
        ensures
            final(self).wf(),
            !old(self)@.contains_key(id@) ==> out is None && final(self)@ == old(self)@,
            old(self)@.contains_key(id@) ==> out is Some && final(self)@ == old(self)@.insert(
                id@,
                final(self)@[id@],
            ) && exists|x: &mut T|
                *x == old(self)@[id@] && *final(x) == final(self)@[id@] && call_ensures(
                    f,
                    (x,),
                    out.unwrap(),
                ),
    {
        match self.slot_of(id) {
            Some(slot) => Some(f(&mut self.slots[slot])),
            None => None,
        }
    }
}

} // verus!
