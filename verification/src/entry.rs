use crate::tree::Node;
use crate::tree::SplayTree;
use vstd::pervasive::unreached;
use vstd::prelude::*;

verus! {

/// A lookup that found its key: the matched node has already been splayed to
/// the root, so resolving the entry touches only the root.
pub struct OccupiedEntry {
    pub(crate) key: u64,
}

impl OccupiedEntry {
    pub closed spec fn spec_key(self) -> u64 {
        self.key
    }

    pub(crate) fn new(key: u64) -> (e: Self)
        ensures
            e.spec_key() == key,
    {
        OccupiedEntry { key }
    }

    /// The entry's key.
    pub fn key(&self) -> (r: u64)
        ensures
            r == self.spec_key(),
    {
        self.key
    }
}

/// A lookup that missed: the key is known to be absent, so an insertion
/// through the entry needs no presence check. The entry records the key
/// alone: under single ownership it cannot hold a live handle to the walk's
/// terminal node, so resolving a vacant entry runs the insert walk afresh
/// rather than linking the new node under a remembered prospective parent.
pub struct VacantEntry {
    pub(crate) key: u64,
}

impl VacantEntry {
    pub closed spec fn spec_key(self) -> u64 {
        self.key
    }

    pub(crate) fn new(key: u64) -> (e: Self)
        ensures
            e.spec_key() == key,
    {
        VacantEntry { key }
    }

    /// The entry's key.
    pub fn key(&self) -> (r: u64)
        ensures
            r == self.spec_key(),
    {
        self.key
    }
}

/// The result of a keyed lookup, used for insert-or-update call patterns.
/// A lookup distinguishes three situations — found, absent from an empty
/// tree, absent below a terminal node — but the two absent flavours carry the
/// same data here (the key), since no reference into the tree can outlive the
/// lookup under single ownership; both collapse into `Vacant`.
pub enum Entry {
    Occupied(OccupiedEntry),
    Vacant(VacantEntry),
}

impl Entry {
    /// The key this entry was created for.
    pub open spec fn spec_key(self) -> u64 {
        match self {
            Entry::Occupied(o) => o.spec_key(),
            Entry::Vacant(v) => v.spec_key(),
        }
    }

    /// An entry is only as good as the lookup that produced it: an occupied
    /// entry's key sits splayed at the root of the tree it came from, and a
    /// vacant entry's key is absent from it.
    pub open spec fn valid<V>(self, tree: SplayTree<V>) -> bool {
        match self {
            Entry::Occupied(o) => tree.well_formed() && tree@.dom().contains(o.spec_key())
                && tree.root_key() == Some(o.spec_key()),
            Entry::Vacant(v) => tree.well_formed() && !tree@.dom().contains(v.spec_key()),
        }
    }

    /// Returns this entry's key.
    pub fn key(&self) -> (r: u64)
        ensures
            r == self.spec_key(),
    {
        match self {
            Entry::Occupied(o) => o.key(),
            Entry::Vacant(v) => v.key(),
        }
    }

    /// Ensures a value is in the entry by inserting the given one if vacant,
    /// and returns a reference to the node, splayed to the root.
    pub fn or_insert<'a, V>(self, tree: &'a mut SplayTree<V>, value: V) -> (r: &'a Node<V>)
        requires
            self.valid(*old(tree)),
            (self matches Entry::Vacant(_)) ==> old(tree)@.dom().len() < usize::MAX,
        ensures
            final(tree).well_formed(),
            final(tree).root_key() == Some(self.spec_key()),
            r.spec_key() == self.spec_key(),
            (self matches Entry::Occupied(_)) ==> *final(tree) == *old(tree) && r.spec_value()
                == old(tree)@[self.spec_key()],
            (self matches Entry::Vacant(_)) ==> *final(tree) == old(tree).with_inserted(
                self.spec_key(),
                value,
            ) && final(tree)@ == old(tree)@.insert(self.spec_key(), value) && r.spec_value()
                == value,
    {
        match self {
            Entry::Occupied(_) => {
                match tree.root() {
                    Some(n) => n,
                    None => unreached(),
                }
            },
            Entry::Vacant(v) => tree.insert(v.key(), value),
        }
    }

    /// Ensures a value is in the entry by inserting the thunk's result if
    /// vacant, and returns a reference to the node, splayed to the root.
    pub fn or_insert_with<'a, V, F: FnOnce() -> V>(
        self,
        tree: &'a mut SplayTree<V>,
        calc: F,
    ) -> (r: &'a Node<V>)
        requires
            self.valid(*old(tree)),
            (self matches Entry::Vacant(_)) ==> old(tree)@.dom().len() < usize::MAX
                && call_requires(calc, ()),
        ensures
            final(tree).well_formed(),
            final(tree).root_key() == Some(self.spec_key()),
            r.spec_key() == self.spec_key(),
            (self matches Entry::Occupied(_)) ==> *final(tree) == *old(tree) && r.spec_value()
                == old(tree)@[self.spec_key()],
            (self matches Entry::Vacant(_)) ==> (exists|v: V|
                call_ensures(calc, (), v) && *final(tree) == old(tree).with_inserted(
                    self.spec_key(),
                    v,
                ) && final(tree)@ == old(tree)@.insert(self.spec_key(), v) && r.spec_value()
                    == v),
    {
        match self {
            Entry::Occupied(_) => {
                match tree.root() {
                    Some(n) => n,
                    None => unreached(),
                }
            },
            Entry::Vacant(v) => {
                let value = calc();
                tree.insert(v.key(), value)
            },
        }
    }

    /// Ensures a value is in the entry by inserting, if vacant, the result of
    /// a thunk that is handed the key, so key-derived values need no capture.
    pub fn or_insert_with_key<'a, V, F: FnOnce(u64) -> V>(
        self,
        tree: &'a mut SplayTree<V>,
        calc: F,
    ) -> (r: &'a Node<V>)
        requires
            self.valid(*old(tree)),
            (self matches Entry::Vacant(_)) ==> old(tree)@.dom().len() < usize::MAX
                && call_requires(calc, (self.spec_key(),)),
        ensures
            final(tree).well_formed(),
            final(tree).root_key() == Some(self.spec_key()),
            r.spec_key() == self.spec_key(),
            (self matches Entry::Occupied(_)) ==> *final(tree) == *old(tree) && r.spec_value()
                == old(tree)@[self.spec_key()],
            (self matches Entry::Vacant(_)) ==> (exists|v: V|
                call_ensures(calc, (self.spec_key(),), v) && *final(tree) == old(
                    tree,
                ).with_inserted(self.spec_key(), v) && final(tree)@ == old(tree)@.insert(
                    self.spec_key(),
                    v,
                ) && r.spec_value() == v),
    {
        match self {
            Entry::Occupied(_) => {
                match tree.root() {
                    Some(n) => n,
                    None => unreached(),
                }
            },
            Entry::Vacant(v) => {
                let key = v.key();
                let value = calc(key);
                tree.insert(key, value)
            },
        }
    }

    /// Provides in-place access to an occupied entry's value before any
    /// potential insert: the function reads the current value and yields the
    /// one to store. A vacant entry is passed through untouched.
    pub fn and_modify<V, F: FnOnce(&V) -> V>(self, tree: &mut SplayTree<V>, f: F) -> (r: Self)
        requires
            self.valid(*old(tree)),
            (self matches Entry::Occupied(_)) ==> call_requires(
                f,
                (&old(tree)@[self.spec_key()],),
            ),
        ensures
            r == self,
            r.valid(*final(tree)),
            final(tree).well_formed(),
            (self matches Entry::Vacant(_)) ==> *final(tree) == *old(tree),
            (self matches Entry::Occupied(_)) ==> (exists|v: V|
                call_ensures(f, (&old(tree)@[self.spec_key()],), v) && *final(tree) == old(
                    tree,
                ).with_root_value(v) && final(tree)@ == old(tree)@.insert(self.spec_key(), v)),
    {
        match &self {
            Entry::Occupied(_) => {
                let new_value = match tree.root() {
                    Some(n) => f(n.value()),
                    None => unreached(),
                };
                tree.set_root_value(new_value);
            },
            Entry::Vacant(_) => {
            },
        }
        self
    }

    /// Sets the value of the entry unconditionally, inserting a node if the
    /// entry is vacant, and returns a reference to the node at the root.
    pub fn insert<'a, V>(self, tree: &'a mut SplayTree<V>, value: V) -> (r: &'a Node<V>)
        requires
            self.valid(*old(tree)),
            (self matches Entry::Vacant(_)) ==> old(tree)@.dom().len() < usize::MAX,
        ensures
            final(tree).well_formed(),
            final(tree)@ == old(tree)@.insert(self.spec_key(), value),
            final(tree).root_key() == Some(self.spec_key()),
            (self matches Entry::Occupied(_)) ==> *final(tree) == old(tree).with_root_value(
                value,
            ),
            (self matches Entry::Vacant(_)) ==> *final(tree) == old(tree).with_inserted(
                self.spec_key(),
                value,
            ),
            r.spec_key() == self.spec_key(),
            r.spec_value() == value,
    {
        match self {
            Entry::Occupied(o) => {
                tree.set_root_value(value);
                match tree.root() {
                    Some(n) => n,
                    None => unreached(),
                }
            },
            Entry::Vacant(v) => tree.insert(v.key(), value),
        }
    }

    /// Ensures a value is in the entry by inserting the value type's default
    /// if vacant, and returns a reference to the node, splayed to the root.
    pub fn or_default<'a, V: Default>(self, tree: &'a mut SplayTree<V>) -> (r: &'a Node<V>)
        requires
            self.valid(*old(tree)),
            (self matches Entry::Vacant(_)) ==> old(tree)@.dom().len() < usize::MAX,
        ensures
            final(tree).well_formed(),
            final(tree).root_key() == Some(self.spec_key()),
            r.spec_key() == self.spec_key(),
            (self matches Entry::Occupied(_)) ==> *final(tree) == *old(tree) && r.spec_value()
                == old(tree)@[self.spec_key()],
            (self matches Entry::Vacant(_)) ==> *final(tree) == old(tree).with_inserted(
                self.spec_key(),
                r.spec_value(),
            ) && final(tree)@ == old(tree)@.insert(self.spec_key(), r.spec_value()),
    {
        match self {
            Entry::Occupied(_) => {
                match tree.root() {
                    Some(n) => n,
                    None => unreached(),
                }
            },
            Entry::Vacant(v) => {
                let value = V::default();
                tree.insert(v.key(), value)
            },
        }
    }
}

} // verus!
