//! The hash index: a hashbrown map from each key to the arena slot of the
//! node that holds it.
use vstd::prelude::*;

verus! {

/// Key-to-slot table, kept in a `hashbrown::HashMap`.
#[verifier::external_body]
pub struct KeyIndex {
    table: hashbrown::HashMap<u64, usize>,
}

/// The entries that a `KeyIndex` holds.
pub uninterp spec fn index_entries(ix: KeyIndex) -> Map<u64, usize>;

impl KeyIndex {
    /// Relies on `hashbrown::HashMap::new`: a map with no entries.
    #[verifier::external_body]
    pub(crate) fn new() -> (r: KeyIndex)
        ensures
            index_entries(r).is_empty(),
    {
        KeyIndex { table: hashbrown::HashMap::new() }
    }

    /// Relies on `hashbrown::HashMap::get`: the slot stored under `key`, if any.
    #[verifier::external_body]
    pub(crate) fn get(&self, key: u64) -> (r: Option<usize>)
        ensures
            r == (if index_entries(*self).contains_key(key) {
                Some(index_entries(*self)[key])
            } else {
                None
            }),
    {
        self.table.get(&key).copied()
    }

    /// Relies on `hashbrown::HashMap::insert`: stores `slot` under `key`,
    /// replacing and returning what was stored there.
    #[verifier::external_body]
    pub(crate) fn insert(&mut self, key: u64, slot: usize) -> (r: Option<usize>)
        ensures
            index_entries(*final(self)) == index_entries(*old(self)).insert(key, slot),
            r == (if index_entries(*old(self)).contains_key(key) {
                Some(index_entries(*old(self))[key])
            } else {
                None
            }),
    {
        self.table.insert(key, slot)
    }

    /// Relies on `hashbrown::HashMap::remove`: drops the entry of `key` and
    /// returns its slot, if there was one.
    #[verifier::external_body]
    pub(crate) fn remove(&mut self, key: u64) -> (r: Option<usize>)
        ensures
            index_entries(*final(self)) == index_entries(*old(self)).remove(key),
            r == (if index_entries(*old(self)).contains_key(key) {
                Some(index_entries(*old(self))[key])
            } else {
                None
            }),
    {
        self.table.remove(&key)
    }

    /// Relies on `hashbrown::HashMap::len`: the number of entries.
    #[verifier::external_body]
    pub(crate) fn len(&self) -> (r: usize)
        ensures
            r == index_entries(*self).len(),
    {
        self.table.len()
    }

    /// Relies on `hashbrown::HashMap::capacity`: how many entries fit without
    /// reallocating, never fewer than are stored.
    #[verifier::external_body]
    pub(crate) fn capacity(&self) -> (r: usize)
        ensures
            r >= index_entries(*self).len(),
    {
        self.table.capacity()
    }
}

} // verus!
