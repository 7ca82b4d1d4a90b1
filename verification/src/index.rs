//! The table from keys to slot numbers.
//!
//! The table itself is `bevy::utils::HashMap`, which is the hash map of the
//! `hashbrown` crate with Bevy's hasher. Its code is not verified here: the
//! functions of this module state what each call does to the table's contents.

use vstd::prelude::*;

verus! {

/// A hash table from keys to slot numbers, kept in `bevy::utils::HashMap`.
/// Nothing but the functions of this module reaches the table inside.
#[verifier::external_body]
pub struct KeyIndex {
    table: bevy::utils::HashMap<u64, usize>,
}

/// The pairs that a table holds.
pub uninterp spec fn index_entries(index: KeyIndex) -> Map<u64, usize>;

/// `HashMap::default`: a table that holds nothing.
#[verifier::external_body]
pub(crate) fn empty_index() -> (made: KeyIndex)
    ensures
        forall|key: u64| !index_entries(made).contains_key(key),
{
    KeyIndex { table: bevy::utils::HashMap::default() }
}

impl KeyIndex {
    /// `HashMap::get`: the slot number stored under `key`, if there is one.
    #[verifier::external_body]
    pub(crate) fn slot_of(&self, key: u64) -> (slot: Option<usize>)
        ensures
            slot == (if index_entries(*self).contains_key(key) {
                Some(index_entries(*self)[key])
            } else {
                None
            }),
    {
        self.table.get(&key).copied()
    }

    /// `HashMap::insert`: afterwards `key` leads to `slot`, whatever it led to
    /// before, and every other key is as it was.
    #[verifier::external_body]
    pub(crate) fn set_slot(&mut self, key: u64, slot: usize)
        ensures
            index_entries(*final(self)) == index_entries(*old(self)).insert(key, slot),
    {
        self.table.insert(key, slot);
    }
}

} // verus!
