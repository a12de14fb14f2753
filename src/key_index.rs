//! An index from partition keys to positions, kept in a hash map.

use vstd::prelude::*;

verus! {

/// Positions by partition key.
#[verifier::external_body]
pub(crate) struct KeyIndex {
    map: hashbrown::HashMap<String, usize>,
}

/// What a [`KeyIndex`] holds: the position stored under each key.
pub uninterp spec fn key_index_entries(index: KeyIndex) -> Map<Seq<char>, usize>;

impl KeyIndex {
    /// Relies on `hashbrown::HashMap::new`: a map with no entry.
    #[verifier::external_body]
    pub(crate) fn new() -> (r: KeyIndex)
        ensures
            key_index_entries(r).dom() == Set::<Seq<char>>::empty(),
    {
        KeyIndex { map: hashbrown::HashMap::new() }
    }

    /// Relies on `hashbrown::HashMap::get`: the value stored under the key,
    /// found by `str`'s `Hash` and `Eq`, which agree with `String`'s.
    #[verifier::external_body]
    pub(crate) fn get(&self, key: &str) -> (r: Option<usize>)
        ensures
            match r {
                Some(v) => key_index_entries(*self).contains_key(key@) && key_index_entries(
                    *self,
                )[key@] == v,
                None => !key_index_entries(*self).contains_key(key@),
            },
    {
        self.map.get(key).copied()
    }

    /// Relies on `hashbrown::HashMap::insert`: afterwards the key maps to
    /// the value, and the other entries are as they were.
    #[verifier::external_body]
    pub(crate) fn insert(&mut self, key: String, value: usize)
        ensures
            key_index_entries(*final(self)) == key_index_entries(*old(self)).insert(key@, value),
    {
        self.map.insert(key, value);
    }
}

} // verus!
