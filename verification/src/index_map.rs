//! The two hash maps that concatenation keeps, from `hashbrown`: names to
//! global indices, and a child's indices to global ones.
use vstd::prelude::*;

verus! {

/// Names (of sources or identifiers) to the global index given to each.
#[verifier::external_body]
pub struct NameIndex {
    map: hashbrown::HashMap<String, u32>,
}

/// What a [`NameIndex`] holds.
pub uninterp spec fn name_index_contents(m: NameIndex) -> Map<Seq<char>, u32>;

impl NameIndex {
    /// `hashbrown::HashMap::new`: an empty map.
    #[verifier::external_body]
    pub(crate) fn new() -> (res: NameIndex)
        ensures
            name_index_contents(res).dom() == Set::<Seq<char>>::empty(),
    {
        NameIndex { map: hashbrown::HashMap::new() }
    }

    /// `hashbrown::HashMap::get`: the value under `key`, if any.  Lookup by a
    /// `&str` is lookup by the characters of the `String` keys.
    #[verifier::external_body]
    pub(crate) fn get(&self, key: &str) -> (res: Option<u32>)
        ensures
            res == (if name_index_contents(*self).dom().contains(key@) {
                Some(name_index_contents(*self)[key@])
            } else {
                None
            }),
    {
        self.map.get(key).copied()
    }

    /// `hashbrown::HashMap::insert`: `key` now maps to `value`.
    #[verifier::external_body]
    pub(crate) fn insert(&mut self, key: String, value: u32)
        ensures
            name_index_contents(*final(self)) == name_index_contents(*old(self)).insert(key@, value),
    {
        self.map.insert(key, value);
    }

    /// `hashbrown::HashMap::len`: the number of keys.
    #[verifier::external_body]
    pub(crate) fn len(&self) -> (res: usize)
        ensures
            res == name_index_contents(*self).dom().len(),
    {
        self.map.len()
    }
}

/// A child's indices to global indices.
#[verifier::external_body]
pub struct IndexRemap {
    map: hashbrown::HashMap<u32, u32>,
}

/// What an [`IndexRemap`] holds.
pub uninterp spec fn index_remap_contents(m: IndexRemap) -> Map<u32, u32>;

impl IndexRemap {
    /// `hashbrown::HashMap::new`: an empty map.
    #[verifier::external_body]
    pub(crate) fn new_remap() -> (res: IndexRemap)
        ensures
            index_remap_contents(res).dom() == Set::<u32>::empty(),
    {
        IndexRemap { map: hashbrown::HashMap::new() }
    }

    /// `hashbrown::HashMap::get`: the value under `key`, if any.
    #[verifier::external_body]
    pub(crate) fn get_index(&self, key: u32) -> (res: Option<u32>)
        ensures
            res == (if index_remap_contents(*self).dom().contains(key) {
                Some(index_remap_contents(*self)[key])
            } else {
                None
            }),
    {
        self.map.get(&key).copied()
    }

    /// `hashbrown::HashMap::insert`: `key` now maps to `value`.
    #[verifier::external_body]
    pub(crate) fn insert_index(&mut self, key: u32, value: u32)
        ensures
            index_remap_contents(*final(self)) == index_remap_contents(*old(self)).insert(key, value),
    {
        self.map.insert(key, value);
    }
}

} // verus!
