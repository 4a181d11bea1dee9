//! The hash maps, from `rustc_hash`, that streaming a source through an inner
//! source map keeps: names to global indices, indices to indices, and
//! indices to the names and sources registered under them.
//!
//! vstd states `HashMap`'s methods only for the hasher that std seeds, so each
//! map is held behind a small type whose contents have a name, and each
//! method that the logic calls states what it does to them.
use vstd::prelude::*;

verus! {

/// Names to the global index given to each.
#[verifier::external_body]
pub struct FxNameIds {
    map: rustc_hash::FxHashMap<String, u32>,
}

/// What a [`FxNameIds`] holds.
pub uninterp spec fn fx_name_ids(m: FxNameIds) -> Map<Seq<char>, u32>;

impl FxNameIds {
    /// `FxHashMap::default`: an empty map.
    #[verifier::external_body]
    pub(crate) fn new() -> (res: FxNameIds)
        ensures
            fx_name_ids(res).dom() == Set::<Seq<char>>::empty(),
    {
        FxNameIds { map: rustc_hash::FxHashMap::default() }
    }

    /// `HashMap::get`, copied: the index under `key`, if any.  Lookup by a
    /// `&str` is lookup by the characters of the `String` keys.
    #[verifier::external_body]
    pub(crate) fn get(&self, key: &str) -> (res: Option<u32>)
        ensures
            res == (if fx_name_ids(*self).contains_key(key@) {
                Some(fx_name_ids(*self)[key@])
            } else {
                None
            }),
    {
        self.map.get(key).copied()
    }

    /// `HashMap::insert`: `key` now maps to `value`.
    #[verifier::external_body]
    pub(crate) fn insert(&mut self, key: String, value: u32)
        ensures
            fx_name_ids(*final(self)) == fx_name_ids(*old(self)).insert(key@, value),
    {
        self.map.insert(key, value);
    }

    /// `HashMap::len`: the number of keys.
    #[verifier::external_body]
    pub(crate) fn len(&self) -> (res: usize)
        ensures
            res == fx_name_ids(*self).dom().len(),
    {
        self.map.len()
    }
}

/// Indices to indices.
#[verifier::external_body]
pub struct FxIndexMap {
    map: rustc_hash::FxHashMap<i64, i64>,
}

/// What a [`FxIndexMap`] holds.
pub uninterp spec fn fx_index_map(m: FxIndexMap) -> Map<i64, i64>;

impl FxIndexMap {
    /// `FxHashMap::default`: an empty map.
    #[verifier::external_body]
    pub(crate) fn new() -> (res: FxIndexMap)
        ensures
            fx_index_map(res).dom() == Set::<i64>::empty(),
    {
        FxIndexMap { map: rustc_hash::FxHashMap::default() }
    }

    /// `HashMap::get`, copied: the value under `key`, if any.
    #[verifier::external_body]
    pub(crate) fn get(&self, key: i64) -> (res: Option<i64>)
        ensures
            res == (if fx_index_map(*self).contains_key(key) {
                Some(fx_index_map(*self)[key])
            } else {
                None
            }),
    {
        self.map.get(&key).copied()
    }

    /// `HashMap::insert`: `key` now maps to `value`.
    #[verifier::external_body]
    pub(crate) fn insert(&mut self, key: i64, value: i64)
        ensures
            fx_index_map(*final(self)) == fx_index_map(*old(self)).insert(key, value),
    {
        self.map.insert(key, value);
    }
}

/// Indices to the names registered under them.
#[verifier::external_body]
pub struct FxNameValues {
    map: rustc_hash::FxHashMap<i64, String>,
}

/// What a [`FxNameValues`] holds.
pub uninterp spec fn fx_name_values(m: FxNameValues) -> Map<i64, Seq<char>>;

impl FxNameValues {
    /// `FxHashMap::default`: an empty map.
    #[verifier::external_body]
    pub(crate) fn new() -> (res: FxNameValues)
        ensures
            fx_name_values(res).dom() == Set::<i64>::empty(),
    {
        FxNameValues { map: rustc_hash::FxHashMap::default() }
    }

    /// `HashMap::get`, cloned: the name under `key`, if any.
    #[verifier::external_body]
    pub(crate) fn get(&self, key: i64) -> (res: Option<String>)
        ensures
            res matches Some(s) ==> fx_name_values(*self).contains_key(key) && s@ == fx_name_values(*self)[key],
            res is None ==> !fx_name_values(*self).contains_key(key),
    {
        self.map.get(&key).cloned()
    }

    /// `HashMap::insert`: `key` now maps to `value`.
    #[verifier::external_body]
    pub(crate) fn insert(&mut self, key: i64, value: String)
        ensures
            fx_name_values(*final(self)) == fx_name_values(*old(self)).insert(key, value@),
    {
        self.map.insert(key, value);
    }
}

/// A source and its content as plain values.
pub open spec fn source_value_view(v: (String, Option<String>)) -> (Seq<char>, Option<Seq<char>>) {
    (v.0@, crate::stream::opt_chars(v.1))
}

/// Indices to the sources, with their contents, registered under them.
#[verifier::external_body]
pub struct FxSourceValues {
    map: rustc_hash::FxHashMap<i64, (String, Option<String>)>,
}

/// What a [`FxSourceValues`] holds.
pub uninterp spec fn fx_source_values(m: FxSourceValues) -> Map<i64, (Seq<char>, Option<Seq<char>>)>;

impl FxSourceValues {
    /// `FxHashMap::default`: an empty map.
    #[verifier::external_body]
    pub(crate) fn new() -> (res: FxSourceValues)
        ensures
            fx_source_values(res).dom() == Set::<i64>::empty(),
    {
        FxSourceValues { map: rustc_hash::FxHashMap::default() }
    }

    /// `HashMap::get`, cloned: the source and content under `key`, if any.
    #[verifier::external_body]
    pub(crate) fn get(&self, key: i64) -> (res: Option<(String, Option<String>)>)
        ensures
            res matches Some(v) ==> fx_source_values(*self).contains_key(key) && source_value_view(v)
                == fx_source_values(*self)[key],
            res is None ==> !fx_source_values(*self).contains_key(key),
    {
        self.map.get(&key).cloned()
    }

    /// `HashMap::insert`: `key` now maps to `value`.
    #[verifier::external_body]
    pub(crate) fn insert(&mut self, key: i64, value: (String, Option<String>))
        ensures
            fx_source_values(*final(self)) == fx_source_values(*old(self)).insert(key, source_value_view(value)),
    {
        self.map.insert(key, value);
    }
}

} // verus!
