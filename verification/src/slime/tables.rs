//! Hash tables with the hasher of the `rustc-hash` crate.
//!
//! The keys are tuples of integers or integers, which hash and compare by their
//! value; the functions here state that a table with such keys is a map, and a
//! set of them a set.

use rustc_hash::{FxBuildHasher, FxHashMap, FxHashSet};
use std::hash::Hash;
use vstd::prelude::*;

verus! {

#[verifier::external_type_specification]
#[verifier::external_body]
pub struct ExFxBuildHasher(FxBuildHasher);

/// A key that hashes and compares by its value.
pub(crate) trait TableKey {

}

impl TableKey for (i32, i32) {

}

impl TableKey for (i32, i32, i32) {

}

impl TableKey for u128 {

}

/// The keys of a table, each of them once, in the order `keys`.
pub open spec fn walks<K, V>(keys: Seq<K>, table: Map<K, V>) -> bool {
    &&& keys.no_duplicates()
    &&& forall|k: K| keys.contains(k) <==> table.contains_key(k)
}

/// `FxHashMap::insert`: the key leads to the new value, every other key to what
/// it did before.
#[verifier::external_body]
pub(crate) fn insert<K: TableKey + Copy + Eq + Hash, V>(
    table: &mut FxHashMap<K, V>,
    key: K,
    value: V,
)
    ensures
        final(table)@ == old(table)@.insert(key, value),
{
    table.insert(key, value);
}

/// `FxHashMap::get`: the value that the key leads to, where there is one.
#[verifier::external_body]
pub(crate) fn get<'a, K: TableKey + Copy + Eq + Hash, V>(
    table: &'a FxHashMap<K, V>,
    key: &K,
) -> (r: Option<&'a V>)
    ensures
        r matches Some(value) ==> table@.contains_key(*key) && *value == table@[*key],
        r is None ==> !table@.contains_key(*key),
{
    table.get(key)
}

/// `FxHashMap::keys`: every key once. The order is left open.
#[verifier::external_body]
pub(crate) fn keys<K: TableKey + Copy + Eq + Hash, V>(table: &FxHashMap<K, V>) -> (r: Vec<K>)
    ensures
        walks(r@, table@),
{
    table.keys().copied().collect()
}

/// `FxHashMap::values`: the value of every key once. The order is left open.
#[verifier::external_body]
pub(crate) fn values<'a, K: TableKey + Copy + Eq + Hash, V>(
    table: &'a FxHashMap<K, V>,
) -> (r: Vec<&'a V>)
    ensures
        exists|keys: Seq<K>| #[trigger]
            walks(keys, table@) && r@.len() == keys.len() && forall|i: int|
                0 <= i < keys.len() ==> *(#[trigger] r@[i]) == table@[keys[i]],
{
    table.values().collect()
}

/// `FxHashSet::insert`: the set holds the item as well.
#[verifier::external_body]
pub(crate) fn set_insert<K: TableKey + Copy + Eq + Hash>(set: &mut FxHashSet<K>, item: K)
    ensures
        final(set)@ == old(set)@.insert(item),
{
    set.insert(item);
}

/// `FxHashSet::iter`: every item once. The order is left open.
#[verifier::external_body]
pub(crate) fn set_items<K: TableKey + Copy + Eq + Hash>(set: &FxHashSet<K>) -> (r: Vec<K>)
    ensures
        r@.no_duplicates(),
        forall|k: K| r@.contains(k) <==> set@.contains(k),
{
    set.iter().copied().collect()
}

} // verus!
