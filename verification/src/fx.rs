//! The hash collections of `rustc_hash`, keyed by `u32`.
//!
//! `FxHashMap` and `FxHashSet` are the hash map and hash set of the standard
//! library with the hasher of `rustc_hash`. What a map or a set holds is its
//! view (`@`). The functions below call one method each; their contracts say
//! what the documentation of that method says, and are not proved.

use rustc_hash::{FxHashMap, FxHashSet, FxHasher};
use std::hash::BuildHasherDefault;
use vstd::prelude::*;

verus! {

/// The hasher of `rustc_hash`, declared so that the two collections can be named.
#[verifier::external_type_specification]
#[verifier::external_body]
pub struct ExFxHasher(FxHasher);

/// The hasher builder of the standard library that `FxHashMap` and `FxHashSet` are made with.
#[verifier::external_type_specification]
#[verifier::external_body]
#[verifier::reject_recursive_types(H)]
pub struct ExBuildHasherDefault<H>(BuildHasherDefault<H>);

/// `HashMap::get` on an `FxHashMap`: the value stored under the key, if there is one.
#[verifier::external_body]
pub(crate) fn map_get<'a, V>(map: &'a FxHashMap<u32, V>, key: u32) -> (value: Option<&'a V>)
    ensures
        value == (if map@.contains_key(key) {
            Some(&map@[key])
        } else {
            None
        }),
{
    map.get(&key)
}

/// `HashMap::get_mut` on an `FxHashMap`: a way to change the value stored under
/// the key, if there is one. Nothing else in the map changes, and the call
/// does not unwind.
#[verifier::external_body]
pub(crate) fn map_get_mut<'a, V>(map: &'a mut FxHashMap<u32, V>, key: u32) -> (value: Option<
    &'a mut V,
>)
    ensures
        match value {
            Some(stored) => old(map)@.contains_key(key) && *stored == old(map)@[key]
                && final(map)@ == old(map)@.insert(key, *final(stored)),
            None => !old(map)@.contains_key(key) && final(map)@ == old(map)@,
        },
    no_unwind
{
    map.get_mut(&key)
}

/// `HashMap::insert` on an `FxHashMap`: afterwards the key holds the new value,
/// and the value it held before, if any, is handed back.
#[verifier::external_body]
pub(crate) fn map_insert<V>(map: &mut FxHashMap<u32, V>, key: u32, value: V) -> (before: Option<V>)
    ensures
        final(map)@ == old(map)@.insert(key, value),
        before == (if old(map)@.contains_key(key) {
            Some(old(map)@[key])
        } else {
            None
        }),
{
    map.insert(key, value)
}

/// `HashMap::len` on an `FxHashMap`: the number of keys.
#[verifier::external_body]
pub(crate) fn map_len<V>(map: &FxHashMap<u32, V>) -> (len: usize)
    ensures
        len == map@.dom().len(),
{
    map.len()
}

/// `HashMap::keys` on an `FxHashMap`: every key once, in an order that is not
/// stated.
#[verifier::external_body]
pub(crate) fn map_keys<V>(map: &FxHashMap<u32, V>) -> (keys: Vec<u32>)
    ensures
        keys@.no_duplicates(),
        keys@.to_set() == map@.dom(),
{
    map.keys().copied().collect()
}

/// `HashSet::insert` on an `FxHashSet`: afterwards the item is in the set; the
/// result says whether it was new.
#[verifier::external_body]
pub(crate) fn set_insert(set: &mut FxHashSet<u32>, item: u32) -> (fresh: bool)
    ensures
        final(set)@ == old(set)@.insert(item),
        fresh == !old(set)@.contains(item),
{
    set.insert(item)
}

/// `HashSet::contains` on an `FxHashSet`.
#[verifier::external_body]
pub(crate) fn set_contains(set: &FxHashSet<u32>, item: u32) -> (found: bool)
    ensures
        found == set@.contains(item),
{
    set.contains(&item)
}

/// `HashSet::len` on an `FxHashSet`: the number of items.
#[verifier::external_body]
pub(crate) fn set_len(set: &FxHashSet<u32>) -> (len: usize)
    ensures
        len == set@.len(),
{
    set.len()
}

/// `HashSet::iter` on an `FxHashSet`: every item once, in an order that is not
/// stated.
#[verifier::external_body]
pub(crate) fn set_items(set: &FxHashSet<u32>) -> (items: Vec<u32>)
    ensures
        items@.no_duplicates(),
        items@.to_set() == set@,
{
    set.iter().copied().collect()
}

/// `Clone::clone` on an `FxHashSet`: a set that holds the same items.
#[verifier::external_body]
pub(crate) fn set_clone(set: &FxHashSet<u32>) -> (copy: FxHashSet<u32>)
    ensures
        copy@ == set@,
{
    set.clone()
}

} // verus!
