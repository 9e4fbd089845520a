//! The trusted boundary around `vec_map::VecMap`, the dense integer-keyed
//! map in which the collector keeps its histogram storage. Each wrapper
//! states, over the two contents names, what the crate's source shows of
//! one method; nothing else in the crate is taken on trust.

use vstd::prelude::*;

use crate::misc::NamedStorage;
use crate::task::{KeyedStorage, PlainStorage};

verus! {

#[verifier::external_type_specification]
#[verifier::external_body]
#[verifier::reject_recursive_types(V)]
pub struct ExVecMap<V>(vec_map::VecMap<V>);

/// What a collector map of plain storages holds, as a map from slot index
/// to named storage.
pub uninterp spec fn plain_map_entries(m: vec_map::VecMap<NamedStorage<PlainStorage>>) -> Map<
    int,
    NamedStorage<PlainStorage>,
>;

/// What a collector map of keyed storages holds, as a map from slot index
/// to named storage.
pub uninterp spec fn keyed_map_entries(m: vec_map::VecMap<NamedStorage<KeyedStorage>>) -> Map<
    int,
    NamedStorage<KeyedStorage>,
>;

/// Relies on vec_map::VecMap::new: a new map holds no entries.
#[verifier::external_body]
pub fn plain_map_new() -> (r: vec_map::VecMap<NamedStorage<PlainStorage>>)
    ensures
        forall|k: int| !plain_map_entries(r).dom().contains(k),
{
    vec_map::VecMap::new()
}

/// Relies on vec_map::VecMap::insert: the value is stored under the key
/// and the previous value under that key, if any, comes back.
#[verifier::external_body]
pub fn plain_map_insert(
    m: &mut vec_map::VecMap<NamedStorage<PlainStorage>>,
    key: usize,
    value: NamedStorage<PlainStorage>,
) -> (r: Option<NamedStorage<PlainStorage>>)
    ensures
        plain_map_entries(*final(m)) == plain_map_entries(*old(m)).insert(key as int, value),
        match r {
            Option::Some(v) => plain_map_entries(*old(m)).contains_pair(key as int, v),
            Option::None => !plain_map_entries(*old(m)).dom().contains(key as int),
        },
{
    m.insert(key, value)
}

/// Relies on vec_map::VecMap::remove: the entry under the key leaves the
/// map and comes back, if there was one.
#[verifier::external_body]
pub fn plain_map_remove(m: &mut vec_map::VecMap<NamedStorage<PlainStorage>>, key: usize) -> (r:
    Option<NamedStorage<PlainStorage>>)
    ensures
        plain_map_entries(*final(m)) == plain_map_entries(*old(m)).remove(key as int),
        match r {
            Option::Some(v) => plain_map_entries(*old(m)).contains_pair(key as int, v),
            Option::None => !plain_map_entries(*old(m)).dom().contains(key as int),
        },
{
    m.remove(key)
}

/// Relies on vec_map::VecMap::get: a borrow of the entry under the key,
/// if there is one.
#[verifier::external_body]
pub fn plain_map_get<'a>(
    m: &'a vec_map::VecMap<NamedStorage<PlainStorage>>,
    key: usize,
) -> (r: Option<&'a NamedStorage<PlainStorage>>)
    ensures
        match r {
            Option::Some(v) => plain_map_entries(*m).contains_pair(key as int, *v),
            Option::None => !plain_map_entries(*m).dom().contains(key as int),
        },
{
    m.get(key)
}

/// Relies on vec_map::VecMap::keys: the keys of all entries, in increasing
/// order.
#[verifier::external_body]
pub fn plain_map_keys(m: &vec_map::VecMap<NamedStorage<PlainStorage>>) -> (r: Vec<usize>)
    ensures
        forall|i: int|
            0 <= i < r@.len() ==> plain_map_entries(*m).dom().contains(#[trigger] r@[i] as int),
        forall|k: int|
            #[trigger] plain_map_entries(*m).dom().contains(k) ==> exists|i: int|
                0 <= i < r@.len() && r@[i] as int == k,
        forall|i: int, j: int| 0 <= i < j < r@.len() ==> r@[i] < r@[j],
{
    m.keys().collect()
}

/// Relies on vec_map::VecMap::new: a new map holds no entries.
#[verifier::external_body]
pub fn keyed_map_new() -> (r: vec_map::VecMap<NamedStorage<KeyedStorage>>)
    ensures
        forall|k: int| !keyed_map_entries(r).dom().contains(k),
{
    vec_map::VecMap::new()
}

/// Relies on vec_map::VecMap::insert: the value is stored under the key
/// and the previous value under that key, if any, comes back.
#[verifier::external_body]
pub fn keyed_map_insert(
    m: &mut vec_map::VecMap<NamedStorage<KeyedStorage>>,
    key: usize,
    value: NamedStorage<KeyedStorage>,
) -> (r: Option<NamedStorage<KeyedStorage>>)
    ensures
        keyed_map_entries(*final(m)) == keyed_map_entries(*old(m)).insert(key as int, value),
        match r {
            Option::Some(v) => keyed_map_entries(*old(m)).contains_pair(key as int, v),
            Option::None => !keyed_map_entries(*old(m)).dom().contains(key as int),
        },
{
    m.insert(key, value)
}

/// Relies on vec_map::VecMap::remove: the entry under the key leaves the
/// map and comes back, if there was one.
#[verifier::external_body]
pub fn keyed_map_remove(m: &mut vec_map::VecMap<NamedStorage<KeyedStorage>>, key: usize) -> (r:
    Option<NamedStorage<KeyedStorage>>)
    ensures
        keyed_map_entries(*final(m)) == keyed_map_entries(*old(m)).remove(key as int),
        match r {
            Option::Some(v) => keyed_map_entries(*old(m)).contains_pair(key as int, v),
            Option::None => !keyed_map_entries(*old(m)).dom().contains(key as int),
        },
{
    m.remove(key)
}

/// Relies on vec_map::VecMap::get: a borrow of the entry under the key,
/// if there is one.
#[verifier::external_body]
pub fn keyed_map_get<'a>(
    m: &'a vec_map::VecMap<NamedStorage<KeyedStorage>>,
    key: usize,
) -> (r: Option<&'a NamedStorage<KeyedStorage>>)
    ensures
        match r {
            Option::Some(v) => keyed_map_entries(*m).contains_pair(key as int, *v),
            Option::None => !keyed_map_entries(*m).dom().contains(key as int),
        },
{
    m.get(key)
}

/// Relies on vec_map::VecMap::keys: the keys of all entries, in increasing
/// order.
#[verifier::external_body]
pub fn keyed_map_keys(m: &vec_map::VecMap<NamedStorage<KeyedStorage>>) -> (r: Vec<usize>)
    ensures
        forall|i: int|
            0 <= i < r@.len() ==> keyed_map_entries(*m).dom().contains(#[trigger] r@[i] as int),
        forall|k: int|
            #[trigger] keyed_map_entries(*m).dom().contains(k) ==> exists|i: int|
                0 <= i < r@.len() && r@[i] as int == k,
        forall|i: int, j: int| 0 <= i < j < r@.len() ==> r@[i] < r@[j],
{
    m.keys().collect()
}

} // verus!
