//! The register of the nodes that can be found by key, held in a `dashmap::DashMap`.
//!
//! The register is owned by its group and shared with nobody, so what it holds changes only
//! through `&mut`. `dashmap` itself is reached through the wrappers of this module; what they
//! claim of it is not proved here.

use dashmap::DashMap;
use vstd::prelude::*;

verus! {

/// A concurrent hash map.
#[verifier::external_type_specification]
#[verifier::external_body]
#[verifier::reject_recursive_types(K)]
#[verifier::reject_recursive_types(V)]
#[verifier::reject_recursive_types(S)]
pub struct ExDashMap<K, V, S>(DashMap<K, V, S>);

/// What the register holds.
pub uninterp spec fn entries(map: DashMap<(u64, u64), usize>) -> Map<(u64, u64), usize>;

/// Calls `dashmap::DashMap::new`: an empty map.
#[verifier::external_body]
pub(crate) fn dashmap_new() -> (map: DashMap<(u64, u64), usize>)
    ensures
        (entries(map) == Map::<(u64, u64), usize>::empty()),
{
    DashMap::new()
}

/// Calls `dashmap::DashMap::insert`: the key leads to the value from now on; the value that it
/// led to before comes back.
#[verifier::external_body]
pub(crate) fn dashmap_insert(
    map: &mut DashMap<(u64, u64), usize>,
    key: (u64, u64),
    value: usize,
) -> (replaced: Option<usize>)
    ensures
        entries(*final(map)) == entries(*old(map)).insert(key, value),
        replaced == if entries(*old(map)).contains_key(key) {
            Some(entries(*old(map))[key])
        } else {
            None
        },
{
    map.insert(key, value)
}

/// Calls `dashmap::DashMap::get`: the value that the key leads to, if it is in the map.
#[verifier::external_body]
pub(crate) fn dashmap_get(map: &DashMap<(u64, u64), usize>, key: (u64, u64)) -> (found: Option<
    usize,
>)
    ensures
        found == if entries(*map).contains_key(key) {
            Some(entries(*map)[key])
        } else {
            None
        },
{
    map.get(&key).map(|entry| *entry.value())
}

/// Calls `dashmap::DashMap::iter`: every key once, with its value, in an order that is not
/// known.
#[verifier::external_body]
pub(crate) fn dashmap_iter(map: &DashMap<(u64, u64), usize>) -> (list: Vec<((u64, u64), usize)>)
    ensures
        forall|i: int|
            0 <= i < list@.len() ==> entries(*map).contains_key((#[trigger] list@[i]).0) && entries(
                *map,
            )[list@[i].0] == list@[i].1,
        forall|i: int, j: int|
            0 <= i < j < list@.len() ==> (#[trigger] list@[i]).0 != (#[trigger] list@[j]).0,
        forall|key: (u64, u64)| #[trigger]
            entries(*map).contains_key(key) ==> list@.contains((key, entries(*map)[key])),
{
    map.iter().map(|entry| (*entry.key(), *entry.value())).collect()
}

} // verus!
