//! Hash maps from integers to slots.

use ahash::{AHashMap, RandomState};
use vstd::prelude::*;

verus! {

/// ahash's hash map.
#[verifier::external_type_specification]
#[verifier::external_body]
#[verifier::reject_recursive_types(K)]
#[verifier::reject_recursive_types(V)]
#[verifier::reject_recursive_types(S)]
pub struct ExAHashMap<K, V, S>(AHashMap<K, V, S>);

/// The keys that ahash hashes with.
#[verifier::external_type_specification]
#[verifier::external_body]
pub struct ExRandomState(RandomState);

/// What a slot map holds.
pub uninterp spec fn slots(map: AHashMap<u64, u32, RandomState>) -> Map<u64, u32>;

/// A slot map that holds nothing.
pub open spec fn no_slots() -> Map<u64, u32> {
    Map::empty()
}

/// The hash of some bytes under given keys.
pub uninterp spec fn hash_of(keys: RandomState, bytes: Seq<u8>) -> u64;

/// Fresh keys: `RandomState::new`. Nothing is known of them.
#[verifier::external_body]
pub(crate) fn new_keys() -> (r: RandomState) {
    RandomState::new()
}

/// The same keys again: `RandomState::clone`.
#[verifier::external_body]
pub(crate) fn copy_keys(keys: &RandomState) -> (r: RandomState)
    ensures
        r == *keys,
{
    keys.clone()
}

/// `RandomState::hash_one`: under the same keys, the same bytes have the same
/// hash.
#[verifier::external_body]
pub(crate) fn hash_bytes(keys: &RandomState, bytes: &[u8]) -> (r: u64)
    ensures
        r == hash_of(*keys, bytes@),
{
    keys.hash_one(bytes)
}

/// An empty map: `AHashMap::new`.
#[verifier::external_body]
pub(crate) fn new_map() -> (r: AHashMap<u64, u32, RandomState>)
    ensures
        slots(r) == no_slots(),
{
    AHashMap::new()
}

/// `HashMap::clear`, through `AHashMap`'s deref: nothing is left.
#[verifier::external_body]
pub(crate) fn clear_map(map: &mut AHashMap<u64, u32, RandomState>)
    ensures
        slots(*final(map)) == no_slots(),
{
    map.clear()
}

/// The slot of a key: `AHashMap::get`.
#[verifier::external_body]
pub(crate) fn get_slot(map: &AHashMap<u64, u32, RandomState>, key: u64) -> (r: Option<u32>)
    ensures
        r == (if slots(*map).contains_key(key) {
            Some(slots(*map)[key])
        } else {
            None
        }),
{
    map.get(&key).copied()
}

/// `HashMap::entry` with `or_insert`: a key that is there keeps its slot.
#[verifier::external_body]
pub(crate) fn insert_vacant(map: &mut AHashMap<u64, u32, RandomState>, key: u64, slot: u32)
    ensures
        slots(*final(map)) == (if slots(*old(map)).contains_key(key) {
            slots(*old(map))
        } else {
            slots(*old(map)).insert(key, slot)
        }),
{
    map.entry(key).or_insert(slot);
}

/// A map with the same contents: `AHashMap::clone`.
#[verifier::external_body]
pub(crate) fn copy_map(map: &AHashMap<u64, u32, RandomState>) -> (r: AHashMap<
    u64,
    u32,
    RandomState,
>)
    ensures
        slots(r) == slots(*map),
{
    map.clone()
}

} // verus!
