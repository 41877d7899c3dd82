//! Lazy hash index over the paths of a range of slots.

use crate::bytes;
use crate::index::slot_map;
use ahash::{AHashMap, RandomState};
use vstd::prelude::*;

verus! {

/// Ranges shorter than this are scanned linearly instead of being indexed.
pub const MIN_INDEXED_LEN: usize = 32;

/// A table whose slots hold paths.
pub trait SlotPaths {
    spec fn readable(&self, slot: int) -> bool;

    spec fn path_at(&self, slot: int) -> Seq<u8>;

    fn read_slot(&self, slot: usize) -> (r: Vec<u8>)
        requires
            self.readable(slot as int),
        ensures
            r@ == self.path_at(slot as int),
    ;
}

/// Hash index over one append-only slot range; extends itself on lookup and
/// rebuilds when the range moves or is reordered.
pub struct PathIndex {
    pub start: usize,
    pub indexed_upto: usize,
    pub map: AHashMap<u64, u32, RandomState>,
    pub hasher: RandomState,
}

/// Under each hash the lowest slot from `start` up to `upto` is found whose
/// path has that hash, and no hash of another path is known.
pub open spec fn indexes<S: SlotPaths>(index: PathIndex, paths: S, start: int, upto: int) -> bool {
    let map = slot_map::slots(index.map);
    &&& forall|slot: int|
        start <= slot < upto ==> map.contains_key(
            slot_map::hash_of(index.hasher, #[trigger] paths.path_at(slot)),
        ) && map[slot_map::hash_of(index.hasher, paths.path_at(slot))] <= slot
    &&& forall|key: u64| #[trigger]
        map.contains_key(key) ==> start <= map[key] < upto && slot_map::hash_of(
            index.hasher,
            paths.path_at(map[key] as int),
        ) == key
}

/// Some slot from `start` up to `end` holds `path`.
pub open spec fn holds_path<S: SlotPaths>(paths: S, start: int, end: int, path: Seq<u8>) -> bool {
    exists|slot: int| start <= slot < end && #[trigger] paths.path_at(slot) == path
}

/// The first slot that holds `path`, read one by one.
pub fn scan<S: SlotPaths>(paths: &S, start: usize, end: usize, path: &[u8]) -> (r: Option<usize>)
    requires
        start <= end,
        forall|slot: int| start <= slot < end ==> #[trigger] paths.readable(slot),
    ensures
        match r {
            Some(slot) => start <= slot < end && paths.path_at(slot as int) == path@
                && !holds_path(*paths, start as int, slot as int, path@),
            None => !holds_path(*paths, start as int, end as int, path@),
        },
{
    let mut slot: usize = start;
    while slot < end
        invariant
            start <= slot <= end,
            forall|slot: int| start <= slot < end ==> #[trigger] paths.readable(slot),
            !holds_path(*paths, start as int, slot as int, path@),
        decreases end - slot,
    {
        assert(paths.readable(slot as int));
        let text = paths.read_slot(slot);
        if bytes::same_bytes(text.as_slice(), path) {
            return Some(slot);
        }
        slot += 1;
    }
    None
}

impl PathIndex {
    /// What is indexed agrees with the table.
    pub open spec fn consistent<S: SlotPaths>(&self, paths: S) -> bool {
        &&& self.start <= self.indexed_upto
        &&& indexes(*self, paths, self.start as int, self.indexed_upto as int)
    }

    /// An index of nothing agrees with any table.
    pub open spec fn is_clear(&self) -> bool {
        self.start == self.indexed_upto && slot_map::slots(self.map) == slot_map::no_slots()
    }

    pub fn new() -> (r: Self)
        ensures
            r.is_clear(),
            r.start == 0,
    {
        PathIndex {
            start: 0,
            indexed_upto: 0,
            map: slot_map::new_map(),
            hasher: slot_map::new_keys(),
        }
    }

    /// Finds `path` among slots `[start, end)`.
    pub fn lookup<S: SlotPaths>(
        &mut self,
        paths: &S,
        start: usize,
        end: usize,
        path: &[u8],
    ) -> (r: Option<usize>)
        requires
            start <= end <= u32::MAX,
            forall|slot: int| start <= slot < end ==> #[trigger] paths.readable(slot),
            old(self).consistent(*paths),
        ensures
            final(self).consistent(*paths),
            final(self).indexed_upto <= old(self).indexed_upto || final(self).indexed_upto <= end,
            match r {
                Some(slot) => start <= slot < end && paths.path_at(slot as int) == path@
                    && !holds_path(*paths, start as int, slot as int, path@),
                None => !holds_path(*paths, start as int, end as int, path@),
            },
    {
        if end - start < MIN_INDEXED_LEN {
            return scan(paths, start, end, path);
        }
        if self.start != start || self.indexed_upto > end {
            self.start = start;
            self.indexed_upto = start;
            slot_map::clear_map(&mut self.map);
        }
        let mut slot: usize = self.indexed_upto;
        while slot < end
            invariant
                self.start == start,
                start <= slot <= end <= u32::MAX,
                forall|slot: int| start <= slot < end ==> #[trigger] paths.readable(slot),
                indexes(*self, *paths, start as int, slot as int),
            decreases end - slot,
        {
            assert(paths.readable(slot as int));
            let text = paths.read_slot(slot);
            let hash: u64 = slot_map::hash_bytes(&self.hasher, text.as_slice());
            slot_map::insert_vacant(&mut self.map, hash, slot as u32);
            slot += 1;
        }
        self.indexed_upto = end;
        let hash: u64 = slot_map::hash_bytes(&self.hasher, path);
        match slot_map::get_slot(&self.map, hash) {
            None => None,
            Some(found) => {
                let slot: usize = found as usize;
                assert(paths.readable(slot as int));
                let text = paths.read_slot(slot);
                if bytes::same_bytes(text.as_slice(), path) {
                    return Some(slot);
                }
                // Hash collision: two distinct paths share a bucket.
                scan(paths, start, end, path)
            },
        }
    }

    /// Forgets everything; call after slots in the range were reordered.
    pub fn reset(&mut self)
        ensures
            final(self).is_clear(),
            final(self).start == old(self).start,
    {
        self.indexed_upto = self.start;
        slot_map::clear_map(&mut self.map);
    }

    /// An index with the same contents.
    pub fn copy(&self) -> (r: Self)
        ensures
            r.start == self.start,
            r.indexed_upto == self.indexed_upto,
            slot_map::slots(r.map) == slot_map::slots(self.map),
            r.hasher == self.hasher,
    {
        PathIndex {
            start: self.start,
            indexed_upto: self.indexed_upto,
            map: slot_map::copy_map(&self.map),
            hasher: slot_map::copy_keys(&self.hasher),
        }
    }
}

} // verus!
