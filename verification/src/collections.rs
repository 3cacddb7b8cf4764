//! The two hash collections of the chunk manager, held in bevy's `HashSet` and
//! `HashMap` (hashbrown tables with aHash).  hashbrown's table type carries an
//! allocator parameter whose trait bound is private to hashbrown, so the type
//! cannot be declared as an outside type with its own bounds; each collection is
//! therefore kept in a private field of an opaque struct of ours, and is read only
//! through the contents named below and the trusted wrappers that use it.
use crate::tiles::{no_tiles, TileEntityData, TileKey};
use bevy::utils::{HashMap, HashSet};
use vstd::prelude::*;

verus! {

/// A set of chunk coordinates, kept in bevy's `HashSet<(i32, i32)>`.
#[verifier::external_body]
pub struct ChunkSet {
    set: HashSet<(i32, i32)>,
}

/// The chunk coordinates that a chunk set holds.
pub uninterp spec fn chunk_set_contents(s: ChunkSet) -> Set<(i32, i32)>;

impl ChunkSet {
    /// `HashSet::default()`: a new set holds nothing.
    #[verifier::external_body]
    pub(crate) fn new() -> (s: ChunkSet)
        ensures
            chunk_set_contents(s) == Set::<(i32, i32)>::empty(),
    {
        ChunkSet { set: HashSet::default() }
    }

    /// `HashSet::contains`: whether an equal value was inserted and not removed.
    /// Equality of `(i32, i32)` is that of both coordinates.
    #[verifier::external_body]
    pub(crate) fn contains(&self, c: (i32, i32)) -> (r: bool)
        ensures
            r == chunk_set_contents(*self).contains(c),
    {
        self.set.contains(&c)
    }

    /// `HashSet::insert`: the value is in the set afterwards, nothing else changes,
    /// and the result says whether it was absent before.  The contract does not state
    /// that the table's growth can abort on allocation failure or panic on capacity
    /// overflow, which needs more entries than memory holds.
    #[verifier::external_body]
    pub(crate) fn insert(&mut self, c: (i32, i32)) -> (r: bool)
        ensures
            chunk_set_contents(*final(self)) == chunk_set_contents(*old(self)).insert(c),
            r == !chunk_set_contents(*old(self)).contains(c),
    {
        self.set.insert(c)
    }

    /// `HashSet::remove`: the value is gone afterwards, nothing else changes, and the
    /// result says whether it was present before.
    #[verifier::external_body]
    pub(crate) fn remove(&mut self, c: (i32, i32)) -> (r: bool)
        ensures
            chunk_set_contents(*final(self)) == chunk_set_contents(*old(self)).remove(c),
            r == chunk_set_contents(*old(self)).contains(c),
    {
        self.set.remove(&c)
    }
}

/// The tile data of every known tile, kept in bevy's `HashMap` keyed by the plain
/// tile key (chunk x, chunk y, tile x, tile y).
#[verifier::external_body]
pub struct TileDataMap {
    map: HashMap<TileKey, TileEntityData>,
}

/// The entries that a tile data map holds.
pub uninterp spec fn tile_map_contents(m: TileDataMap) -> Map<TileKey, TileEntityData>;

impl TileDataMap {
    /// `HashMap::new()` (through `Default`): a new map holds no entry.
    #[verifier::external_body]
    pub(crate) fn new() -> (r: TileDataMap)
        ensures
            tile_map_contents(r) == no_tiles(),
    {
        TileDataMap { map: HashMap::default() }
    }

    /// `HashMap::get`, copied out: the value last inserted under an equal key, if any.
    #[verifier::external_body]
    pub(crate) fn get(&self, k: TileKey) -> (r: Option<TileEntityData>)
        ensures
            r == (if tile_map_contents(*self).contains_key(k) {
                Some(tile_map_contents(*self)[k])
            } else {
                None
            }),
    {
        self.map.get(&k).copied()
    }

    /// `HashMap::insert`: the key maps to the value afterwards and every other entry
    /// stays.  The replaced value that `insert` returns is dropped.  As for the set,
    /// an abort on allocation failure is not stated.
    #[verifier::external_body]
    pub(crate) fn insert(&mut self, k: TileKey, v: TileEntityData)
        ensures
            tile_map_contents(*final(self)) == tile_map_contents(*old(self)).insert(k, v),
    {
        self.map.insert(k, v);
    }
}

} // verus!
