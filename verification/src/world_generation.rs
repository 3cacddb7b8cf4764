//! The chunk manager: which chunks are cached and spawned, the data of every
//! known tile, and the rules by which a new tile rewrites the bits of its
//! neighbours.
use crate::collections::{chunk_set_contents, tile_map_contents, ChunkSet, TileDataMap};
use crate::entities::entity_is_live;
use bevy::ecs::entity::Entities;
use crate::tiles::{
    block_bits, chunk_in_range, chunk_steps_fit, compute_corner_index, compute_tile_index,
    corner_masks, edge_masks, is_edge_offset, lemma_merge_below_16, merge_bits, neighbour_position,
    no_tiles, spec_neighbour, terrain_bits, world_tile_fits, tile_in_chunk, world_coord, world_tile_coord, ChunkPos,
    TextureUpdate, TileEntityData, TileKey, TileMapPositionData, TilePos, CHUNK_CACHE_AMOUNT,
    CHUNK_SIZE, FILLED_TILE_BITS, NUM_CHUNKS_AROUND_CAMERA,
};
use vstd::prelude::*;

verus! {

/// What the chunk manager is doing.
#[derive(Clone, Copy, PartialEq, Eq, Structural, Debug)]
pub enum ChunkLoadingState {
    Spawning,
    Despawning,
    /// Neither spawning nor despawning.
    Idle,
}

/// The chunks that are cached and spawned, and the data of every known tile.
pub struct ChunkManager {
    pub spawned_chunks: ChunkSet,
    pub cached_chunks: ChunkSet,
    pub chunk_tile_entity_data: TileDataMap,
    pub state: ChunkLoadingState,
}

/// A terrain oracle: it answers for every world tile coordinate, and the same way
/// each time.
pub open spec fn answers_terrain<W: Fn(i32, i32) -> bool>(is_water: W) -> bool {
    &&& forall|x: i32, y: i32| #[trigger] is_water.requires((x, y))
    &&& forall|x: i32, y: i32, a: bool, b: bool|
        #[trigger] is_water.ensures((x, y), a) && #[trigger] is_water.ensures((x, y), b) ==> a == b
}

/// The answer of a terrain oracle at a world tile coordinate: whether it is water.
pub open spec fn water_at<W: Fn(i32, i32) -> bool>(is_water: W, x: i32, y: i32) -> bool {
    choose|r: bool| is_water.ensures((x, y), r)
}

proof fn lemma_water_at<W: Fn(i32, i32) -> bool>(is_water: W, x: i32, y: i32, r: bool)
    requires
        answers_terrain(is_water),
        is_water.ensures((x, y), r),
    ensures
        r == water_at(is_water, x, y),
{
    let c = water_at(is_water, x, y);
    assert(is_water.ensures((x, y), c));
}

/// Every tile of chunk `c` has an entry.
pub open spec fn chunk_filled(tiles: Map<TileKey, TileEntityData>, c: (i32, i32)) -> bool {
    forall|x: u32, y: u32| x < 64 && y < 64 ==> #[trigger] tiles.contains_key((c.0, c.1, x, y))
}

/// Every entry lies inside its chunk and holds a four-bit index.
pub open spec fn entries_valid(tiles: Map<TileKey, TileEntityData>) -> bool {
    forall|k: TileKey| #[trigger]
        tiles.contains_key(k) ==> k.2 < 64 && k.3 < 64 && tiles[k].tile_bit_index < 16
}

/// The offset in world tiles from tile `t` of chunk `c` to the tile of key `k`.
pub open spec fn key_offset(c: ChunkPos, t: TilePos, k: TileKey) -> (int, int) {
    (
        world_coord(k.0 as int, k.2 as int) - world_coord(c.x as int, t.x as int),
        world_coord(k.1 as int, k.3 as int) - world_coord(c.y as int, t.y as int),
    )
}

/// The key names one of the eight tiles around tile `t` of chunk `c`.
pub open spec fn is_neighbour_key(c: ChunkPos, t: TilePos, k: TileKey) -> bool {
    let d = key_offset(c, t, k);
    &&& k.2 < 64
    &&& k.3 < 64
    &&& -1 <= d.0 <= 1
    &&& -1 <= d.1 <= 1
    &&& !(d.0 == 0 && d.1 == 0)
}

/// The bits that a neighbour at offset `d` takes from a new tile with `new_bits`,
/// keeping the rest of `old_bits`.
pub open spec fn neighbour_bits(new_bits: u8, old_bits: u8, d: (int, int)) -> u8 {
    let o = (d.0 as i8, d.1 as i8);
    if is_edge_offset(o) {
        merge_bits(new_bits, old_bits, edge_masks(o))
    } else {
        merge_bits(new_bits, old_bits, corner_masks(o))
    }
}

/// The entry of key `k` is rewritten when a new tile lands at `t` of `c`: it is a
/// neighbour in a cached chunk, it has an entry, and it has no entity or its entity
/// was found alive (`live` holds the keys whose entity the entity table reported
/// alive during the update).
pub open spec fn neighbour_rewritten(
    tiles: Map<TileKey, TileEntityData>,
    cached: Set<(i32, i32)>,
    live: Set<TileKey>,
    c: ChunkPos,
    t: TilePos,
    k: TileKey,
) -> bool {
    &&& is_neighbour_key(c, t, k)
    &&& cached.contains((k.0, k.1))
    &&& tiles.contains_key(k)
    &&& match tiles[k].entity {
        Some(_) => live.contains(k),
        None => true,
    }
}

/// The entry that a rewritten neighbour gets: same entity, merged bits.
pub open spec fn rewritten_entry(
    tiles: Map<TileKey, TileEntityData>,
    c: ChunkPos,
    t: TilePos,
    bits: u8,
    k: TileKey,
) -> TileEntityData {
    TileEntityData {
        entity: tiles[k].entity,
        tile_bit_index: neighbour_bits(bits, tiles[k].tile_bit_index, key_offset(c, t, k)),
    }
}

/// The place of an offset in the order the neighbours are visited (rows from
/// bottom to top, each from left to right).
pub open spec fn visit_position(d: (int, int)) -> int {
    (d.1 + 1) * 3 + (d.0 + 1)
}

/// The offset visited at place `p`.
pub open spec fn offset_at(p: int) -> (i8, i8) {
    ((p % 3 - 1) as i8, (p / 3 - 1) as i8)
}

/// The tile entries after the neighbours at visit places below `limit` were rewritten.
pub open spec fn neighbours_rewritten_below(
    tiles: Map<TileKey, TileEntityData>,
    cached: Set<(i32, i32)>,
    live: Set<TileKey>,
    c: ChunkPos,
    t: TilePos,
    bits: u8,
    limit: int,
) -> Map<TileKey, TileEntityData> {
    Map::new(
        |k: TileKey| tiles.contains_key(k),
        |k: TileKey|
            if neighbour_rewritten(tiles, cached, live, c, t, k) && visit_position(
                key_offset(c, t, k),
            ) < limit {
                rewritten_entry(tiles, c, t, bits, k)
            } else {
                tiles[k]
            },
    )
}

/// The tile entries after a new tile with `bits` lands at `t` of `c`: every
/// rewritten neighbour takes its merged bits, every other entry stays.
pub open spec fn after_neighbour_update(
    tiles: Map<TileKey, TileEntityData>,
    cached: Set<(i32, i32)>,
    live: Set<TileKey>,
    c: ChunkPos,
    t: TilePos,
    bits: u8,
) -> Map<TileKey, TileEntityData> {
    Map::new(
        |k: TileKey| tiles.contains_key(k),
        |k: TileKey|
            if neighbour_rewritten(tiles, cached, live, c, t, k) {
                rewritten_entry(tiles, c, t, bits, k)
            } else {
                tiles[k]
            },
    )
}

/// The texture changes of the rewritten neighbours that have an entity, at visit
/// places below `p`, in visiting order.
pub open spec fn neighbour_textures(
    tiles: Map<TileKey, TileEntityData>,
    cached: Set<(i32, i32)>,
    live: Set<TileKey>,
    c: ChunkPos,
    t: TilePos,
    bits: u8,
    p: nat,
) -> Seq<TextureUpdate>
    decreases p,
{
    if p == 0 {
        Seq::empty()
    } else {
        let prev = neighbour_textures(tiles, cached, live, c, t, bits, (p - 1) as nat);
        let k = spec_neighbour(c, t, offset_at(p - 1)).key();
        if neighbour_rewritten(tiles, cached, live, c, t, k) && tiles[k].entity is Some {
            prev.push(
                TextureUpdate {
                    entity: tiles[k].entity.unwrap(),
                    tile_bit_index: rewritten_entry(tiles, c, t, bits, k).tile_bit_index,
                },
            )
        } else {
            prev
        }
    }
}

/// Two keys of tiles inside their chunks at the same offset from a tile are the same key.
proof fn lemma_offset_determines_key(c: ChunkPos, t: TilePos, k1: TileKey, k2: TileKey)
    requires
        k1.2 < 64,
        k1.3 < 64,
        k2.2 < 64,
        k2.3 < 64,
        key_offset(c, t, k1) == key_offset(c, t, k2),
    ensures
        k1 == k2,
{
    assert(k1.0 * 64 + k1.2 == k2.0 * 64 + k2.2);
    assert(k1.1 * 64 + k1.3 == k2.1 * 64 + k2.3);
    lemma_base64_unique(k1.0 as int, k1.2 as int, k2.0 as int, k2.2 as int);
    lemma_base64_unique(k1.1 as int, k1.3 as int, k2.1 as int, k2.3 as int);
}

/// A number has one way of being written `q * 64 + r` with `0 <= r < 64`.
pub(crate) proof fn lemma_base64_unique(q1: int, r1: int, q2: int, r2: int)
    requires
        0 <= r1 < 64,
        0 <= r2 < 64,
        q1 * 64 + r1 == q2 * 64 + r2,
    ensures
        q1 == q2,
        r1 == r2,
{
    if q1 < q2 {
        assert(q1 * 64 + 64 <= q2 * 64);
    }
    if q2 < q1 {
        assert(q2 * 64 + 64 <= q1 * 64);
    }
}

/// The key lies in chunk `c`.
pub open spec fn in_chunk(c: ChunkPos, k: TileKey) -> bool {
    k.0 == c.x && k.1 == c.y && k.2 < 64 && k.3 < 64
}

/// The place of a tile in the row order in which a chunk is walked.
pub open spec fn tile_index(k: TileKey) -> int {
    k.3 * 64 + k.2
}

/// The tile at place `i` of the row order.
pub open spec fn tile_at(i: int) -> TilePos {
    TilePos { x: (i % 64) as u32, y: (i / 64) as u32 }
}

/// The entity of the tile at place `i`: none, or the `i`-th of the given entities.
pub open spec fn entity_choice(ids: Option<Seq<u64>>, i: int) -> Option<u64> {
    match ids {
        Some(s) => Some(s[i]),
        None => None,
    }
}

/// The tiles after the first pass over chunk `c` reached place `limit`: each tile
/// of the chunk before it holds its entity choice and the filled index.
pub open spec fn fill_chunk(
    tiles: Map<TileKey, TileEntityData>,
    c: ChunkPos,
    ids: Option<Seq<u64>>,
    limit: int,
) -> Map<TileKey, TileEntityData> {
    Map::new(
        |k: TileKey| tiles.contains_key(k) || (in_chunk(c, k) && tile_index(k) < limit),
        |k: TileKey|
            if in_chunk(c, k) && tile_index(k) < limit {
                TileEntityData { entity: entity_choice(ids, tile_index(k)), tile_bit_index: FILLED_TILE_BITS }
            } else {
                tiles[k]
            },
    )
}

/// The bits that the terrain gives to tile `t` of chunk `c`.
pub open spec fn chunk_tile_bits<W: Fn(i32, i32) -> bool>(is_water: W, c: ChunkPos, t: TilePos) -> u8 {
    terrain_bits(
        water_at(
            is_water,
            world_coord(c.x as int, t.x as int) as i32,
            world_coord(c.y as int, t.y as int) as i32,
        ),
    )
}

/// The tiles and texture changes after the second pass over chunk `c` placed its
/// first `n` tiles: each tile takes its entity choice and terrain bits, then its
/// neighbours are updated, the `i`-th tile's update with the liveness answers
/// `answers[i]`.
pub open spec fn place_tiles<W: Fn(i32, i32) -> bool>(
    tiles: Map<TileKey, TileEntityData>,
    textures: Seq<TextureUpdate>,
    cached: Set<(i32, i32)>,
    is_water: W,
    answers: Seq<Set<TileKey>>,
    c: ChunkPos,
    ids: Option<Seq<u64>>,
    n: nat,
) -> (Map<TileKey, TileEntityData>, Seq<TextureUpdate>)
    decreases n,
{
    if n == 0 {
        (tiles, textures)
    } else {
        let prev = place_tiles(tiles, textures, cached, is_water, answers, c, ids, (n - 1) as nat);
        let t = tile_at(n - 1);
        let b = chunk_tile_bits(is_water, c, t);
        let placed = prev.0.insert(
            (c.x, c.y, t.x, t.y),
            TileEntityData { entity: entity_choice(ids, n - 1), tile_bit_index: b },
        );
        (
            after_neighbour_update(placed, cached, answers[n - 1], c, t, b),
            prev.1 + neighbour_textures(placed, cached, answers[n - 1], c, t, b, 9),
        )
    }
}

/// The entities handed to a pass, as a sequence.
pub open spec fn ids_view(tile_ids: Option<&Vec<u64>>) -> Option<Seq<u64>> {
    match tile_ids {
        Some(v) => Some(v@),
        None => None,
    }
}

/// The first `n` steps of the second pass depend only on the first `n` answers.
proof fn lemma_place_prefix<W: Fn(i32, i32) -> bool>(
    tiles: Map<TileKey, TileEntityData>,
    textures: Seq<TextureUpdate>,
    cached: Set<(i32, i32)>,
    is_water: W,
    a1: Seq<Set<TileKey>>,
    a2: Seq<Set<TileKey>>,
    c: ChunkPos,
    ids: Option<Seq<u64>>,
    n: nat,
)
    requires
        n <= a1.len(),
        n <= a2.len(),
        forall|i: int| 0 <= i < n ==> a1[i] == a2[i],
    ensures
        place_tiles(tiles, textures, cached, is_water, a1, c, ids, n) == place_tiles(
            tiles,
            textures,
            cached,
            is_water,
            a2,
            c,
            ids,
            n,
        ),
    decreases n,
{
    if n > 0 {
        lemma_place_prefix(tiles, textures, cached, is_water, a1, a2, c, ids, (n - 1) as nat);
        assert(a1[n - 1] == a2[n - 1]);
    }
}

/// The neighbour update keeps the keys and keeps every index a four-bit index.
proof fn lemma_after_update_valid(
    tiles: Map<TileKey, TileEntityData>,
    cached: Set<(i32, i32)>,
    live: Set<TileKey>,
    c: ChunkPos,
    t: TilePos,
    bits: u8,
)
    requires
        entries_valid(tiles),
    ensures
        after_neighbour_update(tiles, cached, live, c, t, bits).dom() == tiles.dom(),
        entries_valid(after_neighbour_update(tiles, cached, live, c, t, bits)),
{
    let a = after_neighbour_update(tiles, cached, live, c, t, bits);
    assert(a.dom() =~= tiles.dom());
    assert forall|k: TileKey| #[trigger] a.contains_key(k) implies k.2 < 64 && k.3 < 64
        && a[k].tile_bit_index < 16 by {
        if neighbour_rewritten(tiles, cached, live, c, t, k) {
            let d = key_offset(c, t, k);
            let o = (d.0 as i8, d.1 as i8);
            lemma_masks_below_16(o);
        }
    }
}

proof fn lemma_masks_below_16(o: (i8, i8))
    ensures
        forall|a: u8, b: u8| #[trigger] merge_bits(a, b, edge_masks(o)) < 16,
        forall|a: u8, b: u8| #[trigger] merge_bits(a, b, corner_masks(o)) < 16,
{
    assert forall|a: u8, b: u8| #[trigger] merge_bits(a, b, edge_masks(o)) < 16 by {
        lemma_merge_below_16(a, b, edge_masks(o));
    }
    assert forall|a: u8, b: u8| #[trigger] merge_bits(a, b, corner_masks(o)) < 16 by {
        lemma_merge_below_16(a, b, corner_masks(o));
    }
}

/// Between the limits `p` and `p + 1` only the entry of the key visited at place
/// `p` can differ.
proof fn lemma_only_key_at_place(
    orig: Map<TileKey, TileEntityData>,
    cached: Set<(i32, i32)>,
    live: Set<TileKey>,
    c: ChunkPos,
    t: TilePos,
    key: TileKey,
    p: int,
)
    requires
        key.2 < 64,
        key.3 < 64,
        -1 <= key_offset(c, t, key).0 <= 1,
        -1 <= key_offset(c, t, key).1 <= 1,
        visit_position(key_offset(c, t, key)) == p,
    ensures
        forall|k: TileKey| #[trigger]
            orig.contains_key(k) && k != key ==> (neighbour_rewritten(orig, cached, live, c, t, k)
                && visit_position(key_offset(c, t, k)) < p) == (neighbour_rewritten(
                orig,
                cached,
                live,
                c,
                t,
                k,
            ) && visit_position(key_offset(c, t, k)) < p + 1),
{
    assert forall|k: TileKey| #[trigger]
        orig.contains_key(k) && k != key implies (neighbour_rewritten(orig, cached, live, c, t, k)
        && visit_position(key_offset(c, t, k)) < p) == (neighbour_rewritten(orig, cached, live, c, t, k)
        && visit_position(key_offset(c, t, k)) < p + 1) by {
        if neighbour_rewritten(orig, cached, live, c, t, k) && visit_position(key_offset(c, t, k)) == p {
            let d = key_offset(c, t, k);
            let e = key_offset(c, t, key);
            assert(d == e);
            lemma_offset_determines_key(c, t, k, key);
        }
    }
}

/// Adding the key visited at place `p` to the liveness answers changes neither the
/// entries nor the texture changes of the places below `p`.
proof fn lemma_answers_outside_place(
    orig: Map<TileKey, TileEntityData>,
    cached: Set<(i32, i32)>,
    a1: Set<TileKey>,
    a2: Set<TileKey>,
    c: ChunkPos,
    t: TilePos,
    bits: u8,
    key: TileKey,
    p: int,
)
    requires
        0 <= p < 9,
        tile_in_chunk(t),
        chunk_steps_fit(c, t),
        key == spec_neighbour(c, t, offset_at(p)).key(),
        forall|k: TileKey| k != key ==> (a1.contains(k) <==> a2.contains(k)),
    ensures
        neighbours_rewritten_below(orig, cached, a1, c, t, bits, p) == neighbours_rewritten_below(
            orig,
            cached,
            a2,
            c,
            t,
            bits,
            p,
        ),
        neighbour_textures(orig, cached, a1, c, t, bits, p as nat) == neighbour_textures(
            orig,
            cached,
            a2,
            c,
            t,
            bits,
            p as nat,
        ),
{
    let n = neighbour_position_spec_facts(c, t, offset_at(p));
    assert forall|k: TileKey| orig.contains_key(k) && visit_position(key_offset(c, t, k)) < p
        && is_neighbour_key(c, t, k) implies k != key by {
        if k == key {
            assert(key_offset(c, t, k) == (offset_at(p).0 as int, offset_at(p).1 as int));
        }
    }
    assert(neighbours_rewritten_below(orig, cached, a1, c, t, bits, p) =~= neighbours_rewritten_below(
        orig,
        cached,
        a2,
        c,
        t,
        bits,
        p,
    ));
    lemma_textures_outside_place(orig, cached, a1, a2, c, t, bits, key, p, p as nat);
}

proof fn lemma_textures_outside_place(
    orig: Map<TileKey, TileEntityData>,
    cached: Set<(i32, i32)>,
    a1: Set<TileKey>,
    a2: Set<TileKey>,
    c: ChunkPos,
    t: TilePos,
    bits: u8,
    key: TileKey,
    p: int,
    q: nat,
)
    requires
        0 <= p < 9,
        q <= p,
        tile_in_chunk(t),
        chunk_steps_fit(c, t),
        key == spec_neighbour(c, t, offset_at(p)).key(),
        forall|k: TileKey| k != key ==> (a1.contains(k) <==> a2.contains(k)),
    ensures
        neighbour_textures(orig, cached, a1, c, t, bits, q) == neighbour_textures(orig, cached, a2, c, t, bits, q),
    decreases q,
{
    if q > 0 {
        lemma_textures_outside_place(orig, cached, a1, a2, c, t, bits, key, p, (q - 1) as nat);
        let k = spec_neighbour(c, t, offset_at(q - 1)).key();
        neighbour_position_spec_facts(c, t, offset_at(q - 1));
        neighbour_position_spec_facts(c, t, offset_at(p));
        if k == key {
            assert(offset_at(q - 1) == offset_at(p));
        }
    }
}

/// The neighbour at a visited offset lies at that offset in the world, inside its chunk.
proof fn neighbour_position_spec_facts(c: ChunkPos, t: TilePos, d: (i8, i8))
    requires
        tile_in_chunk(t),
        chunk_steps_fit(c, t),
        -1 <= d.0 <= 1,
        -1 <= d.1 <= 1,
    ensures
        spec_neighbour(c, t, d).tile_pos.x < 64,
        spec_neighbour(c, t, d).tile_pos.y < 64,
        key_offset(c, t, spec_neighbour(c, t, d).key()) == (d.0 as int, d.1 as int),
{
    crate::laws::law_neighbour_at_offset(c, t, d);
}

/// A key of chunk `c` at row-order place `y * 64 + x` is the key of tile `(x, y)`.
proof fn lemma_tile_index_unique(c: ChunkPos, x: u32, y: u32, k: TileKey)
    requires
        x < 64,
        y < 64,
        in_chunk(c, k),
        tile_index(k) == y * 64 + x,
    ensures
        k == (c.x, c.y, x, y),
{
    lemma_base64_unique(k.3 as int, k.2 as int, y as int, x as int);
}

/// The place of tile `(x, y)` in the row order, and back.
proof fn lemma_tile_at(x: u32, y: u32)
    requires
        x < 64,
        y < 64,
    ensures
        tile_at(y * 64 + x) == (TilePos { x, y }),
        0 <= y * 64 + x < 4096,
{
    assert((y * 64 + x) % 64 == x as int);
    assert((y * 64 + x) / 64 == y as int);
}

/// The terrain bits of tile `tile_pos` of `chunk_pos`: the world tile coordinates
/// are computed and handed to the terrain oracle, and water gives a filled tile,
/// grass an empty one.
pub fn get_tile_from_perlin_noise<W: Fn(i32, i32) -> bool>(
    chunk_pos: ChunkPos,
    tile_pos: TilePos,
    is_water: &W,
) -> (bits: u8)
    requires
        world_tile_fits(chunk_pos, tile_pos),
        answers_terrain(*is_water),
    ensures
        bits == chunk_tile_bits(*is_water, chunk_pos, tile_pos),
{
    let x = world_tile_coord(chunk_pos.x, tile_pos.x);
    let y = world_tile_coord(chunk_pos.y, tile_pos.y);
    let water = is_water(x, y);
    proof {
        lemma_water_at(*is_water, x, y, water);
    }
    block_bits(water)
}

impl ChunkManager {
    /// The chunks that are spawned.
    pub open spec fn spawned(self) -> Set<(i32, i32)> {
        chunk_set_contents(self.spawned_chunks)
    }

    /// The chunks that are cached.
    pub open spec fn cached(self) -> Set<(i32, i32)> {
        chunk_set_contents(self.cached_chunks)
    }

    /// The data of every known tile, by key.
    pub open spec fn tiles(self) -> Map<TileKey, TileEntityData> {
        tile_map_contents(self.chunk_tile_entity_data)
    }

    /// Every cached chunk has all its tiles, and every entry is a valid tile.
    pub open spec fn wf(self) -> bool {
        &&& entries_valid(self.tiles())
        &&& forall|c: (i32, i32)| #[trigger] self.cached().contains(c) ==> chunk_filled(self.tiles(), c)
    }

    /// As `wf`, except that chunk `c0` may be cached without all its tiles yet.
    pub open spec fn wf_except(self, c0: (i32, i32)) -> bool {
        &&& entries_valid(self.tiles())
        &&& forall|c: (i32, i32)|
            #[trigger] self.cached().contains(c) && c != c0 ==> chunk_filled(self.tiles(), c)
    }

    /// A manager with no chunk and no tile, in the spawning state.
    pub fn new() -> (m: ChunkManager)
        ensures
            m.spawned() == Set::<(i32, i32)>::empty(),
            m.cached() == Set::<(i32, i32)>::empty(),
            m.tiles() == no_tiles(),
            m.state == ChunkLoadingState::Spawning,
            m.wf(),
    {
        ChunkManager {
            spawned_chunks: ChunkSet::new(),
            cached_chunks: ChunkSet::new(),
            chunk_tile_entity_data: TileDataMap::new(),
            state: ChunkLoadingState::Spawning,
        }
    }

    /// Whether chunk `c` is cached.
    pub fn is_cached(&self, c: ChunkPos) -> (r: bool)
        ensures
            r == self.cached().contains(c.key()),
    {
        self.cached_chunks.contains((c.x, c.y))
    }

    /// Whether chunk `c` is spawned.
    pub fn is_spawned(&self, c: ChunkPos) -> (r: bool)
        ensures
            r == self.spawned().contains(c.key()),
    {
        self.spawned_chunks.contains((c.x, c.y))
    }

    /// The data kept of the tile at `p`, if any.
    pub fn tile_data(&self, p: TileMapPositionData) -> (r: Option<TileEntityData>)
        ensures
            r == (if self.tiles().contains_key(p.key()) {
                Some(self.tiles()[p.key()])
            } else {
                None
            }),
    {
        self.chunk_tile_entity_data.get((p.chunk_pos.x, p.chunk_pos.y, p.tile_pos.x, p.tile_pos.y))
    }

    /// Caches chunk `chunk_pos`: first every tile of the chunk gets an entry with no
    /// entity and the filled index, then, in row order, each tile takes the bits that
    /// the terrain gives it (`get_tile_from_perlin_noise`) and its neighbours are
    /// updated (`update_neighbour_tiles`), their texture changes pushed to `textures`.
    /// The chunk itself need not have its tiles yet; afterwards every cached chunk has.
    pub fn cache_chunk<W: Fn(i32, i32) -> bool>(
        &mut self,
        chunk_pos: ChunkPos,
        is_water: &W,
        entities: &Entities,
        textures: &mut Vec<TextureUpdate>,
    )
        requires
            old(self).wf_except(chunk_pos.key()),
            chunk_in_range(chunk_pos),
            answers_terrain(*is_water),
        ensures
            final(self).wf(),
            exists|answers: Seq<Set<TileKey>>|
                #![trigger place_tiles(fill_chunk(old(self).tiles(), chunk_pos, None, 4096), old(textures)@, old(self).cached(), *is_water, answers, chunk_pos, None, 4096)]
                answers.len() == 4096 && (final(self).tiles(), final(textures)@) == place_tiles(
                    fill_chunk(old(self).tiles(), chunk_pos, None, 4096),
                    old(textures)@,
                    old(self).cached(),
                    *is_water,
                    answers,
                    chunk_pos,
                    None,
                    4096,
                ),
            final(self).cached() == old(self).cached(),
            final(self).spawned() == old(self).spawned(),
            final(self).state == old(self).state,
    {
        self.fill_chunk_tiles(chunk_pos, None);
        self.place_chunk_tiles(chunk_pos, None, is_water, entities, textures);
    }

    /// First pass over a chunk: every tile gets an entry with the filled index and,
    /// when `entities` is given, the entity at its row-order place.
    fn fill_chunk_tiles(&mut self, chunk_pos: ChunkPos, tile_ids: Option<&Vec<u64>>)
        requires
            entries_valid(old(self).tiles()),
            match tile_ids {
                Some(v) => v@.len() == 4096,
                None => true,
            },
        ensures
            final(self).tiles() == fill_chunk(
                old(self).tiles(),
                chunk_pos,
                match tile_ids {
                    Some(v) => Some(v@),
                    None => None,
                },
                4096,
            ),
            entries_valid(final(self).tiles()),
            chunk_filled(final(self).tiles(), chunk_pos.key()),
            final(self).cached() == old(self).cached(),
            final(self).spawned() == old(self).spawned(),
            final(self).state == old(self).state,
    {
        let ghost orig = self.tiles();
        let ghost ids = match tile_ids {
            Some(v) => Some(v@),
            None => None,
        };
        let mut y: u32 = 0;
        while y < CHUNK_SIZE
            invariant
                y <= 64,
                self.tiles() == fill_chunk(orig, chunk_pos, ids, y * 64),
                orig == old(self).tiles(),
                entries_valid(orig),
                ids == match tile_ids {
                    Some(v) => Some(v@),
                    None => None::<Seq<u64>>,
                },
                match tile_ids {
                    Some(v) => v@.len() == 4096,
                    None => true,
                },
                self.cached() == old(self).cached(),
                self.spawned() == old(self).spawned(),
                self.state == old(self).state,
            decreases 64 - y,
        {
            let mut x: u32 = 0;
            while x < CHUNK_SIZE
                invariant
                    y < 64,
                    x <= 64,
                    self.tiles() == fill_chunk(orig, chunk_pos, ids, y * 64 + x),
                    orig == old(self).tiles(),
                    entries_valid(orig),
                    ids == match tile_ids {
                        Some(v) => Some(v@),
                        None => None::<Seq<u64>>,
                    },
                    match tile_ids {
                        Some(v) => v@.len() == 4096,
                        None => true,
                    },
                    self.cached() == old(self).cached(),
                    self.spawned() == old(self).spawned(),
                    self.state == old(self).state,
                decreases 64 - x,
            {
                let ghost before = self.tiles();
                let entity = match tile_ids {
                    Some(v) => Some(v[(y * CHUNK_SIZE + x) as usize]),
                    None => None,
                };
                let key = (chunk_pos.x, chunk_pos.y, x, y);
                self.chunk_tile_entity_data.insert(
                    key,
                    TileEntityData { entity, tile_bit_index: FILLED_TILE_BITS },
                );
                proof {
                    assert(tile_index(key) == y * 64 + x);
                    assert(entity == entity_choice(ids, y * 64 + x));
                    assert forall|k: TileKey| in_chunk(chunk_pos, k) && tile_index(k) == y * 64 + x
                        implies k == key by {
                        lemma_tile_index_unique(chunk_pos, x, y, k);
                    }
                    assert(self.tiles() =~= fill_chunk(orig, chunk_pos, ids, y * 64 + x + 1));
                }
                x = x + 1;
            }
            y = y + 1;
        }
        proof {
            let f = self.tiles();
            assert forall|k: TileKey| #[trigger] f.contains_key(k) implies k.2 < 64 && k.3 < 64
                && f[k].tile_bit_index < 16 by {
                if !(in_chunk(chunk_pos, k) && tile_index(k) < 4096) {
                    assert(orig.contains_key(k));
                }
            }
            assert forall|x: u32, y: u32| x < 64 && y < 64 implies #[trigger] f.contains_key(
                (chunk_pos.x, chunk_pos.y, x, y),
            ) by {
                assert(tile_index((chunk_pos.x, chunk_pos.y, x, y)) < 4096);
            }
        }
    }

    /// Second pass over a chunk: in row order, each tile takes its terrain bits and,
    /// when `entities` is given, the entity at its row-order place, and then its
    /// neighbours are updated.
    fn place_chunk_tiles<W: Fn(i32, i32) -> bool>(
        &mut self,
        chunk_pos: ChunkPos,
        tile_ids: Option<&Vec<u64>>,
        is_water: &W,
        entities: &Entities,
        textures: &mut Vec<TextureUpdate>,
    )
        requires
            entries_valid(old(self).tiles()),
            chunk_filled(old(self).tiles(), chunk_pos.key()),
            chunk_in_range(chunk_pos),
            answers_terrain(*is_water),
            match tile_ids {
                Some(v) => v@.len() == 4096,
                None => true,
            },
        ensures
            exists|answers: Seq<Set<TileKey>>|
                #![trigger place_tiles(old(self).tiles(), old(textures)@, old(self).cached(), *is_water, answers, chunk_pos, ids_view(tile_ids), 4096)]
                answers.len() == 4096 && (final(self).tiles(), final(textures)@) == place_tiles(
                    old(self).tiles(),
                    old(textures)@,
                    old(self).cached(),
                    *is_water,
                    answers,
                    chunk_pos,
                    ids_view(tile_ids),
                    4096,
                ),
            final(self).tiles().dom() == old(self).tiles().dom(),
            entries_valid(final(self).tiles()),
            final(self).cached() == old(self).cached(),
            final(self).spawned() == old(self).spawned(),
            final(self).state == old(self).state,
    {
        let ghost orig = self.tiles();
        let ghost tex0 = textures@;
        let ghost cached = self.cached();
        let ghost ids = ids_view(tile_ids);
        let ghost mut answers: Seq<Set<TileKey>> = Seq::empty();
        let mut y: u32 = 0;
        while y < CHUNK_SIZE
            invariant
                y <= 64,
                (self.tiles(), textures@) == place_tiles(
                    orig,
                    tex0,
                    cached,
                    *is_water,
                    answers,
                    chunk_pos,
                    ids,
                    (y * 64) as nat,
                ),
                answers.len() == y * 64,
                self.tiles().dom() == orig.dom(),
                entries_valid(self.tiles()),
                chunk_filled(orig, chunk_pos.key()),
                chunk_in_range(chunk_pos),
                answers_terrain(*is_water),
                orig == old(self).tiles(),
                tex0 == old(textures)@,
                cached == old(self).cached(),
                ids == ids_view(tile_ids),
                match tile_ids {
                    Some(v) => v@.len() == 4096,
                    None => true,
                },
                self.cached() == old(self).cached(),
                self.spawned() == old(self).spawned(),
                self.state == old(self).state,
            decreases 64 - y,
        {
            let mut x: u32 = 0;
            while x < CHUNK_SIZE
                invariant
                    y < 64,
                    x <= 64,
                    (self.tiles(), textures@) == place_tiles(
                        orig,
                        tex0,
                        cached,
                        *is_water,
                        answers,
                        chunk_pos,
                        ids,
                        (y * 64 + x) as nat,
                    ),
                    answers.len() == y * 64 + x,
                    self.tiles().dom() == orig.dom(),
                    entries_valid(self.tiles()),
                    chunk_filled(orig, chunk_pos.key()),
                    chunk_in_range(chunk_pos),
                    answers_terrain(*is_water),
                    orig == old(self).tiles(),
                    tex0 == old(textures)@,
                    cached == old(self).cached(),
                    ids == ids_view(tile_ids),
                    match tile_ids {
                        Some(v) => v@.len() == 4096,
                        None => true,
                    },
                    self.cached() == old(self).cached(),
                    self.spawned() == old(self).spawned(),
                    self.state == old(self).state,
                decreases 64 - x,
            {
                let ghost n: int = y * 64 + x;
                proof {
                    lemma_tile_at(x, y);
                }
                let tile_pos = TilePos { x, y };
                let block_bits = get_tile_from_perlin_noise(chunk_pos, tile_pos, is_water);
                let entity = match tile_ids {
                    Some(v) => Some(v[(y * CHUNK_SIZE + x) as usize]),
                    None => None,
                };
                let key = (chunk_pos.x, chunk_pos.y, x, y);
                self.chunk_tile_entity_data.insert(
                    key,
                    TileEntityData { entity, tile_bit_index: block_bits },
                );
                proof {
                    let ck = chunk_pos.key();
                    assert(orig.contains_key((ck.0, ck.1, x, y)));
                    assert(orig.contains_key(key));
                    assert(self.tiles().dom() =~= orig.dom());
                    assert(block_bits < 16) by {
                        assert(block_bits == 0 || block_bits == 15);
                    }
                    assert(entries_valid(self.tiles()));
                    assert(entity == entity_choice(ids, n));
                }
                let ghost placed = self.tiles();
                let ghost tex_before = textures@;
                self.update_neighbour_tiles(tile_pos, block_bits, chunk_pos, entities, textures);
                proof {
                    let a = choose|live: Set<TileKey>|
                        #![trigger after_neighbour_update(placed, cached, live, chunk_pos, tile_pos, block_bits)]
                        self.tiles() == after_neighbour_update(
                            placed,
                            cached,
                            live,
                            chunk_pos,
                            tile_pos,
                            block_bits,
                        ) && textures@ == tex_before + neighbour_textures(
                            placed,
                            cached,
                            live,
                            chunk_pos,
                            tile_pos,
                            block_bits,
                            9,
                        );
                    lemma_place_prefix(orig, tex0, cached, *is_water, answers, answers.push(a), chunk_pos, ids, n as nat);
                    answers = answers.push(a);
                    assert(self.tiles() == after_neighbour_update(placed, cached, a, chunk_pos, tile_pos, block_bits));
                }
                x = x + 1;
            }
            y = y + 1;
        }
        proof {
            assert(answers.len() == 4096);
        }
    }

    /// The rewrite of one neighbour entry, given the entity table's answer for its
    /// entity: an entry without entity takes `updated_bit_index`; an entry whose
    /// entity is alive takes it too and its texture change is pushed to `textures`;
    /// an entry whose entity is gone stays as it is.
    pub fn settle_neighbour(
        &mut self,
        key: TileMapPositionData,
        data: TileEntityData,
        updated_bit_index: u8,
        entity_live: bool,
        textures: &mut Vec<TextureUpdate>,
    )
        ensures
            match data.entity {
                Some(e) => if entity_live {
                    &&& final(self).tiles() == old(self).tiles().insert(
                        key.key(),
                        TileEntityData { entity: Some(e), tile_bit_index: updated_bit_index },
                    )
                    &&& final(textures)@ == old(textures)@.push(
                        TextureUpdate { entity: e, tile_bit_index: updated_bit_index },
                    )
                } else {
                    &&& final(self).tiles() == old(self).tiles()
                    &&& final(textures)@ == old(textures)@
                },
                None => {
                    &&& final(self).tiles() == old(self).tiles().insert(
                        key.key(),
                        TileEntityData { entity: None, tile_bit_index: updated_bit_index },
                    )
                    &&& final(textures)@ == old(textures)@
                },
            },
            final(self).cached() == old(self).cached(),
            final(self).spawned() == old(self).spawned(),
            final(self).state == old(self).state,
    {
        let k = (key.chunk_pos.x, key.chunk_pos.y, key.tile_pos.x, key.tile_pos.y);
        match data.entity {
            Some(e) => {
                if entity_live {
                    textures.push(TextureUpdate { entity: e, tile_bit_index: updated_bit_index });
                    self.chunk_tile_entity_data.insert(
                        k,
                        TileEntityData { entity: data.entity, tile_bit_index: updated_bit_index },
                    );
                }
            },
            None => {
                self.chunk_tile_entity_data.insert(
                    k,
                    TileEntityData { entity: None, tile_bit_index: updated_bit_index },
                );
            },
        }
    }

    /// A new tile with `new_tile_bits` has landed at `new_tile_pos` of `chunk_pos`:
    /// each of the eight neighbouring tiles that lies in a cached chunk and has an
    /// entry takes the new tile's bits on the side it shares with it
    /// (`compute_tile_index` for an edge, `compute_corner_index` for a corner), unless
    /// it has an entity that `entities` no longer holds (`settle_neighbour`).  For each
    /// rewritten neighbour with an entity, its texture change is pushed to `textures`,
    /// in visiting order.  The answers of the entity table are not known in advance:
    /// the result is the update for the set of neighbour keys whose entity was found
    /// alive.
    pub fn update_neighbour_tiles(
        &mut self,
        new_tile_pos: TilePos,
        new_tile_bits: u8,
        chunk_pos: ChunkPos,
        entities: &Entities,
        textures: &mut Vec<TextureUpdate>,
    )
        requires
            tile_in_chunk(new_tile_pos),
            chunk_steps_fit(chunk_pos, new_tile_pos),
        ensures
            exists|live: Set<TileKey>|
                #![trigger after_neighbour_update(old(self).tiles(), old(self).cached(), live, chunk_pos, new_tile_pos, new_tile_bits)]
                final(self).tiles() == after_neighbour_update(
                    old(self).tiles(),
                    old(self).cached(),
                    live,
                    chunk_pos,
                    new_tile_pos,
                    new_tile_bits,
                ) && final(textures)@ == old(textures)@ + neighbour_textures(
                    old(self).tiles(),
                    old(self).cached(),
                    live,
                    chunk_pos,
                    new_tile_pos,
                    new_tile_bits,
                    9,
                ),
            final(self).tiles().dom() == old(self).tiles().dom(),
            entries_valid(old(self).tiles()) ==> entries_valid(final(self).tiles()),
            final(self).cached() == old(self).cached(),
            final(self).spawned() == old(self).spawned(),
            final(self).state == old(self).state,
    {
        let ghost orig = self.tiles();
        let ghost cached = self.cached();
        let ghost tex0 = textures@;
        let ghost mut answered: Set<TileKey> = Set::empty();
        let mut dy: i8 = -1;
        while dy <= 1
            invariant
                -1 <= dy <= 2,
                tile_in_chunk(new_tile_pos),
                chunk_steps_fit(chunk_pos, new_tile_pos),
                self.cached() == cached,
                self.spawned() == old(self).spawned(),
                self.state == old(self).state,
                orig == old(self).tiles(),
                cached == old(self).cached(),
                tex0 == old(textures)@,
                self.tiles() == neighbours_rewritten_below(
                    orig,
                    cached,
                    answered,
                    chunk_pos,
                    new_tile_pos,
                    new_tile_bits,
                    (dy + 1) * 3,
                ),
                textures@ == tex0 + neighbour_textures(
                    orig,
                    cached,
                    answered,
                    chunk_pos,
                    new_tile_pos,
                    new_tile_bits,
                    ((dy + 1) * 3) as nat,
                ),
            decreases 2 - dy,
        {
            let mut dx: i8 = -1;
            while dx <= 1
                invariant
                    -1 <= dy <= 1,
                    -1 <= dx <= 2,
                    tile_in_chunk(new_tile_pos),
                    chunk_steps_fit(chunk_pos, new_tile_pos),
                    self.cached() == cached,
                    self.spawned() == old(self).spawned(),
                    self.state == old(self).state,
                    orig == old(self).tiles(),
                    cached == old(self).cached(),
                    tex0 == old(textures)@,
                    self.tiles() == neighbours_rewritten_below(
                        orig,
                        cached,
                        answered,
                        chunk_pos,
                        new_tile_pos,
                        new_tile_bits,
                        (dy + 1) * 3 + (dx + 1),
                    ),
                    textures@ == tex0 + neighbour_textures(
                        orig,
                        cached,
                        answered,
                        chunk_pos,
                        new_tile_pos,
                        new_tile_bits,
                        ((dy + 1) * 3 + (dx + 1)) as nat,
                    ),
                decreases 2 - dx,
            {
                let ghost p: int = (dy + 1) * 3 + (dx + 1);
                let ghost before = self.tiles();
                let n = neighbour_position(chunk_pos, new_tile_pos, dx, dy);
                let key = (n.chunk_pos.x, n.chunk_pos.y, n.tile_pos.x, n.tile_pos.y);
                proof {
                    assert(offset_at(p) == (dx, dy));
                    assert(key == spec_neighbour(chunk_pos, new_tile_pos, offset_at(p)).key());
                    assert(key_offset(chunk_pos, new_tile_pos, key) == (dx as int, dy as int));
                    lemma_only_key_at_place(orig, cached, answered, chunk_pos, new_tile_pos, key, p);
                }
                if !(dx == 0 && dy == 0) {
                    if !self.cached_chunks.contains((n.chunk_pos.x, n.chunk_pos.y)) {
                        proof {
                            assert(neighbours_rewritten_below(
                                orig,
                                cached,
                                answered,
                                chunk_pos,
                                new_tile_pos,
                                new_tile_bits,
                                p + 1,
                            ) =~= before);
                        }
                        dx = dx + 1;
                        continue;
                    }
                    let found = self.chunk_tile_entity_data.get(key);
                    match found {
                        None => {
                            proof {
                                assert(!before.contains_key(key));
                                assert(neighbours_rewritten_below(
                                    orig,
                                    cached,
                                    answered,
                                    chunk_pos,
                                    new_tile_pos,
                                    new_tile_bits,
                                    p + 1,
                                ) =~= before);
                            }
                            dx = dx + 1;
                            continue;
                        },
                        Some(data) => {
                            proof {
                                assert(orig.contains_key(key));
                                assert(data == orig[key]);
                            }
                            let updated_bit_index = if dx + dy == 1 || dx + dy == -1 {
                                compute_tile_index(new_tile_bits, data.tile_bit_index, (dx, dy))
                            } else {
                                compute_corner_index(new_tile_bits, data.tile_bit_index, (dx, dy))
                            };
                            proof {
                                assert(updated_bit_index == rewritten_entry(
                                    orig,
                                    chunk_pos,
                                    new_tile_pos,
                                    new_tile_bits,
                                    key,
                                ).tile_bit_index);
                            }
                            let ghost prev_answered = answered;
                            let live = match data.entity {
                                Some(e) => entity_is_live(entities, e),
                                None => true,
                            };
                            proof {
                                answered = if data.entity is Some && live {
                                    answered.insert(key)
                                } else {
                                    answered.remove(key)
                                };
                                lemma_only_key_at_place(orig, cached, answered, chunk_pos, new_tile_pos, key, p);
                                lemma_answers_outside_place(
                                    orig,
                                    cached,
                                    prev_answered,
                                    answered,
                                    chunk_pos,
                                    new_tile_pos,
                                    new_tile_bits,
                                    key,
                                    p,
                                );
                            }
                            self.settle_neighbour(n, data, updated_bit_index, live, textures);
                            proof {
                                assert(self.tiles() =~= neighbours_rewritten_below(
                                    orig,
                                    cached,
                                    answered,
                                    chunk_pos,
                                    new_tile_pos,
                                    new_tile_bits,
                                    p + 1,
                                ));
                            }
                        },
                    }
                } else {
                    proof {
                        assert(!is_neighbour_key(chunk_pos, new_tile_pos, key));
                        assert(neighbours_rewritten_below(
                            orig,
                            cached,
                            answered,
                            chunk_pos,
                            new_tile_pos,
                            new_tile_bits,
                            p + 1,
                        ) =~= before);
                    }
                }
                dx = dx + 1;
            }
            dy = dy + 1;
        }
        proof {
            if entries_valid(orig) {
                lemma_after_update_valid(orig, cached, answered, chunk_pos, new_tile_pos, new_tile_bits);
            }
            assert(after_neighbour_update(orig, cached, answered, chunk_pos, new_tile_pos, new_tile_bits).dom() =~= orig.dom());
            assert(neighbours_rewritten_below(
                orig,
                cached,
                answered,
                chunk_pos,
                new_tile_pos,
                new_tile_bits,
                9,
            ) =~= after_neighbour_update(
                orig,
                cached,
                answered,
                chunk_pos,
                new_tile_pos,
                new_tile_bits,
            ));
        }
    }
}


/// The chunks around a camera chunk that a pass visits, for every camera in turn:
/// rows from `r` below to `r - 1` above the camera's chunk, each row from `r` left
/// to `r - 1` right of it.
pub open spec fn window_chunks(cams: Seq<ChunkPos>, r: int) -> Seq<ChunkPos> {
    Seq::new(
        (cams.len() * (4 * r * r)) as nat,
        |i: int|
            ChunkPos {
                x: (cams[i / (4 * r * r)].x - r + (i % (4 * r * r)) % (2 * r)) as i32,
                y: (cams[i / (4 * r * r)].y - r + (i % (4 * r * r)) / (2 * r)) as i32,
            },
    )
}

/// The bounds of the window of radius `r` around camera chunk `c` are `i32` values.
pub open spec fn window_bounds_fit(c: ChunkPos, r: int) -> bool {
    &&& i32::MIN <= c.x - r
    &&& c.x + r <= i32::MAX
    &&& i32::MIN <= c.y - r
    &&& c.y + r <= i32::MAX
}

/// The chunk coordinates of the first `n` chunks of a sequence.
pub open spec fn chunk_keys(chunks: Seq<ChunkPos>, n: int) -> Set<(i32, i32)> {
    Set::new(|c: (i32, i32)| exists|i: int| 0 <= i < n && #[trigger] chunks[i].key() == c)
}

/// Caching one chunk of a window: nothing when it is cached already; otherwise it
/// is marked cached and then cached as `cache_chunk` does it, with the liveness
/// answers `answers` for its tiles.
pub open spec fn cache_window_step<W: Fn(i32, i32) -> bool>(
    st: (Map<TileKey, TileEntityData>, Set<(i32, i32)>, Seq<TextureUpdate>),
    c: ChunkPos,
    is_water: W,
    answers: Seq<Set<TileKey>>,
) -> (Map<TileKey, TileEntityData>, Set<(i32, i32)>, Seq<TextureUpdate>) {
    if st.1.contains(c.key()) {
        st
    } else {
        let cached = st.1.insert(c.key());
        let r = place_tiles(fill_chunk(st.0, c, None, 4096), st.2, cached, is_water, answers, c, None, 4096);
        (r.0, cached, r.1)
    }
}

/// Tiles, cached chunks and texture changes after caching the first `n` chunks.
pub open spec fn cache_windows<W: Fn(i32, i32) -> bool>(
    st: (Map<TileKey, TileEntityData>, Set<(i32, i32)>, Seq<TextureUpdate>),
    chunks: Seq<ChunkPos>,
    is_water: W,
    answers: Seq<Seq<Set<TileKey>>>,
    n: nat,
) -> (Map<TileKey, TileEntityData>, Set<(i32, i32)>, Seq<TextureUpdate>)
    decreases n,
{
    if n == 0 {
        st
    } else {
        cache_window_step(cache_windows(st, chunks, is_water, answers, (n - 1) as nat), chunks[n - 1], is_water, answers[n - 1])
    }
}

/// Spawned chunks and the chunks newly marked spawned, after marking the first `n`
/// chunks: a chunk not yet spawned is marked and listed.
pub open spec fn mark_spawned(spawned: Set<(i32, i32)>, chunks: Seq<ChunkPos>, n: nat) -> (Set<(i32, i32)>, Seq<ChunkPos>)
    decreases n,
{
    if n == 0 {
        (spawned, Seq::empty())
    } else {
        let prev = mark_spawned(spawned, chunks, (n - 1) as nat);
        let c = chunks[n - 1];
        if prev.0.contains(c.key()) {
            prev
        } else {
            (prev.0.insert(c.key()), prev.1.push(c))
        }
    }
}

/// A spawned chunk's tilemap entity and where it stands, as the despawning pass sees it:
/// the entity's chunk and whether it lies too far from the camera.
#[derive(Clone, Copy, PartialEq, Eq, Structural, Debug)]
pub struct DespawnCandidate {
    pub entity: u64,
    pub chunk_pos: ChunkPos,
    pub out_of_range: bool,
}

/// Spawned chunks and despawned entities after the first `n` candidates: a candidate
/// out of range whose chunk is still spawned is unmarked and its entity listed.
pub open spec fn despawn_candidates(spawned: Set<(i32, i32)>, cands: Seq<DespawnCandidate>, n: nat) -> (Set<(i32, i32)>, Seq<u64>)
    decreases n,
{
    if n == 0 {
        (spawned, Seq::empty())
    } else {
        let prev = despawn_candidates(spawned, cands, (n - 1) as nat);
        let d = cands[n - 1];
        if d.out_of_range && prev.0.contains(d.chunk_pos.key()) {
            (prev.0.remove(d.chunk_pos.key()), prev.1.push(d.entity))
        } else {
            prev
        }
    }
}

/// The chunks of out-of-range candidates among the first `n`.
pub open spec fn far_chunk_keys(cands: Seq<DespawnCandidate>, n: int) -> Set<(i32, i32)> {
    Set::new(|c: (i32, i32)| exists|i: int| 0 <= i < n && #[trigger] cands[i].chunk_pos.key() == c && cands[i].out_of_range)
}

/// Caching a run of chunks marks exactly those chunks cached, on top of the cached ones.
proof fn lemma_cache_windows_cached<W: Fn(i32, i32) -> bool>(
    st: (Map<TileKey, TileEntityData>, Set<(i32, i32)>, Seq<TextureUpdate>),
    chunks: Seq<ChunkPos>,
    is_water: W,
    answers: Seq<Seq<Set<TileKey>>>,
    n: nat,
)
    requires
        n <= chunks.len(),
    ensures
        cache_windows(st, chunks, is_water, answers, n).1 == st.1.union(chunk_keys(chunks, n as int)),
    decreases n,
{
    if n > 0 {
        lemma_cache_windows_cached(st, chunks, is_water, answers, (n - 1) as nat);
        let prev = cache_windows(st, chunks, is_water, answers, (n - 1) as nat);
        assert(chunks[n - 1].key() == chunks[n - 1].key());
        assert(cache_windows(st, chunks, is_water, answers, n).1 =~= st.1.union(chunk_keys(chunks, n as int)));
    } else {
        assert(st.1.union(chunk_keys(chunks, 0)) =~= st.1);
    }
}

/// The first `n` chunks of a caching pass depend only on the answers for those chunks.
proof fn lemma_cache_windows_prefix<W: Fn(i32, i32) -> bool>(
    st: (Map<TileKey, TileEntityData>, Set<(i32, i32)>, Seq<TextureUpdate>),
    chunks: Seq<ChunkPos>,
    is_water: W,
    a1: Seq<Seq<Set<TileKey>>>,
    a2: Seq<Seq<Set<TileKey>>>,
    n: nat,
)
    requires
        n <= a1.len(),
        n <= a2.len(),
        forall|i: int| 0 <= i < n ==> a1[i] == a2[i],
    ensures
        cache_windows(st, chunks, is_water, a1, n) == cache_windows(st, chunks, is_water, a2, n),
    decreases n,
{
    if n > 0 {
        lemma_cache_windows_prefix(st, chunks, is_water, a1, a2, (n - 1) as nat);
        assert(a1[n - 1] == a2[n - 1]);
    }
}

/// Marking a run of chunks spawned marks exactly those chunks, on top of the spawned ones.
pub(crate) proof fn lemma_mark_spawned_set(spawned: Set<(i32, i32)>, chunks: Seq<ChunkPos>, n: nat)
    requires
        n <= chunks.len(),
    ensures
        mark_spawned(spawned, chunks, n).0 == spawned.union(chunk_keys(chunks, n as int)),
    decreases n,
{
    if n > 0 {
        lemma_mark_spawned_set(spawned, chunks, (n - 1) as nat);
        assert(chunks[n - 1].key() == chunks[n - 1].key());
        assert(mark_spawned(spawned, chunks, n).0 =~= spawned.union(chunk_keys(chunks, n as int)));
    } else {
        assert(spawned.union(chunk_keys(chunks, 0)) =~= spawned);
    }
}

/// Despawning a run of candidates unmarks exactly the chunks of those out of range.
proof fn lemma_despawn_set(spawned: Set<(i32, i32)>, cands: Seq<DespawnCandidate>, n: nat)
    requires
        n <= cands.len(),
    ensures
        despawn_candidates(spawned, cands, n).0 == spawned.difference(far_chunk_keys(cands, n as int)),
    decreases n,
{
    if n > 0 {
        lemma_despawn_set(spawned, cands, (n - 1) as nat);
        assert(cands[n - 1].chunk_pos.key() == cands[n - 1].chunk_pos.key());
        assert(despawn_candidates(spawned, cands, n).0 =~= spawned.difference(far_chunk_keys(cands, n as int)));
    } else {
        assert(spawned.difference(far_chunk_keys(cands, 0)) =~= spawned);
    }
}

impl ChunkManager {
    /// The loading half of spawning a chunk that is cached: the bit index of each of
    /// its tiles, in row order, from which its tiles are spawned; `None` when the
    /// chunk is not cached and must be spawned fresh (`spawn_chunk_fresh`).
    pub fn spawn_chunk_from_cache(&self, chunk_pos: ChunkPos) -> (r: Option<Vec<u8>>)
        requires
            self.cached().contains(chunk_pos.key()) ==> chunk_filled(self.tiles(), chunk_pos.key()),
        ensures
            r is Some <==> self.cached().contains(chunk_pos.key()),
            r matches Some(v) ==> v@.len() == 4096 && forall|i: int|
                0 <= i < 4096 ==> #[trigger] v@[i] == self.tiles()[(
                    chunk_pos.x,
                    chunk_pos.y,
                    tile_at(i).x,
                    tile_at(i).y,
                )].tile_bit_index,
    {
        if !self.cached_chunks.contains((chunk_pos.x, chunk_pos.y)) {
            return None;
        }
        let mut bits: Vec<u8> = Vec::new();
        let mut y: u32 = 0;
        while y < CHUNK_SIZE
            invariant
                y <= 64,
                chunk_filled(self.tiles(), chunk_pos.key()),
                bits@.len() == y * 64,
                forall|i: int|
                    0 <= i < y * 64 ==> #[trigger] bits@[i] == self.tiles()[(
                        chunk_pos.x,
                        chunk_pos.y,
                        tile_at(i).x,
                        tile_at(i).y,
                    )].tile_bit_index,
            decreases 64 - y,
        {
            let mut x: u32 = 0;
            while x < CHUNK_SIZE
                invariant
                    y < 64,
                    x <= 64,
                    chunk_filled(self.tiles(), chunk_pos.key()),
                    bits@.len() == y * 64 + x,
                    forall|i: int|
                        0 <= i < y * 64 + x ==> #[trigger] bits@[i] == self.tiles()[(
                            chunk_pos.x,
                            chunk_pos.y,
                            tile_at(i).x,
                            tile_at(i).y,
                        )].tile_bit_index,
                decreases 64 - x,
            {
                proof {
                    lemma_tile_at(x, y);
                    let ck = chunk_pos.key();
                    assert(chunk_filled(self.tiles(), ck));
                    assert(self.tiles().contains_key((ck.0, ck.1, x, y)));
                }
                let data = self.chunk_tile_entity_data.get((chunk_pos.x, chunk_pos.y, x, y));
                match data {
                    Some(d) => {
                        bits.push(d.tile_bit_index);
                    },
                    None => {
                        proof {
                            assert(false);
                        }
                        return None;
                    },
                }
                x = x + 1;
            }
            y = y + 1;
        }
        Some(bits)
    }

    /// The bookkeeping half of spawning a chunk that is not cached.  Every tile was
    /// first spawned filled, as `placeholder_entities` in row order, and then again
    /// with its terrain bits, as `tile_entities`: each tile first gets its placeholder
    /// entity and the filled index, then, in row order, its tile entity and terrain
    /// bits, followed by the update of its neighbours.  Returns the texture changes of
    /// neighbours with a live entity, in order.
    pub fn spawn_chunk_fresh<W: Fn(i32, i32) -> bool>(
        &mut self,
        chunk_pos: ChunkPos,
        placeholder_entities: &Vec<u64>,
        tile_entities: &Vec<u64>,
        is_water: &W,
        entities: &Entities,
    ) -> (textures: Vec<TextureUpdate>)
        requires
            old(self).wf(),
            placeholder_entities@.len() == 4096,
            tile_entities@.len() == 4096,
            chunk_in_range(chunk_pos),
            answers_terrain(*is_water),
        ensures
            final(self).wf(),
            exists|answers: Seq<Set<TileKey>>|
                #![trigger place_tiles(fill_chunk(old(self).tiles(), chunk_pos, Some(placeholder_entities@), 4096), Seq::empty(), old(self).cached(), *is_water, answers, chunk_pos, Some(tile_entities@), 4096)]
                answers.len() == 4096 && (final(self).tiles(), textures@) == place_tiles(
                    fill_chunk(old(self).tiles(), chunk_pos, Some(placeholder_entities@), 4096),
                    Seq::empty(),
                    old(self).cached(),
                    *is_water,
                    answers,
                    chunk_pos,
                    Some(tile_entities@),
                    4096,
                ),
            final(self).cached() == old(self).cached(),
            final(self).spawned() == old(self).spawned(),
            final(self).state == old(self).state,
    {
        let mut textures: Vec<TextureUpdate> = Vec::new();
        self.fill_chunk_tiles(chunk_pos, Some(placeholder_entities));
        let ghost filled = self.tiles();
        self.place_chunk_tiles(chunk_pos, Some(tile_entities), is_water, entities, &mut textures);
        proof {
            assert forall|c: (i32, i32)| #[trigger] self.cached().contains(c) implies chunk_filled(
                self.tiles(),
                c,
            ) by {
                assert(chunk_filled(old(self).tiles(), c));
                assert forall|x: u32, y: u32| x < 64 && y < 64 implies #[trigger] self.tiles().contains_key(
                    (c.0, c.1, x, y),
                ) by {
                    assert(old(self).tiles().contains_key((c.0, c.1, x, y)));
                    assert(filled.contains_key((c.0, c.1, x, y)));
                }
            }
        }
        textures
    }

    /// The start-up caching pass: for each camera chunk in turn, every chunk of the
    /// window from `CHUNK_CACHE_AMOUNT` below to one less above it, rows first, that is
    /// not cached yet is marked cached and cached (`cache_chunk`).  The state is
    /// `Spawning` while a chunk is cached and `Idle` at the end.  Returns the texture
    /// changes of neighbours with a live entity, in order.
    pub fn spawn_and_cache_init_chunks<W: Fn(i32, i32) -> bool>(
        &mut self,
        camera_chunks: &Vec<ChunkPos>,
        is_water: &W,
        entities: &Entities,
    ) -> (textures: Vec<TextureUpdate>)
        requires
            old(self).wf(),
            forall|i: int| 0 <= i < camera_chunks@.len() ==> window_bounds_fit(#[trigger] camera_chunks@[i], 3),
            forall|i: int|
                0 <= i < camera_chunks@.len() * 36 && !old(self).cached().contains(
                    #[trigger] window_chunks(camera_chunks@, 3)[i].key(),
                ) ==> chunk_in_range(window_chunks(camera_chunks@, 3)[i]),
            answers_terrain(*is_water),
        ensures
            final(self).wf(),
            exists|answers: Seq<Seq<Set<TileKey>>>|
                #![trigger cache_windows((old(self).tiles(), old(self).cached(), Seq::empty()), window_chunks(camera_chunks@, 3), *is_water, answers, (camera_chunks@.len() * 36) as nat)]
                answers.len() == camera_chunks@.len() * 36 && (final(self).tiles(), final(self).cached(), textures@)
                    == cache_windows(
                    (old(self).tiles(), old(self).cached(), Seq::empty()),
                    window_chunks(camera_chunks@, 3),
                    *is_water,
                    answers,
                    (camera_chunks@.len() * 36) as nat,
                ),
            final(self).cached() == old(self).cached().union(
                chunk_keys(window_chunks(camera_chunks@, 3), (camera_chunks@.len() * 36) as int),
            ),
            final(self).spawned() == old(self).spawned(),
            final(self).state == ChunkLoadingState::Idle,
    {
        let ghost cams = camera_chunks@;
        let ghost chunks = window_chunks(cams, 3);
        let ghost st0 = (self.tiles(), self.cached(), Seq::<TextureUpdate>::empty());
        let mut textures: Vec<TextureUpdate> = Vec::new();
        let ghost mut all: Seq<Seq<Set<TileKey>>> = Seq::empty();
        let mut ci: usize = 0;
        while ci < camera_chunks.len()
            invariant
                ci <= cams.len(),
                cams == camera_chunks@,
                chunks == window_chunks(cams, 3),
                forall|i: int| 0 <= i < cams.len() ==> window_bounds_fit(#[trigger] cams[i], 3),
                forall|i: int|
                    0 <= i < cams.len() * 36 && !st0.1.contains(#[trigger] chunks[i].key())
                        ==> chunk_in_range(chunks[i]),
                answers_terrain(*is_water),
                self.wf(),
                st0 == (old(self).tiles(), old(self).cached(), Seq::<TextureUpdate>::empty()),
                all.len() == ci * 36,
                (self.tiles(), self.cached(), textures@) == cache_windows(st0, chunks, *is_water, all, (ci * 36) as nat),
                self.spawned() == old(self).spawned(),
            decreases cams.len() - ci,
        {
            let cc = camera_chunks[ci];
            assert(window_bounds_fit(cams[ci as int], 3));
            let mut y = cc.y - CHUNK_CACHE_AMOUNT;
            while y < cc.y + CHUNK_CACHE_AMOUNT
                invariant
                    ci < cams.len(),
                    cc == cams[ci as int],
                    window_bounds_fit(cc, 3),
                    forall|i: int|
                        0 <= i < cams.len() * 36 && !st0.1.contains(#[trigger] chunks[i].key())
                            ==> chunk_in_range(chunks[i]),
                    cc.y - 3 <= y <= cc.y + 3,
                    cams == camera_chunks@,
                    chunks == window_chunks(cams, 3),
                    answers_terrain(*is_water),
                    self.wf(),
                    st0 == (old(self).tiles(), old(self).cached(), Seq::<TextureUpdate>::empty()),
                    all.len() == ci * 36 + (y - (cc.y - 3)) * 6,
                    (self.tiles(), self.cached(), textures@) == cache_windows(
                        st0,
                        chunks,
                        *is_water,
                        all,
                        (ci * 36 + (y - (cc.y - 3)) * 6) as nat,
                    ),
                    self.spawned() == old(self).spawned(),
                decreases cc.y + 3 - y,
            {
                let mut x = cc.x - CHUNK_CACHE_AMOUNT;
                while x < cc.x + CHUNK_CACHE_AMOUNT
                    invariant
                        ci < cams.len(),
                        cc == cams[ci as int],
                        window_bounds_fit(cc, 3),
                    forall|i: int|
                        0 <= i < cams.len() * 36 && !st0.1.contains(#[trigger] chunks[i].key())
                            ==> chunk_in_range(chunks[i]),
                        cc.y - 3 <= y < cc.y + 3,
                        cc.x - 3 <= x <= cc.x + 3,
                        cams == camera_chunks@,
                        chunks == window_chunks(cams, 3),
                        answers_terrain(*is_water),
                        self.wf(),
                        st0 == (old(self).tiles(), old(self).cached(), Seq::<TextureUpdate>::empty()),
                        all.len() == ci * 36 + (y - (cc.y - 3)) * 6 + (x - (cc.x - 3)),
                        (self.tiles(), self.cached(), textures@) == cache_windows(
                            st0,
                            chunks,
                            *is_water,
                            all,
                            (ci * 36 + (y - (cc.y - 3)) * 6 + (x - (cc.x - 3))) as nat,
                        ),
                        self.spawned() == old(self).spawned(),
                    decreases cc.x + 3 - x,
                {
                    let ghost n: int = ci * 36 + (y - (cc.y - 3)) * 6 + (x - (cc.x - 3));
                    let chunk = ChunkPos { x, y };
                    proof {
                        assert(0 <= n < cams.len() * 36) by (nonlinear_arith)
                            requires
                                ci < cams.len(),
                                n == ci * 36 + (y - (cc.y - 3)) * 6 + (x - (cc.x - 3)),
                                0 <= y - (cc.y - 3) < 6,
                                0 <= x - (cc.x - 3) < 6,
                        ;
                        assert(n / 36 == ci as int);
                        assert(n % 36 == (y - (cc.y - 3)) * 6 + (x - (cc.x - 3)));
                        assert(chunks[n] == chunk);
                    }
                    proof {
                        lemma_cache_windows_cached(st0, chunks, *is_water, all, n as nat);
                        if !self.cached().contains(chunk.key()) {
                            assert(!st0.1.contains(chunks[n].key()));
                        }
                    }
                    let ghost before = (self.tiles(), self.cached(), textures@);
                    self.cache_chunk_if_new(chunk, is_water, entities, &mut textures);
                    proof {
                        let a = choose|answers: Seq<Set<TileKey>>|
                            #![trigger cache_window_step(before, chunk, *is_water, answers)]
                            (self.tiles(), self.cached(), textures@) == cache_window_step(
                                before,
                                chunk,
                                *is_water,
                                answers,
                            );
                        lemma_cache_windows_prefix(st0, chunks, *is_water, all, all.push(a), n as nat);
                        all = all.push(a);
                        assert((self.tiles(), self.cached(), textures@) == cache_windows(
                            st0,
                            chunks,
                            *is_water,
                            all,
                            (n + 1) as nat,
                        ));
                    }
                    x = x + 1;
                }
                y = y + 1;
            }
            ci = ci + 1;
        }
        self.state = ChunkLoadingState::Idle;
        proof {
            lemma_cache_windows_cached(st0, chunks, *is_water, all, (cams.len() * 36) as nat);
            assert((self.tiles(), self.cached(), textures@) == cache_windows(
                st0,
                chunks,
                *is_water,
                all,
                (cams.len() * 36) as nat,
            ));
        }
        textures
    }

    /// One chunk of the start-up caching pass: a chunk that is not cached yet is
    /// marked cached, with the state `Spawning`, and cached (`cache_chunk`), its
    /// texture changes pushed to `textures`.  Returns whether it was cached now.
    pub fn cache_chunk_if_new<W: Fn(i32, i32) -> bool>(
        &mut self,
        chunk_pos: ChunkPos,
        is_water: &W,
        entities: &Entities,
        textures: &mut Vec<TextureUpdate>,
    ) -> (cached_now: bool)
        requires
            old(self).wf(),
            !old(self).cached().contains(chunk_pos.key()) ==> chunk_in_range(chunk_pos),
            answers_terrain(*is_water),
        ensures
            final(self).wf(),
            cached_now == !old(self).cached().contains(chunk_pos.key()),
            exists|answers: Seq<Set<TileKey>>|
                #![trigger cache_window_step((old(self).tiles(), old(self).cached(), old(textures)@), chunk_pos, *is_water, answers)]
                (final(self).tiles(), final(self).cached(), final(textures)@) == cache_window_step(
                    (old(self).tiles(), old(self).cached(), old(textures)@),
                    chunk_pos,
                    *is_water,
                    answers,
                ),
            final(self).cached().contains(chunk_pos.key()),
            final(self).spawned() == old(self).spawned(),
            final(self).state == if cached_now {
                ChunkLoadingState::Spawning
            } else {
                old(self).state
            },
    {
        if !self.cached_chunks.contains((chunk_pos.x, chunk_pos.y)) {
            self.state = ChunkLoadingState::Spawning;
            self.cached_chunks.insert((chunk_pos.x, chunk_pos.y));
            let ghost marked = self.cached();
            self.cache_chunk(chunk_pos, is_water, entities, textures);
            proof {
                let a = choose|answers: Seq<Set<TileKey>>|
                    #![trigger place_tiles(fill_chunk(old(self).tiles(), chunk_pos, None, 4096), old(textures)@, marked, *is_water, answers, chunk_pos, None, 4096)]
                    answers.len() == 4096 && (self.tiles(), textures@) == place_tiles(
                        fill_chunk(old(self).tiles(), chunk_pos, None, 4096),
                        old(textures)@,
                        marked,
                        *is_water,
                        answers,
                        chunk_pos,
                        None,
                        4096,
                    );
                assert((self.tiles(), self.cached(), textures@) == cache_window_step(
                    (old(self).tiles(), old(self).cached(), old(textures)@),
                    chunk_pos,
                    *is_water,
                    a,
                ));
            }
            true
        } else {
            proof {
                assert((self.tiles(), self.cached(), textures@) == cache_window_step(
                    (old(self).tiles(), old(self).cached(), old(textures)@),
                    chunk_pos,
                    *is_water,
                    Seq::empty(),
                ));
            }
            false
        }
    }

    /// The spawning pass: for each camera chunk in turn, every chunk of the window
    /// from `NUM_CHUNKS_AROUND_CAMERA` below to one less above it, rows first, that is
    /// not spawned yet is marked spawned and listed, in order, to be spawned.  The
    /// state is `Idle` at the end.
    pub fn spawn_chunks_around_camera(&mut self, camera_chunks: &Vec<ChunkPos>) -> (to_spawn: Vec<ChunkPos>)
        requires
            forall|i: int| 0 <= i < camera_chunks@.len() ==> window_bounds_fit(#[trigger] camera_chunks@[i], 1),
        ensures
            (final(self).spawned(), to_spawn@) == mark_spawned(
                old(self).spawned(),
                window_chunks(camera_chunks@, 1),
                (camera_chunks@.len() * 4) as nat,
            ),
            final(self).spawned() == old(self).spawned().union(
                chunk_keys(window_chunks(camera_chunks@, 1), (camera_chunks@.len() * 4) as int),
            ),
            final(self).cached() == old(self).cached(),
            final(self).tiles() == old(self).tiles(),
            old(self).wf() ==> final(self).wf(),
            final(self).state == ChunkLoadingState::Idle,
    {
        let ghost cams = camera_chunks@;
        let ghost chunks = window_chunks(cams, 1);
        let ghost sp0 = self.spawned();
        let mut to_spawn: Vec<ChunkPos> = Vec::new();
        let mut ci: usize = 0;
        while ci < camera_chunks.len()
            invariant
                ci <= cams.len(),
                cams == camera_chunks@,
                chunks == window_chunks(cams, 1),
                forall|i: int| 0 <= i < cams.len() ==> window_bounds_fit(#[trigger] cams[i], 1),
                sp0 == old(self).spawned(),
                (self.spawned(), to_spawn@) == mark_spawned(sp0, chunks, (ci * 4) as nat),
                self.cached() == old(self).cached(),
                self.tiles() == old(self).tiles(),
            decreases cams.len() - ci,
        {
            let cc = camera_chunks[ci];
            assert(window_bounds_fit(cams[ci as int], 1));
            let mut y = cc.y - NUM_CHUNKS_AROUND_CAMERA;
            while y < cc.y + NUM_CHUNKS_AROUND_CAMERA
                invariant
                    ci < cams.len(),
                    cc == cams[ci as int],
                    window_bounds_fit(cc, 1),
                    cc.y - 1 <= y <= cc.y + 1,
                    cams == camera_chunks@,
                    chunks == window_chunks(cams, 1),
                    sp0 == old(self).spawned(),
                    (self.spawned(), to_spawn@) == mark_spawned(sp0, chunks, (ci * 4 + (y - (cc.y - 1)) * 2) as nat),
                    self.cached() == old(self).cached(),
                    self.tiles() == old(self).tiles(),
                decreases cc.y + 1 - y,
            {
                let mut x = cc.x - NUM_CHUNKS_AROUND_CAMERA;
                while x < cc.x + NUM_CHUNKS_AROUND_CAMERA
                    invariant
                        ci < cams.len(),
                        cc == cams[ci as int],
                        window_bounds_fit(cc, 1),
                        cc.y - 1 <= y < cc.y + 1,
                        cc.x - 1 <= x <= cc.x + 1,
                        cams == camera_chunks@,
                        chunks == window_chunks(cams, 1),
                        sp0 == old(self).spawned(),
                        (self.spawned(), to_spawn@) == mark_spawned(
                            sp0,
                            chunks,
                            (ci * 4 + (y - (cc.y - 1)) * 2 + (x - (cc.x - 1))) as nat,
                        ),
                        self.cached() == old(self).cached(),
                        self.tiles() == old(self).tiles(),
                    decreases cc.x + 1 - x,
                {
                    let ghost n: int = ci * 4 + (y - (cc.y - 1)) * 2 + (x - (cc.x - 1));
                    let chunk = ChunkPos { x, y };
                    proof {
                        assert(0 <= n < cams.len() * 4) by (nonlinear_arith)
                            requires
                                ci < cams.len(),
                                n == ci * 4 + (y - (cc.y - 1)) * 2 + (x - (cc.x - 1)),
                                0 <= y - (cc.y - 1) < 2,
                                0 <= x - (cc.x - 1) < 2,
                        ;
                        assert(n / 4 == ci as int);
                        assert(n % 4 == (y - (cc.y - 1)) * 2 + (x - (cc.x - 1)));
                        assert(chunks[n] == chunk);
                    }
                    if !self.spawned_chunks.contains((x, y)) {
                        self.state = ChunkLoadingState::Spawning;
                        self.spawned_chunks.insert((x, y));
                        to_spawn.push(chunk);
                    }
                    x = x + 1;
                }
                y = y + 1;
            }
            ci = ci + 1;
        }
        self.state = ChunkLoadingState::Idle;
        proof {
            lemma_mark_spawned_set(sp0, chunks, (cams.len() * 4) as nat);
        }
        to_spawn
    }

    /// The despawning pass over the spawned tilemap entities, as seen from every camera
    /// in turn: a candidate that is out of range and whose chunk is still spawned is
    /// unmarked and its entity listed, in order, to be despawned.  The state is
    /// `Despawning` while a chunk is unmarked and `Idle` at the end.
    pub fn despawn_outofrange_chunks(&mut self, candidates: &Vec<DespawnCandidate>) -> (despawned: Vec<u64>)
        ensures
            (final(self).spawned(), despawned@) == despawn_candidates(
                old(self).spawned(),
                candidates@,
                candidates@.len(),
            ),
            final(self).spawned() == old(self).spawned().difference(
                far_chunk_keys(candidates@, candidates@.len() as int),
            ),
            final(self).cached() == old(self).cached(),
            final(self).tiles() == old(self).tiles(),
            old(self).wf() ==> final(self).wf(),
            final(self).state == ChunkLoadingState::Idle,
    {
        let ghost sp0 = self.spawned();
        let mut despawned: Vec<u64> = Vec::new();
        let mut i: usize = 0;
        while i < candidates.len()
            invariant
                i <= candidates@.len(),
                sp0 == old(self).spawned(),
                (self.spawned(), despawned@) == despawn_candidates(sp0, candidates@, i as nat),
                self.cached() == old(self).cached(),
                self.tiles() == old(self).tiles(),
            decreases candidates@.len() - i,
        {
            let d = candidates[i];
            if d.out_of_range && self.spawned_chunks.contains((d.chunk_pos.x, d.chunk_pos.y)) {
                self.state = ChunkLoadingState::Despawning;
                self.spawned_chunks.remove((d.chunk_pos.x, d.chunk_pos.y));
                despawned.push(d.entity);
            }
            i = i + 1;
        }
        self.state = ChunkLoadingState::Idle;
        proof {
            lemma_despawn_set(sp0, candidates@, candidates@.len());
        }
        despawned
    }
}

} // verus!
