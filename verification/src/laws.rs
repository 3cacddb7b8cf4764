//! Properties that hold across the operations of the library.
use crate::smoothing::{grid_at, smooth_scan, smooth_updates, smoothed_value, NO_TILE};
use crate::tiles::{
    chunk_of, chunk_steps_fit, corner_masks, edge_masks, is_corner_offset, is_edge_offset,
    merge_bits, spec_neighbour, terrain_bits, tile_in_chunk, tile_of, world_coord, ChunkPos,
    TextureUpdate, TileEntityData, TileKey, TilePos,
};
use crate::world_generation::{
    after_neighbour_update, chunk_tile_bits, entity_choice, fill_chunk, in_chunk, is_neighbour_key,
    cache_windows, key_offset, lemma_base64_unique, lemma_mark_spawned_set, mark_spawned,
    neighbour_bits, neighbour_rewritten, place_tiles, tile_at, tile_index,
};
use vstd::prelude::*;

verus! {

/// The neighbour at an offset lies inside its chunk, at exactly that offset in the
/// world from the tile.
pub proof fn law_neighbour_at_offset(c: ChunkPos, t: TilePos, d: (i8, i8))
    requires
        tile_in_chunk(t),
        -1 <= d.0 <= 1,
        -1 <= d.1 <= 1,
        chunk_steps_fit(c, t),
    ensures
        tile_in_chunk(spec_neighbour(c, t, d).tile_pos),
        world_coord(spec_neighbour(c, t, d).chunk_pos.x as int, spec_neighbour(c, t, d).tile_pos.x as int)
            == world_coord(c.x as int, t.x as int) + d.0,
        world_coord(spec_neighbour(c, t, d).chunk_pos.y as int, spec_neighbour(c, t, d).tile_pos.y as int)
            == world_coord(c.y as int, t.y as int) + d.1,
{
    lemma_axis_split(c.x as int, t.x as int, d.0 as int);
    lemma_axis_split(c.y as int, t.y as int, d.1 as int);
}

proof fn lemma_axis_split(c: int, t: int, d: int)
    requires
        0 <= t < 64,
        -1 <= d <= 1,
        i32::MIN <= c <= i32::MAX,
        t == 0 ==> c > i32::MIN,
        t == 63 ==> c < i32::MAX,
    ensures
        i32::MIN <= chunk_of(world_coord(c, t) + d) <= i32::MAX,
        0 <= tile_of(world_coord(c, t) + d) < 64,
        chunk_of(world_coord(c, t) + d) * 64 + tile_of(world_coord(c, t) + d) == world_coord(c, t) + d,
{
    let w = world_coord(c, t) + d;
    if t + d < 0 {
        assert(w == (c - 1) * 64 + 63);
    } else if t + d >= 64 {
        assert(w == (c + 1) * 64 + 0);
    } else {
        assert(w == c * 64 + (t + d));
    }
}

/// Two different offsets give different neighbours, and a non-zero offset never
/// gives the tile itself.
pub proof fn law_neighbours_distinct(c: ChunkPos, t: TilePos, d1: (i8, i8), d2: (i8, i8))
    requires
        tile_in_chunk(t),
        -1 <= d1.0 <= 1,
        -1 <= d1.1 <= 1,
        -1 <= d2.0 <= 1,
        -1 <= d2.1 <= 1,
        d1 != d2,
        i32::MIN + 1 < c.x < i32::MAX - 1,
        i32::MIN + 1 < c.y < i32::MAX - 1,
    ensures
        spec_neighbour(c, t, d1).key() != spec_neighbour(c, t, d2).key(),
{
    law_neighbour_at_offset(c, t, d1);
    law_neighbour_at_offset(c, t, d2);
}

/// Stepping to a neighbour and back by the opposite offset returns to the tile.
pub proof fn law_neighbour_step_back(c: ChunkPos, t: TilePos, d: (i8, i8))
    requires
        tile_in_chunk(t),
        -1 <= d.0 <= 1,
        -1 <= d.1 <= 1,
        i32::MIN + 1 < c.x < i32::MAX - 1,
        i32::MIN + 1 < c.y < i32::MAX - 1,
    ensures
        spec_neighbour(
            spec_neighbour(c, t, d).chunk_pos,
            spec_neighbour(c, t, d).tile_pos,
            ((-d.0) as i8, (-d.1) as i8),
        ) == (crate::tiles::TileMapPositionData { chunk_pos: c, tile_pos: t }),
{
    law_neighbour_at_offset(c, t, d);
    let n = spec_neighbour(c, t, d);
    lemma_axis_split(c.x as int, t.x as int, d.0 as int);
    lemma_axis_split(c.y as int, t.y as int, d.1 as int);
    assert(chunk_steps_fit(n.chunk_pos, n.tile_pos)) by {
        let wx = world_coord(c.x as int, t.x as int) + d.0;
        let wy = world_coord(c.y as int, t.y as int) + d.1;
        assert(c.x - 1 <= chunk_of(wx) <= c.x + 1) by {
            if chunk_of(wx) < c.x - 1 {
                assert(chunk_of(wx) * 64 + 64 <= (c.x - 1) * 64);
            }
            if chunk_of(wx) > c.x + 1 {
                assert((c.x + 2) * 64 <= chunk_of(wx) * 64);
            }
        }
        assert(c.y - 1 <= chunk_of(wy) <= c.y + 1) by {
            if chunk_of(wy) < c.y - 1 {
                assert(chunk_of(wy) * 64 + 64 <= (c.y - 1) * 64);
            }
            if chunk_of(wy) > c.y + 1 {
                assert((c.y + 2) * 64 <= chunk_of(wy) * 64);
            }
        }
    }
    law_neighbour_at_offset(n.chunk_pos, n.tile_pos, ((-d.0) as i8, (-d.1) as i8));
    let b = spec_neighbour(n.chunk_pos, n.tile_pos, ((-d.0) as i8, (-d.1) as i8));
    assert(b.chunk_pos.x * 64 + b.tile_pos.x == c.x * 64 + t.x);
    assert(b.chunk_pos.y * 64 + b.tile_pos.y == c.y * 64 + t.y);
    if b.chunk_pos.x < c.x {
        assert(b.chunk_pos.x * 64 + 64 <= c.x * 64);
    }
    if b.chunk_pos.x > c.x {
        assert(c.x * 64 + 64 <= b.chunk_pos.x * 64);
    }
    if b.chunk_pos.y < c.y {
        assert(b.chunk_pos.y * 64 + 64 <= c.y * 64);
    }
    if b.chunk_pos.y > c.y {
        assert(c.y * 64 + 64 <= b.chunk_pos.y * 64);
    }
}

/// For an edge or a corner, the bits a neighbour takes from the new tile and the
/// bits it keeps are disjoint and together make up the four tile bits.
pub proof fn law_masks_partition(d: (i8, i8))
    requires
        is_edge_offset(d) || is_corner_offset(d),
    ensures
        is_edge_offset(d) ==> (edge_masks(d).0 & edge_masks(d).1) == 0 && (edge_masks(d).0 | edge_masks(
            d,
        ).1) == 15,
        is_corner_offset(d) ==> (corner_masks(d).0 & corner_masks(d).1) == 0 && (corner_masks(d).0
            | corner_masks(d).1) == 15,
{
    assert((0b1100u8 & 0b0011u8) == 0u8 && (0b1100u8 | 0b0011u8) == 15u8) by (bit_vector);
    assert((0b0101u8 & 0b1010u8) == 0u8 && (0b0101u8 | 0b1010u8) == 15u8) by (bit_vector);
    assert((0b0011u8 & 0b1100u8) == 0u8 && (0b0011u8 | 0b1100u8) == 15u8) by (bit_vector);
    assert((0b1010u8 & 0b0101u8) == 0u8 && (0b1010u8 | 0b0101u8) == 15u8) by (bit_vector);
    assert((0b1000u8 & 0b0111u8) == 0u8 && (0b1000u8 | 0b0111u8) == 15u8) by (bit_vector);
    assert((0b0100u8 & 0b1011u8) == 0u8 && (0b0100u8 | 0b1011u8) == 15u8) by (bit_vector);
    assert((0b0010u8 & 0b1101u8) == 0u8 && (0b0010u8 | 0b1101u8) == 15u8) by (bit_vector);
    assert((0b0001u8 & 0b1110u8) == 0u8 && (0b0001u8 | 0b1110u8) == 15u8) by (bit_vector);
}

/// A neighbour whose four bits agree with those of the new tile keeps them: merging
/// equal bits along any edge or corner gives the same bits back.
pub proof fn law_merge_same_bits(b: u8, d: (i8, i8))
    requires
        b < 16,
        is_edge_offset(d) || is_corner_offset(d),
    ensures
        is_edge_offset(d) ==> merge_bits(b, b, edge_masks(d)) == b,
        is_corner_offset(d) ==> merge_bits(b, b, corner_masks(d)) == b,
{
    law_masks_partition(d);
    let e = edge_masks(d);
    let c = corner_masks(d);
    if is_edge_offset(d) {
        let m0 = e.0;
        let m1 = e.1;
        assert((b & m0) | (b & m1) == b) by (bit_vector)
            requires
                b < 16u8,
                (m0 | m1) == 15u8,
        ;
    }
    if is_corner_offset(d) {
        let m0 = c.0;
        let m1 = c.1;
        assert((b & m0) | (b & m1) == b) by (bit_vector)
            requires
                b < 16u8,
                (m0 | m1) == 15u8,
        ;
    }
}

/// The neighbour update rewrites only the eight tiles around the new one: every
/// other entry stays as it was, and no key comes or goes.
pub proof fn law_update_touches_only_neighbours(
    tiles: Map<TileKey, TileEntityData>,
    cached: Set<(i32, i32)>,
    live: Set<TileKey>,
    c: ChunkPos,
    t: TilePos,
    bits: u8,
    k: TileKey,
)
    requires
        tiles.contains_key(k),
        !is_neighbour_key(c, t, k),
    ensures
        after_neighbour_update(tiles, cached, live, c, t, bits).dom() == tiles.dom(),
        after_neighbour_update(tiles, cached, live, c, t, bits)[k] == tiles[k],
{
    assert(after_neighbour_update(tiles, cached, live, c, t, bits).dom() =~= tiles.dom());
}

/// The neighbour update never changes which entity a tile has.
pub proof fn law_update_keeps_entities(
    tiles: Map<TileKey, TileEntityData>,
    cached: Set<(i32, i32)>,
    live: Set<TileKey>,
    c: ChunkPos,
    t: TilePos,
    bits: u8,
    k: TileKey,
)
    requires
        tiles.contains_key(k),
    ensures
        after_neighbour_update(tiles, cached, live, c, t, bits)[k].entity == tiles[k].entity,
{
}

/// After both passes over a chunk, every tile of the chunk has the entity that the
/// second pass gave it (none when caching), and every other tile keeps its entity.
pub proof fn law_chunk_pass_entities<W: Fn(i32, i32) -> bool>(
    tiles: Map<TileKey, TileEntityData>,
    textures: Seq<TextureUpdate>,
    cached: Set<(i32, i32)>,
    is_water: W,
    answers: Seq<Set<TileKey>>,
    c: ChunkPos,
    first: Option<Seq<u64>>,
    ids: Option<Seq<u64>>,
    k: TileKey,
)
    requires
        tiles.contains_key(k) || in_chunk(c, k),
    ensures
        place_tiles(fill_chunk(tiles, c, first, 4096), textures, cached, is_water, answers, c, ids, 4096).0.contains_key(k),
        place_tiles(fill_chunk(tiles, c, first, 4096), textures, cached, is_water, answers, c, ids, 4096).0[k].entity
            == if in_chunk(c, k) {
            entity_choice(ids, tile_index(k))
        } else {
            tiles[k].entity
        },
{
    let base = fill_chunk(tiles, c, first, 4096);
    assert forall|x: u32, y: u32| x < 64 && y < 64 implies #[trigger] base.contains_key((c.x, c.y, x, y)) by {
        assert(y * 64 + x < 4096) by (nonlinear_arith)
            requires
                x < 64,
                y < 64,
        ;
        assert(tile_index((c.x, c.y, x, y)) < 4096);
    }
    if in_chunk(c, k) {
        assert(k.3 * 64 + k.2 < 4096) by (nonlinear_arith)
            requires
                k.2 < 64,
                k.3 < 64,
        ;
    }
    lemma_place_entities(base, textures, cached, is_water, answers, c, ids, 4096, k);
    if in_chunk(c, k) {
        assert(tile_index(k) < 4096) by {
            assert(k.3 * 64 + k.2 < 4096) by (nonlinear_arith)
                requires
                    k.2 < 64,
                    k.3 < 64,
            ;
        }
    }
}

proof fn lemma_place_entities<W: Fn(i32, i32) -> bool>(
    base: Map<TileKey, TileEntityData>,
    textures: Seq<TextureUpdate>,
    cached: Set<(i32, i32)>,
    is_water: W,
    answers: Seq<Set<TileKey>>,
    c: ChunkPos,
    ids: Option<Seq<u64>>,
    n: nat,
    k: TileKey,
)
    requires
        base.contains_key(k),
        forall|x: u32, y: u32| x < 64 && y < 64 ==> #[trigger] base.contains_key((c.x, c.y, x, y)),
        n <= 4096,
    ensures
        place_tiles(base, textures, cached, is_water, answers, c, ids, n).0.dom() == base.dom(),
        place_tiles(base, textures, cached, is_water, answers, c, ids, n).0[k].entity == if in_chunk(c, k)
            && tile_index(k) < n {
            entity_choice(ids, tile_index(k))
        } else {
            base[k].entity
        },
    decreases n,
{
    if n > 0 {
        lemma_place_entities(base, textures, cached, is_water, answers, c, ids, (n - 1) as nat, k);
        let prev = place_tiles(base, textures, cached, is_water, answers, c, ids, (n - 1) as nat);
        let t = tile_at(n - 1);
        let pk = (c.x, c.y, t.x, t.y);
        assert(t.x == (n - 1) % 64 && t.y == (n - 1) / 64);
        assert(tile_index(pk) == n - 1);
        assert(base.contains_key(pk));
        let b = crate::world_generation::chunk_tile_bits(is_water, c, t);
        let placed = prev.0.insert(pk, TileEntityData { entity: entity_choice(ids, n - 1), tile_bit_index: b });
        assert(after_neighbour_update(placed, cached, answers[n - 1], c, t, b).dom() =~= placed.dom());
        if in_chunk(c, k) && tile_index(k) == n - 1 {
            lemma_base64_unique(k.3 as int, k.2 as int, t.y as int, t.x as int);
        }
        assert(placed.dom() =~= base.dom());
    }
}

/// A grid in which every tile has the same index is left as it is by smoothing.
pub proof fn law_uniform_grid_unchanged(g: [[u32; 16]; 16], k: i8)
    requires
        forall|i: int, j: int| 0 <= i < 16 && 0 <= j < 16 ==> #[trigger] grid_at(g, i, j) == grid_at(g, 0, 0),
    ensures
        smooth_updates(g, k, 256) == Seq::<crate::smoothing::SmoothedTile>::empty(),
{
    assert forall|x: int, y: int| 0 <= x < 16 && 0 <= y < 16 implies #[trigger] smoothed_value(g, k, x, y) == NO_TILE by {
        lemma_uniform_scan(g, k, x, y, 9);
    }
    lemma_no_updates(g, k, 256);
}

proof fn lemma_uniform_scan(g: [[u32; 16]; 16], k: i8, x: int, y: int, p: nat)
    requires
        forall|i: int, j: int| 0 <= i < 16 && 0 <= j < 16 ==> #[trigger] grid_at(g, i, j) == grid_at(g, 0, 0),
        0 <= x < 16,
        0 <= y < 16,
    ensures
        smooth_scan(g, k, x, y, p) == (0int, NO_TILE, NO_TILE),
    decreases p,
{
    if p > 0 {
        lemma_uniform_scan(g, k, x, y, (p - 1) as nat);
        let dx = (p - 1) % 3 - 1;
        let dy = (p - 1) / 3 - 1;
        if 0 <= x + dx < 16 && 0 <= y + dy < 16 {
            assert(grid_at(g, x + dx, y + dy) == grid_at(g, 0, 0));
            assert(grid_at(g, x, y) == grid_at(g, 0, 0));
        }
    }
}

proof fn lemma_no_updates(g: [[u32; 16]; 16], k: i8, n: nat)
    requires
        n <= 256,
        forall|x: int, y: int| 0 <= x < 16 && 0 <= y < 16 ==> #[trigger] smoothed_value(g, k, x, y) == NO_TILE,
    ensures
        smooth_updates(g, k, n) == Seq::<crate::smoothing::SmoothedTile>::empty(),
    decreases n,
{
    if n > 0 {
        lemma_no_updates(g, k, (n - 1) as nat);
        let y = (n - 1) / 16;
        let x = (n - 1) % 16;
        assert(smoothed_value(g, k, x, y) == NO_TILE);
    }
}

/// A tile that smoothing changes takes an index different from its own.
pub proof fn law_smoothing_changes_index(g: [[u32; 16]; 16], k: i8, x: int, y: int)
    requires
        0 <= x < 16,
        0 <= y < 16,
        smoothed_value(g, k, x, y) != NO_TILE,
    ensures
        smoothed_value(g, k, x, y) != grid_at(g, x, y),
{
    lemma_scan_choice(g, k, x, y, 9);
}

proof fn lemma_scan_choice(g: [[u32; 16]; 16], k: i8, x: int, y: int, p: nat)
    ensures
        smooth_scan(g, k, x, y, p).2 == NO_TILE || smooth_scan(g, k, x, y, p).2 != grid_at(g, x, y),
        smooth_scan(g, k, x, y, p).1 == NO_TILE || smooth_scan(g, k, x, y, p).1 != grid_at(g, x, y),
    decreases p,
{
    if p > 0 {
        lemma_scan_choice(g, k, x, y, (p - 1) as nat);
    }
}


/// When the terrain gives every tile of a chunk the same bits, both passes over the
/// chunk leave every one of its tiles with exactly those bits.
pub proof fn law_uniform_terrain_gives_uniform_chunk<W: Fn(i32, i32) -> bool>(
    tiles: Map<TileKey, TileEntityData>,
    textures: Seq<TextureUpdate>,
    cached: Set<(i32, i32)>,
    is_water: W,
    answers: Seq<Set<TileKey>>,
    c: ChunkPos,
    first: Option<Seq<u64>>,
    ids: Option<Seq<u64>>,
    water: bool,
    x: u32,
    y: u32,
)
    requires
        forall|t: TilePos| tile_in_chunk(t) ==> #[trigger] chunk_tile_bits(is_water, c, t) == terrain_bits(water),
        x < 64,
        y < 64,
    ensures
        place_tiles(fill_chunk(tiles, c, first, 4096), textures, cached, is_water, answers, c, ids, 4096).0[(
            c.x,
            c.y,
            x,
            y,
        )].tile_bit_index == terrain_bits(water),
{
    let base = fill_chunk(tiles, c, first, 4096);
    assert forall|xx: u32, yy: u32| xx < 64 && yy < 64 implies #[trigger] base.contains_key((c.x, c.y, xx, yy)) by {
        assert(yy * 64 + xx < 4096) by (nonlinear_arith)
            requires
                xx < 64,
                yy < 64,
        ;
        assert(tile_index((c.x, c.y, xx, yy)) < 4096);
    }
    lemma_uniform_place(base, textures, cached, is_water, answers, c, ids, water, 4096);
    assert(tile_index((c.x, c.y, x, y)) < 4096) by {
        assert(y * 64 + x < 4096) by (nonlinear_arith)
            requires
                x < 64,
                y < 64,
        ;
    }
    assert(in_chunk(c, (c.x, c.y, x, y)));
}

proof fn lemma_uniform_place<W: Fn(i32, i32) -> bool>(
    base: Map<TileKey, TileEntityData>,
    textures: Seq<TextureUpdate>,
    cached: Set<(i32, i32)>,
    is_water: W,
    answers: Seq<Set<TileKey>>,
    c: ChunkPos,
    ids: Option<Seq<u64>>,
    water: bool,
    n: nat,
)
    requires
        forall|t: TilePos| tile_in_chunk(t) ==> #[trigger] chunk_tile_bits(is_water, c, t) == terrain_bits(water),
        forall|x: u32, y: u32| x < 64 && y < 64 ==> #[trigger] base.contains_key((c.x, c.y, x, y)),
        n <= 4096,
    ensures
        place_tiles(base, textures, cached, is_water, answers, c, ids, n).0.dom() == base.dom(),
        forall|k: TileKey|
            in_chunk(c, k) && tile_index(k) < n ==> #[trigger] place_tiles(
                base,
                textures,
                cached,
                is_water,
                answers,
                c,
                ids,
                n,
            ).0[k].tile_bit_index == terrain_bits(water),
    decreases n,
{
    if n > 0 {
        lemma_uniform_place(base, textures, cached, is_water, answers, c, ids, water, (n - 1) as nat);
        let prev = place_tiles(base, textures, cached, is_water, answers, c, ids, (n - 1) as nat);
        let t = tile_at(n - 1);
        let pk = (c.x, c.y, t.x, t.y);
        assert(t.x == (n - 1) % 64 && t.y == (n - 1) / 64);
        assert(tile_in_chunk(t));
        assert(tile_index(pk) == n - 1);
        assert(base.contains_key(pk));
        let b = chunk_tile_bits(is_water, c, t);
        assert(b == terrain_bits(water));
        let tb = terrain_bits(water);
        assert(tb < 16);
        let placed = prev.0.insert(pk, TileEntityData { entity: entity_choice(ids, n - 1), tile_bit_index: b });
        let after = after_neighbour_update(placed, cached, answers[n - 1], c, t, b);
        assert(after.dom() =~= placed.dom());
        assert(placed.dom() =~= base.dom());
        assert forall|k: TileKey| in_chunk(c, k) && tile_index(k) < n implies #[trigger] after[k].tile_bit_index == tb by {
            if k == pk {
                assert(!is_neighbour_key(c, t, k));
            } else {
                if tile_index(k) == n - 1 {
                    lemma_base64_unique(k.3 as int, k.2 as int, t.y as int, t.x as int);
                }
                assert(tile_index(k) < n - 1);
                assert(placed[k].tile_bit_index == tb);
                if neighbour_rewritten(placed, cached, answers[n - 1], c, t, k) {
                    let d = key_offset(c, t, k);
                    let o = (d.0 as i8, d.1 as i8);
                    assert(is_edge_offset(o) || is_corner_offset(o));
                    law_merge_same_bits(tb, o);
                }
            }
        }
    }
}

/// A second spawning pass over the same chunks, right after the first, marks no
/// chunk and lists no chunk to spawn: the spawned chunks stay as the first pass
/// left them.
pub proof fn law_spawn_pass_idempotent(spawned: Set<(i32, i32)>, chunks: Seq<ChunkPos>, n: nat)
    requires
        n <= chunks.len(),
    ensures
        mark_spawned(mark_spawned(spawned, chunks, n).0, chunks, n) == (
            mark_spawned(spawned, chunks, n).0,
            Seq::<ChunkPos>::empty(),
        ),
{
    let after = mark_spawned(spawned, chunks, n).0;
    lemma_mark_spawned_set(spawned, chunks, n);
    assert forall|i: int| 0 <= i < n implies #[trigger] after.contains(chunks[i].key()) by {
        assert(crate::world_generation::chunk_keys(chunks, n as int).contains(chunks[i].key()));
    }
    lemma_marked_chunks_stay(after, chunks, n);
}

/// Marking chunks that are all spawned already changes nothing and lists nothing.
proof fn lemma_marked_chunks_stay(spawned: Set<(i32, i32)>, chunks: Seq<ChunkPos>, n: nat)
    requires
        n <= chunks.len(),
        forall|i: int| 0 <= i < n ==> #[trigger] spawned.contains(chunks[i].key()),
    ensures
        mark_spawned(spawned, chunks, n) == (spawned, Seq::<ChunkPos>::empty()),
    decreases n,
{
    if n > 0 {
        lemma_marked_chunks_stay(spawned, chunks, (n - 1) as nat);
        assert(spawned.contains(chunks[n - 1].key()));
    }
}

/// Whether a neighbour of the new tile is rewritten is decided by the neighbour's own
/// chunk, not by the new tile's: a neighbour with an entry in a cached chunk, with no
/// entity or with an entity found alive, takes the new tile's bits on the side it
/// shares with it and keeps its entity, even when the new tile's chunk is not cached;
/// a neighbour in a chunk that is not cached keeps its entry.
pub proof fn law_neighbour_chunk_decides_update(
    tiles: Map<TileKey, TileEntityData>,
    cached: Set<(i32, i32)>,
    live: Set<TileKey>,
    c: ChunkPos,
    t: TilePos,
    bits: u8,
    k: TileKey,
)
    requires
        tiles.contains_key(k),
        is_neighbour_key(c, t, k),
    ensures
        cached.contains((k.0, k.1)) && (tiles[k].entity is None || live.contains(k))
            ==> after_neighbour_update(tiles, cached, live, c, t, bits)[k] == (TileEntityData {
            entity: tiles[k].entity,
            tile_bit_index: neighbour_bits(bits, tiles[k].tile_bit_index, key_offset(c, t, k)),
        }),
        !cached.contains((k.0, k.1)) ==> after_neighbour_update(tiles, cached, live, c, t, bits)[k]
            == tiles[k],
{
}

/// In the start-up pass, a chunk that is not cached yet is cached with itself already
/// counted among the cached chunks, so that its tiles update their neighbours inside
/// it; a chunk that is cached already is skipped and changes nothing.
pub proof fn law_init_pass_marks_before_caching<W: Fn(i32, i32) -> bool>(
    st: (Map<TileKey, TileEntityData>, Set<(i32, i32)>, Seq<TextureUpdate>),
    chunks: Seq<ChunkPos>,
    is_water: W,
    answers: Seq<Seq<Set<TileKey>>>,
    n: nat,
)
    requires
        n < chunks.len(),
    ensures
        !cache_windows(st, chunks, is_water, answers, n).1.contains(chunks[n as int].key())
            ==> cache_windows(st, chunks, is_water, answers, n + 1) == (
            place_tiles(
                fill_chunk(cache_windows(st, chunks, is_water, answers, n).0, chunks[n as int], None, 4096),
                cache_windows(st, chunks, is_water, answers, n).2,
                cache_windows(st, chunks, is_water, answers, n).1.insert(chunks[n as int].key()),
                is_water,
                answers[n as int],
                chunks[n as int],
                None,
                4096,
            ).0,
            cache_windows(st, chunks, is_water, answers, n).1.insert(chunks[n as int].key()),
            place_tiles(
                fill_chunk(cache_windows(st, chunks, is_water, answers, n).0, chunks[n as int], None, 4096),
                cache_windows(st, chunks, is_water, answers, n).2,
                cache_windows(st, chunks, is_water, answers, n).1.insert(chunks[n as int].key()),
                is_water,
                answers[n as int],
                chunks[n as int],
                None,
                4096,
            ).1,
        ),
        cache_windows(st, chunks, is_water, answers, n).1.contains(chunks[n as int].key())
            ==> cache_windows(st, chunks, is_water, answers, n + 1) == cache_windows(
            st,
            chunks,
            is_water,
            answers,
            n,
        ),
{
}

/// The count of repeated indices in the scan around a tile never drops as the scan
/// goes on: every repeat seen anywhere in the window counts.
pub proof fn law_smoothing_count_never_drops(g: [[u32; 16]; 16], k: i8, x: int, y: int, p: nat, q: nat)
    requires
        p <= q,
    ensures
        0 <= smooth_scan(g, k, x, y, p).0 <= smooth_scan(g, k, x, y, q).0,
    decreases q,
{
    if p < q {
        law_smoothing_count_never_drops(g, k, x, y, p, (q - 1) as nat);
    } else {
        lemma_scan_count_nonnegative(g, k, x, y, p);
    }
}

proof fn lemma_scan_count_nonnegative(g: [[u32; 16]; 16], k: i8, x: int, y: int, p: nat)
    ensures
        0 <= smooth_scan(g, k, x, y, p).0,
    decreases p,
{
    if p > 0 {
        lemma_scan_count_nonnegative(g, k, x, y, (p - 1) as nat);
    }
}

/// The spawning pass lists each chunk at most once and never one spawned before the
/// pass: the listed chunks are exactly the chunks it newly marks spawned.
pub proof fn law_spawn_list_new_and_distinct(spawned: Set<(i32, i32)>, chunks: Seq<ChunkPos>, n: nat)
    requires
        n <= chunks.len(),
    ensures
        forall|i: int|
            0 <= i < mark_spawned(spawned, chunks, n).1.len() ==> !spawned.contains(
                #[trigger] mark_spawned(spawned, chunks, n).1[i].key(),
            ) && mark_spawned(spawned, chunks, n).0.contains(mark_spawned(spawned, chunks, n).1[i].key()),
        forall|i: int, j: int|
            0 <= i < j < mark_spawned(spawned, chunks, n).1.len() ==> #[trigger] mark_spawned(
                spawned,
                chunks,
                n,
            ).1[i].key() != #[trigger] mark_spawned(spawned, chunks, n).1[j].key(),
        forall|c: (i32, i32)|
            #[trigger] mark_spawned(spawned, chunks, n).0.contains(c) ==> spawned.contains(c) || exists|i: int|
                0 <= i < mark_spawned(spawned, chunks, n).1.len() && #[trigger] mark_spawned(
                    spawned,
                    chunks,
                    n,
                ).1[i].key() == c,
    decreases n,
{
    if n > 0 {
        law_spawn_list_new_and_distinct(spawned, chunks, (n - 1) as nat);
        let prev = mark_spawned(spawned, chunks, (n - 1) as nat);
        let cur = mark_spawned(spawned, chunks, n);
        let ck = chunks[n - 1].key();
        if !prev.0.contains(ck) {
            assert(cur.1 == prev.1.push(chunks[n - 1]));
            assert forall|i: int| 0 <= i < prev.1.len() implies #[trigger] prev.1[i].key() != ck by {
                assert(prev.0.contains(prev.1[i].key()));
            }
            assert forall|c: (i32, i32)| #[trigger] cur.0.contains(c) implies spawned.contains(c) || exists|i: int|
                0 <= i < cur.1.len() && #[trigger] cur.1[i].key() == c by {
                if c == ck {
                    assert(cur.1[prev.1.len() as int].key() == c);
                } else if !spawned.contains(c) {
                    assert(prev.0.contains(c));
                    let i = choose|i: int| 0 <= i < prev.1.len() && #[trigger] prev.1[i].key() == c;
                    assert(cur.1[i].key() == c);
                }
            }
            lemma_mark_spawned_set(spawned, chunks, (n - 1) as nat);
            assert(!spawned.contains(ck));
        }
    }
}

} // verus!
