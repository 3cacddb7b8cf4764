//! Tile coordinates and the four-bit tile indices that describe which
//! corners of a tile are filled.
use vstd::prelude::*;

verus! {

/// Number of tiles along each side of a chunk.
pub const CHUNK_SIZE: u32 = 64;

/// How many chunks around the camera's chunk are cached at start, on each side
/// (the window runs from `CHUNK_CACHE_AMOUNT` below to one less above).
pub const CHUNK_CACHE_AMOUNT: i32 = 3;

/// How many chunks around the camera's chunk are spawned, on each side (the window
/// runs from `NUM_CHUNKS_AROUND_CAMERA` below to one less above).
pub const NUM_CHUNKS_AROUND_CAMERA: i32 = 1;

/// The bit index of a fully filled tile (all four corners set).
pub const FILLED_TILE_BITS: u8 = 0b1111;

/// A chunk coordinate, in chunks.
#[derive(Clone, Copy, PartialEq, Eq, Structural, Debug, Hash)]
pub struct ChunkPos {
    pub x: i32,
    pub y: i32,
}

/// A tile coordinate inside a chunk, in tiles.
#[derive(Clone, Copy, PartialEq, Eq, Structural, Debug, Hash)]
pub struct TilePos {
    pub x: u32,
    pub y: u32,
}

/// The key under which a tile's data is kept: its chunk and its place in the chunk.
#[derive(Clone, Copy, PartialEq, Eq, Structural, Debug, Hash)]
pub struct TileMapPositionData {
    pub chunk_pos: ChunkPos,
    pub tile_pos: TilePos,
}

/// What is kept of a tile: the entity that shows it, if one was spawned, given
/// by its bits, and its four-bit index.
#[derive(Clone, Copy, PartialEq, Eq, Structural, Debug, Hash)]
pub struct TileEntityData {
    pub entity: Option<u64>,
    pub tile_bit_index: u8,
}

/// A texture index that a spawned tile entity must be given, by the entity's bits.
#[derive(Clone, Copy, PartialEq, Eq, Structural, Debug, Hash)]
pub struct TextureUpdate {
    pub entity: u64,
    pub tile_bit_index: u8,
}

/// The plain key of a tile position: chunk x, chunk y, tile x, tile y.
pub type TileKey = (i32, i32, u32, u32);

/// The tile map with no entry.
pub open spec fn no_tiles() -> Map<TileKey, TileEntityData> {
    Map::empty()
}

impl TileMapPositionData {
    pub open spec fn key(self) -> TileKey {
        (self.chunk_pos.x, self.chunk_pos.y, self.tile_pos.x, self.tile_pos.y)
    }
}

impl ChunkPos {
    pub open spec fn key(self) -> (i32, i32) {
        (self.x, self.y)
    }
}

/// A tile position lies inside its chunk.
pub open spec fn tile_in_chunk(t: TilePos) -> bool {
    t.x < CHUNK_SIZE && t.y < CHUNK_SIZE
}

/// The world tile coordinate along one axis.
pub open spec fn world_coord(chunk: int, tile: int) -> int {
    chunk * 64 + tile
}

/// Every tile of the chunk has a world coordinate that fits in an `i32`.
pub open spec fn chunk_in_range(c: ChunkPos) -> bool {
    &&& i32::MIN <= c.x * 64
    &&& c.x * 64 + 63 <= i32::MAX
    &&& i32::MIN <= c.y * 64
    &&& c.y * 64 + 63 <= i32::MAX
}

/// The world tile coordinates of tile `t` of chunk `c` fit in an `i32`.
pub open spec fn world_tile_fits(c: ChunkPos, t: TilePos) -> bool {
    &&& t.x <= i32::MAX
    &&& t.y <= i32::MAX
    &&& i32::MIN <= c.x * 64
    &&& c.x * 64 + t.x <= i32::MAX
    &&& i32::MIN <= c.y * 64
    &&& c.y * 64 + t.y <= i32::MAX
}

/// The chunk that holds a world tile coordinate.
pub open spec fn chunk_of(w: int) -> int {
    w / 64
}

/// The place inside its chunk of a world tile coordinate.
pub open spec fn tile_of(w: int) -> int {
    w % 64
}

/// The neighbour at offset `d` of a tile: the chunk and tile position of the world
/// tile `d` away from it.
pub open spec fn spec_neighbour(c: ChunkPos, t: TilePos, d: (i8, i8)) -> TileMapPositionData {
    let wx = world_coord(c.x as int, t.x as int) + d.0;
    let wy = world_coord(c.y as int, t.y as int) + d.1;
    TileMapPositionData {
        chunk_pos: ChunkPos { x: chunk_of(wx) as i32, y: chunk_of(wy) as i32 },
        tile_pos: TilePos { x: tile_of(wx) as u32, y: tile_of(wy) as u32 },
    }
}

/// The chunk of tile `t` can step one chunk across each border that the tile
/// touches without overflow.
pub open spec fn chunk_steps_fit(c: ChunkPos, t: TilePos) -> bool {
    &&& (t.x == 0 ==> c.x > i32::MIN)
    &&& (t.x == 63 ==> c.x < i32::MAX)
    &&& (t.y == 0 ==> c.y > i32::MIN)
    &&& (t.y == 63 ==> c.y < i32::MAX)
}

/// The world tile coordinate of a tile along one axis, as the terrain sampler is given it.
pub fn world_tile_coord(chunk: i32, tile: u32) -> (w: i32)
    requires
        tile <= i32::MAX,
        i32::MIN <= chunk * 64,
        chunk * 64 + tile <= i32::MAX,
    ensures
        w == world_coord(chunk as int, tile as int),
{
    tile as i32 + chunk * (CHUNK_SIZE as i32)
}

/// Splits a world coordinate one step away from `tile` of `chunk` back into a chunk
/// and a tile coordinate, as the neighbour search of the chunk manager does it.
fn step_axis(chunk: i32, tile: u32, d: i8) -> (r: (i32, u32))
    requires
        tile < CHUNK_SIZE,
        -1 <= d <= 1,
        tile == 0 ==> chunk > i32::MIN,
        tile == 63 ==> chunk < i32::MAX,
    ensures
        r.0 == chunk_of(world_coord(chunk as int, tile as int) + d),
        r.1 == tile_of(world_coord(chunk as int, tile as int) + d),
        r.1 < CHUNK_SIZE,
{
    let t = tile as i8;
    let mut c = chunk;
    let mut n: u32 = (d + t) as u32;
    if t + d < 0 {
        c = c - 1;
        n = CHUNK_SIZE - 1;
    } else if t + d >= 64 {
        c = c + 1;
        n = 0;
    }
    proof {
        let w = world_coord(chunk as int, tile as int) + d;
        assert(w == chunk * 64 + tile + d);
        if tile + d < 0 {
            assert(w == (chunk - 1) * 64 + 63);
        } else if tile + d >= 64 {
            assert(w == (chunk + 1) * 64 + 0);
        } else {
            assert(w == chunk * 64 + (tile + d));
        }
    }
    (c, n)
}

/// The neighbour at offset `(dx, dy)` of `tile` in `chunk`: the tile one step
/// away in the world, with the chunk changed where the step leaves the chunk.
pub fn neighbour_position(chunk: ChunkPos, tile: TilePos, dx: i8, dy: i8) -> (n: TileMapPositionData)
    requires
        tile_in_chunk(tile),
        -1 <= dx <= 1,
        -1 <= dy <= 1,
        chunk_steps_fit(chunk, tile),
    ensures
        n == spec_neighbour(chunk, tile, (dx, dy)),
        tile_in_chunk(n.tile_pos),
        world_coord(n.chunk_pos.x as int, n.tile_pos.x as int) == world_coord(chunk.x as int, tile.x as int) + dx,
        world_coord(n.chunk_pos.y as int, n.tile_pos.y as int) == world_coord(chunk.y as int, tile.y as int) + dy,
{
    let (cx, tx) = step_axis(chunk.x, tile.x, dx);
    let (cy, ty) = step_axis(chunk.y, tile.y, dy);
    TileMapPositionData { chunk_pos: ChunkPos { x: cx, y: cy }, tile_pos: TilePos { x: tx, y: ty } }
}

/// Bits of a freshly generated tile: water fills the tile, grass leaves it empty.
pub open spec fn terrain_bits(is_water: bool) -> u8 {
    if is_water { FILLED_TILE_BITS } else { 0u8 }
}

/// Bits of the block that the terrain sampler gives.
pub fn block_bits(is_water: bool) -> (bits: u8)
    ensures
        bits == terrain_bits(is_water),
{
    if !is_water {
        0b0000
    } else {
        0b1111
    }
}

/// Moves a block coordinate that the camera gives inside a chunk (a value from
/// `-CHUNK_SIZE` up to `CHUNK_SIZE - 1`) to the range `0..CHUNK_SIZE`, counting from
/// the chunk's bottom left.
pub fn wrap_block_coord(raw: i32) -> (c: i32)
    requires
        -64 <= raw < 64,
    ensures
        0 <= c < 64,
        c == tile_of(raw as int),
{
    if raw < 0 {
        raw + CHUNK_SIZE as i32
    } else {
        raw
    }
}

/// Bits of the two corners that a tile takes from the tile whose edge it shares,
/// and bits it keeps of its own, for each of the four edge offsets;
/// any other offset gives no bits at all.
pub open spec fn edge_masks(edge: (i8, i8)) -> (u8, u8) {
    if edge.0 == 0 && edge.1 == 1 {
        (0b1100u8, 0b0011u8)
    } else if edge.0 == 1 && edge.1 == 0 {
        (0b0101u8, 0b1010u8)
    } else if edge.0 == 0 && edge.1 == -1 {
        (0b0011u8, 0b1100u8)
    } else if edge.0 == -1 && edge.1 == 0 {
        (0b1010u8, 0b0101u8)
    } else {
        (0u8, 0u8)
    }
}

/// The same for the four corner offsets: one bit comes from the new tile,
/// the other three are kept.
pub open spec fn corner_masks(corner: (i8, i8)) -> (u8, u8) {
    if corner.0 == -1 && corner.1 == 1 {
        (0b1000u8, 0b0111u8)
    } else if corner.0 == 1 && corner.1 == 1 {
        (0b0100u8, 0b1011u8)
    } else if corner.0 == -1 && corner.1 == -1 {
        (0b0010u8, 0b1101u8)
    } else if corner.0 == 1 && corner.1 == -1 {
        (0b0001u8, 0b1110u8)
    } else {
        (0u8, 0u8)
    }
}

/// An offset that names one of the four edge neighbours.
pub open spec fn is_edge_offset(d: (i8, i8)) -> bool {
    (d.0 == 0 && (d.1 == 1 || d.1 == -1)) || (d.1 == 0 && (d.0 == 1 || d.0 == -1))
}

/// An offset that names one of the four corner neighbours.
pub open spec fn is_corner_offset(d: (i8, i8)) -> bool {
    (d.0 == 1 || d.0 == -1) && (d.1 == 1 || d.1 == -1)
}

/// Combines the bits that a new tile gives with the bits that a neighbour keeps.
pub open spec fn merge_bits(new_bits: u8, kept_bits: u8, masks: (u8, u8)) -> u8 {
    (new_bits & masks.0) | (kept_bits & masks.1)
}

/// The bit index that an edge neighbour of a new tile takes.
pub fn compute_tile_index(new_tile_bits: u8, neighbour_bits: u8, edge: (i8, i8)) -> (index: u8)
    ensures
        index == merge_bits(new_tile_bits, neighbour_bits, edge_masks(edge)),
        index < 16,
{
    let mut index: u8 = 0;
    if edge.0 == 0 && edge.1 == 1 {
        index |= new_tile_bits & 0b1100;
        index |= neighbour_bits & 0b0011;
    } else if edge.0 == 1 && edge.1 == 0 {
        index |= new_tile_bits & 0b0101;
        index |= neighbour_bits & 0b1010;
    } else if edge.0 == 0 && edge.1 == -1 {
        index |= new_tile_bits & 0b0011;
        index |= neighbour_bits & 0b1100;
    } else if edge.0 == -1 && edge.1 == 0 {
        index |= new_tile_bits & 0b1010;
        index |= neighbour_bits & 0b0101;
    }
    proof {
        lemma_merge_below_16(new_tile_bits, neighbour_bits, edge_masks(edge));
        assert(0u8 | (new_tile_bits & 0b1100u8) == new_tile_bits & 0b1100u8) by (bit_vector);
        assert(0u8 | (new_tile_bits & 0b0101u8) == new_tile_bits & 0b0101u8) by (bit_vector);
        assert(0u8 | (new_tile_bits & 0b0011u8) == new_tile_bits & 0b0011u8) by (bit_vector);
        assert(0u8 | (new_tile_bits & 0b1010u8) == new_tile_bits & 0b1010u8) by (bit_vector);
        assert((new_tile_bits & 0u8) | (neighbour_bits & 0u8) == 0u8) by (bit_vector);
    }
    index
}

/// The bit index that a corner neighbour of a new tile takes.
pub fn compute_corner_index(new_tile_bits: u8, neighbour_bits: u8, corner: (i8, i8)) -> (index: u8)
    ensures
        index == merge_bits(new_tile_bits, neighbour_bits, corner_masks(corner)),
        index < 16,
{
    let mut index: u8 = 0;
    if corner.0 == -1 && corner.1 == 1 {
        index |= new_tile_bits & 0b1000;
        index |= neighbour_bits & 0b0111;
    } else if corner.0 == 1 && corner.1 == 1 {
        index |= new_tile_bits & 0b0100;
        index |= neighbour_bits & 0b1011;
    } else if corner.0 == -1 && corner.1 == -1 {
        index |= new_tile_bits & 0b0010;
        index |= neighbour_bits & 0b1101;
    } else if corner.0 == 1 && corner.1 == -1 {
        index |= new_tile_bits & 0b0001;
        index |= neighbour_bits & 0b1110;
    }
    proof {
        lemma_merge_below_16(new_tile_bits, neighbour_bits, corner_masks(corner));
        assert(0u8 | (new_tile_bits & 0b1000u8) == new_tile_bits & 0b1000u8) by (bit_vector);
        assert(0u8 | (new_tile_bits & 0b0100u8) == new_tile_bits & 0b0100u8) by (bit_vector);
        assert(0u8 | (new_tile_bits & 0b0010u8) == new_tile_bits & 0b0010u8) by (bit_vector);
        assert(0u8 | (new_tile_bits & 0b0001u8) == new_tile_bits & 0b0001u8) by (bit_vector);
        assert((new_tile_bits & 0u8) | (neighbour_bits & 0u8) == 0u8) by (bit_vector);
    }
    index
}

pub(crate) proof fn lemma_merge_below_16(a: u8, b: u8, m: (u8, u8))
    requires
        m.0 < 16,
        m.1 < 16,
    ensures
        merge_bits(a, b, m) < 16,
{
    let x = m.0;
    let y = m.1;
    assert((a & x) | (b & y) < 16u8) by (bit_vector)
        requires
            x < 16u8,
            y < 16u8,
    ;
}

} // verus!
