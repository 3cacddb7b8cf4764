use world_generation::tiles::{
    block_bits, compute_corner_index, compute_tile_index, neighbour_position, world_tile_coord,
    wrap_block_coord, ChunkPos, TilePos, CHUNK_SIZE, FILLED_TILE_BITS,
};
use world_generation::world_generation::get_tile_from_perlin_noise;

#[test]
fn edge_index_takes_new_bits_on_the_shared_side() {
    assert_eq!(compute_tile_index(0b1111, 0b0000, (0, 1)), 0b1100);
    assert_eq!(compute_tile_index(0b1111, 0b0000, (1, 0)), 0b0101);
    assert_eq!(compute_tile_index(0b1111, 0b0000, (0, -1)), 0b0011);
    assert_eq!(compute_tile_index(0b1111, 0b0000, (-1, 0)), 0b1010);
}

#[test]
fn edge_index_keeps_neighbour_bits_on_the_other_side() {
    assert_eq!(compute_tile_index(0b0000, 0b1111, (0, 1)), 0b0011);
    assert_eq!(compute_tile_index(0b0000, 0b1111, (1, 0)), 0b1010);
    assert_eq!(compute_tile_index(0b0000, 0b1111, (0, -1)), 0b1100);
    assert_eq!(compute_tile_index(0b0000, 0b1111, (-1, 0)), 0b0101);
    assert_eq!(compute_tile_index(0b1001, 0b0110, (0, 1)), 0b1010);
}

#[test]
fn edge_index_of_other_offsets_is_zero() {
    assert_eq!(compute_tile_index(0b1111, 0b1111, (1, 1)), 0);
    assert_eq!(compute_tile_index(0b1111, 0b1111, (0, 0)), 0);
    assert_eq!(compute_tile_index(0b1111, 0b1111, (2, 0)), 0);
}

#[test]
fn edge_index_drops_high_bits() {
    assert_eq!(compute_tile_index(0xff, 0xff, (0, 1)), 0b1111);
    assert_eq!(compute_tile_index(0xf0, 0xf0, (-1, 0)), 0);
}

#[test]
fn corner_index_takes_one_bit() {
    assert_eq!(compute_corner_index(0b1111, 0b0000, (-1, 1)), 0b1000);
    assert_eq!(compute_corner_index(0b1111, 0b0000, (1, 1)), 0b0100);
    assert_eq!(compute_corner_index(0b1111, 0b0000, (-1, -1)), 0b0010);
    assert_eq!(compute_corner_index(0b1111, 0b0000, (1, -1)), 0b0001);
    assert_eq!(compute_corner_index(0b0000, 0b1111, (-1, 1)), 0b0111);
    assert_eq!(compute_corner_index(0b0000, 0b1111, (1, -1)), 0b1110);
    assert_eq!(compute_corner_index(0b1111, 0b1111, (0, 1)), 0);
}

#[test]
fn neighbour_inside_the_chunk() {
    let n = neighbour_position(ChunkPos { x: 3, y: -2 }, TilePos { x: 5, y: 5 }, 1, -1);
    assert_eq!(n.chunk_pos, ChunkPos { x: 3, y: -2 });
    assert_eq!(n.tile_pos, TilePos { x: 6, y: 4 });
}

#[test]
fn neighbour_across_chunk_edges() {
    let left = neighbour_position(ChunkPos { x: 0, y: 0 }, TilePos { x: 0, y: 10 }, -1, 0);
    assert_eq!(left.chunk_pos, ChunkPos { x: -1, y: 0 });
    assert_eq!(left.tile_pos, TilePos { x: 63, y: 10 });
    let top = neighbour_position(ChunkPos { x: 0, y: 0 }, TilePos { x: 10, y: 63 }, 0, 1);
    assert_eq!(top.chunk_pos, ChunkPos { x: 0, y: 1 });
    assert_eq!(top.tile_pos, TilePos { x: 10, y: 0 });
    let corner = neighbour_position(ChunkPos { x: 0, y: 0 }, TilePos { x: 0, y: 0 }, -1, -1);
    assert_eq!(corner.chunk_pos, ChunkPos { x: -1, y: -1 });
    assert_eq!(corner.tile_pos, TilePos { x: 63, y: 63 });
    let right = neighbour_position(ChunkPos { x: 7, y: 7 }, TilePos { x: 63, y: 63 }, 1, 1);
    assert_eq!(right.chunk_pos, ChunkPos { x: 8, y: 8 });
    assert_eq!(right.tile_pos, TilePos { x: 0, y: 0 });
}

#[test]
fn world_tile_coordinates() {
    assert_eq!(world_tile_coord(0, 5), 5);
    assert_eq!(world_tile_coord(1, 6), 70);
    assert_eq!(world_tile_coord(-2, 5), -123);
    assert_eq!(CHUNK_SIZE, 64);
}

#[test]
fn block_coordinates_wrap_into_the_chunk() {
    assert_eq!(wrap_block_coord(-1), 63);
    assert_eq!(wrap_block_coord(-64), 0);
    assert_eq!(wrap_block_coord(0), 0);
    assert_eq!(wrap_block_coord(5), 5);
    assert_eq!(wrap_block_coord(63), 63);
}

#[test]
fn water_fills_and_grass_empties() {
    assert_eq!(block_bits(true), FILLED_TILE_BITS);
    assert_eq!(block_bits(false), 0);
}

#[test]
fn terrain_bits_are_sampled_at_world_coordinates() {
    let water_at_one_tile = |x: i32, y: i32| x == 70 && y == -60;
    assert_eq!(
        get_tile_from_perlin_noise(ChunkPos { x: 1, y: -1 }, TilePos { x: 6, y: 4 }, &water_at_one_tile),
        0b1111
    );
    assert_eq!(
        get_tile_from_perlin_noise(ChunkPos { x: 1, y: -1 }, TilePos { x: 4, y: 6 }, &water_at_one_tile),
        0
    );
    assert_eq!(
        get_tile_from_perlin_noise(ChunkPos { x: 0, y: 0 }, TilePos { x: 6, y: 4 }, &water_at_one_tile),
        0
    );
}
