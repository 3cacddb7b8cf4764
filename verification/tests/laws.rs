use world_generation::smoothing::smooth_terrain;
use world_generation::tiles::{compute_corner_index, compute_tile_index, neighbour_position, ChunkPos, TilePos};

const EDGES: [(i8, i8); 4] = [(0, 1), (1, 0), (0, -1), (-1, 0)];
const CORNERS: [(i8, i8); 4] = [(-1, 1), (1, 1), (-1, -1), (1, -1)];

#[test]
fn the_nine_places_around_a_corner_tile_are_distinct() {
    let c = ChunkPos { x: 0, y: 0 };
    let t = TilePos { x: 0, y: 63 };
    let mut seen = Vec::new();
    for dy in -1..=1i8 {
        for dx in -1..=1i8 {
            let n = neighbour_position(c, t, dx, dy);
            assert!(n.tile_pos.x < 64 && n.tile_pos.y < 64);
            let wx = n.chunk_pos.x * 64 + n.tile_pos.x as i32;
            let wy = n.chunk_pos.y * 64 + n.tile_pos.y as i32;
            assert_eq!((wx, wy), (dx as i32, 63 + dy as i32));
            assert!(!seen.contains(&n));
            seen.push(n);
        }
    }
    assert_eq!(seen.len(), 9);
}

#[test]
fn stepping_to_a_neighbour_and_back_returns() {
    for (c, t) in [
        (ChunkPos { x: 0, y: 0 }, TilePos { x: 0, y: 0 }),
        (ChunkPos { x: -5, y: 9 }, TilePos { x: 63, y: 31 }),
        (ChunkPos { x: 2, y: -2 }, TilePos { x: 17, y: 63 }),
    ] {
        for dy in -1..=1i8 {
            for dx in -1..=1i8 {
                let n = neighbour_position(c, t, dx, dy);
                let back = neighbour_position(n.chunk_pos, n.tile_pos, -dx, -dy);
                assert_eq!((back.chunk_pos, back.tile_pos), (c, t));
            }
        }
    }
}

#[test]
fn equal_bits_merge_to_themselves() {
    for b in 0..16u8 {
        for e in EDGES {
            assert_eq!(compute_tile_index(b, b, e), b);
        }
        for c in CORNERS {
            assert_eq!(compute_corner_index(b, b, c), b);
        }
    }
}

#[test]
fn taken_and_kept_bits_partition_the_tile() {
    for e in EDGES {
        let taken = compute_tile_index(0b1111, 0, e);
        let kept = compute_tile_index(0, 0b1111, e);
        assert_eq!(taken & kept, 0);
        assert_eq!(taken | kept, 0b1111);
    }
    for c in CORNERS {
        let taken = compute_corner_index(0b1111, 0, c);
        let kept = compute_corner_index(0, 0b1111, c);
        assert_eq!(taken & kept, 0);
        assert_eq!(taken | kept, 0b1111);
        assert_eq!(taken.count_ones(), 1);
    }
}

#[test]
fn smoothing_never_gives_a_tile_its_own_index() {
    let mut g = [[0u32; 16]; 16];
    for i in 0..16 {
        for j in 0..16 {
            g[i][j] = ((i * 7 + j * 3) % 4) as u32;
        }
    }
    for k in 0..4i8 {
        for u in smooth_terrain(k, &g) {
            assert_ne!(u.texture_index, g[u.x as usize][u.y as usize]);
        }
    }
}
