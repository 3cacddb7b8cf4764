use bevy::ecs::world::World;
use world_generation::tiles::{
    ChunkPos, TextureUpdate, TileEntityData, TileMapPositionData, TilePos, FILLED_TILE_BITS,
};
use world_generation::world_generation::{ChunkLoadingState, ChunkManager, DespawnCandidate};

fn at(m: &ChunkManager, chunk: (i32, i32), tile: (u32, u32)) -> Option<TileEntityData> {
    m.tile_data(TileMapPositionData {
        chunk_pos: ChunkPos { x: chunk.0, y: chunk.1 },
        tile_pos: TilePos { x: tile.0, y: tile.1 },
    })
}

fn bits(m: &ChunkManager, chunk: (i32, i32), tile: (u32, u32)) -> u8 {
    at(m, chunk, tile).unwrap().tile_bit_index
}


fn one_water_tile(x: i32, y: i32) -> bool {
    x == 10 && y == 10
}

fn no_water(_x: i32, _y: i32) -> bool {
    false
}

fn all_water(_x: i32, _y: i32) -> bool {
    true
}

#[test]
fn new_manager_is_empty_and_spawning() {
    let m = ChunkManager::new();
    assert_eq!(m.state, ChunkLoadingState::Spawning);
    assert!(!m.is_cached(ChunkPos { x: 0, y: 0 }));
    assert!(!m.is_spawned(ChunkPos { x: 0, y: 0 }));
    assert_eq!(at(&m, (0, 0), (0, 0)), None);
}

#[test]
fn caching_a_chunk_merges_a_water_tile_into_its_neighbours() {
    let world = World::new();
    let mut m = ChunkManager::new();
    let mut textures = Vec::new();
    let c = ChunkPos { x: 0, y: 0 };
    assert!(m.cache_chunk_if_new(c, &one_water_tile, world.entities(), &mut textures));
    assert!(m.is_cached(c));
    assert_eq!(m.state, ChunkLoadingState::Spawning);
    assert!(textures.is_empty());
    let expected = [
        ((9, 9), 2),
        ((10, 9), 1),
        ((11, 9), 0),
        ((9, 10), 8),
        ((10, 10), 4),
        ((11, 10), 0),
        ((9, 11), 0),
        ((10, 11), 0),
        ((11, 11), 0),
        ((0, 0), 0),
        ((63, 63), 0),
        ((12, 12), 0),
    ];
    for (tile, b) in expected {
        assert_eq!(at(&m, (0, 0), tile), Some(TileEntityData { entity: None, tile_bit_index: b }));
    }
    assert!(!m.cache_chunk_if_new(c, &all_water, world.entities(), &mut textures));
    assert_eq!(bits(&m, (0, 0), (10, 10)), 4);
}

#[test]
fn caching_a_chunk_that_is_not_marked_cached_skips_its_own_neighbours() {
    let world = World::new();
    let mut m = ChunkManager::new();
    let mut textures = Vec::new();
    m.cache_chunk(ChunkPos { x: 0, y: 0 }, &one_water_tile, world.entities(), &mut textures);
    assert!(!m.is_cached(ChunkPos { x: 0, y: 0 }));
    assert_eq!(bits(&m, (0, 0), (9, 9)), 0);
    assert_eq!(bits(&m, (0, 0), (10, 10)), FILLED_TILE_BITS);
    assert_eq!(bits(&m, (0, 0), (11, 11)), 0);
}

#[test]
fn uniform_terrain_caches_uniform_tiles() {
    let world = World::new();
    let mut m = ChunkManager::new();
    let mut textures = Vec::new();
    m.cache_chunk_if_new(ChunkPos { x: 2, y: -1 }, &all_water, world.entities(), &mut textures);
    m.cache_chunk_if_new(ChunkPos { x: 3, y: -1 }, &no_water, world.entities(), &mut textures);
    for (x, y) in [(0, 0), (5, 7), (31, 31), (0, 63), (62, 63)] {
        assert_eq!(bits(&m, (2, -1), (x, y)), 0b1111);
        assert_eq!(bits(&m, (3, -1), (x, y)), 0);
    }
    assert_eq!(bits(&m, (2, -1), (63, 0)), 0b0101);
    assert_eq!(bits(&m, (2, -1), (63, 63)), 0b0101);
}

#[test]
fn a_new_tile_rewrites_its_eight_neighbours_across_a_chunk_border() {
    let world = World::new();
    let mut m = ChunkManager::new();
    let mut textures = Vec::new();
    m.cache_chunk_if_new(ChunkPos { x: 0, y: 0 }, &no_water, world.entities(), &mut textures);
    m.cache_chunk_if_new(ChunkPos { x: -1, y: 0 }, &no_water, world.entities(), &mut textures);
    m.update_neighbour_tiles(TilePos { x: 0, y: 5 }, 0b1111, ChunkPos { x: 0, y: 0 }, world.entities(), &mut textures);
    assert_eq!(bits(&m, (-1, 0), (63, 4)), 0b0010);
    assert_eq!(bits(&m, (-1, 0), (63, 5)), 0b1010);
    assert_eq!(bits(&m, (-1, 0), (63, 6)), 0b1000);
    assert_eq!(bits(&m, (0, 0), (0, 4)), 0b0011);
    assert_eq!(bits(&m, (0, 0), (1, 4)), 0b0001);
    assert_eq!(bits(&m, (0, 0), (1, 5)), 0b0101);
    assert_eq!(bits(&m, (0, 0), (0, 6)), 0b1100);
    assert_eq!(bits(&m, (0, 0), (1, 6)), 0b0100);
    assert_eq!(bits(&m, (0, 0), (0, 5)), 0);
    assert_eq!(bits(&m, (0, 0), (2, 5)), 0);
    assert!(textures.is_empty());
}

#[test]
fn neighbours_in_uncached_chunks_are_left_alone() {
    let world = World::new();
    let mut m = ChunkManager::new();
    let mut textures = Vec::new();
    m.cache_chunk_if_new(ChunkPos { x: 0, y: 0 }, &no_water, world.entities(), &mut textures);
    m.update_neighbour_tiles(TilePos { x: 0, y: 5 }, 0b1111, ChunkPos { x: 0, y: 0 }, world.entities(), &mut textures);
    assert_eq!(at(&m, (-1, 0), (63, 5)), None);
    assert_eq!(bits(&m, (0, 0), (1, 5)), 0b0101);
}

#[test]
fn fresh_spawn_records_entities_and_reports_live_textures() {
    let mut world = World::new();
    let spawned: Vec<u64> = (0..8192).map(|_| world.spawn_empty().id().to_bits()).collect();
    for e in &spawned {
        if e % 2 == 1 {
            world.despawn(bevy::ecs::entity::Entity::from_bits(*e));
        }
    }
    let placeholders: Vec<u64> = spawned[..4096].to_vec();
    let tiles: Vec<u64> = spawned[4096..].to_vec();
    assert_eq!((placeholders[0], tiles[0], tiles[4095]), (0, 4096, 8191));
    let mut m = ChunkManager::new();
    let mut textures = Vec::new();
    m.cache_chunk_if_new(ChunkPos { x: 0, y: 0 }, &no_water, world.entities(), &mut textures);
    let textures = m.spawn_chunk_fresh(ChunkPos { x: 0, y: 0 }, &placeholders, &tiles, &one_water_tile, world.entities());
    assert_eq!(textures.len(), 16002);
    let first = [(64, 3), (4096, 0), (2, 10), (64, 3), (66, 11), (66, 3), (4098, 0), (4, 10), (66, 3), (68, 11), (68, 3), (4100, 0)];
    for (i, (e, b)) in first.iter().enumerate() {
        assert_eq!(textures[i], TextureUpdate { entity: *e, tile_bit_index: *b });
    }
    let expected = [
        ((9, 9), 4681, 0),
        ((10, 9), 4682, 1),
        ((11, 9), 4683, 0),
        ((9, 10), 4745, 0),
        ((10, 10), 4746, 4),
        ((11, 10), 4747, 0),
        ((9, 11), 4809, 0),
        ((0, 0), 4096, 0),
        ((1, 0), 4097, 0),
        ((63, 63), 8191, 0),
    ];
    for (tile, e, b) in expected {
        assert_eq!(at(&m, (0, 0), tile), Some(TileEntityData { entity: Some(e), tile_bit_index: b }));
    }
}

#[test]
fn fresh_spawn_of_an_uncached_chunk_keeps_terrain_bits() {
    let world = World::new();
    let mut m = ChunkManager::new();
    let placeholders: Vec<u64> = (1..=4096).collect();
    let tiles: Vec<u64> = (10001..=14096).collect();
    let textures = m.spawn_chunk_fresh(ChunkPos { x: 0, y: 0 }, &placeholders, &tiles, &one_water_tile, world.entities());
    assert!(textures.is_empty());
    assert_eq!(at(&m, (0, 0), (9, 9)), Some(TileEntityData { entity: Some(10586), tile_bit_index: 0 }));
    assert_eq!(at(&m, (0, 0), (10, 10)), Some(TileEntityData { entity: Some(10651), tile_bit_index: 15 }));
    assert!(!m.is_cached(ChunkPos { x: 0, y: 0 }));
    assert_eq!(m.spawn_chunk_from_cache(ChunkPos { x: 0, y: 0 }), None);
}

#[test]
fn a_cached_chunk_loads_its_stored_bits() {
    let world = World::new();
    let mut m = ChunkManager::new();
    let mut textures = Vec::new();
    let c = ChunkPos { x: 0, y: 0 };
    m.cache_chunk_if_new(c, &one_water_tile, world.entities(), &mut textures);
    let loaded = m.spawn_chunk_from_cache(c).unwrap();
    assert_eq!(loaded.len(), 4096);
    assert_eq!(loaded[9 * 64 + 9], 2);
    assert_eq!(loaded[9 * 64 + 10], 1);
    assert_eq!(loaded[10 * 64 + 9], 8);
    assert_eq!(loaded[10 * 64 + 10], 4);
    for y in 0..64u32 {
        for x in 0..64u32 {
            assert_eq!(loaded[(y * 64 + x) as usize], bits(&m, (0, 0), (x, y)));
        }
    }
    assert_eq!(m.spawn_chunk_from_cache(ChunkPos { x: 1, y: 0 }), None);
}

#[test]
fn start_up_caches_the_window_around_each_camera() {
    let world = World::new();
    let mut m = ChunkManager::new();
    let textures = m.spawn_and_cache_init_chunks(&vec![ChunkPos { x: 0, y: 0 }], &no_water, world.entities());
    assert!(textures.is_empty());
    assert_eq!(m.state, ChunkLoadingState::Idle);
    for y in -3..3 {
        for x in -3..3 {
            assert!(m.is_cached(ChunkPos { x, y }));
        }
    }
    assert!(!m.is_cached(ChunkPos { x: 3, y: 0 }));
    assert!(!m.is_cached(ChunkPos { x: 0, y: 3 }));
    assert!(!m.is_cached(ChunkPos { x: -4, y: 0 }));
    assert!(!m.is_spawned(ChunkPos { x: 0, y: 0 }));
    assert_eq!(bits(&m, (-3, -3), (0, 0)), 0);
    assert_eq!(bits(&m, (2, 2), (63, 63)), 0);
}

#[test]
fn start_up_with_no_camera_only_settles_the_state() {
    let world = World::new();
    let mut m = ChunkManager::new();
    let textures = m.spawn_and_cache_init_chunks(&vec![], &no_water, world.entities());
    assert!(textures.is_empty());
    assert_eq!(m.state, ChunkLoadingState::Idle);
    assert!(!m.is_cached(ChunkPos { x: 0, y: 0 }));
}

#[test]
fn spawning_marks_the_window_around_the_camera_once() {
    let mut m = ChunkManager::new();
    let first = m.spawn_chunks_around_camera(&vec![ChunkPos { x: 0, y: 0 }]);
    assert_eq!(
        first,
        vec![
            ChunkPos { x: -1, y: -1 },
            ChunkPos { x: 0, y: -1 },
            ChunkPos { x: -1, y: 0 },
            ChunkPos { x: 0, y: 0 },
        ]
    );
    assert_eq!(m.state, ChunkLoadingState::Idle);
    assert!(m.is_spawned(ChunkPos { x: 0, y: 0 }));
    assert!(!m.is_spawned(ChunkPos { x: 1, y: 0 }));
    let again = m.spawn_chunks_around_camera(&vec![ChunkPos { x: 0, y: 0 }]);
    assert!(again.is_empty());
    let moved = m.spawn_chunks_around_camera(&vec![ChunkPos { x: 1, y: 0 }, ChunkPos { x: 0, y: 0 }]);
    assert_eq!(moved, vec![ChunkPos { x: 1, y: -1 }, ChunkPos { x: 1, y: 0 }]);
    assert!(!m.is_cached(ChunkPos { x: 0, y: 0 }));
}

#[test]
fn despawning_unmarks_far_spawned_chunks_once() {
    let mut m = ChunkManager::new();
    m.spawn_chunks_around_camera(&vec![ChunkPos { x: 0, y: 0 }]);
    let candidates = vec![
        DespawnCandidate { entity: 1, chunk_pos: ChunkPos { x: 0, y: 0 }, out_of_range: false },
        DespawnCandidate { entity: 2, chunk_pos: ChunkPos { x: 0, y: 0 }, out_of_range: true },
        DespawnCandidate { entity: 3, chunk_pos: ChunkPos { x: 0, y: 0 }, out_of_range: true },
        DespawnCandidate { entity: 4, chunk_pos: ChunkPos { x: 5, y: 5 }, out_of_range: true },
        DespawnCandidate { entity: 5, chunk_pos: ChunkPos { x: -1, y: 0 }, out_of_range: true },
    ];
    let despawned = m.despawn_outofrange_chunks(&candidates);
    assert_eq!(despawned, vec![2, 5]);
    assert_eq!(m.state, ChunkLoadingState::Idle);
    assert!(!m.is_spawned(ChunkPos { x: 0, y: 0 }));
    assert!(!m.is_spawned(ChunkPos { x: -1, y: 0 }));
    assert!(m.is_spawned(ChunkPos { x: -1, y: -1 }));
    assert!(m.is_spawned(ChunkPos { x: 0, y: -1 }));
}

#[test]
fn a_despawned_chunk_is_spawned_again() {
    let mut m = ChunkManager::new();
    m.spawn_chunks_around_camera(&vec![ChunkPos { x: 0, y: 0 }]);
    m.despawn_outofrange_chunks(&vec![DespawnCandidate {
        entity: 9,
        chunk_pos: ChunkPos { x: 0, y: 0 },
        out_of_range: true,
    }]);
    let again = m.spawn_chunks_around_camera(&vec![ChunkPos { x: 0, y: 0 }]);
    assert_eq!(again, vec![ChunkPos { x: 0, y: 0 }]);
}

#[test]
fn settling_a_neighbour_follows_the_liveness_answer() {
    let mut m = ChunkManager::new();
    let key = TileMapPositionData {
        chunk_pos: ChunkPos { x: 2, y: -3 },
        tile_pos: TilePos { x: 5, y: 6 },
    };
    let mut textures = Vec::new();
    let with_entity = TileEntityData { entity: Some(7), tile_bit_index: 3 };
    m.settle_neighbour(key, with_entity, 12, false, &mut textures);
    assert_eq!(m.tile_data(key), None);
    assert!(textures.is_empty());
    m.settle_neighbour(key, with_entity, 12, true, &mut textures);
    assert_eq!(m.tile_data(key), Some(TileEntityData { entity: Some(7), tile_bit_index: 12 }));
    assert_eq!(textures, vec![TextureUpdate { entity: 7, tile_bit_index: 12 }]);
    let without_entity = TileEntityData { entity: None, tile_bit_index: 12 };
    m.settle_neighbour(key, without_entity, 9, false, &mut textures);
    assert_eq!(m.tile_data(key), Some(TileEntityData { entity: None, tile_bit_index: 9 }));
    assert_eq!(textures.len(), 1);
}
