use world_generation::smoothing::{smooth_terrain, smooth_terrain_grid, SmoothedTile, NO_TILE};

#[test]
fn a_lone_tile_takes_the_index_around_it() {
    let mut g = [[1u32; 16]; 16];
    g[5][5] = 2;
    assert_eq!(smooth_terrain(1, &g), vec![SmoothedTile { x: 5, y: 5, texture_index: 1 }]);
    assert_eq!(smooth_terrain(2, &g), vec![SmoothedTile { x: 5, y: 5, texture_index: 1 }]);
    let s = smooth_terrain_grid(1, &g);
    assert_eq!(s[5][5], 1);
    assert_eq!(s[4][4], NO_TILE);
}

#[test]
fn a_uniform_grid_is_not_smoothed() {
    let g = [[7u32; 16]; 16];
    assert!(smooth_terrain(1, &g).is_empty());
    assert!(smooth_terrain(0, &g).is_empty());
    assert!(smooth_terrain(-3, &g).is_empty());
}

#[test]
fn a_checkerboard_flips_inner_tiles() {
    let mut g = [[7u32; 16]; 16];
    for i in 0..16 {
        for j in 0..16 {
            if (i + j) % 2 == 0 {
                g[i][j] = 3;
            }
        }
    }
    let u = smooth_terrain(3, &g);
    assert_eq!(u.len(), 196);
    assert_eq!(
        u[..5].to_vec(),
        vec![
            SmoothedTile { x: 1, y: 1, texture_index: 7 },
            SmoothedTile { x: 2, y: 1, texture_index: 3 },
            SmoothedTile { x: 3, y: 1, texture_index: 7 },
            SmoothedTile { x: 4, y: 1, texture_index: 3 },
            SmoothedTile { x: 5, y: 1, texture_index: 7 },
        ]
    );
}

#[test]
fn the_grid_is_read_with_x_as_the_outer_index() {
    let mut g = [[0u32; 16]; 16];
    for i in 0..16 {
        for j in 0..16 {
            g[i][j] = i as u32;
        }
    }
    let u = smooth_terrain(1, &g);
    assert_eq!(u.len(), 32);
    assert_eq!(
        u[..6].to_vec(),
        vec![
            SmoothedTile { x: 0, y: 0, texture_index: 1 },
            SmoothedTile { x: 15, y: 0, texture_index: 14 },
            SmoothedTile { x: 0, y: 1, texture_index: 1 },
            SmoothedTile { x: 15, y: 1, texture_index: 14 },
            SmoothedTile { x: 0, y: 2, texture_index: 1 },
            SmoothedTile { x: 15, y: 2, texture_index: 14 },
        ]
    );
}
