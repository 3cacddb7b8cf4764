//! Terrain smoothing over a 16 by 16 grid of tile indices: a tile whose
//! neighbours repeat another index often enough takes that index.
use vstd::prelude::*;

verus! {

/// The side of the smoothing grid.
pub const SMOOTH_GRID_SIZE: usize = 16;

/// The value that marks "no index chosen" in the smoothing pass.
pub const NO_TILE: u32 = 10000;

/// A tile whose texture index the smoothing pass changes.
#[derive(Clone, Copy, PartialEq, Eq, Structural, Debug)]
pub struct SmoothedTile {
    pub x: u32,
    pub y: u32,
    pub texture_index: u32,
}

/// The grid entry at outer index `i`, inner index `j`.
pub open spec fn grid_at(g: [[u32; 16]; 16], i: int, j: int) -> u32 {
    g@[i]@[j]
}

/// The scan around the tile at outer index `x`, inner index `y`, after the first
/// `p` of the nine places (rows of `dy` from -1 to 1, each with `dx` from -1 to 1):
/// the count of repeats, the previous differing index, and the index chosen so far.
/// A place outside the grid or equal to the tile's own index is passed over; an
/// index equal to the previous one counts as a repeat and, once the count reaches
/// `k`, is chosen; any other index becomes the previous one.
pub open spec fn smooth_scan(g: [[u32; 16]; 16], k: i8, x: int, y: int, p: nat) -> (int, u32, u32)
    decreases p,
{
    if p == 0 {
        (0, NO_TILE, NO_TILE)
    } else {
        let prev = smooth_scan(g, k, x, y, (p - 1) as nat);
        let dx = (p - 1) % 3 - 1;
        let dy = (p - 1) / 3 - 1;
        if 0 <= x + dx < 16 && 0 <= y + dy < 16 {
            let adj = grid_at(g, x + dx, y + dy);
            if adj == grid_at(g, x, y) {
                prev
            } else if adj == prev.1 {
                let c = prev.0 + 1;
                (c, prev.1, if c >= k { adj } else { prev.2 })
            } else {
                (prev.0, adj, prev.2)
            }
        } else {
            prev
        }
    }
}

/// The smoothed value of the tile at outer index `x`, inner index `y`: the chosen
/// index when the count of repeats reached `k`, else `NO_TILE`.
pub open spec fn smoothed_value(g: [[u32; 16]; 16], k: i8, x: int, y: int) -> u32 {
    let s = smooth_scan(g, k, x, y, 9);
    if s.0 >= k {
        s.2
    } else {
        NO_TILE
    }
}

/// The texture changes for the first `n` cells of the smoothed grid in row order
/// (`y` outer, `x` inner): each cell whose smoothed value is below 1000.
pub open spec fn smooth_updates(g: [[u32; 16]; 16], k: i8, n: nat) -> Seq<SmoothedTile>
    decreases n,
{
    if n == 0 {
        Seq::empty()
    } else {
        let prev = smooth_updates(g, k, (n - 1) as nat);
        let y = (n - 1) / 16;
        let x = (n - 1) % 16;
        let v = smoothed_value(g, k, x, y);
        if v < 1000 {
            prev.push(SmoothedTile { x: x as u32, y: y as u32, texture_index: v })
        } else {
            prev
        }
    }
}

/// The scan state never counts more repeats than places seen.
proof fn lemma_scan_count(g: [[u32; 16]; 16], k: i8, x: int, y: int, p: nat)
    ensures
        0 <= smooth_scan(g, k, x, y, p).0 <= p,
    decreases p,
{
    if p > 0 {
        lemma_scan_count(g, k, x, y, (p - 1) as nat);
    }
}

/// The smoothing pass over a 16 by 16 grid of tile indices: the result at
/// `[y][x]` is the smoothed value of the tile that `tile_index_grid[x][y]` holds.
pub fn smooth_terrain_grid(k: i8, tile_index_grid: &[[u32; 16]; 16]) -> (smooth_grid: [[u32; 16]; 16])
    ensures
        forall|x: int, y: int|
            0 <= x < 16 && 0 <= y < 16 ==> #[trigger] grid_at(smooth_grid, y, x) == smoothed_value(
                *tile_index_grid,
                k,
                x,
                y,
            ),
{
    let mut smooth_grid: [[u32; 16]; 16] = [[NO_TILE; 16]; 16];
    let mut y: i32 = 0;
    while y < 16
        invariant
            0 <= y <= 16,
            forall|xx: int, yy: int|
                0 <= xx < 16 && 0 <= yy < y ==> #[trigger] grid_at(smooth_grid, yy, xx) == smoothed_value(
                    *tile_index_grid,
                    k,
                    xx,
                    yy,
                ),
            forall|xx: int, yy: int|
                0 <= xx < 16 && y <= yy < 16 ==> #[trigger] grid_at(smooth_grid, yy, xx) == NO_TILE,
        decreases 16 - y,
    {
        let mut x: i32 = 0;
        while x < 16
            invariant
                0 <= y < 16,
                0 <= x <= 16,
                forall|xx: int, yy: int|
                    0 <= xx < 16 && 0 <= yy < y ==> #[trigger] grid_at(smooth_grid, yy, xx) == smoothed_value(
                        *tile_index_grid,
                        k,
                        xx,
                        yy,
                    ),
                forall|xx: int|
                    0 <= xx < x ==> #[trigger] grid_at(smooth_grid, y as int, xx) == smoothed_value(
                        *tile_index_grid,
                        k,
                        xx,
                        y as int,
                    ),
                forall|xx: int, yy: int|
                    0 <= xx < 16 && y <= yy < 16 && !(yy == y && xx < x) ==> #[trigger] grid_at(
                        smooth_grid,
                        yy,
                        xx,
                    ) == NO_TILE,
            decreases 16 - x,
        {
            let current_tile = tile_index_grid[x as usize][y as usize];
            let mut adjacent_count: i8 = 0;
            let mut previous_tile: u32 = NO_TILE;
            let mut smooth_tile: u32 = NO_TILE;
            let mut dy: i32 = -1;
            while dy <= 1
                invariant
                    0 <= x < 16,
                    0 <= y < 16,
                    -1 <= dy <= 2,
                    current_tile == grid_at(*tile_index_grid, x as int, y as int),
                    (adjacent_count as int, previous_tile, smooth_tile) == smooth_scan(
                        *tile_index_grid,
                        k,
                        x as int,
                        y as int,
                        ((dy + 1) * 3) as nat,
                    ),
                decreases 2 - dy,
            {
                let mut dx: i32 = -1;
                while dx <= 1
                    invariant
                        0 <= x < 16,
                        0 <= y < 16,
                        -1 <= dy <= 1,
                        -1 <= dx <= 2,
                        current_tile == grid_at(*tile_index_grid, x as int, y as int),
                        (adjacent_count as int, previous_tile, smooth_tile) == smooth_scan(
                            *tile_index_grid,
                            k,
                            x as int,
                            y as int,
                            ((dy + 1) * 3 + (dx + 1)) as nat,
                        ),
                    decreases 2 - dx,
                {
                    let ghost p: nat = ((dy + 1) * 3 + (dx + 1)) as nat;
                    proof {
                        lemma_scan_count(*tile_index_grid, k, x as int, y as int, p);
                        assert(p % 3 - 1 == dx);
                        assert(p / 3 - 1 == dy);
                    }
                    if x + dx >= 0 && x + dx < 16 && y + dy >= 0 && y + dy < 16 {
                        let adj_tile = tile_index_grid[(x + dx) as usize][(y + dy) as usize];
                        if adj_tile == current_tile {
                            dx = dx + 1;
                            continue;
                        }
                        if adj_tile == previous_tile {
                            adjacent_count = adjacent_count + 1;
                            if adjacent_count >= k {
                                smooth_tile = adj_tile;
                            }
                        } else {
                            previous_tile = adj_tile;
                        }
                    }
                    dx = dx + 1;
                }
                dy = dy + 1;
            }
            let ghost g0 = smooth_grid;
            if adjacent_count >= k {
                let mut row = smooth_grid[y as usize];
                row[x as usize] = smooth_tile;
                smooth_grid[y as usize] = row;
                proof {
                    assert(row@ == g0@[y as int]@.update(x as int, smooth_tile));
                    assert(smooth_grid@ == g0@.update(y as int, row));
                }
            }
            proof {
                assert forall|xx: int, yy: int|
                    0 <= xx < 16 && 0 <= yy < 16 && !(yy == y && xx == x) implies #[trigger] grid_at(
                    smooth_grid,
                    yy,
                    xx,
                ) == grid_at(g0, yy, xx) by {}
                assert(grid_at(smooth_grid, y as int, x as int) == smoothed_value(
                    *tile_index_grid,
                    k,
                    x as int,
                    y as int,
                ));
            }
            x = x + 1;
        }
        y = y + 1;
    }
    smooth_grid
}

/// The texture changes of the smoothing pass: the smoothed grid of
/// `smooth_terrain_grid`, walked row by row (`y` outer, `x` inner), gives a change at
/// `(x, y)` for every value below 1000.
pub fn smooth_terrain(k: i8, tile_index_grid: &[[u32; 16]; 16]) -> (updates: Vec<SmoothedTile>)
    ensures
        updates@ == smooth_updates(*tile_index_grid, k, 256),
{
    let smooth_grid = smooth_terrain_grid(k, tile_index_grid);
    let mut updates: Vec<SmoothedTile> = Vec::new();
    let mut y: usize = 0;
    while y < SMOOTH_GRID_SIZE
        invariant
            y <= 16,
            forall|x: int, yy: int|
                0 <= x < 16 && 0 <= yy < 16 ==> #[trigger] grid_at(smooth_grid, yy, x) == smoothed_value(
                    *tile_index_grid,
                    k,
                    x,
                    yy,
                ),
            updates@ == smooth_updates(*tile_index_grid, k, (y * 16) as nat),
        decreases 16 - y,
    {
        let mut x: usize = 0;
        while x < SMOOTH_GRID_SIZE
            invariant
                y < 16,
                x <= 16,
                forall|xx: int, yy: int|
                    0 <= xx < 16 && 0 <= yy < 16 ==> #[trigger] grid_at(smooth_grid, yy, xx) == smoothed_value(
                        *tile_index_grid,
                        k,
                        xx,
                        yy,
                    ),
                updates@ == smooth_updates(*tile_index_grid, k, (y * 16 + x) as nat),
            decreases 16 - x,
        {
            proof {
                let n = y * 16 + x;
                assert(n / 16 == y as int);
                assert(n % 16 == x as int);
                assert(grid_at(smooth_grid, y as int, x as int) == smoothed_value(
                    *tile_index_grid,
                    k,
                    x as int,
                    y as int,
                ));
            }
            let v = smooth_grid[y][x];
            if v < 1000 {
                updates.push(SmoothedTile { x: x as u32, y: y as u32, texture_index: v });
            }
            x = x + 1;
        }
        y = y + 1;
    }
    updates
}

} // verus!
