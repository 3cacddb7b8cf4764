# world_generation

Chunked tile-world generation for a bevy game, with its bookkeeping verified by Verus.

The world is cut into chunks of 64 by 64 tiles. Each tile carries a four-bit index
telling which of its corners are filled; when a tile is generated, the eight tiles
around it take its bits on the sides they share with it. A chunk manager records
which chunks are cached and spawned and the data of every known tile.

Layout:

- `src/tiles.rs` — coordinates, neighbour positions across chunk borders, and the
  edge and corner rules for tile bits.
- `src/collections.rs`, `src/entities.rs` — bevy's hash set and hash map, and
  bevy's entity table, behind trusted wrappers with their contracts.
- `src/world_generation.rs` — the chunk manager: caching, spawning and despawning
  passes, and the neighbour update, with exact contracts.
- `src/smoothing.rs` — the smoothing pass over a 16 by 16 grid of tile indices.
- `src/laws.rs` — properties that hold across the operations.
- `app/` — the bevy plugin and systems: the noise-based terrain test and camera
  arithmetic in floating point, and the entity commands.
