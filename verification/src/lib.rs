//! Chunked tile-world generation: chunk bookkeeping, neighbour-aware tile
//! bit indices and terrain smoothing, each function with a contract that states
//! what it returns or changes.
pub mod tiles;
pub mod collections;
pub mod entities;
pub mod world_generation;
pub mod smoothing;
pub mod laws;
