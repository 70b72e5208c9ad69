//! Terrain generation by wave-function collapse over a square grid of tiles.
pub mod tile;
pub mod wave;
pub mod grid_proofs;
