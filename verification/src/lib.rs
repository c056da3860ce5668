//! Integer core of a tile-based ray tracer: the packed pixel format, the frame
//! buffer, the tiling of the image and the tracking of tiles in flight, the
//! Perlin lattice permutations and the checker-board parity rule.

pub mod color;
pub mod random;
pub mod perlin;
pub mod frame_buffer;
pub mod tile_manager;
pub mod texture;
