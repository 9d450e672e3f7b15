//! Integer core of a tile-based ray tracer: how a frame is split into bands,
//! how traced colors are replicated into the full-resolution buffer, texel
//! lookup, cube face materials and the adaptive quality controller.
pub mod faces;
pub mod pixel;
pub mod quality;
pub mod skybox;
pub mod texture;
pub mod tiles;
