//! What the renderer draws: instance data, line geometry and the buffers that hold them.
//!
//! Stars are drawn as additive billboards. Positions arrive as absolute galactic coordinates;
//! they are turned into unit directions relative to a floating origin every frame, so that
//! projection stays in a tiny, well-conditioned range regardless of galactic scale.
pub mod buffers;
pub mod camera;
pub mod colors;
pub mod frustum;
pub mod projection;
pub mod stars;
pub mod wire;
