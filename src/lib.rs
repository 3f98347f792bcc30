//! The tiled scheduler and output path of a ray tracer: how a frame is cut into boxes, in which
//! order they are rendered, how rendered boxes are composited into the frame, and how the frame is
//! packed into pixels and PNG bytes.

pub mod frame;
pub mod image;
pub mod pixel;
pub mod tiles;

pub use pixel::color;
