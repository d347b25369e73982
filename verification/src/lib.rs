//! Texture-atlas construction library.
//!
//! The heart of the crate is the rectangle packer in [`packer`]: it places a
//! batch of axis-aligned rectangles into a canvas, keeping track of the free
//! space that remains, and can grow the canvas (doubling the smaller side)
//! when the batch does not fit.  The placement loop, the free-space
//! bookkeeping and the growth loop are verified: a successful pack yields
//! pairwise non-overlapping placements that lie within the canvas.
//!
//! The supporting modules hold the verified pieces of the surrounding
//! pipeline: alpha-bounds trimming of input images ([`inputimage`]),
//! compositing trimmed images into the atlas buffer ([`outputimage`]),
//! debug drawing into a pixel buffer ([`outputdebug`]), and image-file
//! classification by extension ([`parse_input_filenames`]).

pub mod inputimage;
pub mod outputdebug;
pub mod outputimage;
pub mod packer;
pub mod pixelbuf;
pub mod parse_input_filenames;
pub mod shapes;
