//! Concatenation of raster images into a single canvas.
//!
//! The heart of the crate is a layout planner and a buffer compositor:
//! given a sequence of images, it computes where each one goes (a vertical
//! stack, a horizontal strip, or a grid of columns) and copies the pixels
//! into one output buffer, with every placement proved against an exact
//! pixel-level specification.

use vstd::prelude::*;

pub mod columns;
pub mod compose;
pub mod img;
pub mod layout;
pub mod stack;

pub use columns::column_concat_images;
pub use compose::place_images_in_buffer;
pub use img::Image;
pub use img::Rgb;
pub use layout::get_concat_blits;
pub use layout::plan_columns;
pub use layout::ConcatDirection;
pub use layout::ImageBlit;
pub use stack::concat_images;

verus! {

/// Failures that the planning and compositing functions report.
#[derive(Clone, Copy, Debug, PartialEq, Eq, Structural)]
pub enum ConcatError {
    /// A caller-contract violation, such as asking for zero columns.
    InvalidArgument,
    /// A blit's destination rectangle does not fit inside the canvas.
    OutOfBounds,
}

} // verus!
