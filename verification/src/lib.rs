//! Guillotine bin packing of axis-aligned rectangles, and the sprite atlas
//! that is built on it.
//!
//! Rectangles are placed one at a time into a binary partition tree whose
//! nodes live in an arena and are addressed by stable integer handles. The
//! atlas assembler orders named images by size, reserves a padded rectangle
//! for each in such a tree, and draws the images onto one canvas.
//!
//! - [`bounding_box`]: rectangles, their union and their ranking.
//! - [`arena`]: the append-only store behind the tree.
//! - [`partition`]: the tree as a mathematical object: nodes, the split rule,
//!   the invariant, the placement of choice.
//! - [`laws`]: what is proved of that object.
//! - [`tree2d`]: the tree itself.
//! - [`stable_sort`], [`name_order`]: the orders the assembler sorts by.
//! - [`packer`]: the layout of an atlas.
//! - [`canvas`], [`atlas`]: the pixels. `canvas` states what the `image`
//!   crate does and is believed; everything else is proved.

pub mod arena;
pub mod atlas;
pub mod bounding_box;
pub mod canvas;
pub mod laws;
pub mod name_order;
pub mod packer;
pub mod partition;
pub mod stable_sort;
pub mod tree2d;
