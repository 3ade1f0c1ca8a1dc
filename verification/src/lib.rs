//! Box layout engine for a retained scene graph of visual nodes.
//!
//! Each frame the engine computes the size and position of every node from
//! what the nodes declare: sizes, spacing, alignment, and a placement
//! strategy for each container. It works in two passes. The measurement
//! pass goes bottom-up and gives every node the size its content wants; a
//! cache lets it skip what did not change. The solve pass goes top-down and
//! gives every child its box within the size its parent has.
//!
//! Lengths are whole logical pixels held in `i64`; a share is given in
//! parts of ten thousand, a growth factor as a whole number. The host owns
//! the nodes and hands them in as a table, in which a node's handle is its
//! index; what the engine computes lies in tables beside it.
//!
//! - [`units`], [`geometry`], [`univis_node`], [`components`]: values and
//!   declarations.
//! - [`tree`], [`hierarchy`]: the node table and the depth pass.
//! - [`collections`], [`layout_cache`]: the dirty-tracking cache.
//! - [`pass_up`]: the measurement pass.
//! - [`sequence`], [`flex`], [`sizing`], [`solver`]: the solver of one
//!   container.
//! - [`bridge`], [`display`], [`grid`], [`masonry`], [`stack`], [`radial`]:
//!   the placement strategies.
//! - [`pass_down`], [`layout_system`]: the solve pass and the whole frame.

pub mod bridge;
pub mod collections;
pub mod components;
pub mod display;
pub mod flex;
pub mod geometry;
pub mod grid;
pub mod hierarchy;
pub mod layout_cache;
pub mod layout_system;
pub mod masonry;
pub mod pass_down;
pub mod pass_up;
pub mod radial;
pub mod sequence;
pub mod sizing;
pub mod solver;
pub mod stack;
pub mod tree;
pub mod units;
pub mod univis_node;
