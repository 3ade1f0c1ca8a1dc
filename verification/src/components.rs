//! The state the engine computes for each node.

use vstd::prelude::*;
use crate::units::is_length;

verus! {

/// Depth of a node in the tree: 0 for a root, 1 for its children, and so on.
#[derive(Clone, Copy, Debug, PartialEq, Eq, Structural)]
pub struct LayoutDepth(pub usize);

impl Default for LayoutDepth {
    fn default() -> (d: Self)
        ensures
            d.0 == 0,
    {
        LayoutDepth(0)
    }
}

/// The size a node wants from its content and children, before any
/// constraint is applied. Computed bottom-up.
#[derive(Clone, Copy, Debug, PartialEq, Eq, Structural)]
pub struct IntrinsicSize {
    pub width: i64,
    pub height: i64,
}

impl IntrinsicSize {
    /// Both components are lengths.
    pub open spec fn valid(&self) -> bool {
        is_length(self.width as int) && is_length(self.height as int)
    }
}

impl Default for IntrinsicSize {
    fn default() -> (s: Self)
        ensures
            s.width == 0,
            s.height == 0,
    {
        IntrinsicSize { width: 0, height: 0 }
    }
}

/// The greatest depth in the tree.
#[derive(Clone, Copy, Debug, PartialEq, Eq, Structural)]
pub struct LayoutTreeDepth {
    pub max_depth: usize,
}

impl Default for LayoutTreeDepth {
    fn default() -> (d: Self)
        ensures
            d.max_depth == 0,
    {
        LayoutTreeDepth { max_depth: 0 }
    }
}

} // verus!
