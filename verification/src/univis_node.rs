//! What a node declares: its sizing, its spacing, how it arranges its
//! children, and how it overrides its parent's arrangement.

use vstd::prelude::*;
use crate::geometry::{USides, UVal};

verus! {

/// The layout-relevant part of a node: declared size and spacing.
#[derive(Clone, Copy, Debug, PartialEq, Eq, Structural)]
pub struct UNode {
    /// Preferred width.
    pub width: UVal,
    /// Preferred height.
    pub height: UVal,
    /// Inner spacing, between the node's edge and its children.
    pub padding: USides,
    /// Outer spacing, between the node and its siblings.
    pub margin: USides,
}

impl UNode {
    /// Sizes and spacing all lie in the accepted range.
    pub open spec fn valid(&self) -> bool {
        &&& self.width.valid_size()
        &&& self.height.valid_size()
        &&& self.padding.valid()
        &&& self.margin.valid()
    }
}

impl UNode {
    /// Whether sizes and spacing all lie in the accepted range.
    pub fn is_valid(&self) -> (ok: bool)
        ensures
            ok == self.valid(),
    {
        self.width.is_valid_size() && self.height.is_valid_size() && self.padding.is_valid()
            && self.margin.is_valid()
    }
}

impl Default for UNode {
    fn default() -> (n: Self)
        ensures
            n.width == UVal::Content,
            n.height == UVal::Content,
            n.padding == USides::zero(),
            n.margin == USides::zero(),
            n.valid(),
    {
        UNode {
            width: UVal::Content,
            height: UVal::Content,
            padding: USides::all(0),
            margin: USides::all(0),
        }
    }
}

/// How a container arranges its in-flow children.
#[derive(Clone, Copy, Debug, PartialEq, Eq, Structural)]
pub struct ULayout {
    /// The placement strategy.
    pub display: UDisplay,
    /// Direction of the main axis.
    pub flex_direction: UFlexDirection,
    /// Distribution of free space along the main axis.
    pub justify_content: UJustifyContent,
    /// Alignment of items along the cross axis.
    pub align_items: UAlignItems,
    /// Space between neighbouring items.
    pub gap: i64,
    /// Number of columns, for the grid and masonry strategies.
    pub grid_columns: u32,
}

impl ULayout {
    /// The gap is a length in the accepted range.
    pub open spec fn valid(&self) -> bool {
        0 <= self.gap <= crate::units::MAX_LENGTH
    }

    /// Whether the gap is a length in the accepted range.
    pub fn is_valid(&self) -> (ok: bool)
        ensures
            ok == self.valid(),
    {
        crate::units::length_ok(self.gap)
    }
}

impl Default for ULayout {
    fn default() -> (l: Self)
        ensures
            l.display == UDisplay::Flex,
            l.flex_direction == UFlexDirection::Row,
            l.justify_content == UJustifyContent::Start,
            l.align_items == UAlignItems::Start,
            l.gap == 0,
            l.grid_columns == 1,
    {
        ULayout {
            display: UDisplay::Flex,
            flex_direction: UFlexDirection::Row,
            justify_content: UJustifyContent::Start,
            align_items: UAlignItems::Start,
            gap: 0,
            grid_columns: 1,
        }
    }
}

/// Three-way alignment.
#[derive(Clone, Copy, Debug, PartialEq, Eq, Structural)]
pub enum LayoutAlign {
    Start,
    Center,
    End,
}

/// How items are aligned on the cross axis.
#[derive(Clone, Copy, Debug, PartialEq, Eq, Structural)]
pub enum UAlignItems {
    Auto,
    /// As if no alignment was applied.
    Default,
    /// Towards the start of the axis.
    Start,
    /// Towards the end of the axis.
    End,
    /// Towards the start of the axis.
    FlexStart,
    /// Towards the end of the axis.
    FlexEnd,
    /// Along the centre of the axis.
    Center,
    /// On their baselines.
    Baseline,
    /// Stretched to fill the space they are given.
    Stretch,
}

/// Direction of the main axis.
#[derive(Clone, Copy, Debug, PartialEq, Eq, Structural)]
pub enum UFlexDirection {
    Row,
    Column,
    RowReverse,
    ColumnReverse,
}

/// Distribution of free space along the main axis.
#[derive(Clone, Copy, Debug, PartialEq, Eq, Structural)]
pub enum UJustifyContent {
    Start,
    Center,
    End,
    SpaceBetween,
    Stretch,
    SpaceAround,
    SpaceEvenly,
}

impl Default for UJustifyContent {
    fn default() -> (j: Self)
        ensures
            j == UJustifyContent::Start,
    {
        UJustifyContent::Start
    }
}

/// The placement strategies a container may declare.
#[derive(Clone, Copy, Debug, PartialEq, Eq, Structural)]
pub enum UDisplay {
    Flex,
    Grid,
    Stack,
    Radial,
    Masonry,
    /// No strategy of its own.
    Hidden,
}

/// What a child overrides: its own alignment, and whether and where it
/// leaves the flow.
#[derive(Clone, Copy, Debug, PartialEq, Eq, Structural)]
pub struct USelf {
    /// Alignment that replaces the parent's `align_items` for this child.
    pub align_self: UAlignSelf,
    pub left: UVal,
    pub top: UVal,
    pub bottom: UVal,
    pub right: UVal,
    /// Placement order among siblings; ties keep insertion order.
    pub order: i32,
    pub position_type: UPositionType,
}

impl USelf {
    /// The four offsets are acceptable.
    pub open spec fn valid(&self) -> bool {
        &&& self.left.valid_offset()
        &&& self.right.valid_offset()
        &&& self.top.valid_offset()
        &&& self.bottom.valid_offset()
    }

    /// Whether the four offsets are acceptable.
    pub fn is_valid(&self) -> (ok: bool)
        ensures
            ok == self.valid(),
    {
        self.left.is_valid_offset() && self.right.is_valid_offset() && self.top.is_valid_offset()
            && self.bottom.is_valid_offset()
    }

    /// The left offset where it is given in pixels, else zero.
    pub fn get_val(&self) -> (v: i64)
        ensures
            v == (match self.left {
                UVal::Px(p) => p,
                _ => 0,
            }),
    {
        match self.left {
            UVal::Px(p) => p,
            _ => 0,
        }
    }
}

impl Default for USelf {
    fn default() -> (s: Self)
        ensures
            s.align_self == UAlignSelf::Auto,
            s.left == UVal::Auto,
            s.top == UVal::Auto,
            s.bottom == UVal::Auto,
            s.right == UVal::Auto,
            s.order == 0,
            s.position_type == UPositionType::Relative,
            s.valid(),
    {
        USelf {
            align_self: UAlignSelf::Auto,
            left: UVal::Auto,
            top: UVal::Auto,
            bottom: UVal::Auto,
            right: UVal::Auto,
            order: 0,
            position_type: UPositionType::Relative,
        }
    }
}

/// A child's own cross-axis alignment.
#[derive(Clone, Copy, Debug, PartialEq, Eq, Structural)]
pub enum UAlignSelf {
    /// Take the parent's `align_items`.
    Auto,
    Start,
    Center,
    End,
    Stretch,
}

/// Anchors given as plain offsets.
#[derive(Clone, Copy, Debug, PartialEq, Eq, Structural)]
pub struct UPosition {
    pub top: Option<i64>,
    pub right: Option<i64>,
    pub bottom: Option<i64>,
    pub left: Option<i64>,
}

/// Whether a node takes part in its parent's flow.
#[derive(Clone, Copy, Debug, PartialEq, Eq, Structural)]
pub enum UPositionType {
    /// In flow.
    Relative,
    /// Out of flow, anchored by offsets.
    Absolute,
}

} // verus!
