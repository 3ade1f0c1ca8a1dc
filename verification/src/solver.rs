//! The box-constraint solver: sizes and positions for the children of one
//! container.

use vstd::prelude::*;
use crate::bridge::{
    final_size_with_indices, placement_ready, strategy_accepts, strategy_placed, strategy_used,
};
use crate::display::cross_span_max;
use crate::geometry::{scale_percent, AxisHelper, BoxConstraints, USides, UVal};
use crate::radial::valid_spoke;
use crate::sequence::{
    distinct_indices, flow_order, gather, gathered, in_flow, in_flow_order, lemma_flow_order,
    lemma_flow_order_distinct, scatter, unnamed,
};
use crate::sizing::{cross_sized_item, main_sized_item, main_used, size_cross_axis, size_main_axis};
use crate::units::{
    clamp_i64, clamped, is_length, max_i64, max_of, percent_of, Vec2i, MAX_ITEMS, MAX_LENGTH,
    PERCENT_WHOLE,
};
use crate::univis_node::{
    UAlignItems, UAlignSelf, UDisplay, UJustifyContent, ULayout, UNode, UPositionType, USelf,
};

verus! {

/// No position lies further than this from the origin of its container.
pub const REACH: i64 = 1_152_921_504_606_846_976;

/// The sizing mode of one axis, as the solver reads it.
#[derive(Clone, Copy, Debug, PartialEq, Eq, Structural)]
pub enum SolverSizeMode {
    Fixed,
    Percent,
    Content,
    Flex,
    Auto,
}

impl Default for SolverSizeMode {
    fn default() -> (m: Self)
        ensures
            m == SolverSizeMode::Fixed,
    {
        SolverSizeMode::Fixed
    }
}

/// What the solver needs to know of one child.
#[derive(Clone, Copy, Debug, PartialEq, Eq, Structural)]
pub struct SolverSpec {
    pub width_mode: SolverSizeMode,
    /// Pixels for `Fixed`, `Content` and `Auto`; a share for `Percent`.
    pub width_val: i64,
    pub width_flex: u32,
    pub height_mode: SolverSizeMode,
    pub height_val: i64,
    pub height_flex: u32,
    pub position_type: UPositionType,
    pub left: UVal,
    pub right: UVal,
    pub top: UVal,
    pub bottom: UVal,
    pub align_self: Option<UAlignSelf>,
    pub order: i32,
}

/// Whether `val` is acceptable under `mode`.
pub open spec fn valid_dimension(mode: SolverSizeMode, val: i64) -> bool {
    if mode is Percent {
        0 <= val <= PERCENT_WHOLE
    } else {
        is_length(val as int)
    }
}

fn dimension_ok(mode: SolverSizeMode, val: i64) -> (ok: bool)
    ensures
        ok == valid_dimension(mode, val),
{
    match mode {
        SolverSizeMode::Percent => 0 <= val && val <= PERCENT_WHOLE,
        _ => crate::units::length_ok(val),
    }
}

impl SolverSpec {
    /// Values and offsets are acceptable under their modes.
    pub open spec fn valid(&self) -> bool {
        &&& valid_dimension(self.width_mode, self.width_val)
        &&& valid_dimension(self.height_mode, self.height_val)
        &&& self.left.valid_offset()
        &&& self.right.valid_offset()
        &&& self.top.valid_offset()
        &&& self.bottom.valid_offset()
    }

    /// Whether values and offsets are acceptable under their modes.
    pub fn is_valid(&self) -> (ok: bool)
        ensures
            ok == self.valid(),
    {
        dimension_ok(self.width_mode, self.width_val) && dimension_ok(
            self.height_mode,
            self.height_val,
        ) && self.left.is_valid_offset() && self.right.is_valid_offset()
            && self.top.is_valid_offset() && self.bottom.is_valid_offset()
    }
}

/// Where the solver put one child.
#[derive(Clone, Copy, Debug, PartialEq, Eq, Structural)]
pub struct SolverResult {
    pub size: Vec2i,
    pub pos: Vec2i,
}

impl Default for SolverResult {
    fn default() -> (r: Self)
        ensures
            r == (SolverResult { size: Vec2i { x: 0, y: 0 }, pos: Vec2i { x: 0, y: 0 } }),
    {
        SolverResult { size: Vec2i::zero(), pos: Vec2i::zero() }
    }
}

/// One child on its way through the solver.
#[derive(Clone, Copy, Debug, PartialEq, Eq, Structural)]
pub struct SolverItem {
    pub spec: SolverSpec,
    pub result: SolverResult,
    pub margin: USides,
}

impl SolverItem {
    /// Declaration and margin are valid.
    pub open spec fn valid(&self) -> bool {
        self.spec.valid() && self.margin.valid()
    }

    /// Whether declaration and margin are valid.
    pub fn is_valid(&self) -> (ok: bool)
        ensures
            ok == self.valid(),
    {
        self.spec.is_valid() && self.margin.is_valid()
    }

    /// Within the ranges placement works in: valid margins, a size of two
    /// lengths, and a position within `REACH` of the origin.
    pub open spec fn sized(&self) -> bool {
        &&& self.margin.valid()
        &&& is_length(self.result.size.x as int)
        &&& is_length(self.result.size.y as int)
        &&& -REACH <= self.result.pos.x <= REACH
        &&& -REACH <= self.result.pos.y <= REACH
    }

    /// The item at another position.
    pub open spec fn moved_to(&self, pos: Vec2i) -> SolverItem {
        SolverItem {
            spec: self.spec,
            result: SolverResult { size: self.result.size, pos },
            margin: self.margin,
        }
    }

    /// The item with another size and at another position.
    pub open spec fn boxed(&self, size: Vec2i, pos: Vec2i) -> SolverItem {
        SolverItem { spec: self.spec, result: SolverResult { size, pos }, margin: self.margin }
    }
}

/// The container as the solver reads it.
#[derive(Clone, Copy, Debug)]
pub struct SolverConfig<'a> {
    pub layout: ULayout,
    pub gap: i64,
    pub padding: USides,
    pub grid_columns: u32,
    pub width_mode: SolverSizeMode,
    pub height_mode: SolverSizeMode,
    /// Directions for the radial strategy, one for each in-flow child.
    pub spokes: &'a Vec<Vec2i>,
}

impl<'a> SolverConfig<'a> {
    /// Gap and padding are lengths, and every direction is valid.
    pub open spec fn valid(&self) -> bool {
        &&& is_length(self.gap as int)
        &&& self.padding.valid()
        &&& forall|i: int| 0 <= i < self.spokes@.len() ==> valid_spoke(#[trigger] self.spokes@[i])
    }

    /// Whether gap and padding are lengths and every direction is valid.
    pub fn is_valid(&self) -> (ok: bool)
        ensures
            ok == self.valid(),
    {
        crate::units::length_ok(self.gap) && self.padding.is_valid() && crate::radial::spokes_ok(
            self.spokes,
        )
    }
}

/// What a placement strategy knows of the container.
#[derive(Clone, Copy, Debug, PartialEq, Eq, Structural)]
pub struct PlacementContext {
    pub container_main_size: i64,
    pub container_cross_size: i64,
    pub padding_main_start: i64,
    pub padding_main_end: i64,
    pub padding_cross_start: i64,
    pub padding_cross_end: i64,
    pub gap: i64,
    pub justify_content: UJustifyContent,
    pub align_items: UAlignItems,
}

impl PlacementContext {
    /// Sizes, paddings and gap are lengths.
    pub open spec fn valid(&self) -> bool {
        &&& is_length(self.container_main_size as int)
        &&& is_length(self.container_cross_size as int)
        &&& is_length(self.padding_main_start as int)
        &&& is_length(self.padding_main_end as int)
        &&& is_length(self.padding_cross_start as int)
        &&& is_length(self.padding_cross_end as int)
        &&& is_length(self.gap as int)
    }
}

/// Mode, value and growth factor of a declared dimension. A content-sized
/// dimension gets its value later, from the measured intrinsic size.
pub open spec fn dimension_of(dim: UVal) -> (SolverSizeMode, i64, u32) {
    match dim {
        UVal::Px(v) => (SolverSizeMode::Fixed, v, 0u32),
        UVal::Percent(p) => (SolverSizeMode::Percent, p, 0u32),
        UVal::Flex(f) => (SolverSizeMode::Flex, 0i64, f),
        UVal::Content => (SolverSizeMode::Content, 0i64, 0u32),
        UVal::Auto => (SolverSizeMode::Content, 0i64, 0u32),
    }
}

/// What the solver reads of a node and its overrides. Without overrides the
/// node is in flow, has no offsets, takes the container's alignment and has
/// order zero.
pub open spec fn translated_spec(node: UNode, uself: Option<USelf>) -> SolverSpec {
    let w = dimension_of(node.width);
    let h = dimension_of(node.height);
    match uself {
        Some(u) => SolverSpec {
            width_mode: w.0,
            width_val: w.1,
            width_flex: w.2,
            height_mode: h.0,
            height_val: h.1,
            height_flex: h.2,
            position_type: u.position_type,
            left: u.left,
            right: u.right,
            top: u.top,
            bottom: u.bottom,
            align_self: if u.align_self is Auto {
                None
            } else {
                Some(u.align_self)
            },
            order: u.order,
        },
        None => SolverSpec {
            width_mode: w.0,
            width_val: w.1,
            width_flex: w.2,
            height_mode: h.0,
            height_val: h.1,
            height_flex: h.2,
            position_type: UPositionType::Relative,
            left: UVal::Auto,
            right: UVal::Auto,
            top: UVal::Auto,
            bottom: UVal::Auto,
            align_self: None,
            order: 0,
        },
    }
}

fn map_dim(dim: UVal) -> (r: (SolverSizeMode, i64, u32))
    ensures
        r == dimension_of(dim),
{
    match dim {
        UVal::Px(v) => (SolverSizeMode::Fixed, v, 0),
        UVal::Percent(p) => (SolverSizeMode::Percent, p, 0),
        UVal::Flex(f) => (SolverSizeMode::Flex, 0, f),
        UVal::Content => (SolverSizeMode::Content, 0, 0),
        UVal::Auto => (SolverSizeMode::Content, 0, 0),
    }
}

/// Reads a node and its optional overrides into the solver's form.
pub fn translate_spec(node: &UNode, uself: Option<&USelf>) -> (s: SolverSpec)
    ensures
        s == translated_spec(
            *node,
            match uself {
                Some(u) => Some(*u),
                None => None,
            },
        ),
        node.valid() && (uself is Some ==> uself->0.valid()) ==> s.valid(),
{
    let (w_mode, w_val, w_flex) = map_dim(node.width);
    let (h_mode, h_val, h_flex) = map_dim(node.height);
    match uself {
        Some(u) => SolverSpec {
            width_mode: w_mode,
            width_val: w_val,
            width_flex: w_flex,
            height_mode: h_mode,
            height_val: h_val,
            height_flex: h_flex,
            position_type: u.position_type,
            left: u.left,
            right: u.right,
            top: u.top,
            bottom: u.bottom,
            align_self: match u.align_self {
                UAlignSelf::Auto => None,
                other => Some(other),
            },
            order: u.order,
        },
        None => SolverSpec {
            width_mode: w_mode,
            width_val: w_val,
            width_flex: w_flex,
            height_mode: h_mode,
            height_val: h_val,
            height_flex: h_flex,
            position_type: UPositionType::Relative,
            left: UVal::Auto,
            right: UVal::Auto,
            top: UVal::Auto,
            bottom: UVal::Auto,
            align_self: None,
            order: 0,
        },
    }
}

/// Extent of an out-of-flow box along one axis. With both anchors given the
/// box fills what the anchors and margins leave of the container; otherwise
/// it has its declared size.
pub open spec fn absolute_extent(
    container: int,
    lead: UVal,
    trail: UVal,
    mode: SolverSizeMode,
    val: int,
    intrinsic: int,
    margin_lead: int,
    margin_trail: int,
) -> int {
    if lead.is_definite() && trail.is_definite() {
        max_of(
            container - lead.resolved_or_zero(container) - trail.resolved_or_zero(container)
                - margin_lead - margin_trail,
            0,
        )
    } else {
        match mode {
            SolverSizeMode::Fixed => val,
            SolverSizeMode::Percent => percent_of(val, container),
            _ => intrinsic,
        }
    }
}

/// Origin of an out-of-flow box along one axis: from the leading anchor
/// where it is given, else back from the trailing one, else at the margin.
pub open spec fn absolute_origin(
    container: int,
    lead: UVal,
    trail: UVal,
    extent: int,
    margin_lead: int,
    margin_trail: int,
) -> int {
    if lead.is_definite() {
        lead.resolved_or_zero(container) + margin_lead
    } else if trail.is_definite() {
        container - trail.resolved_or_zero(container) - extent - margin_trail
    } else {
        margin_lead
    }
}

/// The content size an out-of-flow child brings: its value on the axes that
/// are content-sized, zero on the others.
pub open spec fn absolute_intrinsic(spec: SolverSpec) -> Vec2i {
    Vec2i {
        x: if spec.width_mode is Content {
            spec.width_val
        } else {
            0
        },
        y: if spec.height_mode is Content {
            spec.height_val
        } else {
            0
        },
    }
}

/// Size and position of an out-of-flow box in a container of the given size.
pub open spec fn absolute_box(
    container: Vec2i,
    spec: SolverSpec,
    margin: USides,
    intrinsic: Vec2i,
) -> SolverResult {
    let w = absolute_extent(
        container.x as int,
        spec.left,
        spec.right,
        spec.width_mode,
        spec.width_val as int,
        intrinsic.x as int,
        margin.left as int,
        margin.right as int,
    );
    let h = absolute_extent(
        container.y as int,
        spec.top,
        spec.bottom,
        spec.height_mode,
        spec.height_val as int,
        intrinsic.y as int,
        margin.top as int,
        margin.bottom as int,
    );
    SolverResult {
        size: Vec2i { x: w as i64, y: h as i64 },
        pos: Vec2i {
            x: absolute_origin(
                container.x as int,
                spec.left,
                spec.right,
                w,
                margin.left as int,
                margin.right as int,
            ) as i64,
            y: absolute_origin(
                container.y as int,
                spec.top,
                spec.bottom,
                h,
                margin.top as int,
                margin.bottom as int,
            ) as i64,
        },
    }
}

fn solve_absolute_axis(
    container: i64,
    lead: UVal,
    trail: UVal,
    mode: SolverSizeMode,
    val: i64,
    intrinsic: i64,
    margin_lead: i64,
    margin_trail: i64,
) -> (r: (i64, i64))
    requires
        is_length(container as int),
        lead.valid_offset(),
        trail.valid_offset(),
        valid_dimension(mode, val),
        is_length(intrinsic as int),
        is_length(margin_lead as int),
        is_length(margin_trail as int),
    ensures
        r.0 == absolute_extent(
            container as int,
            lead,
            trail,
            mode,
            val as int,
            intrinsic as int,
            margin_lead as int,
            margin_trail as int,
        ),
        r.1 == absolute_origin(
            container as int,
            lead,
            trail,
            r.0 as int,
            margin_lead as int,
            margin_trail as int,
        ),
        0 <= r.0 <= 3 * MAX_LENGTH,
        -5 * MAX_LENGTH <= r.1 <= 5 * MAX_LENGTH,
{
    let lead_at = lead.resolve(container);
    let trail_at = trail.resolve(container);
    let extent = match (lead_at, trail_at) {
        (Some(l), Some(t)) => max_i64(container - l - t - margin_lead - margin_trail, 0),
        _ => match mode {
            SolverSizeMode::Fixed => val,
            SolverSizeMode::Percent => scale_percent(val, container),
            _ => intrinsic,
        },
    };
    let origin = match lead_at {
        Some(l) => l + margin_lead,
        None => match trail_at {
            Some(t) => container - t - extent - margin_trail,
            None => margin_lead,
        },
    };
    (extent, origin)
}

/// Resolves one out-of-flow child against the final size of its container.
/// Returns its size and its position.
pub fn solve_absolute_box(
    container_size: Vec2i,
    spec: &SolverSpec,
    margin: USides,
    intrinsic_size: Vec2i,
) -> (r: (Vec2i, Vec2i))
    requires
        is_length(container_size.x as int),
        is_length(container_size.y as int),
        spec.valid(),
        margin.valid(),
        is_length(intrinsic_size.x as int),
        is_length(intrinsic_size.y as int),
    ensures
        r.0 == absolute_box(container_size, *spec, margin, intrinsic_size).size,
        r.1 == absolute_box(container_size, *spec, margin, intrinsic_size).pos,
        0 <= r.0.x <= 3 * MAX_LENGTH,
        0 <= r.0.y <= 3 * MAX_LENGTH,
{
    let (width, x) = solve_absolute_axis(
        container_size.x,
        spec.left,
        spec.right,
        spec.width_mode,
        spec.width_val,
        intrinsic_size.x,
        margin.left,
        margin.right,
    );
    let (height, y) = solve_absolute_axis(
        container_size.y,
        spec.top,
        spec.bottom,
        spec.height_mode,
        spec.height_val,
        intrinsic_size.y,
        margin.top,
        margin.bottom,
    );
    (Vec2i::new(width, height), Vec2i::new(x, y))
}

/// A valid offset resolves to at most `MAX_LENGTH` either way.
pub proof fn lemma_offset_bounds(offset: UVal, base: int)
    requires
        offset.valid_offset(),
        is_length(base),
    ensures
        -MAX_LENGTH <= offset.resolved_or_zero(base) <= MAX_LENGTH,
{
    if let UVal::Percent(p) = offset {
        crate::geometry::lemma_percent_bounds(p as int, base);
    }
}

/// With both horizontal anchors given, and room left between them, the box
/// is exactly as wide as the container less both anchors and both margins.
pub proof fn lemma_absolute_stretch_exact(
    container: Vec2i,
    spec: SolverSpec,
    margin: USides,
    intrinsic: Vec2i,
)
    requires
        is_length(container.x as int),
        spec.valid(),
        margin.valid(),
        spec.left.is_definite(),
        spec.right.is_definite(),
        container.x - spec.left.resolved_or_zero(container.x as int)
            - spec.right.resolved_or_zero(container.x as int) - margin.left - margin.right >= 0,
    ensures
        absolute_box(container, spec, margin, intrinsic).size.x == container.x
            - spec.left.resolved_or_zero(container.x as int) - spec.right.resolved_or_zero(
            container.x as int,
        ) - margin.left - margin.right,
{
    lemma_offset_bounds(spec.left, container.x as int);
    lemma_offset_bounds(spec.right, container.x as int);
}

/// The same along the vertical axis, for the top and bottom anchors.
pub proof fn lemma_absolute_stretch_exact_vertical(
    container: Vec2i,
    spec: SolverSpec,
    margin: USides,
    intrinsic: Vec2i,
)
    requires
        is_length(container.y as int),
        spec.valid(),
        margin.valid(),
        spec.top.is_definite(),
        spec.bottom.is_definite(),
        container.y - spec.top.resolved_or_zero(container.y as int)
            - spec.bottom.resolved_or_zero(container.y as int) - margin.top - margin.bottom >= 0,
    ensures
        absolute_box(container, spec, margin, intrinsic).size.y == container.y
            - spec.top.resolved_or_zero(container.y as int) - spec.bottom.resolved_or_zero(
            container.y as int,
        ) - margin.top - margin.bottom,
{
    lemma_offset_bounds(spec.top, container.y as int);
    lemma_offset_bounds(spec.bottom, container.y as int);
}

/// The items with their results reset: what the solver starts from.
pub open spec fn blank(items: Seq<SolverItem>) -> Seq<SolverItem> {
    Seq::new(
        items.len(),
        |i: int|
            SolverItem {
                spec: items[i].spec,
                result: SolverResult { size: Vec2i { x: 0, y: 0 }, pos: Vec2i { x: 0, y: 0 } },
                margin: items[i].margin,
            },
    )
}

/// The in-flow children in placement order, by their index.
pub open spec fn placement_order(items: Seq<SolverItem>) -> Seq<usize> {
    flow_order(blank(items))
}

/// What the solver works on: a valid container, valid bounds, valid items,
/// no more of them than `MAX_ITEMS`, and for a radial container a
/// direction for each in-flow child.
pub open spec fn solve_ready(
    config: &SolverConfig,
    constraints: BoxConstraints,
    items: Seq<SolverItem>,
) -> bool {
    &&& config.valid()
    &&& constraints.valid()
    &&& items.len() <= MAX_ITEMS
    &&& forall|i: int| 0 <= i < items.len() ==> (#[trigger] items[i]).valid()
    &&& config.layout.display is Radial ==> config.spokes@.len() >= placement_order(items).len()
}

/// Whether the solver can work on the container, the bounds and the
/// children.
pub fn is_solve_ready(
    config: &SolverConfig,
    constraints: BoxConstraints,
    items: &Vec<SolverItem>,
) -> (ok: bool)
    ensures
        ok == solve_ready(config, constraints, items@),
{
    if !config.is_valid() || !constraints.is_valid() || items.len() > MAX_ITEMS {
        return false;
    }
    let mut i: usize = 0;
    while i < items.len()
        invariant
            i <= items@.len(),
            forall|j: int| 0 <= j < i ==> (#[trigger] items@[j]).valid(),
        decreases items@.len() - i,
    {
        if !items[i].is_valid() {
            return false;
        }
        i = i + 1;
    }
    match config.layout.display {
        UDisplay::Radial => {
            let order = in_flow_order(items);
            proof {
                crate::sequence::lemma_order_alike(items@, blank(items@), items@.len() as int);
            }
            config.spokes.len() >= order.len()
        },
        _ => true,
    }
}

/// The axis helper of the container's flow direction.
pub open spec fn axis_of(config: &SolverConfig) -> AxisHelper {
    AxisHelper { axis: config.layout.flex_direction }
}

/// Main-axis space inside the padding, at the largest allowed size.
pub open spec fn available_main(config: &SolverConfig, constraints: BoxConstraints) -> int {
    let axis = axis_of(config);
    max_of(
        constraints.max_main(&axis) - (axis.main_start(config.padding) + axis.main_end(
            config.padding,
        )),
        0,
    )
}

/// Cross-axis space inside the padding, at the largest allowed size.
pub open spec fn available_cross(config: &SolverConfig, constraints: BoxConstraints) -> int {
    let axis = axis_of(config);
    max_of(
        constraints.max_cross(&axis) - (axis.cross_start(config.padding) + axis.cross_end(
            config.padding,
        )),
        0,
    )
}

/// The in-flow children in placement order, before they are sized.
pub open spec fn unsized_flow(items: Seq<SolverItem>) -> Seq<SolverItem> {
    gathered(blank(items), placement_order(items))
}

/// The in-flow children in placement order, each with its size.
pub open spec fn sized_flow(
    config: &SolverConfig,
    constraints: BoxConstraints,
    items: Seq<SolverItem>,
) -> Seq<SolverItem> {
    let axis = axis_of(config);
    let flow = unsized_flow(items);
    Seq::new(
        flow.len(),
        |k: int|
            cross_sized_item(
                &axis,
                main_sized_item(
                    &axis,
                    flow,
                    available_main(config, constraints),
                    config.gap as int,
                    k,
                ),
                available_cross(config, constraints),
                config.layout.align_items,
            ),
    )
}

/// What the placement strategy is told of the container. The container's
/// tentative size is what its children and padding take, within the bounds.
pub open spec fn placement_context(
    config: &SolverConfig,
    constraints: BoxConstraints,
    items: Seq<SolverItem>,
) -> PlacementContext {
    let axis = axis_of(config);
    let sized = sized_flow(config, constraints, items);
    PlacementContext {
        container_main_size: clamped(
            main_used(
                &axis,
                unsized_flow(items),
                available_main(config, constraints),
                config.gap as int,
            ) + axis.main_start(config.padding) + axis.main_end(config.padding),
            constraints.min_main(&axis) as int,
            constraints.max_main(&axis) as int,
        ) as i64,
        container_cross_size: clamped(
            cross_span_max(&axis, sized, sized.len() as int) + axis.cross_start(config.padding)
                + axis.cross_end(config.padding),
            constraints.min_cross(&axis) as int,
            constraints.max_cross(&axis) as int,
        ) as i64,
        padding_main_start: axis.main_start(config.padding),
        padding_main_end: axis.main_end(config.padding),
        padding_cross_start: axis.cross_start(config.padding),
        padding_cross_end: axis.cross_end(config.padding),
        gap: config.gap,
        justify_content: config.layout.justify_content,
        align_items: config.layout.align_items,
    }
}

/// The in-flow children as the placement strategy leaves them.
pub open spec fn placed_flow(
    config: &SolverConfig,
    constraints: BoxConstraints,
    items: Seq<SolverItem>,
) -> Seq<SolverItem> {
    strategy_placed(
        config.layout,
        config.spokes,
        sized_flow(config, constraints, items),
        &axis_of(config),
        &placement_context(config, constraints, items),
    )
}

/// Whether a container takes its size on an axis from its content.
pub open spec fn content_sized(mode: SolverSizeMode) -> bool {
    mode is Content || mode is Auto
}

/// The container's final size, from its tentative size and the size the
/// placement strategy used. On an axis on which the container is
/// content-sized, the used size counts, within the bounds; on the others
/// the tentative size.
pub open spec fn final_size_of(
    config: &SolverConfig,
    constraints: BoxConstraints,
    ctx: &PlacementContext,
    used: Vec2i,
) -> Vec2i {
    let axis = axis_of(config);
    let tentative = axis.world(ctx.container_main_size, ctx.container_cross_size);
    let placed_size = axis.world(used.x, used.y);
    Vec2i {
        x: if content_sized(config.width_mode) {
            clamped(
                placed_size.x as int,
                constraints.min_width as int,
                constraints.max_width as int,
            ) as i64
        } else {
            tentative.x
        },
        y: if content_sized(config.height_mode) {
            clamped(
                placed_size.y as int,
                constraints.min_height as int,
                constraints.max_height as int,
            ) as i64
        } else {
            tentative.y
        },
    }
}

/// The container's final size.
pub open spec fn solved_size(
    config: &SolverConfig,
    constraints: BoxConstraints,
    items: Seq<SolverItem>,
) -> Vec2i {
    final_size_of(
        config,
        constraints,
        &placement_context(config, constraints, items),
        strategy_used(
            config.layout,
            config.spokes,
            sized_flow(config, constraints, items),
            &axis_of(config),
            &placement_context(config, constraints, items),
        ),
    )
}

/// An in-flow item moved by its own offsets: left less right along the
/// main axis, top less bottom along the cross axis, each resolved against
/// the container's final extent on that axis.
pub open spec fn offset_item(axis: &AxisHelper, item: SolverItem, size: Vec2i) -> SolverItem {
    let main = axis.main_of(size) as int;
    let cross = axis.cross_of(size) as int;
    item.moved_to(
        axis.world(
            (axis.main_of(item.result.pos) + item.spec.left.resolved_or_zero(main)
                - item.spec.right.resolved_or_zero(main)) as i64,
            (axis.cross_of(item.result.pos) + item.spec.top.resolved_or_zero(cross)
                - item.spec.bottom.resolved_or_zero(cross)) as i64,
        ),
    )
}

/// The in-flow children in placement order, as the solver leaves them.
pub open spec fn solved_flow(
    config: &SolverConfig,
    constraints: BoxConstraints,
    items: Seq<SolverItem>,
) -> Seq<SolverItem> {
    let placed = placed_flow(config, constraints, items);
    Seq::new(
        placed.len(),
        |k: int|
            offset_item(&axis_of(config), placed[k], solved_size(config, constraints, items)),
    )
}

/// Out-of-flow child `i` as the solver leaves it, resolved against a
/// container of the given size.
pub open spec fn solved_absolute(items: Seq<SolverItem>, size: Vec2i, i: int) -> SolverItem {
    let found = absolute_box(size, items[i].spec, items[i].margin, absolute_intrinsic(items[i].spec));
    blank(items)[i].boxed(found.size, found.pos)
}

/// The place of child `i` in the placement order.
pub open spec fn rank_of(order: Seq<usize>, i: int) -> int {
    choose|k: int| 0 <= k < order.len() && #[trigger] order[k] == i
}

/// All children as the solver leaves them: the in-flow ones as placed and
/// moved by their offsets, the others resolved against the container's
/// final size.
pub open spec fn solved_items(
    config: &SolverConfig,
    constraints: BoxConstraints,
    items: Seq<SolverItem>,
) -> Seq<SolverItem> {
    Seq::new(
        items.len(),
        |i: int|
            if in_flow(items[i]) {
                solved_flow(config, constraints, items)[rank_of(placement_order(items), i)]
            } else {
                solved_absolute(items, solved_size(config, constraints, items), i)
            },
    )
}

/// What holds of the placement order of valid items.
proof fn lemma_placement_order(start: Seq<SolverItem>)
    requires
        start.len() <= MAX_ITEMS,
    ensures
        distinct_indices(placement_order(start), start.len() as int),
        placement_order(start).len() <= start.len(),
        forall|k: int|
            0 <= k < placement_order(start).len() ==> in_flow(
                start[(#[trigger] placement_order(start)[k]) as int],
            ),
        forall|i: int|
            0 <= i < start.len() && in_flow(#[trigger] start[i]) ==> exists|k: int|
                0 <= k < placement_order(start).len() && #[trigger] placement_order(start)[k] == i,
        forall|i: int|
            0 <= i < start.len() && !in_flow(#[trigger] start[i]) ==> unnamed(
                placement_order(start),
                i,
            ),
{
    let b = blank(start);
    lemma_flow_order(b, b.len() as int);
    lemma_flow_order_distinct(b);
    let order = placement_order(start);
    assert forall|k: int| 0 <= k < order.len() implies in_flow(
        start[(#[trigger] order[k]) as int],
    ) by {
        assert(in_flow(b[order[k] as int]));
    }
    assert forall|i: int| 0 <= i < start.len() && in_flow(#[trigger] start[i]) implies exists|
        k: int,
    | 0 <= k < order.len() && #[trigger] order[k] == i by {
        assert(in_flow(b[i]));
    }
    assert forall|i: int| 0 <= i < start.len() && !in_flow(#[trigger] start[i]) implies unnamed(
        order,
        i,
    ) by {
        assert forall|k: int| 0 <= k < order.len() implies (#[trigger] order[k]) != i by {
            assert(in_flow(b[order[k] as int]));
        }
    }
}

/// The placement order names no more children than there are.
pub proof fn lemma_order_short(items: Seq<SolverItem>)
    requires
        items.len() <= usize::MAX,
    ensures
        placement_order(items).len() <= items.len(),
{
    lemma_flow_order(blank(items), items.len() as int);
}

/// An in-flow child has a place in the placement order, and stands there.
pub proof fn lemma_rank(items: Seq<SolverItem>, i: int)
    requires
        0 <= i < items.len() <= usize::MAX,
        in_flow(items[i]),
    ensures
        0 <= rank_of(placement_order(items), i) < placement_order(items).len(),
        placement_order(items)[rank_of(placement_order(items), i)] == i,
{
    lemma_flow_order(blank(items), items.len() as int);
    assert(in_flow(blank(items)[i]));
}

fn blank_results(items: &mut Vec<SolverItem>)
    ensures
        final(items)@ == blank(old(items)@),
{
    let ghost orig = items@;
    let n: usize = items.len();
    let mut i: usize = 0;
    while i < n
        invariant
            i <= n,
            n == items.len(),
            n == orig.len(),
            forall|j: int| 0 <= j < i ==> items@[j] == blank(orig)[j],
            forall|j: int| i <= j < n ==> items@[j] == orig[j],
        decreases n - i,
    {
        let item = items[i];
        items.set(
            i,
            SolverItem { spec: item.spec, result: SolverResult::default(), margin: item.margin },
        );
        i = i + 1;
    }
    assert(items@ =~= blank(orig));
}

fn size_flow(
    config: &SolverConfig,
    constraints: BoxConstraints,
    axis: &AxisHelper,
    items: &mut Vec<SolverItem>,
    order: &Vec<usize>,
    Ghost(start): Ghost<Seq<SolverItem>>,
) -> (r: (i64, i64))
    requires
        solve_ready(config, constraints, start),
        *axis == axis_of(config),
        old(items)@ == blank(start),
        order@ == placement_order(start),
    ensures
        final(items)@.len() == start.len(),
        forall|k: int|
            0 <= k < order@.len() ==> final(items)@[(#[trigger] order@[k]) as int] == sized_flow(
                config,
                constraints,
                start,
            )[k],
        forall|i: int|
            0 <= i < start.len() && unnamed(order@, i) ==> (#[trigger] final(items)@[i]) == blank(
                start,
            )[i],
        r.0 == main_used(
            axis,
            unsized_flow(start),
            available_main(config, constraints),
            config.gap as int,
        ),
        r.1 == cross_span_max(
            axis,
            sized_flow(config, constraints, start),
            sized_flow(config, constraints, start).len() as int,
        ),
        0 <= r.0 <= 0x1_0000_0000_0000,
        0 <= r.1 <= 3 * MAX_LENGTH,
        sized_flow(config, constraints, start).len() == order@.len(),
        forall|k: int|
            0 <= k < order@.len() ==> (#[trigger] sized_flow(config, constraints, start)[k]).sized()
                && sized_flow(config, constraints, start)[k].valid(),
{
    proof {
        lemma_placement_order(start);
    }
    let (_, max_main, _, max_cross) = axis.extract_constraints(constraints);
    let padding = axis.extract_padding(config.padding);
    let room_main: i64 = max_i64(max_main - padding.main, 0);
    let room_cross: i64 = max_i64(max_cross - padding.cross, 0);
    let mut flow = gather(items, order);
    assert(flow@ == unsized_flow(start));
    assert forall|i: int| 0 <= i < flow@.len() implies (#[trigger] flow@[i]).valid() by {
        assert(start[order@[i] as int].valid());
    }
    let used_main = size_main_axis(&mut flow, axis, room_main, config.gap);
    let widest = size_cross_axis(&mut flow, axis, room_cross, config.layout.align_items);
    assert(flow@ =~= sized_flow(config, constraints, start));
    assert forall|k: int| 0 <= k < flow@.len() implies (#[trigger] flow@[k]).sized()
        && flow@[k].valid() by {
        assert(start[order@[k] as int].valid());
    }
    scatter(items, order, &flow);
    (used_main, widest)
}

fn build_context(
    config: &SolverConfig,
    constraints: BoxConstraints,
    axis: &AxisHelper,
    used_main: i64,
    widest: i64,
    Ghost(start): Ghost<Seq<SolverItem>>,
) -> (ctx: PlacementContext)
    requires
        config.valid(),
        constraints.valid(),
        *axis == axis_of(config),
        used_main == main_used(
            axis,
            unsized_flow(start),
            available_main(config, constraints),
            config.gap as int,
        ),
        widest == cross_span_max(
            axis,
            sized_flow(config, constraints, start),
            sized_flow(config, constraints, start).len() as int,
        ),
        0 <= used_main <= 0x1_0000_0000_0000,
        0 <= widest <= 3 * MAX_LENGTH,
    ensures
        ctx == placement_context(config, constraints, start),
        ctx.valid(),
{
    let (min_main, max_main, min_cross, max_cross) = axis.extract_constraints(constraints);
    let padding = axis.extract_padding(config.padding);
    let container_main: i64 = clamp_i64(used_main + padding.main, min_main, max_main);
    let final_cross: i64 = clamp_i64(widest + padding.cross, min_cross, max_cross);
    let (p_main_start, p_main_end, p_cross_start, p_cross_end) = axis.extract_margin_sides(
        config.padding,
    );
    PlacementContext {
        container_main_size: container_main,
        container_cross_size: final_cross,
        padding_main_start: p_main_start,
        padding_main_end: p_main_end,
        padding_cross_start: p_cross_start,
        padding_cross_end: p_cross_end,
        gap: config.gap,
        justify_content: config.layout.justify_content,
        align_items: config.layout.align_items,
    }
}

fn final_size(
    config: &SolverConfig,
    constraints: BoxConstraints,
    axis: &AxisHelper,
    ctx: &PlacementContext,
    used: Vec2i,
) -> (size: Vec2i)
    requires
        constraints.valid(),
        ctx.valid(),
        *axis == axis_of(config),
    ensures
        size == final_size_of(config, constraints, ctx, used),
        is_length(size.x as int),
        is_length(size.y as int),
{
    let tentative = axis.to_world(ctx.container_main_size, ctx.container_cross_size);
    let placed_size = axis.to_world(used.x, used.y);
    let width: i64 = match config.width_mode {
        SolverSizeMode::Content | SolverSizeMode::Auto => clamp_i64(
            placed_size.x,
            constraints.min_width,
            constraints.max_width,
        ),
        _ => tentative.x,
    };
    let height: i64 = match config.height_mode {
        SolverSizeMode::Content | SolverSizeMode::Auto => clamp_i64(
            placed_size.y,
            constraints.min_height,
            constraints.max_height,
        ),
        _ => tentative.y,
    };
    Vec2i::new(width, height)
}

fn place_flow(
    config: &SolverConfig,
    constraints: BoxConstraints,
    axis: &AxisHelper,
    items: &mut Vec<SolverItem>,
    order: &Vec<usize>,
    used_main: i64,
    widest: i64,
    Ghost(start): Ghost<Seq<SolverItem>>,
) -> (size: Vec2i)
    requires
        solve_ready(config, constraints, start),
        *axis == axis_of(config),
        old(items)@.len() == start.len(),
        order@ == placement_order(start),
        distinct_indices(order@, start.len() as int),
        sized_flow(config, constraints, start).len() == order@.len(),
        forall|k: int|
            0 <= k < order@.len() ==> old(items)@[(#[trigger] order@[k]) as int] == sized_flow(
                config,
                constraints,
                start,
            )[k],
        forall|k: int|
            0 <= k < order@.len() ==> (#[trigger] sized_flow(config, constraints, start)[k]).sized(),
        used_main == main_used(
            axis,
            unsized_flow(start),
            available_main(config, constraints),
            config.gap as int,
        ),
        widest == cross_span_max(
            axis,
            sized_flow(config, constraints, start),
            sized_flow(config, constraints, start).len() as int,
        ),
        0 <= used_main <= 0x1_0000_0000_0000,
        0 <= widest <= 3 * MAX_LENGTH,
    ensures
        final(items)@.len() == start.len(),
        size == solved_size(config, constraints, start),
        is_length(size.x as int),
        is_length(size.y as int),
        forall|k: int|
            0 <= k < order@.len() ==> final(items)@[(#[trigger] order@[k]) as int] == placed_flow(
                config,
                constraints,
                start,
            )[k],
        forall|k: int|
            0 <= k < order@.len() ==> (#[trigger] placed_flow(config, constraints, start)[k]).sized(),
        forall|i: int|
            0 <= i < start.len() && unnamed(order@, i) ==> (#[trigger] final(items)@[i]) == old(
                items,
            )@[i],
{
    let placement_ctx = build_context(
        config,
        constraints,
        axis,
        used_main,
        widest,
        Ghost(start),
    );
    proof {
        let sized = sized_flow(config, constraints, start);
        assert(gathered(items@, order@) =~= sized);
        assert(sized.len() <= MAX_ITEMS) by {
            lemma_placement_order(start);
        }
        assert(placement_ready(sized, &placement_ctx));
        crate::bridge::lemma_strategy_sized(config.layout, config.spokes, sized, axis, &placement_ctx);
    }
    let used = final_size_with_indices(
        config.layout,
        items,
        order,
        axis,
        &placement_ctx,
        config.spokes,
    );
    final_size(config, constraints, axis, &placement_ctx, used)
}

fn apply_relative_offsets(
    items: &mut Vec<SolverItem>,
    order: &Vec<usize>,
    axis: &AxisHelper,
    size: Vec2i,
)
    requires
        distinct_indices(order@, old(items)@.len() as int),
        is_length(size.x as int),
        is_length(size.y as int),
        forall|k: int|
            0 <= k < order@.len() ==> (#[trigger] old(items)@[order@[k] as int]).sized() && old(
                items,
            )@[order@[k] as int].valid(),
    ensures
        final(items)@.len() == old(items)@.len(),
        forall|k: int|
            0 <= k < order@.len() ==> final(items)@[(#[trigger] order@[k]) as int] == offset_item(
                axis,
                old(items)@[order@[k] as int],
                size,
            ),
        forall|i: int|
            0 <= i < old(items)@.len() && unnamed(order@, i) ==> (#[trigger] final(items)@[i])
                == old(items)@[i],
{
    let ghost orig = items@;
    let (main, cross) = axis.from_world(size);
    let mut k: usize = 0;
    while k < order.len()
        invariant
            k <= order.len(),
            items@.len() == orig.len(),
            distinct_indices(order@, orig.len() as int),
            is_length(main as int),
            is_length(cross as int),
            main == axis.main_of(size),
            cross == axis.cross_of(size),
            forall|j: int|
                0 <= j < order@.len() ==> (#[trigger] orig[order@[j] as int]).sized()
                    && orig[order@[j] as int].valid(),
            forall|j: int|
                0 <= j < k ==> items@[(#[trigger] order@[j]) as int] == offset_item(
                    axis,
                    orig[order@[j] as int],
                    size,
                ),
            forall|i: int|
                0 <= i < orig.len() && (forall|j: int| 0 <= j < k ==> (#[trigger] order@[j]) != i)
                    ==> (#[trigger] items@[i]) == orig[i],
        decreases order.len() - k,
    {
        let at: usize = order[k];
        let item = items[at];
        assert(item == orig[at as int]);
        assert(orig[order@[k as int] as int].sized());
        let (pos_main, pos_cross) = axis.from_world(item.result.pos);
        let off_main: i64 = item.spec.left.resolve_or_zero(main) - item.spec.right.resolve_or_zero(
            main,
        );
        let off_cross: i64 = item.spec.top.resolve_or_zero(cross)
            - item.spec.bottom.resolve_or_zero(cross);
        let mut moved = item;
        moved.result.pos = axis.to_world(pos_main + off_main, pos_cross + off_cross);
        items.set(at, moved);
        k = k + 1;
    }
}

fn solve_absolute_items(items: &mut Vec<SolverItem>, size: Vec2i, Ghost(start): Ghost<Seq<SolverItem>>)
    requires
        is_length(size.x as int),
        is_length(size.y as int),
        old(items)@.len() == start.len(),
        forall|i: int| 0 <= i < start.len() ==> (#[trigger] start[i]).valid(),
        forall|i: int|
            0 <= i < start.len() ==> (#[trigger] old(items)@[i]).spec == start[i].spec && old(
                items,
            )@[i].margin == start[i].margin,
        forall|i: int|
            0 <= i < start.len() && !in_flow(start[i]) ==> (#[trigger] old(items)@[i]) == blank(
                start,
            )[i],
    ensures
        final(items)@.len() == old(items)@.len(),
        forall|i: int|
            0 <= i < start.len() && !in_flow(start[i]) ==> (#[trigger] final(items)@[i])
                == solved_absolute(start, size, i),
        forall|i: int|
            0 <= i < start.len() && in_flow(start[i]) ==> (#[trigger] final(items)@[i]) == old(
                items,
            )@[i],
{
    let ghost orig = items@;
    let n: usize = items.len();
    let mut i: usize = 0;
    while i < n
        invariant
            i <= n,
            n == items.len(),
            n == start.len(),
            n == orig.len(),
            is_length(size.x as int),
            is_length(size.y as int),
            forall|j: int| 0 <= j < start.len() ==> (#[trigger] start[j]).valid(),
            forall|j: int|
                0 <= j < start.len() ==> (#[trigger] orig[j]).spec == start[j].spec
                    && orig[j].margin == start[j].margin,
            forall|j: int|
                0 <= j < start.len() && !in_flow(start[j]) ==> (#[trigger] orig[j]) == blank(
                    start,
                )[j],
            forall|j: int|
                0 <= j < i && !in_flow(start[j]) ==> (#[trigger] items@[j]) == solved_absolute(
                    start,
                    size,
                    j,
                ),
            forall|j: int| 0 <= j < n && in_flow(start[j]) ==> (#[trigger] items@[j]) == orig[j],
            forall|j: int| i <= j < n ==> (#[trigger] items@[j]) == orig[j],
        decreases n - i,
    {
        let item = items[i];
        assert(item == orig[i as int]);
        assert(start[i as int].valid());
        match item.spec.position_type {
            UPositionType::Absolute => {
                let intrinsic = Vec2i::new(
                    match item.spec.width_mode {
                        SolverSizeMode::Content => item.spec.width_val,
                        _ => 0,
                    },
                    match item.spec.height_mode {
                        SolverSizeMode::Content => item.spec.height_val,
                        _ => 0,
                    },
                );
                let (new_size, new_pos) = solve_absolute_box(size, &item.spec, item.margin, intrinsic);
                let mut solved = item;
                solved.result.size = new_size;
                solved.result.pos = new_pos;
                items.set(i, solved);
            },
            UPositionType::Relative => {},
        }
        i = i + 1;
    }
}

/// Lays out the children of one container.
///
/// In-flow children are taken in placement order, sized along the main
/// axis (growing items sharing what remains) and the cross axis, placed by
/// the strategy of the container's display kind, and moved by their own
/// offsets. Out-of-flow children are resolved against the container's
/// final size. Returns that size.
pub fn solve_flex_layout(
    config: &SolverConfig,
    constraints: BoxConstraints,
    items: &mut Vec<SolverItem>,
) -> (size: Vec2i)
    requires
        solve_ready(config, constraints, old(items)@),
    ensures
        size == solved_size(config, constraints, old(items)@),
        is_length(size.x as int),
        is_length(size.y as int),
        final(items)@.len() == old(items)@.len(),
        forall|k: int|
            0 <= k < placement_order(old(items)@).len() ==> final(items)@[(
            #[trigger] placement_order(old(items)@)[k]) as int] == solved_flow(
                config,
                constraints,
                old(items)@,
            )[k],
        forall|i: int|
            0 <= i < old(items)@.len() && !in_flow(old(items)@[i]) ==> (#[trigger] final(items)@[i])
                == solved_absolute(old(items)@, size, i),
        final(items)@ == solved_items(config, constraints, old(items)@),
{
    let ghost start = items@;
    let axis = AxisHelper::new(config.layout.flex_direction);
    blank_results(items);
    let order = in_flow_order(items);
    proof {
        lemma_placement_order(start);
    }
    let (used_main, widest) = size_flow(config, constraints, &axis, items, &order, Ghost(start));
    let size = place_flow(
        config,
        constraints,
        &axis,
        items,
        &order,
        used_main,
        widest,
        Ghost(start),
    );
    let ghost placed = placed_flow(config, constraints, start);
    proof {
        crate::bridge::lemma_strategy_keeps(
            config.layout,
            config.spokes,
            sized_flow(config, constraints, start),
            &axis,
            &placement_context(config, constraints, start),
        );
        assert forall|k: int| 0 <= k < order@.len() implies (#[trigger] items@[order@[k] as int]).sized()
            && items@[order@[k] as int].valid() by {
            assert(items@[order@[k] as int] == placed[k]);
            assert(placed[k].sized());
            assert(start[order@[k] as int].valid());
        }
    }
    let ghost after_place = items@;
    apply_relative_offsets(items, &order, &axis, size);
    let ghost after_offsets = items@;
    proof {
        assert forall|i: int| 0 <= i < start.len() implies (#[trigger] after_offsets[i]).spec
            == start[i].spec && after_offsets[i].margin == start[i].margin by {
            if in_flow(start[i]) {
                let k = choose|k: int| 0 <= k < order@.len() && #[trigger] order@[k] == i;
                assert(after_offsets[order@[k] as int] == offset_item(
                    &axis,
                    after_place[order@[k] as int],
                    size,
                ));
                assert(after_place[order@[k] as int] == placed[k]);
            } else {
                assert(unnamed(order@, i));
                assert(after_offsets[i] == blank(start)[i]);
            }
        }
        assert forall|i: int| 0 <= i < start.len() && !in_flow(start[i]) implies (
        #[trigger] after_offsets[i]) == blank(start)[i] by {
            assert(unnamed(order@, i));
        }
    }
    solve_absolute_items(items, size, Ghost(start));
    proof {
        assert forall|k: int| 0 <= k < order@.len() implies items@[(#[trigger] order@[k]) as int]
            == solved_flow(config, constraints, start)[k] by {
            let i = order@[k] as int;
            assert(in_flow(start[i]));
            assert(after_offsets[order@[k] as int] == offset_item(
                &axis,
                after_place[order@[k] as int],
                size,
            ));
            assert(after_place[order@[k] as int] == placed[k]);
        }
        assert forall|i: int| 0 <= i < start.len() implies items@[i] == solved_items(
            config,
            constraints,
            start,
        )[i] by {
            if in_flow(start[i]) {
                let k = rank_of(order@, i);
                assert(items@[order@[k] as int] == solved_flow(config, constraints, start)[k]);
            }
        }
        assert(items@ =~= solved_items(config, constraints, start));
    }
    size
}

/// Lays out the children of one container where the solver can work on
/// them, and leaves them as they are where it cannot.
pub fn try_solve_flex_layout(
    config: &SolverConfig,
    constraints: BoxConstraints,
    items: &mut Vec<SolverItem>,
) -> (size: Option<Vec2i>)
    ensures
        size is Some == solve_ready(config, constraints, old(items)@),
        size is None ==> final(items)@ == old(items)@,
        size is Some ==> size->0 == solved_size(config, constraints, old(items)@) && final(items)@
            == solved_items(config, constraints, old(items)@),
{
    if is_solve_ready(config, constraints, items) {
        Some(solve_flex_layout(config, constraints, items))
    } else {
        None
    }
}

/// Solving is a function of what the children declare: two lists of
/// children that agree in declarations and margins are solved alike,
/// whatever results they held before.
pub proof fn lemma_solve_ignores_results(
    config: &SolverConfig,
    constraints: BoxConstraints,
    a: Seq<SolverItem>,
    b: Seq<SolverItem>,
)
    requires
        a.len() == b.len(),
        forall|i: int| 0 <= i < a.len() ==> a[i].spec == b[i].spec && a[i].margin == b[i].margin,
    ensures
        placement_order(a) == placement_order(b),
        solved_size(config, constraints, a) == solved_size(config, constraints, b),
        solved_flow(config, constraints, a) == solved_flow(config, constraints, b),
        forall|i: int, size: Vec2i|
            0 <= i < a.len() ==> solved_absolute(a, size, i) == solved_absolute(b, size, i),
        solved_items(config, constraints, a) == solved_items(config, constraints, b),
{
    assert(blank(a) =~= blank(b));
    assert(solved_items(config, constraints, a) =~= solved_items(config, constraints, b));
}

/// Solving twice is solving once: the children as the solver left them
/// are solved to the same again, and so is the container's size.
pub proof fn lemma_solve_idempotent(
    config: &SolverConfig,
    constraints: BoxConstraints,
    items: Seq<SolverItem>,
)
    requires
        items.len() <= usize::MAX,
    ensures
        solved_items(config, constraints, solved_items(config, constraints, items))
            == solved_items(config, constraints, items),
        solved_size(config, constraints, solved_items(config, constraints, items)) == solved_size(
            config,
            constraints,
            items,
        ),
{
    let once = solved_items(config, constraints, items);
    crate::bridge::lemma_strategy_keeps(
        config.layout,
        config.spokes,
        sized_flow(config, constraints, items),
        &axis_of(config),
        &placement_context(config, constraints, items),
    );
    assert forall|i: int| 0 <= i < items.len() implies once[i].spec == items[i].spec
        && once[i].margin == items[i].margin by {
        if in_flow(items[i]) {
            lemma_rank(items, i);
        }
    }
    lemma_solve_ignores_results(config, constraints, once, items);
}

} // verus!
