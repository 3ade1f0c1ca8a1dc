//! The interface every placement strategy meets, and the choice of strategy
//! from a container's declared display kind.

use vstd::prelude::*;
use crate::display::FlexPlacer;
use crate::geometry::AxisHelper;
use crate::grid::GridPlacer;
use crate::masonry::MasonryPlacer;
use crate::radial::{valid_spoke, RadialPlacer};
use crate::sequence::{distinct_indices, gather, gathered, scatter, unnamed};
use crate::solver::{PlacementContext, SolverItem};
use crate::stack::StackPlacer;
use crate::units::{is_length, Vec2i, MAX_ITEMS};
use crate::univis_node::{UAlignItems, UDisplay, ULayout};

verus! {

/// The items and the context are within the ranges a strategy works in:
/// sized items with valid margins, and a context of lengths.
pub open spec fn placement_ready(items: Seq<SolverItem>, ctx: &PlacementContext) -> bool {
    &&& items.len() <= MAX_ITEMS
    &&& ctx.valid()
    &&& forall|i: int| 0 <= i < items.len() ==> (#[trigger] items[i]).sized()
}

/// A placement strategy: turns sized items into positioned ones and reports
/// the size the container needs for them, as `(main, cross)` in `x` and `y`.
pub trait LayoutPlacer {
    /// The inputs the strategy works on.
    spec fn accepts(&self, items: Seq<SolverItem>, axis: &AxisHelper, ctx: &PlacementContext) -> bool;

    /// The items as the strategy leaves them.
    spec fn placed(&self, items: Seq<SolverItem>, axis: &AxisHelper, ctx: &PlacementContext) -> Seq<
        SolverItem,
    >;

    /// The size the strategy reports.
    spec fn used(&self, items: Seq<SolverItem>, axis: &AxisHelper, ctx: &PlacementContext) -> Vec2i;

    fn place(&self, items: &mut Vec<SolverItem>, axis: &AxisHelper, ctx: &PlacementContext) -> (used:
        Vec2i)
        requires
            self.accepts(old(items)@, axis, ctx),
        ensures
            final(items)@ == self.placed(old(items)@, axis, ctx),
            used == self.used(old(items)@, axis, ctx),
            forall|k: int| 0 <= k < final(items)@.len() ==> (#[trigger] final(items)@[k]).sized(),
    ;
}

/// What the strategy of the declared display kind works on: sized items,
/// and for the radial strategy a valid direction for each.
pub open spec fn strategy_accepts(
    layout: ULayout,
    spokes: &Vec<Vec2i>,
    flow: Seq<SolverItem>,
    ctx: &PlacementContext,
) -> bool {
    &&& placement_ready(flow, ctx)
    &&& layout.display is Radial ==> {
        &&& spokes@.len() >= flow.len()
        &&& forall|i: int| 0 <= i < flow.len() ==> valid_spoke(#[trigger] spokes@[i])
    }
}

/// The items as the strategy of the declared display kind leaves them.
/// The grid and masonry strategies take their column count from the
/// layout; a kind without a strategy of its own is laid out as a flow.
pub open spec fn strategy_placed(
    layout: ULayout,
    spokes: &Vec<Vec2i>,
    flow: Seq<SolverItem>,
    axis: &AxisHelper,
    ctx: &PlacementContext,
) -> Seq<SolverItem> {
    match layout.display {
        UDisplay::Stack => StackPlacer.placed(flow, axis, ctx),
        UDisplay::Grid => (GridPlacer { columns: layout.grid_columns as usize }).placed(
            flow,
            axis,
            ctx,
        ),
        UDisplay::Masonry => (MasonryPlacer { columns: layout.grid_columns as usize }).placed(
            flow,
            axis,
            ctx,
        ),
        UDisplay::Radial => (RadialPlacer { spokes }).placed(flow, axis, ctx),
        _ => FlexPlacer.placed(flow, axis, ctx),
    }
}

/// The size that the strategy of the declared display kind reports.
pub open spec fn strategy_used(
    layout: ULayout,
    spokes: &Vec<Vec2i>,
    flow: Seq<SolverItem>,
    axis: &AxisHelper,
    ctx: &PlacementContext,
) -> Vec2i {
    match layout.display {
        UDisplay::Stack => StackPlacer.used(flow, axis, ctx),
        UDisplay::Grid => (GridPlacer { columns: layout.grid_columns as usize }).used(
            flow,
            axis,
            ctx,
        ),
        UDisplay::Masonry => (MasonryPlacer { columns: layout.grid_columns as usize }).used(
            flow,
            axis,
            ctx,
        ),
        UDisplay::Radial => (RadialPlacer { spokes }).used(flow, axis, ctx),
        _ => FlexPlacer.used(flow, axis, ctx),
    }
}

/// Every strategy leaves an item's declaration and margin as they are.
pub proof fn lemma_strategy_keeps(
    layout: ULayout,
    spokes: &Vec<Vec2i>,
    flow: Seq<SolverItem>,
    axis: &AxisHelper,
    ctx: &PlacementContext,
)
    ensures
        strategy_placed(layout, spokes, flow, axis, ctx).len() == flow.len(),
        forall|k: int|
            0 <= k < flow.len() ==> (#[trigger] strategy_placed(layout, spokes, flow, axis, ctx)[k]).spec
                == flow[k].spec && strategy_placed(layout, spokes, flow, axis, ctx)[k].margin
                == flow[k].margin,
{
}

/// A strategy leaves as many items as it was given.
pub proof fn lemma_strategy_sized(
    layout: ULayout,
    spokes: &Vec<Vec2i>,
    flow: Seq<SolverItem>,
    axis: &AxisHelper,
    ctx: &PlacementContext,
)
    ensures
        strategy_placed(layout, spokes, flow, axis, ctx).len() == flow.len(),
{
}

/// Runs the strategy of the declared display kind on the items.
pub fn place_by_display(
    layout: ULayout,
    spokes: &Vec<Vec2i>,
    flow: &mut Vec<SolverItem>,
    axis: &AxisHelper,
    ctx: &PlacementContext,
) -> (used: Vec2i)
    requires
        strategy_accepts(layout, spokes, old(flow)@, ctx),
    ensures
        final(flow)@ == strategy_placed(layout, spokes, old(flow)@, axis, ctx),
        used == strategy_used(layout, spokes, old(flow)@, axis, ctx),
        forall|k: int| 0 <= k < final(flow)@.len() ==> (#[trigger] final(flow)@[k]).sized(),
{
    match layout.display {
        UDisplay::Stack => StackPlacer.place(flow, axis, ctx),
        UDisplay::Grid => {
            let placer = GridPlacer { columns: layout.grid_columns as usize };
            placer.place(flow, axis, ctx)
        },
        UDisplay::Masonry => {
            let placer = MasonryPlacer { columns: layout.grid_columns as usize };
            placer.place(flow, axis, ctx)
        },
        UDisplay::Radial => {
            let placer = RadialPlacer { spokes };
            placer.place(flow, axis, ctx)
        },
        _ => FlexPlacer.place(flow, axis, ctx),
    }
}

/// Places the items that `normal_indices` names, in that order, by the
/// strategy of the declared display kind, and reports the size the strategy
/// used. The other items stay as they are.
pub fn final_size_with_indices(
    layout: ULayout,
    items: &mut Vec<SolverItem>,
    normal_indices: &Vec<usize>,
    axis: &AxisHelper,
    placement_ctx: &PlacementContext,
    spokes: &Vec<Vec2i>,
) -> (used: Vec2i)
    requires
        distinct_indices(normal_indices@, old(items)@.len() as int),
        strategy_accepts(layout, spokes, gathered(old(items)@, normal_indices@), placement_ctx),
    ensures
        final(items)@.len() == old(items)@.len(),
        used == strategy_used(
            layout,
            spokes,
            gathered(old(items)@, normal_indices@),
            axis,
            placement_ctx,
        ),
        forall|k: int|
            0 <= k < normal_indices@.len() ==> final(items)@[(#[trigger] normal_indices@[k]) as int]
                == strategy_placed(
                layout,
                spokes,
                gathered(old(items)@, normal_indices@),
                axis,
                placement_ctx,
            )[k],
        forall|i: int|
            0 <= i < old(items)@.len() && unnamed(normal_indices@, i) ==> (
            #[trigger] final(items)@[i]) == old(items)@[i],
        forall|k: int|
            0 <= k < normal_indices@.len() ==> (#[trigger] strategy_placed(
                layout,
                spokes,
                gathered(old(items)@, normal_indices@),
                axis,
                placement_ctx,
            )[k]).sized(),
{
    let mut flow = gather(items, normal_indices);
    let used = place_by_display(layout, spokes, &mut flow, axis, placement_ctx);
    scatter(items, normal_indices, &flow);
    used
}

/// Cross-axis position of a child that is aligned by the container's
/// `align_items` alone: at the padding for the start-like kinds, centred or
/// at the far end of the space its size leaves otherwise.
pub open spec fn cross_align(child_cross_size: int, ctx: &PlacementContext) -> int {
    let free = ctx.container_cross_size - (ctx.padding_cross_start + ctx.padding_cross_end)
        - child_cross_size;
    match ctx.align_items {
        UAlignItems::Center => ctx.padding_cross_start + free / 2,
        UAlignItems::End | UAlignItems::FlexEnd => ctx.padding_cross_start + free,
        _ => ctx.padding_cross_start as int,
    }
}

/// Cross-axis position under the container's `align_items`.
pub fn calculate_cross_align(child_cross_size: i64, ctx: &PlacementContext) -> (pos: i64)
    requires
        ctx.valid(),
        is_length(child_cross_size as int),
    ensures
        pos == cross_align(child_cross_size as int, ctx),
{
    let free: i64 = ctx.container_cross_size - (ctx.padding_cross_start + ctx.padding_cross_end)
        - child_cross_size;
    match ctx.align_items {
        UAlignItems::Center => ctx.padding_cross_start + crate::units::half(free),
        UAlignItems::End | UAlignItems::FlexEnd => ctx.padding_cross_start + free,
        _ => ctx.padding_cross_start,
    }
}

} // verus!
