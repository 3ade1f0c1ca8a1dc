//! The stack strategy: every item centred in the container, each a fixed
//! step further down and to the right than the one before.

use vstd::prelude::*;
use crate::bridge::{placement_ready, LayoutPlacer};
use crate::geometry::AxisHelper;
use crate::solver::{PlacementContext, SolverItem};
use crate::units::{half, max_i64, max_of, Vec2i, MAX_ITEMS, MAX_LENGTH};

verus! {

/// Pixels by which each item of a stack is offset from the one before.
pub const STACK_OFFSET_STEP: i64 = 5;

/// Main-axis position of item `k` of a stack: centred with its margins in
/// the content box, then offset by its index.
pub open spec fn stack_main_pos(
    axis: &AxisHelper,
    items: Seq<SolverItem>,
    ctx: &PlacementContext,
    k: int,
) -> int {
    let free = ctx.container_main_size - (ctx.padding_main_start + ctx.padding_main_end)
        - crate::display::main_span(axis, items[k]);
    ctx.padding_main_start + free / 2 + axis.main_start(items[k].margin) + k * STACK_OFFSET_STEP
}

/// Cross-axis position of item `k` of a stack, centred and offset likewise.
pub open spec fn stack_cross_pos(
    axis: &AxisHelper,
    items: Seq<SolverItem>,
    ctx: &PlacementContext,
    k: int,
) -> int {
    let free = ctx.container_cross_size - (ctx.padding_cross_start + ctx.padding_cross_end)
        - crate::display::cross_span(axis, items[k]);
    ctx.padding_cross_start + free / 2 + axis.cross_start(items[k].margin) + k
        * STACK_OFFSET_STEP
}

/// Item `k` of a stack at its place.
pub open spec fn stack_item(
    axis: &AxisHelper,
    items: Seq<SolverItem>,
    ctx: &PlacementContext,
    k: int,
) -> SolverItem {
    items[k].moved_to(
        axis.world(
            stack_main_pos(axis, items, ctx, k) as i64,
            stack_cross_pos(axis, items, ctx, k) as i64,
        ),
    )
}

/// How far the first `k` items reach along the main axis, trailing margins
/// included; zero for none.
pub open spec fn stack_reach_main(
    axis: &AxisHelper,
    items: Seq<SolverItem>,
    ctx: &PlacementContext,
    k: int,
) -> int
    decreases k,
{
    if k <= 0 {
        0
    } else {
        max_of(
            stack_reach_main(axis, items, ctx, k - 1),
            stack_main_pos(axis, items, ctx, k - 1) + axis.main_of(items[k - 1].result.size)
                + axis.main_end(items[k - 1].margin),
        )
    }
}

/// How far the first `k` items reach along the cross axis.
pub open spec fn stack_reach_cross(
    axis: &AxisHelper,
    items: Seq<SolverItem>,
    ctx: &PlacementContext,
    k: int,
) -> int
    decreases k,
{
    if k <= 0 {
        0
    } else {
        max_of(
            stack_reach_cross(axis, items, ctx, k - 1),
            stack_cross_pos(axis, items, ctx, k - 1) + axis.cross_of(items[k - 1].result.size)
                + axis.cross_end(items[k - 1].margin),
        )
    }
}

/// Places items on top of each other, each slightly offset.
pub struct StackPlacer;

impl LayoutPlacer for StackPlacer {
    open spec fn accepts(
        &self,
        items: Seq<SolverItem>,
        axis: &AxisHelper,
        ctx: &PlacementContext,
    ) -> bool {
        placement_ready(items, ctx)
    }

    open spec fn placed(
        &self,
        items: Seq<SolverItem>,
        axis: &AxisHelper,
        ctx: &PlacementContext,
    ) -> Seq<SolverItem> {
        Seq::new(items.len(), |k: int| stack_item(axis, items, ctx, k))
    }

    /// The box that reaches from the origin to the far edge of the item
    /// that reaches furthest, and past the trailing padding.
    open spec fn used(&self, items: Seq<SolverItem>, axis: &AxisHelper, ctx: &PlacementContext) -> Vec2i {
        Vec2i {
            x: (stack_reach_main(axis, items, ctx, items.len() as int) + ctx.padding_main_end) as i64,
            y: (stack_reach_cross(axis, items, ctx, items.len() as int) + ctx.padding_cross_end) as i64,
        }
    }

    fn place(&self, items: &mut Vec<SolverItem>, axis: &AxisHelper, ctx: &PlacementContext) -> (used:
        Vec2i) {
        let n: usize = items.len();
        let ghost orig = items@;
        let mut reach_main: i64 = 0;
        let mut reach_cross: i64 = 0;
        let mut k: usize = 0;
        while k < n
            invariant
                k <= n,
                n == items.len(),
                n == orig.len(),
                n <= MAX_ITEMS,
                ctx.valid(),
                forall|j: int| 0 <= j < orig.len() ==> (#[trigger] orig[j]).sized(),
                forall|j: int| 0 <= j < k ==> items@[j] == stack_item(axis, orig, ctx, j),
                forall|j: int| k <= j < n ==> items@[j] == orig[j],
                forall|j: int| 0 <= j < k ==> (#[trigger] items@[j]).sized(),
                reach_main == stack_reach_main(axis, orig, ctx, k as int),
                reach_cross == stack_reach_cross(axis, orig, ctx, k as int),
                0 <= reach_main <= 8 * MAX_LENGTH,
                0 <= reach_cross <= 8 * MAX_LENGTH,
            decreases n - k,
        {
            let item = items[k];
            assert(item == orig[k as int]);
            assert(orig[k as int].sized());
            let (child_main, child_cross) = axis.from_world(item.result.size);
            let (ms, me, mcs, mce) = axis.extract_margin_sides(item.margin);
            let free_main: i64 = ctx.container_main_size - (ctx.padding_main_start
                + ctx.padding_main_end) - (child_main + ms + me);
            let free_cross: i64 = ctx.container_cross_size - (ctx.padding_cross_start
                + ctx.padding_cross_end) - (child_cross + mcs + mce);
            let offset: i64 = (k as i64) * STACK_OFFSET_STEP;
            let pos_main: i64 = ctx.padding_main_start + half(free_main) + ms + offset;
            let pos_cross: i64 = ctx.padding_cross_start + half(free_cross) + mcs + offset;
            let mut moved = item;
            moved.result.pos = axis.to_world(pos_main, pos_cross);
            items.set(k, moved);
            reach_main = max_i64(reach_main, pos_main + child_main + me);
            reach_cross = max_i64(reach_cross, pos_cross + child_cross + mce);
            k = k + 1;
        }
        proof {
            assert(items@ =~= self.placed(orig, axis, ctx));
        }
        Vec2i::new(reach_main + ctx.padding_main_end, reach_cross + ctx.padding_cross_end)
    }
}

} // verus!
