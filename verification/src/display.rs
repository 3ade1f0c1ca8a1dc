//! The flow strategy, and the measures of sized items that all strategies
//! share.

use vstd::prelude::*;
use crate::bridge::{placement_ready, LayoutPlacer};
use crate::geometry::AxisHelper;
use crate::solver::{PlacementContext, SolverItem};
use crate::units::{half, max_i64, max_of, Vec2i, MAX_ITEMS, MAX_LENGTH};
use crate::univis_node::{UAlignItems, UAlignSelf, UJustifyContent};

verus! {

/// What an item takes of the main axis: its size and both margins.
pub open spec fn main_span(axis: &AxisHelper, item: SolverItem) -> int {
    axis.main_of(item.result.size) + axis.main_start(item.margin) + axis.main_end(item.margin)
}

/// What an item takes of the cross axis: its size and both margins.
pub open spec fn cross_span(axis: &AxisHelper, item: SolverItem) -> int {
    axis.cross_of(item.result.size) + axis.cross_start(item.margin) + axis.cross_end(item.margin)
}

/// Main-axis spans of the first `k` items, added up.
pub open spec fn spans_before(axis: &AxisHelper, items: Seq<SolverItem>, k: int) -> int
    decreases k,
{
    if k <= 0 {
        0
    } else {
        spans_before(axis, items, k - 1) + main_span(axis, items[k - 1])
    }
}

/// The largest cross-axis span among the first `k` items, zero for none.
pub open spec fn cross_span_max(axis: &AxisHelper, items: Seq<SolverItem>, k: int) -> int
    decreases k,
{
    if k <= 0 {
        0
    } else {
        max_of(cross_span_max(axis, items, k - 1), cross_span(axis, items[k - 1]))
    }
}

/// The gaps between `n` items in a row.
pub open spec fn gaps_total(n: int, gap: int) -> int {
    if n > 1 {
        (n - 1) * gap
    } else {
        0
    }
}

/// The alignment that applies to a child: its own, else the container's.
/// Of the container's kinds, `Center` centres, `End` and `FlexEnd` align at
/// the end, and all others at the start.
pub open spec fn effective_align(align: Option<UAlignSelf>, align_items: UAlignItems) -> UAlignSelf {
    match align {
        Some(a) => a,
        None => match align_items {
            UAlignItems::Center => UAlignSelf::Center,
            UAlignItems::End | UAlignItems::FlexEnd => UAlignSelf::End,
            _ => UAlignSelf::Start,
        },
    }
}

/// Cross-axis position of a child: past the padding and its own leading
/// margin, and past none, half or all of the free cross space, as its
/// effective alignment is at the start (or stretched), centred or at the end.
pub open spec fn cross_position(
    ctx: &PlacementContext,
    child_cross_size: int,
    align: Option<UAlignSelf>,
    m_cross_start: int,
    m_cross_end: int,
) -> int {
    let free = max_of(
        ctx.container_cross_size - (ctx.padding_cross_start + ctx.padding_cross_end) - (
        child_cross_size + m_cross_start + m_cross_end),
        0,
    );
    let offset = match effective_align(align, ctx.align_items) {
        UAlignSelf::Center => free / 2,
        UAlignSelf::End => free,
        _ => 0,
    };
    ctx.padding_cross_start + offset + m_cross_start
}

/// Cross-axis position of one child, by its effective alignment.
pub fn calculate_cross_pos_with_margin(
    child_cross_size: i64,
    ctx: &PlacementContext,
    align: Option<UAlignSelf>,
    m_cross_start: i64,
    m_cross_end: i64,
) -> (pos: i64)
    requires
        ctx.valid(),
        0 <= child_cross_size <= MAX_LENGTH,
        0 <= m_cross_start <= MAX_LENGTH,
        0 <= m_cross_end <= MAX_LENGTH,
    ensures
        pos == cross_position(
            ctx,
            child_cross_size as int,
            align,
            m_cross_start as int,
            m_cross_end as int,
        ),
        0 <= pos <= 3 * MAX_LENGTH,
{
    let occupied: i64 = child_cross_size + m_cross_start + m_cross_end;
    let free: i64 = max_i64(
        ctx.container_cross_size - (ctx.padding_cross_start + ctx.padding_cross_end) - occupied,
        0,
    );
    let effective = match align {
        Some(a) => a,
        None => match ctx.align_items {
            UAlignItems::Center => UAlignSelf::Center,
            UAlignItems::End | UAlignItems::FlexEnd => UAlignSelf::End,
            _ => UAlignSelf::Start,
        },
    };
    let offset: i64 = match effective {
        UAlignSelf::Center => half(free),
        UAlignSelf::End => free,
        _ => 0,
    };
    ctx.padding_cross_start + offset + m_cross_start
}

/// Spans of sized items are bounded, and so are their sums.
pub proof fn lemma_spans_bounds(axis: &AxisHelper, items: Seq<SolverItem>, j: int, k: int)
    requires
        forall|i: int| 0 <= i < items.len() ==> (#[trigger] items[i]).sized(),
        0 <= j <= k <= items.len(),
    ensures
        0 <= spans_before(axis, items, j) <= spans_before(axis, items, k) <= k * 3_221_225_472,
        0 <= cross_span_max(axis, items, j) <= cross_span_max(axis, items, k) <= 3 * MAX_LENGTH,
    decreases j + k,
{
    if k > j {
        lemma_spans_bounds(axis, items, j, k - 1);
        assert(items[k - 1].sized());
    } else if j > 0 {
        lemma_spans_bounds(axis, items, j - 1, j - 1);
        assert(items[j - 1].sized());
    }
}

/// Free main-axis space of a flow: what the container's content box has
/// beyond the items' spans and the gaps between them, never negative.
pub open spec fn flow_free(axis: &AxisHelper, items: Seq<SolverItem>, ctx: &PlacementContext) -> int {
    max_of(
        ctx.container_main_size - ctx.padding_main_start - ctx.padding_main_end - spans_before(
            axis,
            items,
            items.len() as int,
        ) - gaps_total(items.len() as int, ctx.gap as int),
        0,
    )
}

/// The free space put before the first of `n` items.
pub open spec fn flow_lead(justify: UJustifyContent, free: int, n: int) -> int {
    match justify {
        UJustifyContent::Center => free / 2,
        UJustifyContent::End => free,
        UJustifyContent::SpaceEvenly => free / (n + 1),
        UJustifyContent::SpaceAround => if n > 0 {
            free / n / 2
        } else {
            0
        },
        _ => 0,
    }
}

/// The free space put after each of `n` items, beyond the gap.
pub open spec fn flow_extra(justify: UJustifyContent, free: int, n: int) -> int {
    match justify {
        UJustifyContent::SpaceBetween => if n > 1 {
            free / (n - 1)
        } else {
            0
        },
        UJustifyContent::SpaceEvenly => free / (n + 1),
        UJustifyContent::SpaceAround => if n > 0 {
            free / n
        } else {
            0
        },
        _ => 0,
    }
}

/// Distance from the end of one item's span to the start of the next. The
/// even and around distributions replace the gap by their share of the free
/// space; the others add theirs to it.
pub open spec fn flow_step(ctx: &PlacementContext, free: int, n: int) -> int {
    if ctx.justify_content is SpaceEvenly || ctx.justify_content is SpaceAround {
        flow_extra(ctx.justify_content, free, n)
    } else {
        ctx.gap + flow_extra(ctx.justify_content, free, n)
    }
}

/// Main-axis position of item `k` of a flow.
pub open spec fn flow_main_pos(
    axis: &AxisHelper,
    items: Seq<SolverItem>,
    ctx: &PlacementContext,
    k: int,
) -> int {
    let free = flow_free(axis, items, ctx);
    let n = items.len() as int;
    ctx.padding_main_start + flow_lead(ctx.justify_content, free, n) + spans_before(axis, items, k)
        + k * flow_step(ctx, free, n) + axis.main_start(items[k].margin)
}

/// Item `k` of a flow at its place.
pub open spec fn flow_item(
    axis: &AxisHelper,
    items: Seq<SolverItem>,
    ctx: &PlacementContext,
    k: int,
) -> SolverItem {
    items[k].moved_to(
        axis.world(
            flow_main_pos(axis, items, ctx, k) as i64,
            cross_position(
                ctx,
                axis.cross_of(items[k].result.size) as int,
                items[k].spec.align_self,
                axis.cross_start(items[k].margin) as int,
                axis.cross_end(items[k].margin) as int,
            ) as i64,
        ),
    )
}

/// Linear layout along the main axis, with the free space distributed by
/// `justify_content`.
pub struct FlexPlacer;

impl LayoutPlacer for FlexPlacer {
    open spec fn accepts(
        &self,
        items: Seq<SolverItem>,
        axis: &AxisHelper,
        ctx: &PlacementContext,
    ) -> bool {
        placement_ready(items, ctx)
    }

    open spec fn placed(
        &self,
        items: Seq<SolverItem>,
        axis: &AxisHelper,
        ctx: &PlacementContext,
    ) -> Seq<SolverItem> {
        Seq::new(items.len(), |k: int| flow_item(axis, items, ctx, k))
    }

    /// Spans, gaps and padding along the main axis; the largest cross span
    /// and padding along the cross axis.
    open spec fn used(&self, items: Seq<SolverItem>, axis: &AxisHelper, ctx: &PlacementContext) -> Vec2i {
        Vec2i {
            x: (spans_before(axis, items, items.len() as int) + gaps_total(
                items.len() as int,
                ctx.gap as int,
            ) + ctx.padding_main_start + ctx.padding_main_end) as i64,
            y: (cross_span_max(axis, items, items.len() as int) + ctx.padding_cross_start
                + ctx.padding_cross_end) as i64,
        }
    }

    fn place(&self, items: &mut Vec<SolverItem>, axis: &AxisHelper, ctx: &PlacementContext) -> (used:
        Vec2i) {
        let n: usize = items.len();
        let ghost orig = items@;
        let mut total_span: i64 = 0;
        let mut i: usize = 0;
        while i < n
            invariant
                i <= n,
                n == items.len(),
                n <= MAX_ITEMS,
                items@ == orig,
                forall|j: int| 0 <= j < orig.len() ==> (#[trigger] orig[j]).sized(),
                total_span == spans_before(axis, orig, i as int),
                0 <= total_span <= i * 3_221_225_472,
            decreases n - i,
        {
            let (child_main, _) = axis.from_world(items[i].result.size);
            let (ms, me, _, _) = axis.extract_margin_sides(items[i].margin);
            assert(orig[i as int].sized());
            total_span = total_span + (child_main + ms + me);
            i = i + 1;
        }
        let count: i64 = n as i64;
        let total_gap: i64 = if n > 1 {
            assert(0 <= (count - 1) * ctx.gap <= 65_536 * MAX_LENGTH) by (nonlinear_arith)
                requires
                    1 <= count <= 65_536,
                    0 <= ctx.gap <= MAX_LENGTH,
            ;
            (count - 1) * ctx.gap
        } else {
            0
        };
        let content_space: i64 = ctx.container_main_size - ctx.padding_main_start
            - ctx.padding_main_end;
        let free: i64 = max_i64(content_space - total_span - total_gap, 0);
        let lead: i64 = match ctx.justify_content {
            UJustifyContent::Center => free / 2,
            UJustifyContent::End => free,
            UJustifyContent::SpaceEvenly => free / (count + 1),
            UJustifyContent::SpaceAround => if n > 0 {
                free / count / 2
            } else {
                0
            },
            _ => 0,
        };
        let extra: i64 = match ctx.justify_content {
            UJustifyContent::SpaceBetween => if n > 1 {
                free / (count - 1)
            } else {
                0
            },
            UJustifyContent::SpaceEvenly => free / (count + 1),
            UJustifyContent::SpaceAround => if n > 0 {
                free / count
            } else {
                0
            },
            _ => 0,
        };
        proof {
            lemma_share_of_free(free as int, count + 1);
            if n > 0 {
                lemma_share_of_free(free as int, count as int);
                lemma_share_of_free(free as int / count as int, 2);
            }
            if n > 1 {
                lemma_share_of_free(free as int, count - 1);
            }
            lemma_share_of_free(free as int, 2);
        }
        let step: i64 = match ctx.justify_content {
            UJustifyContent::SpaceEvenly | UJustifyContent::SpaceAround => extra,
            _ => ctx.gap + extra,
        };
        assert(free == flow_free(axis, orig, ctx));
        assert(lead == flow_lead(ctx.justify_content, free as int, n as int));
        assert(extra == flow_extra(ctx.justify_content, free as int, n as int));
        assert(step == flow_step(ctx, free as int, n as int));
        let mut cursor: i64 = ctx.padding_main_start + lead;
        let mut max_cross_used: i64 = 0;
        let mut k: usize = 0;
        while k < n
            invariant
                k <= n,
                n == items.len(),
                n == orig.len(),
                n <= MAX_ITEMS,
                ctx.valid(),
                forall|j: int| 0 <= j < orig.len() ==> (#[trigger] orig[j]).sized(),
                forall|j: int| 0 <= j < k ==> items@[j] == flow_item(axis, orig, ctx, j),
                forall|j: int| k <= j < n ==> items@[j] == orig[j],
                forall|j: int| 0 <= j < k ==> (#[trigger] items@[j]).sized(),
                free == flow_free(axis, orig, ctx),
                lead == flow_lead(ctx.justify_content, free as int, n as int),
                step == flow_step(ctx, free as int, n as int),
                0 <= lead <= MAX_LENGTH,
                0 <= step <= 2 * MAX_LENGTH,
                cursor == ctx.padding_main_start + lead + spans_before(axis, orig, k as int) + k
                    * step,
                max_cross_used == cross_span_max(axis, orig, k as int),
            decreases n - k,
        {
            let item = items[k];
            assert(item == orig[k as int]);
            assert(orig[k as int].sized());
            proof {
                lemma_spans_bounds(axis, orig, k as int, k as int + 1);
                assert(0 <= k * step <= 65_536 * (2 * MAX_LENGTH)) by (nonlinear_arith)
                    requires
                        0 <= k <= 65_536,
                        0 <= step <= 2 * MAX_LENGTH,
                ;
                assert((k + 1) * step == k * step + step) by (nonlinear_arith);
            }
            let (child_main, child_cross) = axis.from_world(item.result.size);
            let (ms, me, mcs, mce) = axis.extract_margin_sides(item.margin);
            let pos_cross = calculate_cross_pos_with_margin(
                child_cross,
                ctx,
                item.spec.align_self,
                mcs,
                mce,
            );
            let pos_main: i64 = cursor + ms;
            let mut moved = item;
            moved.result.pos = axis.to_world(pos_main, pos_cross);
            items.set(k, moved);
            max_cross_used = max_i64(max_cross_used, child_cross + mcs + mce);
            cursor = cursor + (ms + child_main + me) + step;
            k = k + 1;
        }
        proof {
            lemma_spans_bounds(axis, orig, n as int, n as int);
            assert(items@ =~= self.placed(orig, axis, ctx));
        }
        Vec2i::new(
            total_span + total_gap + ctx.padding_main_start + ctx.padding_main_end,
            max_cross_used + ctx.padding_cross_start + ctx.padding_cross_end,
        )
    }
}

/// A whole part of a non-negative amount is non-negative and no larger.
pub proof fn lemma_share_of_free(free: int, parts: int)
    requires
        0 <= free,
        0 < parts,
    ensures
        0 <= free / parts <= free,
{
    vstd::arithmetic::div_mod::lemma_div_pos_is_pos(free, parts);
    vstd::arithmetic::div_mod::lemma_div_is_ordered_by_denominator(free, 1, parts);
    vstd::arithmetic::div_mod::lemma_div_basics(free);
}

} // verus!
