//! The masonry strategy: a fixed number of columns, each item going to the
//! column that is shortest when its turn comes.

use vstd::prelude::*;
use crate::bridge::{placement_ready, LayoutPlacer};
use crate::geometry::AxisHelper;
use crate::grid::cell_size;
use crate::solver::{PlacementContext, SolverItem};
use crate::units::{max_i64, max_of, min_of, Vec2i, MAX_ITEMS, MAX_LENGTH};

verus! {

/// Columns whose height is tracked. A column beyond the number of items can
/// never be the first shortest one, so it stays empty and is left out.
pub open spec fn masonry_tracks(columns: int, n: int) -> int {
    min_of(columns, n)
}

/// Index of the first column among the first `m` that no other is shorter
/// than.
pub open spec fn first_shortest(h: Seq<int>, m: int) -> int
    decreases m,
{
    if m <= 1 {
        0
    } else {
        let a = first_shortest(h, m - 1);
        if h[m - 1] < h[a] {
            m - 1
        } else {
            a
        }
    }
}

/// Height of the tallest of the first `m` columns.
pub open spec fn tallest(h: Seq<int>, m: int) -> int
    decreases m,
{
    if m <= 1 {
        h[0]
    } else {
        max_of(tallest(h, m - 1), h[m - 1])
    }
}

/// Height of the shortest column.
pub open spec fn shortest(h: Seq<int>) -> int {
    h[first_shortest(h, h.len() as int)]
}

/// By how much an item raises its column: its cross size, both cross
/// margins and the gap.
pub open spec fn masonry_advance(axis: &AxisHelper, item: SolverItem, ctx: &PlacementContext) -> int {
    axis.cross_start(item.margin) + axis.cross_of(item.result.size) + axis.cross_end(item.margin)
        + ctx.gap
}

/// Heights of `tracked` columns after the first `k` items. Every column
/// starts at the leading cross padding.
pub open spec fn column_heights(
    axis: &AxisHelper,
    items: Seq<SolverItem>,
    ctx: &PlacementContext,
    lanes: int,
    k: int,
) -> Seq<int>
    decreases k,
{
    if k <= 0 {
        Seq::new(lanes as nat, |c: int| ctx.padding_cross_start as int)
    } else {
        let prev = column_heights(axis, items, ctx, lanes, k - 1);
        let c = first_shortest(prev, prev.len() as int);
        prev.update(c, prev[c] + masonry_advance(axis, items[k - 1], ctx))
    }
}

/// Heights of the tracked columns after the first `k` items.
pub open spec fn masonry_heights(
    axis: &AxisHelper,
    items: Seq<SolverItem>,
    ctx: &PlacementContext,
    columns: int,
    k: int,
) -> Seq<int> {
    column_heights(axis, items, ctx, masonry_tracks(columns, items.len() as int), k)
}

/// Item `k` of a masonry in its column: as wide as the column less its
/// margins, below what the column holds already.
pub open spec fn masonry_item(
    axis: &AxisHelper,
    items: Seq<SolverItem>,
    ctx: &PlacementContext,
    columns: int,
    k: int,
) -> SolverItem {
    let h = masonry_heights(axis, items, ctx, columns, k);
    let c = first_shortest(h, h.len() as int);
    let width = cell_size(ctx, columns);
    let item = items[k];
    let (ms, me) = (axis.main_start(item.margin), axis.main_end(item.margin));
    item.boxed(
        axis.world(max_of(width - ms - me, 0) as i64, axis.cross_of(item.result.size)),
        axis.world(
            (ctx.padding_main_start + c * (width + ctx.gap) + ms) as i64,
            (h[c] + axis.cross_start(item.margin)) as i64,
        ),
    )
}

/// The largest advance among the first `k` items, zero for none.
pub open spec fn advance_max(
    axis: &AxisHelper,
    items: Seq<SolverItem>,
    ctx: &PlacementContext,
    k: int,
) -> int
    decreases k,
{
    if k <= 0 {
        0
    } else {
        max_of(advance_max(axis, items, ctx, k - 1), masonry_advance(axis, items[k - 1], ctx))
    }
}

/// The first shortest column is a column, and none is shorter.
pub proof fn lemma_first_shortest(h: Seq<int>, m: int)
    requires
        1 <= m <= h.len(),
    ensures
        0 <= first_shortest(h, m) < m,
        forall|c: int| 0 <= c < m ==> h[first_shortest(h, m)] <= #[trigger] h[c],
        forall|c: int| 0 <= c < first_shortest(h, m) ==> h[first_shortest(h, m)] < #[trigger] h[c],
    decreases m,
{
    if m > 1 {
        lemma_first_shortest(h, m - 1);
    }
}

/// The tallest height is at least every column's, and is some column's.
pub proof fn lemma_tallest(h: Seq<int>, m: int)
    requires
        1 <= m <= h.len(),
    ensures
        forall|c: int| 0 <= c < m ==> #[trigger] h[c] <= tallest(h, m),
        exists|c: int| 0 <= c < m && #[trigger] h[c] == tallest(h, m),
    decreases m,
{
    if m > 1 {
        lemma_tallest(h, m - 1);
        let w = choose|c: int| 0 <= c < m - 1 && #[trigger] h[c] == tallest(h, m - 1);
        if h[m - 1] >= tallest(h, m - 1) {
            assert(h[m - 1] == tallest(h, m));
        } else {
            assert(h[w] == tallest(h, m));
        }
    } else {
        assert(h[0] == tallest(h, m));
    }
}

/// Heights stay one per tracked column, never drop below the leading
/// padding, and rise by at most one advance per item.
pub proof fn lemma_column_heights(
    axis: &AxisHelper,
    items: Seq<SolverItem>,
    ctx: &PlacementContext,
    lanes: int,
    k: int,
)
    requires
        placement_ready(items, ctx),
        lanes > 0,
        0 <= k <= items.len(),
    ensures
        column_heights(axis, items, ctx, lanes, k).len() == lanes,
        forall|c: int|
            0 <= c < lanes ==> ctx.padding_cross_start <= (#[trigger] column_heights(
                axis,
                items,
                ctx,
                lanes,
                k,
            )[c]) <= MAX_LENGTH + k * 4_294_967_296,
    decreases k,
{
    if k > 0 {
        lemma_column_heights(axis, items, ctx, lanes, k - 1);
        let prev = column_heights(axis, items, ctx, lanes, k - 1);
        lemma_first_shortest(prev, prev.len() as int);
        assert(items[k - 1].sized());
    }
}

/// The same of the tracked columns of a masonry.
pub proof fn lemma_masonry_heights(
    axis: &AxisHelper,
    items: Seq<SolverItem>,
    ctx: &PlacementContext,
    columns: int,
    k: int,
)
    requires
        placement_ready(items, ctx),
        columns > 0,
        0 <= k <= items.len(),
        items.len() > 0,
    ensures
        masonry_heights(axis, items, ctx, columns, k).len() == masonry_tracks(
            columns,
            items.len() as int,
        ),
        forall|c: int|
            0 <= c < masonry_tracks(columns, items.len() as int) ==> ctx.padding_cross_start <= (
            #[trigger] masonry_heights(axis, items, ctx, columns, k)[c]) <= MAX_LENGTH + k
                * 4_294_967_296,
{
    lemma_column_heights(axis, items, ctx, masonry_tracks(columns, items.len() as int), k);
}

/// The first shortest of the first `m` columns, where it lies among the
/// first `fewer`, is the first shortest of those.
pub proof fn lemma_first_shortest_prefix(h: Seq<int>, fewer: int, m: int)
    requires
        1 <= fewer <= m <= h.len(),
        first_shortest(h, m) < fewer,
    ensures
        first_shortest(h, fewer) == first_shortest(h, m),
    decreases m,
{
    if m > fewer {
        lemma_first_shortest(h, m - 1);
        lemma_first_shortest_prefix(h, fewer, m - 1);
    }
}

/// The first shortest column depends on the columns it is chosen from
/// alone.
pub proof fn lemma_first_shortest_alike(a: Seq<int>, b: Seq<int>, m: int)
    requires
        1 <= m <= a.len(),
        m <= b.len(),
        forall|c: int| 0 <= c < m ==> a[c] == b[c],
    ensures
        first_shortest(a, m) == first_shortest(b, m),
    decreases m,
{
    if m > 1 {
        lemma_first_shortest_alike(a, b, m - 1);
        lemma_first_shortest(a, m - 1);
    }
}

/// Columns beyond the number of items stay empty: with all `columns`
/// columns tracked, item `k` goes to one of the first `k + 1`, every later
/// column still stands at the leading padding, and the columns up to the
/// number of items have the heights they have when they alone are tracked.
/// No column then rises above the leading padding by more than the largest
/// advance of an item placed so far.
pub proof fn lemma_spare_columns_stay_empty(
    axis: &AxisHelper,
    items: Seq<SolverItem>,
    ctx: &PlacementContext,
    columns: int,
    k: int,
)
    requires
        placement_ready(items, ctx),
        columns > items.len() > 0,
        0 <= k <= items.len(),
    ensures
        forall|c: int|
            k <= c < columns ==> (#[trigger] column_heights(axis, items, ctx, columns, k)[c])
                == ctx.padding_cross_start,
        forall|c: int|
            0 <= c < items.len() ==> (#[trigger] column_heights(axis, items, ctx, columns, k)[c])
                == masonry_heights(axis, items, ctx, columns, k)[c],
        k < items.len() ==> first_shortest(
            column_heights(axis, items, ctx, columns, k),
            columns,
        ) == first_shortest(
            masonry_heights(axis, items, ctx, columns, k),
            masonry_tracks(columns, items.len() as int),
        ) && first_shortest(column_heights(axis, items, ctx, columns, k), columns) <= k,
        forall|c: int|
            0 <= c < columns ==> (#[trigger] column_heights(axis, items, ctx, columns, k)[c])
                <= ctx.padding_cross_start + advance_max(axis, items, ctx, k),
    decreases k,
{
    let n = items.len() as int;
    let all = column_heights(axis, items, ctx, columns, k);
    let some = masonry_heights(axis, items, ctx, columns, k);
    lemma_column_heights(axis, items, ctx, columns, k);
    lemma_column_heights(axis, items, ctx, n, k);
    if k > 0 {
        lemma_spare_columns_stay_empty(axis, items, ctx, columns, k - 1);
        lemma_column_heights(axis, items, ctx, columns, k - 1);
        lemma_column_heights(axis, items, ctx, n, k - 1);
        let all_before = column_heights(axis, items, ctx, columns, k - 1);
        let some_before = masonry_heights(axis, items, ctx, columns, k - 1);
        let at = first_shortest(all_before, columns);
        let advance = masonry_advance(axis, items[k - 1], ctx);
        lemma_first_shortest(all_before, columns);
        assert(at == first_shortest(some_before, n));
        assert(0 <= at <= k - 1);
        assert(all == all_before.update(at, all_before[at] + advance));
        assert(some == some_before.update(at, some_before[at] + advance));
        assert(all_before[at] == some_before[at]);
        assert forall|c: int| k <= c < columns implies (#[trigger] all[c])
            == ctx.padding_cross_start by {
            assert(all[c] == all_before[c]);
        }
        assert forall|c: int| 0 <= c < n implies (#[trigger] all[c]) == some[c] by {
            if c != at {
                assert(all[c] == all_before[c]);
                assert(some[c] == some_before[c]);
            }
        }
        assert(all_before[at] == ctx.padding_cross_start) by {
            assert(all_before[at] <= all_before[k - 1]);
            assert(all_before[k - 1] == ctx.padding_cross_start);
        }
        assert forall|c: int| 0 <= c < columns implies (#[trigger] all[c])
            <= ctx.padding_cross_start + advance_max(axis, items, ctx, k) by {
            if c != at {
                assert(all[c] == all_before[c]);
            }
        }
    } else {
        assert forall|c: int| 0 <= c < columns implies (#[trigger] all[c])
            == ctx.padding_cross_start by {}
        assert forall|c: int| 0 <= c < n implies (#[trigger] all[c]) == some[c] by {}
    }
    if k < n {
        lemma_first_shortest(all, columns);
        assert(all[k] == ctx.padding_cross_start);
        let at = first_shortest(all, columns);
        assert(at <= k) by {
            if at > k {
                assert(all[at] < all[k]);
            }
        }
        lemma_first_shortest_prefix(all, n, columns);
        lemma_first_shortest_alike(all, some, n);
    }
}



/// After any number of items, the tallest column is above the shortest by
/// no more than the largest advance of an item placed so far.
///
/// The advance of an item is its cross size with both margins and the gap.
/// The item's bare size is no bound: one item in two columns leaves them
/// apart by the item and the gap.
pub proof fn lemma_masonry_balance(
    axis: &AxisHelper,
    items: Seq<SolverItem>,
    ctx: &PlacementContext,
    columns: int,
    k: int,
)
    requires
        placement_ready(items, ctx),
        columns > 0,
        0 <= k <= items.len(),
        items.len() > 0,
    ensures
        tallest(
            masonry_heights(axis, items, ctx, columns, k),
            masonry_tracks(columns, items.len() as int),
        ) - shortest(masonry_heights(axis, items, ctx, columns, k)) <= advance_max(
            axis,
            items,
            ctx,
            k,
        ),
        advance_max(axis, items, ctx, k) >= 0,
    decreases k,
{
    let m = masonry_tracks(columns, items.len() as int);
    let now = masonry_heights(axis, items, ctx, columns, k);
    lemma_masonry_heights(axis, items, ctx, columns, k);
    lemma_first_shortest(now, m);
    lemma_tallest(now, m);
    if k > 0 {
        lemma_masonry_balance(axis, items, ctx, columns, k - 1);
        lemma_masonry_heights(axis, items, ctx, columns, k - 1);
        let prev = masonry_heights(axis, items, ctx, columns, k - 1);
        let c = first_shortest(prev, m);
        let adv = masonry_advance(axis, items[k - 1], ctx);
        assert(items[k - 1].sized());
        lemma_first_shortest(prev, m);
        lemma_tallest(prev, m);
        let top = choose|t: int| 0 <= t < m && #[trigger] now[t] == tallest(now, m);
        let low = first_shortest(now, m);
        assert(now[low] >= prev[low]);
        assert(prev[low] >= prev[c]);
        if top == c {
            assert(now[top] == prev[c] + adv);
        } else {
            assert(now[top] == prev[top]);
            assert(prev[top] <= tallest(prev, m));
        }
    } else {
        assert(now[first_shortest(now, m)] == ctx.padding_cross_start);
        let top = choose|t: int| 0 <= t < m && #[trigger] now[t] == tallest(now, m);
        assert(now[top] == ctx.padding_cross_start);
    }
}

fn shortest_column(heights: &Vec<i64>) -> (best: usize)
    requires
        heights.len() > 0,
    ensures
        best == first_shortest(heights@.map_values(|v: i64| v as int), heights.len() as int),
        best < heights.len(),
{
    let ghost h = heights@.map_values(|v: i64| v as int);
    let mut best: usize = 0;
    let mut c: usize = 1;
    while c < heights.len()
        invariant
            1 <= c <= heights.len(),
            best < c,
            h == heights@.map_values(|v: i64| v as int),
            best == first_shortest(h, c as int),
        decreases heights.len() - c,
    {
        assert(h[c as int] == heights[c as int]);
        assert(h[best as int] == heights[best as int]);
        if heights[c] < heights[best] {
            best = c;
        }
        c = c + 1;
    }
    best
}

fn tallest_column(heights: &Vec<i64>) -> (top: i64)
    requires
        heights.len() > 0,
    ensures
        top == tallest(heights@.map_values(|v: i64| v as int), heights.len() as int),
{
    let ghost h = heights@.map_values(|v: i64| v as int);
    let mut top: i64 = heights[0];
    let mut c: usize = 1;
    assert(h[0] == heights[0]);
    while c < heights.len()
        invariant
            1 <= c <= heights.len(),
            h == heights@.map_values(|v: i64| v as int),
            top == tallest(h, c as int),
        decreases heights.len() - c,
    {
        assert(h[c as int] == heights[c as int]);
        top = max_i64(top, heights[c]);
        c = c + 1;
    }
    top
}

/// Packs items into columns, each into the shortest one.
pub struct MasonryPlacer {
    pub columns: usize,
}

impl LayoutPlacer for MasonryPlacer {
    open spec fn accepts(
        &self,
        items: Seq<SolverItem>,
        axis: &AxisHelper,
        ctx: &PlacementContext,
    ) -> bool {
        placement_ready(items, ctx) && self.columns <= u32::MAX
    }

    /// Without columns or without items nothing is placed.
    open spec fn placed(
        &self,
        items: Seq<SolverItem>,
        axis: &AxisHelper,
        ctx: &PlacementContext,
    ) -> Seq<SolverItem> {
        if self.columns == 0 || items.len() == 0 {
            items
        } else {
            Seq::new(items.len(), |k: int| masonry_item(axis, items, ctx, self.columns as int, k))
        }
    }

    /// The container's main size by the tallest column and the trailing
    /// cross padding; nothing without columns or items.
    open spec fn used(&self, items: Seq<SolverItem>, axis: &AxisHelper, ctx: &PlacementContext) -> Vec2i {
        if self.columns == 0 || items.len() == 0 {
            Vec2i { x: 0, y: 0 }
        } else {
            Vec2i {
                x: ctx.container_main_size,
                y: (tallest(
                    masonry_heights(axis, items, ctx, self.columns as int, items.len() as int),
                    masonry_tracks(self.columns as int, items.len() as int),
                ) + ctx.padding_cross_end) as i64,
            }
        }
    }

    fn place(&self, items: &mut Vec<SolverItem>, axis: &AxisHelper, ctx: &PlacementContext) -> (used:
        Vec2i) {
        let n: usize = items.len();
        if self.columns == 0 || n == 0 {
            return Vec2i::zero();
        }
        let ghost orig = items@;
        let ghost columns = self.columns as int;
        let cols: i64 = self.columns as i64;
        assert(0 <= (cols - 1) * ctx.gap <= 0x1_0000_0000 * MAX_LENGTH) by (nonlinear_arith)
            requires
                1 <= cols <= 0x1_0000_0000,
                0 <= ctx.gap <= MAX_LENGTH,
        ;
        let content: i64 = ctx.container_main_size - ctx.padding_main_start - ctx.padding_main_end;
        let room: i64 = max_i64(content - (cols - 1) * ctx.gap, 0);
        let width: i64 = room / cols;
        proof {
            crate::display::lemma_share_of_free(room as int, cols as int);
        }
        let pitch: i64 = width + ctx.gap;
        let tracks: usize = if self.columns < n {
            self.columns
        } else {
            n
        };
        let mut heights: Vec<i64> = Vec::new();
        let mut c: usize = 0;
        while c < tracks
            invariant
                c <= tracks,
                heights.len() == c,
                forall|j: int| 0 <= j < c ==> heights@[j] == ctx.padding_cross_start,
            decreases tracks - c,
        {
            heights.push(ctx.padding_cross_start);
            c = c + 1;
        }
        assert(heights@.map_values(|v: i64| v as int) =~= masonry_heights(
            axis,
            orig,
            ctx,
            columns,
            0,
        ));
        let mut k: usize = 0;
        while k < n
            invariant
                k <= n,
                n == items.len(),
                n == orig.len(),
                0 < n <= MAX_ITEMS,
                placement_ready(orig, ctx),
                0 < self.columns <= u32::MAX,
                columns == self.columns,
                tracks == masonry_tracks(columns, n as int),
                heights.len() == tracks,
                heights@.map_values(|v: i64| v as int) == masonry_heights(
                    axis,
                    orig,
                    ctx,
                    columns,
                    k as int,
                ),
                forall|j: int| 0 <= j < k ==> items@[j] == masonry_item(axis, orig, ctx, columns, j),
                forall|j: int| k <= j < n ==> items@[j] == orig[j],
                forall|j: int| 0 <= j < k ==> (#[trigger] items@[j]).sized(),
                width == cell_size(ctx, columns),
                0 <= width <= MAX_LENGTH,
                pitch == width + ctx.gap,
            decreases n - k,
        {
            let item = items[k];
            assert(item == orig[k as int]);
            assert(orig[k as int].sized());
            let ghost h = masonry_heights(axis, orig, ctx, columns, k as int);
            let at: usize = shortest_column(&heights);
            let current: i64 = heights[at];
            proof {
                lemma_masonry_heights(axis, orig, ctx, columns, k as int);
                lemma_masonry_heights(axis, orig, ctx, columns, k as int + 1);
                assert(h[at as int] == current);
                assert(0 <= at * pitch <= 65_536 * (2 * MAX_LENGTH)) by (nonlinear_arith)
                    requires
                        0 <= at <= 65_536,
                        0 <= pitch <= 2 * MAX_LENGTH,
                ;
            }
            let (_, child_cross) = axis.from_world(item.result.size);
            let (ms, me, mcs, mce) = axis.extract_margin_sides(item.margin);
            let mut boxed = item;
            boxed.result.pos = axis.to_world(
                ctx.padding_main_start + (at as i64) * pitch + ms,
                current + mcs,
            );
            boxed.result.size = axis.to_world(max_i64(width - ms - me, 0), child_cross);
            items.set(k, boxed);
            let raised: i64 = current + (mcs + child_cross + mce + ctx.gap);
            heights.set(at, raised);
            assert(heights@.map_values(|v: i64| v as int) =~= masonry_heights(
                axis,
                orig,
                ctx,
                columns,
                k as int + 1,
            ));
            k = k + 1;
        }
        let top: i64 = tallest_column(&heights);
        proof {
            lemma_masonry_heights(axis, orig, ctx, columns, n as int);
            let h = masonry_heights(axis, orig, ctx, columns, n as int);
            lemma_tallest(h, tracks as int);
            assert(items@ =~= self.placed(orig, axis, ctx));
        }
        Vec2i::new(ctx.container_main_size, top + ctx.padding_cross_end)
    }
}

} // verus!
