//! The grid strategy: a fixed number of columns of square cells, filled row
//! by row.

use vstd::prelude::*;
use crate::bridge::{placement_ready, LayoutPlacer};
use crate::geometry::AxisHelper;
use crate::solver::{PlacementContext, SolverItem, SolverSizeMode};
use crate::units::{max_i64, max_of, Vec2i, MAX_ITEMS, MAX_LENGTH};

verus! {

/// Side of one cell where the content box is divided into `columns` columns
/// with a gap between neighbours; zero where the gaps alone overfill it.
pub open spec fn cell_size(ctx: &PlacementContext, columns: int) -> int {
    max_of(
        ctx.container_main_size - ctx.padding_main_start - ctx.padding_main_end - (columns - 1)
            * ctx.gap,
        0,
    ) / columns
}

/// Rows that `n` items fill in `columns` columns.
pub open spec fn grid_rows(n: int, columns: int) -> int {
    (n + columns - 1) / columns
}

/// Item `k` of a grid in its cell. It fills the cell less its margins, but
/// keeps its own cross size where that is fixed.
pub open spec fn grid_item(
    axis: &AxisHelper,
    items: Seq<SolverItem>,
    ctx: &PlacementContext,
    columns: int,
    k: int,
) -> SolverItem {
    let cell = cell_size(ctx, columns);
    let item = items[k];
    let (ms, me) = (axis.main_start(item.margin), axis.main_end(item.margin));
    let (mcs, mce) = (axis.cross_start(item.margin), axis.cross_end(item.margin));
    let w = max_of(cell - ms - me, 0);
    let h = if axis.cross_mode(item.spec) is Fixed {
        axis.cross_of(item.result.size) as int
    } else {
        max_of(cell - mcs - mce, 0)
    };
    item.boxed(
        axis.world(w as i64, h as i64),
        axis.world(
            (ctx.padding_main_start + (k % columns) * (cell + ctx.gap) + ms) as i64,
            (ctx.padding_cross_start + (k / columns) * (cell + ctx.gap) + mcs) as i64,
        ),
    )
}

/// Divides the main axis into `columns` columns and fills them row by row.
pub struct GridPlacer {
    pub columns: usize,
}

impl LayoutPlacer for GridPlacer {
    open spec fn accepts(
        &self,
        items: Seq<SolverItem>,
        axis: &AxisHelper,
        ctx: &PlacementContext,
    ) -> bool {
        placement_ready(items, ctx) && self.columns <= u32::MAX
    }

    /// Without columns or without items nothing is placed.
    open spec fn placed(
        &self,
        items: Seq<SolverItem>,
        axis: &AxisHelper,
        ctx: &PlacementContext,
    ) -> Seq<SolverItem> {
        if self.columns == 0 || items.len() == 0 {
            items
        } else {
            Seq::new(items.len(), |k: int| grid_item(axis, items, ctx, self.columns as int, k))
        }
    }

    /// The container's main size by the height of the rows, the gaps
    /// between them and the cross padding; nothing without columns or items.
    open spec fn used(&self, items: Seq<SolverItem>, axis: &AxisHelper, ctx: &PlacementContext) -> Vec2i {
        if self.columns == 0 || items.len() == 0 {
            Vec2i { x: 0, y: 0 }
        } else {
            let rows = grid_rows(items.len() as int, self.columns as int);
            Vec2i {
                x: ctx.container_main_size,
                y: (rows * cell_size(ctx, self.columns as int) + (rows - 1) * ctx.gap
                    + ctx.padding_cross_start + ctx.padding_cross_end) as i64,
            }
        }
    }

    fn place(&self, items: &mut Vec<SolverItem>, axis: &AxisHelper, ctx: &PlacementContext) -> (used:
        Vec2i) {
        let n: usize = items.len();
        if self.columns == 0 || n == 0 {
            return Vec2i::zero();
        }
        let ghost orig = items@;
        let cols: i64 = self.columns as i64;
        assert(0 <= (cols - 1) * ctx.gap <= 0x1_0000_0000 * MAX_LENGTH) by (nonlinear_arith)
            requires
                1 <= cols <= 0x1_0000_0000,
                0 <= ctx.gap <= MAX_LENGTH,
        ;
        let content: i64 = ctx.container_main_size - ctx.padding_main_start - ctx.padding_main_end;
        let room: i64 = max_i64(content - (cols - 1) * ctx.gap, 0);
        let cell: i64 = room / cols;
        proof {
            crate::display::lemma_share_of_free(room as int, cols as int);
        }
        assert(cell == cell_size(ctx, self.columns as int));
        let pitch: i64 = cell + ctx.gap;
        let mut k: usize = 0;
        while k < n
            invariant
                k <= n,
                n == items.len(),
                n == orig.len(),
                n <= MAX_ITEMS,
                ctx.valid(),
                0 < self.columns <= u32::MAX,
                cols == self.columns,
                forall|j: int| 0 <= j < orig.len() ==> (#[trigger] orig[j]).sized(),
                forall|j: int|
                    0 <= j < k ==> items@[j] == grid_item(axis, orig, ctx, self.columns as int, j),
                forall|j: int| k <= j < n ==> items@[j] == orig[j],
                forall|j: int| 0 <= j < k ==> (#[trigger] items@[j]).sized(),
                cell == cell_size(ctx, self.columns as int),
                0 <= cell <= MAX_LENGTH,
                pitch == cell + ctx.gap,
            decreases n - k,
        {
            let item = items[k];
            assert(item == orig[k as int]);
            assert(orig[k as int].sized());
            let col: i64 = (k % self.columns) as i64;
            let row: i64 = (k / self.columns) as i64;
            proof {
                vstd::arithmetic::div_mod::lemma_mod_bound(k as int, self.columns as int);
                vstd::arithmetic::div_mod::lemma_div_pos_is_pos(k as int, self.columns as int);
                vstd::arithmetic::div_mod::lemma_div_is_ordered_by_denominator(
                    k as int,
                    1,
                    self.columns as int,
                );
                vstd::arithmetic::div_mod::lemma_div_basics(k as int);
                vstd::arithmetic::div_mod::lemma_fundamental_div_mod(k as int, self.columns as int);
                assert(0 <= col <= k) by (nonlinear_arith)
                    requires
                        k == self.columns * row + col,
                        0 <= col,
                        0 <= row,
                        0 < self.columns,
                ;
                assert(0 <= col * pitch <= 65_536 * (2 * MAX_LENGTH)) by (nonlinear_arith)
                    requires
                        0 <= col <= 65_536,
                        0 <= pitch <= 2 * MAX_LENGTH,
                ;
                assert(0 <= row * pitch <= 65_536 * (2 * MAX_LENGTH)) by (nonlinear_arith)
                    requires
                        0 <= row <= 65_536,
                        0 <= pitch <= 2 * MAX_LENGTH,
                ;
            }
            let (_, child_cross) = axis.from_world(item.result.size);
            let (ms, me, mcs, mce) = axis.extract_margin_sides(item.margin);
            let (cross_mode, _, _) = axis.get_cross_spec(&item.spec);
            let target_w: i64 = max_i64(cell - ms - me, 0);
            let final_h: i64 = match cross_mode {
                SolverSizeMode::Fixed => child_cross,
                _ => max_i64(cell - mcs - mce, 0),
            };
            let mut boxed = item;
            boxed.result.size = axis.to_world(target_w, final_h);
            boxed.result.pos = axis.to_world(
                ctx.padding_main_start + col * pitch + ms,
                ctx.padding_cross_start + row * pitch + mcs,
            );
            items.set(k, boxed);
            k = k + 1;
        }
        let rows: i64 = ((n as u64 + self.columns as u64 - 1) / (self.columns as u64)) as i64;
        proof {
            let total = n as int + self.columns as int - 1;
            vstd::arithmetic::div_mod::lemma_div_pos_is_pos(total, self.columns as int);
            assert(total <= n as int * self.columns as int) by (nonlinear_arith)
                requires
                    total == n as int + self.columns as int - 1,
                    n >= 1,
                    self.columns >= 1,
            ;
            vstd::arithmetic::div_mod::lemma_div_is_ordered(
                total,
                n as int * self.columns as int,
                self.columns as int,
            );
            vstd::arithmetic::div_mod::lemma_div_multiples_vanish(n as int, self.columns as int);
            vstd::arithmetic::div_mod::lemma_div_is_ordered(
                self.columns as int,
                total,
                self.columns as int,
            );
            vstd::arithmetic::div_mod::lemma_div_basics(self.columns as int);
            assert(1 <= rows <= n);
            assert(0 <= rows * cell <= 65_536 * MAX_LENGTH) by (nonlinear_arith)
                requires
                    0 <= rows <= 65_536,
                    0 <= cell <= MAX_LENGTH,
            ;
            assert(0 <= (rows - 1) * ctx.gap <= 65_536 * MAX_LENGTH) by (nonlinear_arith)
                requires
                    1 <= rows <= 65_536,
                    0 <= ctx.gap <= MAX_LENGTH,
            ;
            assert(items@ =~= self.placed(orig, axis, ctx));
        }
        Vec2i::new(
            ctx.container_main_size,
            rows * cell + (rows - 1) * ctx.gap + ctx.padding_cross_start + ctx.padding_cross_end,
        )
    }
}

} // verus!
