//! The radial strategy: items centred on points around a circle.
//!
//! The directions of the points are handed in, one for each item, as pairs
//! scaled by [`SPOKE_UNIT`]. For an even ring starting at the top, item `i`
//! of `n` has the direction of the angle `i / n` of a full turn, measured
//! clockwise from straight up.

use vstd::prelude::*;
use crate::bridge::{placement_ready, LayoutPlacer};
use crate::geometry::AxisHelper;
use crate::solver::{PlacementContext, SolverItem};
use crate::units::{div_floor, max_i64, max_of, min_i64, min_of, Vec2i, MAX_ITEMS, MAX_LENGTH};

verus! {

/// The length of a direction that reaches the circle.
pub const SPOKE_UNIT: i64 = 65_536;

/// A container narrower than this on either axis gets an estimated radius.
pub const RADIAL_SMALL_CONTAINER: i64 = 50;

/// Distance kept between the circle and the container's nearer edge.
pub const RADIAL_INSET: i64 = 20;

/// The smallest estimated radius.
pub const RADIAL_MIN_RADIUS: i64 = 100;

/// The size an item gets on an axis on which it has none.
pub const RADIAL_DEFAULT_SIZE: i64 = 50;

/// A direction whose parts are at most the unit either way.
pub open spec fn valid_spoke(s: Vec2i) -> bool {
    &&& -SPOKE_UNIT <= s.x <= SPOKE_UNIT
    &&& -SPOKE_UNIT <= s.y <= SPOKE_UNIT
}

/// Whether every direction of the list is valid.
pub fn spokes_ok(spokes: &Vec<Vec2i>) -> (ok: bool)
    ensures
        ok == forall|i: int| 0 <= i < spokes@.len() ==> valid_spoke(#[trigger] spokes@[i]),
{
    let mut i: usize = 0;
    while i < spokes.len()
        invariant
            i <= spokes@.len(),
            forall|j: int| 0 <= j < i ==> valid_spoke(#[trigger] spokes@[j]),
        decreases spokes@.len() - i,
    {
        let s = spokes[i];
        if !(-SPOKE_UNIT <= s.x && s.x <= SPOKE_UNIT && -SPOKE_UNIT <= s.y && s.y <= SPOKE_UNIT) {
            return false;
        }
        i = i + 1;
    }
    true
}

/// Main-axis sizes of the first `k` items, added up.
pub open spec fn sizes_before(axis: &AxisHelper, items: Seq<SolverItem>, k: int) -> int
    decreases k,
{
    if k <= 0 {
        0
    } else {
        sizes_before(axis, items, k - 1) + axis.main_of(items[k - 1].result.size)
    }
}

/// Radius of the circle. A container of at least the small size on both
/// axes gives half its shorter side less the inset; a smaller one gives the
/// radius of a circle one and a half times as long as the items in a row
/// (with 355 / 113 for the ratio of a circle to its diameter), and at least
/// the minimum.
pub open spec fn radial_radius(axis: &AxisHelper, items: Seq<SolverItem>, ctx: &PlacementContext) -> int {
    let shorter = min_of(ctx.container_main_size as int, ctx.container_cross_size as int);
    if shorter < RADIAL_SMALL_CONTAINER {
        max_of(sizes_before(axis, items, items.len() as int) * 339 / 1420, RADIAL_MIN_RADIUS as int)
    } else {
        shorter / 2 - RADIAL_INSET
    }
}

/// The size an item has on the ring: its own, or the default on an axis on
/// which it has none.
pub open spec fn radial_size(item: SolverItem) -> Vec2i {
    Vec2i {
        x: if item.result.size.x == 0 {
            RADIAL_DEFAULT_SIZE
        } else {
            item.result.size.x
        },
        y: if item.result.size.y == 0 {
            RADIAL_DEFAULT_SIZE
        } else {
            item.result.size.y
        },
    }
}

/// One coordinate of an item's corner with the circle's centre as origin:
/// the item is centred on the point its direction gives. `cross` selects
/// the cross axis.
pub open spec fn radial_raw(
    axis: &AxisHelper,
    items: Seq<SolverItem>,
    ctx: &PlacementContext,
    spokes: Seq<Vec2i>,
    k: int,
    cross: bool,
) -> int {
    let radius = radial_radius(axis, items, ctx);
    let size = radial_size(items[k]);
    if cross {
        radius * axis.cross_of(spokes[k]) / (SPOKE_UNIT as int) - axis.cross_of(size) / 2
    } else {
        radius * axis.main_of(spokes[k]) / (SPOKE_UNIT as int) - axis.main_of(size) / 2
    }
}

/// The far edge of an item along one axis, with the centre as origin.
pub open spec fn radial_far(
    axis: &AxisHelper,
    items: Seq<SolverItem>,
    ctx: &PlacementContext,
    spokes: Seq<Vec2i>,
    k: int,
    cross: bool,
) -> int {
    radial_raw(axis, items, ctx, spokes, k, cross) + (if cross {
        axis.cross_of(radial_size(items[k]))
    } else {
        axis.main_of(radial_size(items[k]))
    })
}

/// The least near edge among the first `k` items.
pub open spec fn radial_low(
    axis: &AxisHelper,
    items: Seq<SolverItem>,
    ctx: &PlacementContext,
    spokes: Seq<Vec2i>,
    k: int,
    cross: bool,
) -> int
    decreases k,
{
    if k <= 1 {
        radial_raw(axis, items, ctx, spokes, 0, cross)
    } else {
        min_of(
            radial_low(axis, items, ctx, spokes, k - 1, cross),
            radial_raw(axis, items, ctx, spokes, k - 1, cross),
        )
    }
}

/// The greatest far edge among the first `k` items.
pub open spec fn radial_high(
    axis: &AxisHelper,
    items: Seq<SolverItem>,
    ctx: &PlacementContext,
    spokes: Seq<Vec2i>,
    k: int,
    cross: bool,
) -> int
    decreases k,
{
    if k <= 1 {
        radial_far(axis, items, ctx, spokes, 0, cross)
    } else {
        max_of(
            radial_high(axis, items, ctx, spokes, k - 1, cross),
            radial_far(axis, items, ctx, spokes, k - 1, cross),
        )
    }
}

/// Item `k` on the ring, with the ring moved so that its least edges lie at
/// the leading padding.
pub open spec fn radial_item(
    axis: &AxisHelper,
    items: Seq<SolverItem>,
    ctx: &PlacementContext,
    spokes: Seq<Vec2i>,
    k: int,
) -> SolverItem {
    let n = items.len() as int;
    items[k].boxed(
        radial_size(items[k]),
        axis.world(
            (radial_raw(axis, items, ctx, spokes, k, false) + ctx.padding_main_start - radial_low(
                axis,
                items,
                ctx,
                spokes,
                n,
                false,
            )) as i64,
            (radial_raw(axis, items, ctx, spokes, k, true) + ctx.padding_cross_start - radial_low(
                axis,
                items,
                ctx,
                spokes,
                n,
                true,
            )) as i64,
        ),
    )
}

/// Item `k` on the ring before the ring is moved.
pub open spec fn radial_unshifted(
    axis: &AxisHelper,
    items: Seq<SolverItem>,
    ctx: &PlacementContext,
    spokes: Seq<Vec2i>,
    k: int,
) -> SolverItem {
    items[k].boxed(
        radial_size(items[k]),
        axis.world(
            radial_raw(axis, items, ctx, spokes, k, false) as i64,
            radial_raw(axis, items, ctx, spokes, k, true) as i64,
        ),
    )
}

/// The largest radius that sized items in a valid context give.
pub open spec fn radius_limit() -> int {
    70_368_744_177_664
}

/// Sums of sizes are bounded, and so is the radius.
pub proof fn lemma_radius_bounds(axis: &AxisHelper, items: Seq<SolverItem>, ctx: &PlacementContext, k: int)
    requires
        placement_ready(items, ctx),
        0 <= k <= items.len(),
    ensures
        0 <= sizes_before(axis, items, k) <= k * 1_073_741_824,
        k == items.len() ==> 0 <= radial_radius(axis, items, ctx) <= radius_limit(),
    decreases k,
{
    if k > 0 {
        lemma_radius_bounds(axis, items, ctx, k - 1);
        assert(items[k - 1].sized());
    }
    if k == items.len() {
        let total = sizes_before(axis, items, k);
        vstd::arithmetic::div_mod::lemma_div_pos_is_pos(total * 339, 1420);
        vstd::arithmetic::div_mod::lemma_div_is_ordered(total * 339, total * 1420, 1420);
        vstd::arithmetic::div_mod::lemma_div_multiples_vanish(total, 1420);
    }
}

/// A radius scaled by one part of a direction stays within the radius.
pub proof fn lemma_scaled_bounds(radius: int, part: int)
    requires
        0 <= radius,
        -SPOKE_UNIT <= part <= SPOKE_UNIT,
    ensures
        -radius <= radius * part / (SPOKE_UNIT as int) <= radius,
        -radius * SPOKE_UNIT <= radius * part <= radius * SPOKE_UNIT,
{
    assert(-radius * SPOKE_UNIT <= radius * part <= radius * SPOKE_UNIT) by (nonlinear_arith)
        requires
            0 <= radius,
            -SPOKE_UNIT <= part <= SPOKE_UNIT,
    ;
    vstd::arithmetic::div_mod::lemma_div_is_ordered(
        radius * part,
        radius * SPOKE_UNIT,
        SPOKE_UNIT as int,
    );
    vstd::arithmetic::div_mod::lemma_div_is_ordered(
        -radius * SPOKE_UNIT,
        radius * part,
        SPOKE_UNIT as int,
    );
    vstd::arithmetic::div_mod::lemma_div_multiples_vanish(radius, SPOKE_UNIT as int);
    vstd::arithmetic::div_mod::lemma_div_multiples_vanish(-radius, SPOKE_UNIT as int);
    assert(-radius * SPOKE_UNIT == (-radius) * SPOKE_UNIT) by (nonlinear_arith);
}

/// Arranges items around a circle.
pub struct RadialPlacer<'a> {
    /// The direction of each item's point, scaled by `SPOKE_UNIT`.
    pub spokes: &'a Vec<Vec2i>,
}

fn ring_offset(radius: i64, part: i64, extent: i64) -> (r: i64)
    requires
        0 <= radius <= radius_limit(),
        -SPOKE_UNIT <= part <= SPOKE_UNIT,
        0 <= extent <= MAX_LENGTH,
    ensures
        r == radius * part / (SPOKE_UNIT as int) - extent / 2,
        -2 * radius_limit() <= r <= radius_limit(),
{
    proof {
        lemma_scaled_bounds(radius as int, part as int);
    }
    div_floor(radius * part, SPOKE_UNIT) - extent / 2
}

fn default_if_none(extent: i64) -> (r: i64)
    ensures
        r == (if extent == 0 {
            RADIAL_DEFAULT_SIZE
        } else {
            extent
        }),
{
    if extent == 0 {
        RADIAL_DEFAULT_SIZE
    } else {
        extent
    }
}

impl<'a> LayoutPlacer for RadialPlacer<'a> {
    /// Besides sized items: a valid direction for each of them.
    open spec fn accepts(
        &self,
        items: Seq<SolverItem>,
        axis: &AxisHelper,
        ctx: &PlacementContext,
    ) -> bool {
        &&& placement_ready(items, ctx)
        &&& self.spokes@.len() >= items.len()
        &&& forall|i: int| 0 <= i < items.len() ==> valid_spoke(#[trigger] self.spokes@[i])
    }

    open spec fn placed(
        &self,
        items: Seq<SolverItem>,
        axis: &AxisHelper,
        ctx: &PlacementContext,
    ) -> Seq<SolverItem> {
        Seq::new(items.len(), |k: int| radial_item(axis, items, ctx, self.spokes@, k))
    }

    /// The tight box around all placed items, and the padding; nothing
    /// without items.
    open spec fn used(&self, items: Seq<SolverItem>, axis: &AxisHelper, ctx: &PlacementContext) -> Vec2i {
        if items.len() == 0 {
            Vec2i { x: 0, y: 0 }
        } else {
            let n = items.len() as int;
            Vec2i {
                x: (radial_high(axis, items, ctx, self.spokes@, n, false) - radial_low(
                    axis,
                    items,
                    ctx,
                    self.spokes@,
                    n,
                    false,
                ) + ctx.padding_main_start + ctx.padding_main_end) as i64,
                y: (radial_high(axis, items, ctx, self.spokes@, n, true) - radial_low(
                    axis,
                    items,
                    ctx,
                    self.spokes@,
                    n,
                    true,
                ) + ctx.padding_cross_start + ctx.padding_cross_end) as i64,
            }
        }
    }

    fn place(&self, items: &mut Vec<SolverItem>, axis: &AxisHelper, ctx: &PlacementContext) -> (used:
        Vec2i) {
        let n: usize = items.len();
        if n == 0 {
            return Vec2i::zero();
        }
        let ghost orig = items@;
        let ghost spokes = self.spokes@;
        let shorter: i64 = min_i64(ctx.container_main_size, ctx.container_cross_size);
        let radius: i64 = if shorter < RADIAL_SMALL_CONTAINER {
            let mut total: i64 = 0;
            let mut i: usize = 0;
            while i < n
                invariant
                    i <= n,
                    n == items.len(),
                    items@ == orig,
                    placement_ready(orig, ctx),
                    total == sizes_before(axis, orig, i as int),
                    0 <= total <= i * 1_073_741_824,
                decreases n - i,
            {
                assert(orig[i as int].sized());
                let (child_main, _) = axis.from_world(items[i].result.size);
                total = total + child_main;
                i = i + 1;
            }
            max_i64(total * 339 / 1420, RADIAL_MIN_RADIUS)
        } else {
            shorter / 2 - RADIAL_INSET
        };
        proof {
            lemma_radius_bounds(axis, orig, ctx, n as int);
        }
        assert(radius == radial_radius(axis, orig, ctx));
        let mut low_main: i64 = 0;
        let mut high_main: i64 = 0;
        let mut low_cross: i64 = 0;
        let mut high_cross: i64 = 0;
        let mut k: usize = 0;
        while k < n
            invariant
                k <= n,
                n == items.len(),
                n == orig.len(),
                spokes == self.spokes@,
                self.accepts(orig, axis, ctx),
                radius == radial_radius(axis, orig, ctx),
                0 <= radius <= radius_limit(),
                forall|j: int|
                    0 <= j < k ==> items@[j] == radial_unshifted(axis, orig, ctx, spokes, j),
                forall|j: int| k <= j < n ==> items@[j] == orig[j],
                forall|j: int| 0 <= j < k ==> (#[trigger] items@[j]).sized(),
                forall|j: int|
                    0 <= j < k ==> -2 * radius_limit() <= #[trigger] radial_raw(
                        axis,
                        orig,
                        ctx,
                        spokes,
                        j,
                        false,
                    ) <= 2 * radius_limit(),
                forall|j: int|
                    0 <= j < k ==> -2 * radius_limit() <= #[trigger] radial_raw(
                        axis,
                        orig,
                        ctx,
                        spokes,
                        j,
                        true,
                    ) <= 2 * radius_limit(),
                k > 0 ==> low_main == radial_low(axis, orig, ctx, spokes, k as int, false),
                k > 0 ==> high_main == radial_high(axis, orig, ctx, spokes, k as int, false),
                k > 0 ==> low_cross == radial_low(axis, orig, ctx, spokes, k as int, true),
                k > 0 ==> high_cross == radial_high(axis, orig, ctx, spokes, k as int, true),
                -2 * radius_limit() <= low_main <= 2 * radius_limit(),
                -2 * radius_limit() <= low_cross <= 2 * radius_limit(),
                -2 * radius_limit() <= high_main <= 2 * radius_limit(),
                -2 * radius_limit() <= high_cross <= 2 * radius_limit(),
                k > 0 ==> low_main <= high_main,
                k > 0 ==> low_cross <= high_cross,
            decreases n - k,
        {
            let item = items[k];
            assert(item == orig[k as int]);
            assert(orig[k as int].sized());
            let spoke = self.spokes[k];
            assert(valid_spoke(spokes[k as int]));
            let size = Vec2i::new(
                default_if_none(item.result.size.x),
                default_if_none(item.result.size.y),
            );
            assert(size == radial_size(orig[k as int]));
            let (size_main, size_cross) = axis.from_world(size);
            let (dir_main, dir_cross) = axis.from_world(spoke);
            let raw_main: i64 = ring_offset(radius, dir_main, size_main);
            let raw_cross: i64 = ring_offset(radius, dir_cross, size_cross);
            assert(raw_main == radial_raw(axis, orig, ctx, spokes, k as int, false));
            assert(raw_cross == radial_raw(axis, orig, ctx, spokes, k as int, true));
            if k == 0 {
                low_main = raw_main;
                high_main = raw_main + size_main;
                low_cross = raw_cross;
                high_cross = raw_cross + size_cross;
            } else {
                low_main = min_i64(low_main, raw_main);
                high_main = max_i64(high_main, raw_main + size_main);
                low_cross = min_i64(low_cross, raw_cross);
                high_cross = max_i64(high_cross, raw_cross + size_cross);
            }
            let mut boxed = item;
            boxed.result.size = size;
            boxed.result.pos = axis.to_world(raw_main, raw_cross);
            items.set(k, boxed);
            k = k + 1;
        }
        let shift_main: i64 = ctx.padding_main_start - low_main;
        let shift_cross: i64 = ctx.padding_cross_start - low_cross;
        let mut k: usize = 0;
        while k < n
            invariant
                k <= n,
                n == items.len(),
                n == orig.len(),
                spokes == self.spokes@,
                ctx.valid(),
                shift_main == ctx.padding_main_start - radial_low(
                    axis,
                    orig,
                    ctx,
                    spokes,
                    n as int,
                    false,
                ),
                shift_cross == ctx.padding_cross_start - radial_low(
                    axis,
                    orig,
                    ctx,
                    spokes,
                    n as int,
                    true,
                ),
                -3 * radius_limit() <= shift_main <= 3 * radius_limit(),
                -3 * radius_limit() <= shift_cross <= 3 * radius_limit(),
                forall|j: int|
                    0 <= j < n ==> -2 * radius_limit() <= #[trigger] radial_raw(
                        axis,
                        orig,
                        ctx,
                        spokes,
                        j,
                        false,
                    ) <= 2 * radius_limit(),
                forall|j: int|
                    0 <= j < n ==> -2 * radius_limit() <= #[trigger] radial_raw(
                        axis,
                        orig,
                        ctx,
                        spokes,
                        j,
                        true,
                    ) <= 2 * radius_limit(),
                forall|j: int| 0 <= j < k ==> items@[j] == radial_item(axis, orig, ctx, spokes, j),
                forall|j: int|
                    k <= j < n ==> items@[j] == radial_unshifted(axis, orig, ctx, spokes, j),
                forall|j: int| 0 <= j < n ==> (#[trigger] items@[j]).sized(),
            decreases n - k,
        {
            let item = items[k];
            assert(item == radial_unshifted(axis, orig, ctx, spokes, k as int));
            let (raw_main, raw_cross) = axis.from_world(item.result.pos);
            assert(raw_main == radial_raw(axis, orig, ctx, spokes, k as int, false));
            assert(raw_cross == radial_raw(axis, orig, ctx, spokes, k as int, true));
            let mut moved = item;
            moved.result.pos = axis.to_world(raw_main + shift_main, raw_cross + shift_cross);
            items.set(k, moved);
            k = k + 1;
        }
        proof {
            assert(items@ =~= self.placed(orig, axis, ctx));
        }
        Vec2i::new(
            high_main - low_main + ctx.padding_main_start + ctx.padding_main_end,
            high_cross - low_cross + ctx.padding_cross_start + ctx.padding_cross_end,
        )
    }
}

} // verus!
