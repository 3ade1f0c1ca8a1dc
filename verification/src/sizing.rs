//! Sizes of the in-flow children: base sizes and growth along the main
//! axis, declared or stretched sizes along the cross axis.

use vstd::prelude::*;
use crate::display::{cross_span_max, gaps_total, lemma_spans_bounds};
use crate::flex::{flex_share, flex_share_of, lemma_flex_share_bounds};
use crate::geometry::{lemma_percent_bounds, scale_percent, AxisHelper};
use crate::solver::{SolverItem, SolverSizeMode};
use crate::units::{is_length, max_i64, max_of, percent_of, Vec2i, MAX_ITEMS, MAX_LENGTH};
use crate::univis_node::{UAlignItems, UAlignSelf};

verus! {

/// Size on the main axis before growth: the declared pixels, the declared
/// share of the available space, the measured content, or nothing for a
/// growing item.
pub open spec fn base_size(mode: SolverSizeMode, val: int, available: int) -> int {
    match mode {
        SolverSizeMode::Fixed => val,
        SolverSizeMode::Percent => percent_of(val, available),
        SolverSizeMode::Flex => 0,
        SolverSizeMode::Content => val,
        SolverSizeMode::Auto => val,
    }
}

/// Base size of an item on the main axis.
pub open spec fn main_base(axis: &AxisHelper, item: SolverItem, available: int) -> int {
    base_size(axis.main_mode(item.spec), axis.main_val(item.spec) as int, available)
}

/// Growth factor of an item: its declared factor where its main-axis mode
/// is `Flex`, none otherwise.
pub open spec fn grow_of(axis: &AxisHelper, item: SolverItem) -> int {
    if axis.main_mode(item.spec) is Flex {
        axis.main_flex(item.spec) as int
    } else {
        0
    }
}

/// Base sizes and main-axis margins of the first `k` items, added up.
pub open spec fn bases_before(axis: &AxisHelper, flow: Seq<SolverItem>, available: int, k: int) -> int
    decreases k,
{
    if k <= 0 {
        0
    } else {
        bases_before(axis, flow, available, k - 1) + main_base(axis, flow[k - 1], available)
            + axis.main_start(flow[k - 1].margin) + axis.main_end(flow[k - 1].margin)
    }
}

/// Growth factors of the first `k` items, added up.
pub open spec fn grow_before(axis: &AxisHelper, flow: Seq<SolverItem>, k: int) -> int
    decreases k,
{
    if k <= 0 {
        0
    } else {
        grow_before(axis, flow, k - 1) + grow_of(axis, flow[k - 1])
    }
}

/// Main-axis space taken before growth: base sizes, margins and gaps.
pub open spec fn main_consumed(axis: &AxisHelper, flow: Seq<SolverItem>, available: int, gap: int) -> int {
    bases_before(axis, flow, available, flow.len() as int) + gaps_total(flow.len() as int, gap)
}

/// Main-axis space left for growth, never negative.
pub open spec fn main_remaining(axis: &AxisHelper, flow: Seq<SolverItem>, available: int, gap: int) -> int {
    max_of(available - main_consumed(axis, flow, available, gap), 0)
}

/// Final main-axis size of item `k`: its base size and its share of the
/// remaining space.
pub open spec fn main_size(
    axis: &AxisHelper,
    flow: Seq<SolverItem>,
    available: int,
    gap: int,
    k: int,
) -> int {
    main_base(axis, flow[k], available) + flex_share(
        grow_before(axis, flow, k),
        grow_of(axis, flow[k]),
        grow_before(axis, flow, flow.len() as int),
        main_remaining(axis, flow, available, gap),
    )
}

/// Main-axis space taken after growth. Where any item grows, the items
/// take up all that remained.
pub open spec fn main_used(axis: &AxisHelper, flow: Seq<SolverItem>, available: int, gap: int) -> int {
    main_consumed(axis, flow, available, gap) + (if grow_before(axis, flow, flow.len() as int)
        > 0 {
        main_remaining(axis, flow, available, gap)
    } else {
        0
    })
}

/// Whether a child is stretched across the cross axis: by its own
/// alignment, or by the container's where it has none of its own.
pub open spec fn should_stretch(align_self: Option<UAlignSelf>, align_items: UAlignItems) -> bool {
    match align_self {
        None => align_items is Stretch,
        Some(UAlignSelf::Auto) => align_items is Stretch,
        Some(UAlignSelf::Stretch) => true,
        _ => false,
    }
}

/// Cross-axis size of an item: the available cross space less its margins
/// where it is stretched; otherwise as declared, a growing item taking all
/// of the available space.
pub open spec fn cross_size(
    axis: &AxisHelper,
    item: SolverItem,
    available: int,
    align_items: UAlignItems,
) -> int {
    if should_stretch(item.spec.align_self, align_items) {
        max_of(available - axis.cross_start(item.margin) - axis.cross_end(item.margin), 0)
    } else {
        match axis.cross_mode(item.spec) {
            SolverSizeMode::Fixed => axis.cross_val(item.spec) as int,
            SolverSizeMode::Percent => percent_of(axis.cross_val(item.spec) as int, available),
            SolverSizeMode::Flex => available,
            SolverSizeMode::Content => axis.cross_val(item.spec) as int,
            SolverSizeMode::Auto => axis.cross_val(item.spec) as int,
        }
    }
}

/// Item `k` with its main-axis size and no cross size yet.
pub open spec fn main_sized_item(
    axis: &AxisHelper,
    flow: Seq<SolverItem>,
    available: int,
    gap: int,
    k: int,
) -> SolverItem {
    flow[k].boxed(axis.world(main_size(axis, flow, available, gap, k) as i64, 0), flow[k].result.pos)
}

/// An item with its cross-axis size beside the main-axis size it has.
pub open spec fn cross_sized_item(
    axis: &AxisHelper,
    item: SolverItem,
    available: int,
    align_items: UAlignItems,
) -> SolverItem {
    item.boxed(
        axis.world(
            axis.main_of(item.result.size),
            cross_size(axis, item, available, align_items) as i64,
        ),
        item.result.pos,
    )
}

/// Sums of base sizes and growth factors are bounded.
pub proof fn lemma_bases_bounds(axis: &AxisHelper, flow: Seq<SolverItem>, available: int, j: int, k: int)
    requires
        forall|i: int| 0 <= i < flow.len() ==> (#[trigger] flow[i]).valid(),
        is_length(available),
        0 <= j <= k <= flow.len(),
    ensures
        0 <= bases_before(axis, flow, available, j) <= bases_before(axis, flow, available, k) <= k
            * 3_221_225_472,
        0 <= grow_before(axis, flow, j) <= grow_before(axis, flow, k) <= k * 0xffff_ffff,
    decreases j + k,
{
    if k > j {
        lemma_bases_bounds(axis, flow, available, j, k - 1);
        lemma_base_bounds(axis, flow[k - 1], available);
    } else if j > 0 {
        lemma_bases_bounds(axis, flow, available, j - 1, j - 1);
        lemma_base_bounds(axis, flow[j - 1], available);
    }
}

/// The base size of a valid item is a length, and a growing item has none.
pub proof fn lemma_base_bounds(axis: &AxisHelper, item: SolverItem, available: int)
    requires
        item.valid(),
        is_length(available),
    ensures
        0 <= main_base(axis, item, available) <= MAX_LENGTH,
        grow_of(axis, item) > 0 ==> main_base(axis, item, available) == 0,
        0 <= grow_of(axis, item) <= 0xffff_ffff,
{
    if axis.main_mode(item.spec) is Percent {
        lemma_percent_bounds(axis.main_val(item.spec) as int, available);
    }
}

/// The final main-axis size of a valid item is a length.
pub proof fn lemma_main_size_bounds(
    axis: &AxisHelper,
    flow: Seq<SolverItem>,
    available: int,
    gap: int,
    k: int,
)
    requires
        forall|i: int| 0 <= i < flow.len() ==> (#[trigger] flow[i]).valid(),
        is_length(available),
        is_length(gap),
        0 <= k < flow.len(),
    ensures
        0 <= main_size(axis, flow, available, gap, k) <= MAX_LENGTH,
{
    lemma_base_bounds(axis, flow[k], available);
    lemma_bases_bounds(axis, flow, available, k, k + 1);
    lemma_bases_bounds(axis, flow, available, k + 1, flow.len() as int);
    lemma_bases_bounds(axis, flow, available, 0, flow.len() as int);
    assert((flow.len() - 1) * gap >= 0) by (nonlinear_arith)
        requires
            flow.len() >= 1,
            gap >= 0,
    ;
    lemma_flex_share_bounds(
        grow_before(axis, flow, k),
        grow_of(axis, flow[k]),
        grow_before(axis, flow, flow.len() as int),
        main_remaining(axis, flow, available, gap),
    );
}

/// The cross-axis size of a valid item is a length.
pub proof fn lemma_cross_size_bounds(
    axis: &AxisHelper,
    item: SolverItem,
    available: int,
    align_items: UAlignItems,
)
    requires
        item.valid(),
        is_length(available),
    ensures
        0 <= cross_size(axis, item, available, align_items) <= MAX_LENGTH,
{
    if axis.cross_mode(item.spec) is Percent {
        lemma_percent_bounds(axis.cross_val(item.spec) as int, available);
    }
}

/// What the first `k` items gain by growth, added up.
pub open spec fn growth_before(
    axis: &AxisHelper,
    flow: Seq<SolverItem>,
    available: int,
    gap: int,
    k: int,
) -> int
    decreases k,
{
    if k <= 0 {
        0
    } else {
        growth_before(axis, flow, available, gap, k - 1) + (main_size(
            axis,
            flow,
            available,
            gap,
            k - 1,
        ) - main_base(axis, flow[k - 1], available))
    }
}

/// The first `k` items together gain the rounded-down share of their
/// growth factors in the remaining space.
pub proof fn lemma_growth_telescopes(
    axis: &AxisHelper,
    flow: Seq<SolverItem>,
    available: int,
    gap: int,
    k: int,
)
    requires
        0 <= k <= flow.len(),
        grow_before(axis, flow, flow.len() as int) > 0,
    ensures
        growth_before(axis, flow, available, gap, k) == grow_before(axis, flow, k)
            * main_remaining(axis, flow, available, gap) / grow_before(
            axis,
            flow,
            flow.len() as int,
        ),
    decreases k,
{
    let total = grow_before(axis, flow, flow.len() as int);
    let remaining = main_remaining(axis, flow, available, gap);
    if k > 0 {
        lemma_growth_telescopes(axis, flow, available, gap, k - 1);
    } else {
        assert(0 * remaining == 0) by (nonlinear_arith);
        vstd::arithmetic::div_mod::lemma_div_basics(total);
    }
}

/// Growth conserves space: where the growth factors of the items add up to
/// more than nothing, what the items gain by growth adds up to exactly the
/// space that remained after base sizing.
pub proof fn lemma_growth_conserves_space(
    axis: &AxisHelper,
    flow: Seq<SolverItem>,
    available: int,
    gap: int,
)
    requires
        grow_before(axis, flow, flow.len() as int) > 0,
    ensures
        growth_before(axis, flow, available, gap, flow.len() as int) == main_remaining(
            axis,
            flow,
            available,
            gap,
        ),
        main_remaining(axis, flow, available, gap) >= 0,
{
    let total = grow_before(axis, flow, flow.len() as int);
    let remaining = main_remaining(axis, flow, available, gap);
    lemma_growth_telescopes(axis, flow, available, gap, flow.len() as int);
    assert(total * remaining == remaining * total) by (nonlinear_arith);
    vstd::arithmetic::div_mod::lemma_div_multiples_vanish(remaining, total);
}

fn base_size_of(mode: SolverSizeMode, val: i64, available: i64) -> (r: i64)
    requires
        crate::solver::valid_dimension(mode, val),
        is_length(available as int),
    ensures
        r == base_size(mode, val as int, available as int),
        0 <= r <= MAX_LENGTH,
{
    match mode {
        SolverSizeMode::Fixed => val,
        SolverSizeMode::Percent => scale_percent(val, available),
        SolverSizeMode::Flex => 0,
        SolverSizeMode::Content => val,
        SolverSizeMode::Auto => val,
    }
}

/// Gives every item its main-axis size and reports the main-axis space the
/// items take, margins and gaps included.
pub fn size_main_axis(flow: &mut Vec<SolverItem>, axis: &AxisHelper, available: i64, gap: i64) -> (used:
    i64)
    requires
        old(flow).len() <= MAX_ITEMS,
        forall|i: int| 0 <= i < old(flow).len() ==> (#[trigger] old(flow)@[i]).valid(),
        is_length(available as int),
        is_length(gap as int),
    ensures
        final(flow)@ == Seq::new(
            old(flow)@.len(),
            |k: int| main_sized_item(axis, old(flow)@, available as int, gap as int, k),
        ),
        used == main_used(axis, old(flow)@, available as int, gap as int),
        0 <= used <= 0x1_0000_0000_0000,
        forall|k: int|
            0 <= k < old(flow)@.len() ==> 0 <= #[trigger] main_size(
                axis,
                old(flow)@,
                available as int,
                gap as int,
                k,
            ) <= MAX_LENGTH,
{
    let n: usize = flow.len();
    let ghost orig = flow@;
    let mut consumed: i64 = 0;
    let mut total_grow: u64 = 0;
    let mut i: usize = 0;
    while i < n
        invariant
            i <= n,
            n == flow.len(),
            n <= MAX_ITEMS,
            flow@ == orig,
            forall|j: int| 0 <= j < orig.len() ==> (#[trigger] orig[j]).valid(),
            is_length(available as int),
            consumed == bases_before(axis, orig, available as int, i as int),
            total_grow == grow_before(axis, orig, i as int),
            0 <= consumed <= i * 3_221_225_472,
            0 <= total_grow <= i * 0xffff_ffff,
        decreases n - i,
    {
        assert(orig[i as int].valid());
        let (ms, me, _, _) = axis.extract_margin_sides(flow[i].margin);
        let (mode, val, factor) = axis.get_main_spec(&flow[i].spec);
        let base = base_size_of(mode, val, available);
        consumed = consumed + base + ms + me;
        match mode {
            SolverSizeMode::Flex => {
                total_grow = total_grow + factor as u64;
            },
            _ => {},
        }
        i = i + 1;
    }
    let count: i64 = n as i64;
    if n > 1 {
        assert(0 <= (count - 1) * gap <= 65_536 * MAX_LENGTH) by (nonlinear_arith)
            requires
                1 <= count <= 65_536,
                0 <= gap <= MAX_LENGTH,
        ;
        consumed = consumed + (count - 1) * gap;
    }
    assert(consumed == main_consumed(axis, orig, available as int, gap as int));
    let remaining: i64 = max_i64(available - consumed, 0);
    let mut before: u64 = 0;
    let mut added: i64 = 0;
    let mut k: usize = 0;
    while k < n
        invariant
            k <= n,
            n == flow.len(),
            n == orig.len(),
            n <= MAX_ITEMS,
            forall|j: int| 0 <= j < orig.len() ==> (#[trigger] orig[j]).valid(),
            is_length(available as int),
            remaining == main_remaining(axis, orig, available as int, gap as int),
            0 <= remaining <= MAX_LENGTH,
            total_grow == grow_before(axis, orig, n as int),
            before == grow_before(axis, orig, k as int),
            total_grow > 0 ==> added == before * remaining / (total_grow as int),
            total_grow == 0 ==> added == 0,
            0 <= added <= remaining,
            forall|j: int|
                0 <= j < k ==> flow@[j] == main_sized_item(
                    axis,
                    orig,
                    available as int,
                    gap as int,
                    j,
                ),
            forall|j: int| k <= j < n ==> flow@[j] == orig[j],
        decreases n - k,
    {
        assert(orig[k as int].valid());
        let item = flow[k];
        let (mode, val, factor) = axis.get_main_spec(&item.spec);
        let grow: u32 = match mode {
            SolverSizeMode::Flex => factor,
            _ => 0,
        };
        proof {
            lemma_bases_bounds(axis, orig, available as int, k as int, k as int + 1);
            lemma_bases_bounds(axis, orig, available as int, k as int + 1, n as int);
            lemma_base_bounds(axis, orig[k as int], available as int);
            lemma_flex_share_bounds(
                before as int,
                grow as int,
                total_grow as int,
                remaining as int,
            );
            if total_grow == 0 {
                assert(0 * (remaining as int) == 0) by (nonlinear_arith);
            }
        }
        let base = base_size_of(mode, val, available);
        let share = flex_share_of(before, grow, total_grow, remaining);
        let mut sized = item;
        sized.result.size = axis.to_world(base + share, 0);
        flow.set(k, sized);
        before = before + grow as u64;
        added = added + share;
        k = k + 1;
    }
    proof {
        if total_grow > 0 {
            assert((total_grow as int) * (remaining as int) == (remaining as int) * (
            total_grow as int)) by (nonlinear_arith);
            vstd::arithmetic::div_mod::lemma_div_multiples_vanish(
                remaining as int,
                total_grow as int,
            );
        }
        assert(flow@ =~= Seq::new(
            orig.len(),
            |k: int| main_sized_item(axis, orig, available as int, gap as int, k),
        ));
        assert forall|k: int| 0 <= k < orig.len() implies 0 <= #[trigger] main_size(
            axis,
            orig,
            available as int,
            gap as int,
            k,
        ) <= MAX_LENGTH by {
            lemma_main_size_bounds(axis, orig, available as int, gap as int, k);
        }
    }
    consumed + added
}

/// Gives every item its cross-axis size and reports the largest cross-axis
/// span among them, margins included.
pub fn size_cross_axis(
    flow: &mut Vec<SolverItem>,
    axis: &AxisHelper,
    available: i64,
    align_items: UAlignItems,
) -> (widest: i64)
    requires
        old(flow).len() <= MAX_ITEMS,
        forall|i: int| 0 <= i < old(flow).len() ==> (#[trigger] old(flow)@[i]).valid(),
        forall|i: int|
            0 <= i < old(flow).len() ==> is_length(
                axis.main_of((#[trigger] old(flow)@[i]).result.size) as int,
            ),
        is_length(available as int),
    ensures
        final(flow)@ == Seq::new(
            old(flow)@.len(),
            |k: int| cross_sized_item(axis, old(flow)@[k], available as int, align_items),
        ),
        widest == cross_span_max(axis, final(flow)@, final(flow)@.len() as int),
        0 <= widest <= 3 * MAX_LENGTH,
        forall|k: int|
            0 <= k < old(flow)@.len() ==> 0 <= #[trigger] cross_size(
                axis,
                old(flow)@[k],
                available as int,
                align_items,
            ) <= MAX_LENGTH,
{
    let n: usize = flow.len();
    let ghost orig = flow@;
    let mut widest: i64 = 0;
    let mut k: usize = 0;
    while k < n
        invariant
            k <= n,
            n == flow.len(),
            n == orig.len(),
            forall|j: int| 0 <= j < orig.len() ==> (#[trigger] orig[j]).valid(),
            is_length(available as int),
            forall|j: int|
                0 <= j < k ==> flow@[j] == cross_sized_item(
                    axis,
                    orig[j],
                    available as int,
                    align_items,
                ),
            forall|j: int| k <= j < n ==> flow@[j] == orig[j],
            widest == cross_span_max(axis, flow@, k as int),
            0 <= widest <= 3 * MAX_LENGTH,
        decreases n - k,
    {
        assert(orig[k as int].valid());
        let item = flow[k];
        let (mode, val, _) = axis.get_cross_spec(&item.spec);
        let (_, _, mcs, mce) = axis.extract_margin_sides(item.margin);
        let stretch: bool = match item.spec.align_self {
            None => match align_items {
                UAlignItems::Stretch => true,
                _ => false,
            },
            Some(UAlignSelf::Auto) => match align_items {
                UAlignItems::Stretch => true,
                _ => false,
            },
            Some(UAlignSelf::Stretch) => true,
            _ => false,
        };
        let child_cross: i64 = if stretch {
            max_i64(available - mcs - mce, 0)
        } else {
            match mode {
                SolverSizeMode::Fixed => val,
                SolverSizeMode::Percent => scale_percent(val, available),
                SolverSizeMode::Flex => available,
                SolverSizeMode::Content => val,
                SolverSizeMode::Auto => val,
            }
        };
        let (current_main, _) = axis.from_world(item.result.size);
        let mut sized = item;
        sized.result.size = axis.to_world(current_main, child_cross);
        let ghost before = flow@;
        flow.set(k, sized);
        proof {
            lemma_cross_max_prefix(axis, before, flow@, k as int);
        }
        widest = max_i64(widest, child_cross + mcs + mce);
        k = k + 1;
    }
    proof {
        assert(flow@ =~= Seq::new(
            orig.len(),
            |k: int| cross_sized_item(axis, orig[k], available as int, align_items),
        ));
        assert forall|k: int| 0 <= k < orig.len() implies 0 <= #[trigger] cross_size(
            axis,
            orig[k],
            available as int,
            align_items,
        ) <= MAX_LENGTH by {
            lemma_cross_size_bounds(axis, orig[k], available as int, align_items);
        }
    }
    widest
}

/// The largest cross span among the first `k` items depends on those
/// items alone.
pub proof fn lemma_cross_max_prefix(axis: &AxisHelper, a: Seq<SolverItem>, b: Seq<SolverItem>, k: int)
    requires
        0 <= k <= a.len(),
        k <= b.len(),
        forall|j: int| 0 <= j < k ==> a[j] == b[j],
    ensures
        cross_span_max(axis, a, k) == cross_span_max(axis, b, k),
    decreases k,
{
    if k > 0 {
        lemma_cross_max_prefix(axis, a, b, k - 1);
    }
}

} // verus!
