//! The measurement pass: bottom-up, every node's intrinsic size from those
//! of its in-flow children.

use vstd::prelude::*;
use crate::components::{IntrinsicSize, LayoutDepth, LayoutTreeDepth};
use crate::display::gaps_total;
use crate::geometry::{AxisHelper, UVal};
use crate::hierarchy::depths_consistent;
use crate::layout_cache::{depth_buckets, lemma_depth_buckets, listed, LayoutCache};
use crate::tree::{is_edge, nodes_valid, LayoutNode};
use crate::units::{is_length, max_i64, max_of, min_i64, min_of, MAX_ITEMS, MAX_LENGTH};
use crate::univis_node::{UFlexDirection, ULayout, UPositionType, USelf};

verus! {

/// The axis helper of a node's flow direction; a row where the node
/// declares no layout.
pub open spec fn measure_axis(node: LayoutNode) -> AxisHelper {
    AxisHelper {
        axis: match node.layout {
            Some(l) => l.flex_direction,
            None => UFlexDirection::Row,
        },
    }
}

/// The gap a node declares; none where it declares no layout.
pub open spec fn measure_gap(node: LayoutNode) -> int {
    match node.layout {
        Some(l) => l.gap as int,
        None => 0,
    }
}

/// Child `i` of node `p` counts towards the size of `p`: it is a node of
/// the table and is not out of flow.
pub open spec fn counted(nodes: Seq<LayoutNode>, p: int, i: int) -> bool {
    &&& is_edge(nodes, p, i)
    &&& !(nodes[nodes[p].children@[i] as int].uself is Some && nodes[nodes[p].children@[i] as int].uself->0.position_type is Absolute)
}

/// The number of counted children among the first `k` of node `p`.
pub open spec fn counted_before(nodes: Seq<LayoutNode>, p: int, k: int) -> int
    decreases k,
{
    if k <= 0 {
        0
    } else {
        counted_before(nodes, p, k - 1) + (if counted(nodes, p, k - 1) {
            1int
        } else {
            0int
        })
    }
}

/// What child `i` of node `p` takes along the main axis of `p`: its
/// intrinsic size and its margins.
pub open spec fn child_main_span(
    nodes: Seq<LayoutNode>,
    sizes: Seq<IntrinsicSize>,
    p: int,
    i: int,
) -> int {
    let c = nodes[p].children@[i] as int;
    let m = nodes[c].node.margin;
    if measure_axis(nodes[p]).row_like() {
        sizes[c].width + m.left + m.right
    } else {
        sizes[c].height + m.top + m.bottom
    }
}

/// What child `i` of node `p` takes along the cross axis of `p`.
pub open spec fn child_cross_span(
    nodes: Seq<LayoutNode>,
    sizes: Seq<IntrinsicSize>,
    p: int,
    i: int,
) -> int {
    let c = nodes[p].children@[i] as int;
    let m = nodes[c].node.margin;
    if measure_axis(nodes[p]).row_like() {
        sizes[c].height + m.top + m.bottom
    } else {
        sizes[c].width + m.left + m.right
    }
}

/// Main-axis spans of the counted children among the first `k`, added up.
pub open spec fn main_accum(nodes: Seq<LayoutNode>, sizes: Seq<IntrinsicSize>, p: int, k: int) -> int
    decreases k,
{
    if k <= 0 {
        0
    } else {
        main_accum(nodes, sizes, p, k - 1) + (if counted(nodes, p, k - 1) {
            child_main_span(nodes, sizes, p, k - 1)
        } else {
            0
        })
    }
}

/// The largest cross-axis span of a counted child among the first `k`.
pub open spec fn cross_accum(nodes: Seq<LayoutNode>, sizes: Seq<IntrinsicSize>, p: int, k: int) -> int
    decreases k,
{
    if k <= 0 {
        0
    } else {
        max_of(
            cross_accum(nodes, sizes, p, k - 1),
            if counted(nodes, p, k - 1) {
                child_cross_span(nodes, sizes, p, k - 1)
            } else {
                0
            },
        )
    }
}

/// What the content of node `p` takes along its main axis: the spans of
/// its counted children and the gaps between them.
pub open spec fn content_main(nodes: Seq<LayoutNode>, sizes: Seq<IntrinsicSize>, p: int) -> int {
    let all = nodes[p].children@.len() as int;
    main_accum(nodes, sizes, p, all) + gaps_total(
        counted_before(nodes, p, all),
        measure_gap(nodes[p]),
    )
}

/// A declared dimension measured: the pixels where it is fixed; otherwise
/// content and padding, up to the largest length.
pub open spec fn measured_extent(declared: UVal, content: int, padding: int) -> int {
    match declared {
        UVal::Px(v) => v as int,
        _ => min_of(content + padding, MAX_LENGTH as int),
    }
}

/// The intrinsic size of node `p`, given those of its children.
pub open spec fn measured(nodes: Seq<LayoutNode>, sizes: Seq<IntrinsicSize>, p: int) -> IntrinsicSize {
    let node = nodes[p];
    let main = content_main(nodes, sizes, p);
    let cross = cross_accum(nodes, sizes, p, node.children@.len() as int);
    let row = measure_axis(node).row_like();
    IntrinsicSize {
        width: measured_extent(
            node.node.width,
            if row {
                main
            } else {
                cross
            },
            node.node.padding.left + node.node.padding.right,
        ) as i64,
        height: measured_extent(
            node.node.height,
            if row {
                cross
            } else {
                main
            },
            node.node.padding.top + node.node.padding.bottom,
        ) as i64,
    }
}

/// Every intrinsic size of the table is a pair of lengths.
pub open spec fn sizes_valid(sizes: Seq<IntrinsicSize>) -> bool {
    forall|i: int| 0 <= i < sizes.len() ==> (#[trigger] sizes[i]).valid()
}

/// Whether every intrinsic size of the table is a pair of lengths.
pub fn sizes_are_valid(sizes: &Vec<IntrinsicSize>) -> (ok: bool)
    ensures
        ok == sizes_valid(sizes@),
{
    let mut i: usize = 0;
    while i < sizes.len()
        invariant
            i <= sizes@.len(),
            forall|j: int| 0 <= j < i ==> (#[trigger] sizes@[j]).valid(),
        decreases sizes@.len() - i,
    {
        let s = sizes[i];
        if !(0 <= s.width && s.width <= MAX_LENGTH && 0 <= s.height && s.height <= MAX_LENGTH) {
            return false;
        }
        i = i + 1;
    }
    true
}

/// The sums over the children of a valid node are bounded.
pub proof fn lemma_accum_bounds(nodes: Seq<LayoutNode>, sizes: Seq<IntrinsicSize>, p: int, k: int)
    requires
        nodes_valid(nodes),
        sizes_valid(sizes),
        sizes.len() == nodes.len(),
        0 <= p < nodes.len(),
        0 <= k <= nodes[p].children@.len(),
    ensures
        0 <= counted_before(nodes, p, k) <= k,
        0 <= main_accum(nodes, sizes, p, k) <= k * 3_221_225_472,
        0 <= cross_accum(nodes, sizes, p, k) <= 3 * MAX_LENGTH,
    decreases k,
{
    if k > 0 {
        lemma_accum_bounds(nodes, sizes, p, k - 1);
        if counted(nodes, p, k - 1) {
            let c = nodes[p].children@[k - 1] as int;
            assert(nodes[c].valid());
            assert(sizes[c].valid());
        }
    }
}

/// The measure of a node depends on the sizes of its children alone.
pub proof fn lemma_measure_frame(
    nodes: Seq<LayoutNode>,
    a: Seq<IntrinsicSize>,
    b: Seq<IntrinsicSize>,
    p: int,
    k: int,
)
    requires
        0 <= p < nodes.len(),
        0 <= k <= nodes[p].children@.len(),
        forall|i: int| is_edge(nodes, p, i) ==> a[(#[trigger] nodes[p].children@[i]) as int] == b[nodes[p].children@[i] as int],
    ensures
        main_accum(nodes, a, p, k) == main_accum(nodes, b, p, k),
        cross_accum(nodes, a, p, k) == cross_accum(nodes, b, p, k),
        k == nodes[p].children@.len() ==> measured(nodes, a, p) == measured(nodes, b, p),
    decreases k,
{
    if k > 0 {
        lemma_measure_frame(nodes, a, b, p, k - 1);
        if counted(nodes, p, k - 1) {
            assert(is_edge(nodes, p, k - 1));
        }
    }
}

/// The measure of a valid node is a pair of lengths.
pub proof fn lemma_measured_valid(nodes: Seq<LayoutNode>, sizes: Seq<IntrinsicSize>, p: int)
    requires
        nodes_valid(nodes),
        sizes_valid(sizes),
        sizes.len() == nodes.len(),
        0 <= p < nodes.len(),
    ensures
        measured(nodes, sizes, p).valid(),
        0 <= content_main(nodes, sizes, p) <= 0x1_0000_0000_0000,
{
    let all = nodes[p].children@.len() as int;
    lemma_accum_bounds(nodes, sizes, p, all);
    assert(nodes[p].valid());
    let count = counted_before(nodes, p, all);
    let gap = measure_gap(nodes[p]);
    assert(0 <= gaps_total(count, gap) <= 65_536 * MAX_LENGTH) by (nonlinear_arith)
        requires
            0 <= count <= 65_536,
            0 <= gap <= MAX_LENGTH,
            gaps_total(count, gap) == (if count > 1 {
                (count - 1) * gap
            } else {
                0
            }),
    ;
}

/// Measures one node from the intrinsic sizes of its children.
pub fn measure_node(nodes: &Vec<LayoutNode>, sizes: &Vec<IntrinsicSize>, p: usize) -> (size:
    IntrinsicSize)
    requires
        nodes_valid(nodes@),
        sizes_valid(sizes@),
        sizes@.len() == nodes@.len(),
        p < nodes@.len(),
    ensures
        size == measured(nodes@, sizes@, p as int),
        size.valid(),
{
    let node = &nodes[p];
    let n: usize = nodes.len();
    let (row, gap): (bool, i64) = match node.layout {
        Some(l) => (AxisHelper::new(l.flex_direction).is_row(), l.gap),
        None => (true, 0),
    };
    assert(nodes@[p as int].valid());
    let mut accum_main: i64 = 0;
    let mut max_cross: i64 = 0;
    let mut visible: i64 = 0;
    let mut k: usize = 0;
    while k < node.children.len()
        invariant
            nodes_valid(nodes@),
            sizes_valid(sizes@),
            sizes@.len() == nodes@.len(),
            n == nodes@.len(),
            p < n,
            *node == nodes@[p as int],
            node.children@.len() <= MAX_ITEMS,
            k <= node.children@.len(),
            row == measure_axis(nodes@[p as int]).row_like(),
            accum_main == main_accum(nodes@, sizes@, p as int, k as int),
            max_cross == cross_accum(nodes@, sizes@, p as int, k as int),
            visible == counted_before(nodes@, p as int, k as int),
        decreases node.children@.len() - k,
    {
        proof {
            lemma_accum_bounds(nodes@, sizes@, p as int, k as int);
            lemma_accum_bounds(nodes@, sizes@, p as int, k as int + 1);
        }
        let c: usize = node.children[k];
        if c < n {
            let out_of_flow: bool = match nodes[c].uself {
                Some(u) => match u.position_type {
                    UPositionType::Absolute => true,
                    UPositionType::Relative => false,
                },
                None => false,
            };
            if !out_of_flow {
                assert(nodes@[c as int].valid());
                assert(sizes@[c as int].valid());
                let m = nodes[c].node.margin;
                let w: i64 = sizes[c].width + m.left + m.right;
                let h: i64 = sizes[c].height + m.top + m.bottom;
                if row {
                    accum_main = accum_main + w;
                    max_cross = max_i64(max_cross, h);
                } else {
                    accum_main = accum_main + h;
                    max_cross = max_i64(max_cross, w);
                }
                visible = visible + 1;
            }
        }
        k = k + 1;
    }
    proof {
        lemma_accum_bounds(nodes@, sizes@, p as int, node.children@.len() as int);
        lemma_measured_valid(nodes@, sizes@, p as int);
    }
    if visible > 1 {
        assert(0 <= (visible - 1) * gap <= 65_536 * MAX_LENGTH) by (nonlinear_arith)
            requires
                1 <= visible <= 65_536,
                0 <= gap <= MAX_LENGTH,
        ;
        accum_main = accum_main + (visible - 1) * gap;
    }
    let (content_w, content_h): (i64, i64) = if row {
        (accum_main, max_cross)
    } else {
        (max_cross, accum_main)
    };
    let pad = node.node.padding;
    let width: i64 = match node.node.width {
        UVal::Px(v) => v,
        _ => min_i64(content_w + (pad.left + pad.right), MAX_LENGTH),
    };
    let height: i64 = match node.node.height {
        UVal::Px(v) => v,
        _ => min_i64(content_h + (pad.top + pad.bottom), MAX_LENGTH),
    };
    IntrinsicSize { width, height }
}

/// The tables the measurement pass works on fit together: valid nodes,
/// valid sizes, one size and one depth for each node, and depths that grow
/// by one along every edge from a node that the pass measures.
pub open spec fn measure_ready(
    nodes: Seq<LayoutNode>,
    depths: Seq<LayoutDepth>,
    sizes: Seq<IntrinsicSize>,
    max: int,
) -> bool {
    &&& nodes_valid(nodes)
    &&& sizes_valid(sizes)
    &&& sizes.len() == nodes.len()
    &&& depths.len() == nodes.len()
    &&& depths_consistent(nodes, depths, max)
}

/// Measures every node of depth `max_depth` or less, the deepest first, so
/// that each node is measured after its children.
///
/// Afterwards each of these nodes has the measure of its children's sizes
/// as they now are; deeper nodes keep the size they had.
pub fn upward_measure_pass(
    nodes: &Vec<LayoutNode>,
    depths: &Vec<LayoutDepth>,
    tree_depth: &LayoutTreeDepth,
    sizes: &mut Vec<IntrinsicSize>,
)
    requires
        measure_ready(nodes@, depths@, old(sizes)@, tree_depth.max_depth as int),
    ensures
        measure_ready(nodes@, depths@, final(sizes)@, tree_depth.max_depth as int),
        forall|i: int|
            0 <= i < nodes@.len() && depths@[i].0 <= tree_depth.max_depth ==> (#[trigger] final(sizes)@[i])
                == measured(nodes@, final(sizes)@, i),
        forall|i: int|
            0 <= i < nodes@.len() && depths@[i].0 > tree_depth.max_depth ==> (#[trigger] final(sizes)@[i])
                == old(sizes)@[i],
{
    let n: usize = nodes.len();
    let ghost before = sizes@;
    let mut level: usize = tree_depth.max_depth;
    let mut done: bool = false;
    while !done
        invariant
            measure_ready(nodes@, depths@, sizes@, tree_depth.max_depth as int),
            n == nodes@.len(),
            level <= tree_depth.max_depth,
            forall|i: int|
                0 <= i < n && (if done {
                    0
                } else {
                    level + 1
                }) <= depths@[i].0 <= tree_depth.max_depth ==> (#[trigger] sizes@[i]) == measured(
                    nodes@,
                    sizes@,
                    i,
                ),
            forall|i: int|
                0 <= i < n && (depths@[i].0 > tree_depth.max_depth || (!done && depths@[i].0
                    <= level)) ==> (#[trigger] sizes@[i]) == before[i],
            done ==> level == 0,
        decreases
                (if done {
                    0int
                } else {
                    level + 1
                }),
    {
        let mut i: usize = 0;
        while i < n
            invariant
                measure_ready(nodes@, depths@, sizes@, tree_depth.max_depth as int),
                n == nodes@.len(),
                i <= n,
                level <= tree_depth.max_depth,
                forall|j: int|
                    0 <= j < n && level + 1 <= depths@[j].0 <= tree_depth.max_depth ==> (
                    #[trigger] sizes@[j]) == measured(nodes@, sizes@, j),
                forall|j: int|
                    0 <= j < i && depths@[j].0 == level ==> (#[trigger] sizes@[j]) == measured(
                        nodes@,
                        sizes@,
                        j,
                    ),
                forall|j: int|
                    0 <= j < n && (depths@[j].0 > tree_depth.max_depth || depths@[j].0 < level || (
                    depths@[j].0 == level && j >= i)) ==> (#[trigger] sizes@[j]) == before[j],
            decreases n - i,
        {
            if depths[i].0 == level {
                let size = measure_node(nodes, sizes, i);
                let ghost prior = sizes@;
                sizes.set(i, size);
                proof {
                    assert forall|j: int|
                        0 <= j < n && level <= depths@[j].0 <= tree_depth.max_depth implies measured(
                        nodes@,
                        sizes@,
                        j,
                    ) == measured(nodes@, prior, j) by {
                        assert forall|c: int| is_edge(nodes@, j, c) implies prior[(
                        #[trigger] nodes@[j].children@[c]) as int] == sizes@[nodes@[j].children@[c] as int] by {
                            assert(depths@[nodes@[j].children@[c] as int].0 == depths@[j].0 + 1);
                        }
                        lemma_measure_frame(
                            nodes@,
                            sizes@,
                            prior,
                            j,
                            nodes@[j].children@.len() as int,
                        );
                    }
                }
            }
            i = i + 1;
        }
        if level == 0 {
            done = true;
        } else {
            level = level - 1;
        }
    }
}

/// A kept size as an intrinsic size.
pub open spec fn as_size(pair: (i64, i64)) -> IntrinsicSize {
    IntrinsicSize { width: pair.0, height: pair.1 }
}

/// The cache keeps a size for handle `h` that can be taken as it is: a
/// pair of lengths.
pub open spec fn usable(kept: Map<usize, (i64, i64)>, h: usize) -> bool {
    kept.contains_key(h) && as_size(kept[h]).valid()
}

/// The handles for which the cache keeps a usable size.
pub open spec fn known_sizes(kept: Map<usize, (i64, i64)>) -> Set<usize> {
    Set::new(|h: usize| usable(kept, h))
}

/// Node `e` or one of its children is marked dirty.
pub open spec fn seen_stale(nodes: Seq<LayoutNode>, dirty: Set<usize>, e: int) -> bool {
    dirty.contains(e as usize) || exists|i: int|
        0 <= i < nodes[e].children@.len() && dirty.contains(#[trigger] nodes[e].children@[i])
}

/// Node `e` must be measured again in a pass that starts with the marks
/// `dirty` and the kept sizes of the nodes `known`: it is marked, or has no
/// kept size, or has a child that is marked or must itself be measured
/// again. `fuel` is the number of levels below `e` that the pass measures.
pub open spec fn needs_measure(
    nodes: Seq<LayoutNode>,
    dirty: Set<usize>,
    known: Set<usize>,
    e: usize,
    fuel: nat,
) -> bool
    decreases fuel,
{
    dirty.contains(e) || !known.contains(e) || exists|i: int|
        0 <= i < nodes[e as int].children@.len() && dirty.contains(
            #[trigger] nodes[e as int].children@[i],
        ) || (0 <= i < nodes[e as int].children@.len() && fuel > 0 && nodes[e as int].children@[i]
            < nodes.len() && needs_measure(
            nodes,
            dirty,
            known,
            nodes[e as int].children@[i],
            (fuel - 1) as nat,
        ))
}

/// What the cached pass leaves of node `e`. A node that had to be measured
/// again has the measure of its children's sizes, and the cache keeps that
/// measure. Any other node has the size that the cache kept for it, and
/// the cache keeps it still.
pub open spec fn up_to_date(
    nodes: Seq<LayoutNode>,
    dirty_before: Set<usize>,
    kept_before: Map<usize, (i64, i64)>,
    kept_after: Map<usize, (i64, i64)>,
    sizes_after: Seq<IntrinsicSize>,
    e: int,
    fuel: nat,
) -> bool {
    if needs_measure(nodes, dirty_before, known_sizes(kept_before), e as usize, fuel) {
        &&& sizes_after[e] == measured(nodes, sizes_after, e)
        &&& kept_after.contains_key(e as usize)
        &&& as_size(kept_after[e as usize]) == sizes_after[e]
    } else {
        &&& usable(kept_before, e as usize)
        &&& sizes_after[e] == as_size(kept_before[e as usize])
        &&& kept_after.contains_key(e as usize)
        &&& kept_after[e as usize] == kept_before[e as usize]
    }
}

/// The cache keeps for handle `h` what it kept before.
pub open spec fn kept_alike(
    kept_before: Map<usize, (i64, i64)>,
    kept_after: Map<usize, (i64, i64)>,
    h: usize,
) -> bool {
    &&& kept_after.contains_key(h) == kept_before.contains_key(h)
    &&& kept_before.contains_key(h) ==> kept_after[h] == kept_before[h]
}

/// Node `target` is node `e` or a descendant of it, at most `levels + 1`
/// levels below.
pub open spec fn is_above(nodes: Seq<LayoutNode>, e: usize, target: usize, levels: nat) -> bool
    decreases levels,
{
    e == target || exists|i: int|
        0 <= i < nodes[e as int].children@.len() && (#[trigger] nodes[e as int].children@[i])
            == target || (0 <= i < nodes[e as int].children@.len() && levels > 0
            && nodes[e as int].children@[i] < nodes.len() && is_above(
            nodes,
            nodes[e as int].children@[i],
            target,
            (levels - 1) as nat,
        ))
}

/// With one node marked and a size kept for every node of the table, the
/// nodes that must be measured again are the marked node and those above
/// it.
pub proof fn lemma_needs_is_above(
    nodes: Seq<LayoutNode>,
    known: Set<usize>,
    target: usize,
    e: usize,
    levels: nat,
)
    requires
        forall|x: usize| x < nodes.len() ==> #[trigger] known.contains(x),
        e < nodes.len(),
    ensures
        needs_measure(nodes, set![target], known, e, levels) == is_above(nodes, e, target, levels),
    decreases levels,
{
    let dirty = set![target];
    let kids = nodes[e as int].children@;
    assert forall|i: int| 0 <= i < kids.len() && levels > 0 && (#[trigger] kids[i])
        < nodes.len() implies needs_measure(nodes, dirty, known, kids[i], (levels - 1) as nat)
        == is_above(nodes, kids[i], target, (levels - 1) as nat) by {
        lemma_needs_is_above(nodes, known, target, kids[i], (levels - 1) as nat);
    }
    if needs_measure(nodes, dirty, known, e, levels) && e != target {
        let i = choose|i: int|
            0 <= i < kids.len() && dirty.contains(#[trigger] kids[i]) || (0 <= i < kids.len()
                && levels > 0 && kids[i] < nodes.len() && needs_measure(
                nodes,
                dirty,
                known,
                kids[i],
                (levels - 1) as nat,
            ));
        assert(0 <= i < kids.len() && kids[i] == target || (0 <= i < kids.len() && levels > 0
            && kids[i] < nodes.len() && is_above(nodes, kids[i], target, (levels - 1) as nat)));
    }
    if is_above(nodes, e, target, levels) && e != target {
        let i = choose|i: int|
            0 <= i < kids.len() && (#[trigger] kids[i]) == target || (0 <= i < kids.len() && levels
                > 0 && kids[i] < nodes.len() && is_above(
                nodes,
                kids[i],
                target,
                (levels - 1) as nat,
            ));
        assert(0 <= i < kids.len() && dirty.contains(kids[i]) || (0 <= i < kids.len() && levels
            > 0 && kids[i] < nodes.len() && needs_measure(
            nodes,
            dirty,
            known,
            kids[i],
            (levels - 1) as nat,
        )));
    }
}

/// A single dirty node reaches its ancestors and nothing else. Where the
/// cache keeps a size for every node and one node alone is marked, the
/// cached pass measures that node and the nodes above it from their
/// children; every other node keeps, in the table and in the cache alike,
/// exactly the size that the cache kept for it.
pub proof fn lemma_single_dirty_node(
    nodes: Seq<LayoutNode>,
    kept_before: Map<usize, (i64, i64)>,
    kept_after: Map<usize, (i64, i64)>,
    sizes_after: Seq<IntrinsicSize>,
    marked: usize,
    e: int,
    levels: nat,
)
    requires
        0 <= e < nodes.len() <= usize::MAX,
        forall|x: usize| x < nodes.len() ==> #[trigger] usable(kept_before, x),
        up_to_date(nodes, set![marked], kept_before, kept_after, sizes_after, e, levels),
    ensures
        is_above(nodes, e as usize, marked, levels) ==> sizes_after[e] == measured(
            nodes,
            sizes_after,
            e,
        ),
        !is_above(nodes, e as usize, marked, levels) ==> sizes_after[e] == as_size(
            kept_before[e as usize],
        ) && kept_after[e as usize] == kept_before[e as usize],
{
    assert forall|x: usize| x < nodes.len() implies #[trigger] known_sizes(kept_before).contains(
        x,
    ) by {
        assert(usable(kept_before, x));
    }
    lemma_needs_is_above(nodes, known_sizes(kept_before), marked, e as usize, levels);
}

fn any_child_dirty(nodes: &Vec<LayoutNode>, cache: &LayoutCache, e: usize) -> (found: bool)
    requires
        e < nodes@.len(),
    ensures
        found == exists|i: int|
            0 <= i < nodes@[e as int].children@.len() && cache.dirty().contains(
                #[trigger] nodes@[e as int].children@[i],
            ),
{
    let kids = &nodes[e].children;
    let mut k: usize = 0;
    while k < kids.len()
        invariant
            k <= kids@.len(),
            kids@ == nodes@[e as int].children@,
            forall|i: int| 0 <= i < k ==> !cache.dirty().contains(#[trigger] kids@[i]),
        decreases kids@.len() - k,
    {
        if cache.is_dirty(kids[k]) {
            return true;
        }
        k = k + 1;
    }
    false
}

/// Brings one node's intrinsic size up to date. A node that is not marked,
/// has no marked child and has a usable kept size takes the kept size. Any other
/// node is measured from its children; the measure is kept, and the node is
/// marked, so that its parent is measured in turn.
pub fn measure_cached_node(
    nodes: &Vec<LayoutNode>,
    cache: &mut LayoutCache,
    sizes: &mut Vec<IntrinsicSize>,
    e: usize,
)
    requires
        nodes_valid(nodes@),
        sizes_valid(old(sizes)@),
        old(sizes)@.len() == nodes@.len(),
        e < nodes@.len(),
    ensures
        sizes_valid(final(sizes)@),
        final(cache).by_depth() == old(cache).by_depth(),
        final(cache).frame() == old(cache).frame(),
        final(cache).indexed_max_depth() == old(cache).indexed_max_depth(),
        !seen_stale(nodes@, old(cache).dirty(), e as int) && usable(old(cache).cached(), e) ==> {
            &&& final(sizes)@ == old(sizes)@.update(e as int, as_size(old(cache).cached()[e]))
            &&& final(cache).dirty() == old(cache).dirty()
            &&& final(cache).cached() == old(cache).cached()
        },
        !(!seen_stale(nodes@, old(cache).dirty(), e as int) && usable(old(cache).cached(), e))
            ==> {
            &&& final(sizes)@ == old(sizes)@.update(
                e as int,
                measured(nodes@, old(sizes)@, e as int),
            )
            &&& final(cache).dirty() == old(cache).dirty().insert(e)
            &&& final(cache).cached() == old(cache).cached().insert(
                e,
                (
                    measured(nodes@, old(sizes)@, e as int).width,
                    measured(nodes@, old(sizes)@, e as int).height,
                ),
            )
        },
{
    let stale: bool = cache.is_dirty(e) || any_child_dirty(nodes, cache, e);
    if !stale {
        match cache.get_cached_intrinsic(e) {
            Some(kept) => {
                assert(kept == as_size(cache.cached()[e]));
                if 0 <= kept.width && kept.width <= MAX_LENGTH && 0 <= kept.height && kept.height
                    <= MAX_LENGTH {
                    sizes.set(e, kept);
                    return ;
                }
            },
            None => {},
        }
    }
    let size = measure_node(nodes, sizes, e);
    sizes.set(e, size);
    cache.cache_intrinsic(e, size);
    cache.mark_dirty(e);
    assert(as_size((size.width, size.height)) == size);
}

/// Whether the pass has brought node `e` up to date: it lies deeper than
/// `level`, or at `level` among the first `k` of that level's list.
spec fn passed(depths: Seq<LayoutDepth>, max: int, level: int, bucket: Seq<usize>, k: int, e: int) -> bool {
    depths[e].0 <= max && (depths[e].0 > level || (depths[e].0 == level && exists|j: int|
        0 <= j < k && #[trigger] bucket[j] == e))
}

/// What holds of node `e` during the cached pass.
spec fn node_state(
    nodes: Seq<LayoutNode>,
    depths: Seq<LayoutDepth>,
    max: int,
    dirty0: Set<usize>,
    kept0: Map<usize, (i64, i64)>,
    before: Seq<IntrinsicSize>,
    dirty: Set<usize>,
    kept: Map<usize, (i64, i64)>,
    sizes: Seq<IntrinsicSize>,
    e: int,
    done: bool,
) -> bool {
    if done {
        if needs_measure(nodes, dirty0, known_sizes(kept0), e as usize, (max - depths[e].0) as nat) {
            &&& sizes[e] == measured(nodes, sizes, e)
            &&& kept.contains_key(e as usize)
            &&& kept[e as usize] == (sizes[e].width, sizes[e].height)
            &&& dirty.contains(e as usize)
        } else {
            &&& usable(kept0, e as usize)
            &&& sizes[e] == as_size(kept0[e as usize])
            &&& kept.contains_key(e as usize)
            &&& kept[e as usize] == kept0[e as usize]
            &&& !dirty.contains(e as usize)
        }
    } else {
        &&& sizes[e] == before[e]
        &&& kept.contains_key(e as usize) == kept0.contains_key(e as usize)
        &&& kept0.contains_key(e as usize) ==> kept[e as usize] == kept0[e as usize]
        &&& dirty.contains(e as usize) == dirty0.contains(e as usize)
    }
}

/// What holds of node `e` at a point of the cached pass.
spec fn node_ok(
    nodes: Seq<LayoutNode>,
    depths: Seq<LayoutDepth>,
    max: int,
    dirty0: Set<usize>,
    kept0: Map<usize, (i64, i64)>,
    before: Seq<IntrinsicSize>,
    dirty: Set<usize>,
    kept: Map<usize, (i64, i64)>,
    sizes: Seq<IntrinsicSize>,
    level: int,
    bucket: Seq<usize>,
    k: int,
    e: int,
) -> bool {
    node_state(
        nodes,
        depths,
        max,
        dirty0,
        kept0,
        before,
        dirty,
        kept,
        sizes,
        e,
        passed(depths, max, level, bucket, k, e),
    )
}

/// What holds of the whole table during the cached pass.
spec fn pass_state(
    nodes: Seq<LayoutNode>,
    depths: Seq<LayoutDepth>,
    max: int,
    dirty0: Set<usize>,
    kept0: Map<usize, (i64, i64)>,
    before: Seq<IntrinsicSize>,
    dirty: Set<usize>,
    kept: Map<usize, (i64, i64)>,
    sizes: Seq<IntrinsicSize>,
    level: int,
    bucket: Seq<usize>,
    k: int,
) -> bool {
    &&& forall|e: int|
        0 <= e < nodes.len() ==> #[trigger] node_ok(
            nodes,
            depths,
            max,
            dirty0,
            kept0,
            before,
            dirty,
            kept,
            sizes,
            level,
            bucket,
            k,
            e,
        )
    &&& forall|h: usize|
        h >= nodes.len() ==> (#[trigger] dirty.contains(h)) == dirty0.contains(h)
    &&& forall|h: usize|
        h >= nodes.len() ==> (#[trigger] kept.contains_key(h)) == kept0.contains_key(h) && (
        kept0.contains_key(h) ==> kept[h] == kept0[h])
}

/// The measurement pass with the cache: every indexed node of depth
/// `max_depth` or less is brought up to date, the deepest first. A node
/// that must be measured again is measured from its children and its
/// measure is kept; every other node takes its kept size, and what the
/// cache keeps of it stays as it is. At the end all dirty marks are taken
/// off and a frame is counted.
///
/// Dirtiness spreads upwards: a node is measured again when a child of it
/// was measured again in this pass.
pub fn upward_measure_pass_cached(
    nodes: &Vec<LayoutNode>,
    depths: &Vec<LayoutDepth>,
    tree_depth: &LayoutTreeDepth,
    cache: &mut LayoutCache,
    sizes: &mut Vec<IntrinsicSize>,
)
    requires
        measure_ready(nodes@, depths@, old(sizes)@, tree_depth.max_depth as int),
        old(cache).by_depth() == depth_buckets(depths@, depths@.len() as int),
    ensures
        measure_ready(nodes@, depths@, final(sizes)@, tree_depth.max_depth as int),
        final(cache).by_depth() == old(cache).by_depth(),
        final(cache).indexed_max_depth() == old(cache).indexed_max_depth(),
        final(cache).dirty() == Set::<usize>::empty(),
        final(cache).frame() == (if old(cache).frame() < u64::MAX {
            (old(cache).frame() + 1) as u64
        } else {
            u64::MAX
        }),
        forall|e: int|
            0 <= e < nodes@.len() && depths@[e].0 <= tree_depth.max_depth ==> #[trigger] up_to_date(
                nodes@,
                old(cache).dirty(),
                old(cache).cached(),
                final(cache).cached(),
                final(sizes)@,
                e,
                (tree_depth.max_depth - depths@[e].0) as nat,
            ),
        forall|e: int|
            0 <= e < nodes@.len() && depths@[e].0 > tree_depth.max_depth ==> (#[trigger] final(sizes)@[e])
                == old(sizes)@[e],
        forall|h: usize|
            !(h < nodes@.len() && depths@[h as int].0 <= tree_depth.max_depth) ==> #[trigger] kept_alike(
                old(cache).cached(),
                final(cache).cached(),
                h,
            ),
{
    let n: usize = nodes.len();
    let ghost before = sizes@;
    let ghost dirty0 = cache.dirty();
    let ghost kept0 = cache.cached();
    let ghost index = cache.by_depth();
    let ghost max = tree_depth.max_depth as int;
    proof {
        lemma_depth_buckets(depths@, n as int);
    }
    let mut level: usize = tree_depth.max_depth;
    let mut done: bool = false;
    while !done
        invariant
            measure_ready(nodes@, depths@, sizes@, tree_depth.max_depth as int),
            n == nodes@.len(),
            max == tree_depth.max_depth,
            level <= max,
            done ==> level == 0,
            index == depth_buckets(depths@, depths@.len() as int),
            cache.by_depth() == index,
            cache.frame() == old(cache).frame(),
            cache.indexed_max_depth() == old(cache).indexed_max_depth(),
            pass_state(
                nodes@,
                depths@,
                max,
                dirty0,
                kept0,
                before,
                cache.dirty(),
                cache.cached(),
                sizes@,
                if done {
                    -1
                } else {
                    level as int
                },
                Seq::empty(),
                0,
            ),
        decreases
                (if done {
                    0int
                } else {
                    level + 1
                }),
    {
        let bucket: Vec<usize> = cache.entities_at_depth(level);
        proof {
            lemma_depth_buckets(depths@, n as int);
            assert forall|e: int| 0 <= e < n && depths@[e].0 == level implies exists|j: int|
                0 <= j < bucket@.len() && #[trigger] bucket@[j] == e by {
                assert(listed(index, depths@[e].0, e));
                let j = choose|j: int|
                    0 <= j < index[depths@[e].0].len() && #[trigger] index[depths@[e].0][j] == e;
                assert(bucket@[j] == e);
            }
            assert forall|j: int| 0 <= j < bucket@.len() implies (#[trigger] bucket@[j]) < n
                && depths@[bucket@[j] as int].0 == level by {
                assert(index[level][j] == bucket@[j]);
            }
            assert forall|a: int, b: int| 0 <= a < b < bucket@.len() implies (#[trigger] bucket@[a])
                != (#[trigger] bucket@[b]) by {
                assert(index[level][a] < index[level][b]);
            }
            assert forall|e: int| 0 <= e < n implies #[trigger] node_ok(
                nodes@,
                depths@,
                max,
                dirty0,
                kept0,
                before,
                cache.dirty(),
                cache.cached(),
                sizes@,
                level as int,
                bucket@,
                0,
                e,
            ) by {
                assert(node_ok(
                    nodes@,
                    depths@,
                    max,
                    dirty0,
                    kept0,
                    before,
                    cache.dirty(),
                    cache.cached(),
                    sizes@,
                    level as int,
                    Seq::empty(),
                    0,
                    e,
                ));
            }
        }
        let mut k: usize = 0;
        while k < bucket.len()
            invariant
                measure_ready(nodes@, depths@, sizes@, tree_depth.max_depth as int),
                    n == nodes@.len(),
                max == tree_depth.max_depth,
                level <= max,
                k <= bucket@.len(),
                cache.by_depth() == index,
                cache.frame() == old(cache).frame(),
                cache.indexed_max_depth() == old(cache).indexed_max_depth(),
                forall|j: int|
                    0 <= j < bucket@.len() ==> (#[trigger] bucket@[j]) < n && depths@[bucket@[j] as int].0
                        == level,
                forall|a: int, b: int|
                    0 <= a < b < bucket@.len() ==> (#[trigger] bucket@[a]) != (
                    #[trigger] bucket@[b]),
                pass_state(
                    nodes@,
                    depths@,
                    max,
                    dirty0,
                    kept0,
                    before,
                    cache.dirty(),
                    cache.cached(),
                    sizes@,
                    level as int,
                    bucket@,
                    k as int,
                ),
            decreases bucket@.len() - k,
        {
            let e: usize = bucket[k];
            let ghost dirty_then = cache.dirty();
            let ghost kept_then = cache.cached();
            let ghost sizes_then = sizes@;
            measure_cached_node(nodes, cache, sizes, e);
            proof {
                lemma_step_keeps_state(
                    nodes@,
                    depths@,
                    max,
                    dirty0,
                    kept0,
                    before,
                    dirty_then,
                    kept_then,
                    sizes_then,
                    cache.dirty(),
                    cache.cached(),
                    sizes@,
                    level as int,
                    bucket@,
                    k as int,
                );
            }
            k = k + 1;
        }
        proof {
            let next = if level == 0 {
                -1
            } else {
                level as int - 1
            };
            assert forall|e: int| 0 <= e < n implies #[trigger] node_ok(
                nodes@,
                depths@,
                max,
                dirty0,
                kept0,
                before,
                cache.dirty(),
                cache.cached(),
                sizes@,
                next,
                Seq::empty(),
                0,
                e,
            ) by {
                assert(node_ok(
                    nodes@,
                    depths@,
                    max,
                    dirty0,
                    kept0,
                    before,
                    cache.dirty(),
                    cache.cached(),
                    sizes@,
                    level as int,
                    bucket@,
                    bucket@.len() as int,
                    e,
                ));
                if depths@[e].0 == level {
                    let j = choose|j: int| 0 <= j < bucket@.len() && #[trigger] bucket@[j] == e;
                }
            }
        }
        if level == 0 {
            done = true;
        } else {
            level = level - 1;
        }
    }
    let ghost kept_end = cache.cached();
    let ghost dirty_end = cache.dirty();
    cache.clear_all_dirty();
    cache.increment_frame();
    proof {
        assert(cache.cached() == kept_end);
        assert forall|e: int| 0 <= e < nodes@.len() && depths@[e].0 <= max implies #[trigger] up_to_date(
            nodes@,
            dirty0,
            kept0,
            kept_end,
            sizes@,
            e,
            (max - depths@[e].0) as nat,
        ) by {
            assert(node_ok(
                nodes@,
                depths@,
                max,
                dirty0,
                kept0,
                before,
                dirty_end,
                kept_end,
                sizes@,
                -1,
                Seq::empty(),
                0,
                e,
            ));
        }
        assert forall|e: int| 0 <= e < nodes@.len() && depths@[e].0 > max implies (
        #[trigger] sizes@[e]) == before[e] && kept_alike(kept0, kept_end, e as usize) by {
            assert(node_ok(
                nodes@,
                depths@,
                max,
                dirty0,
                kept0,
                before,
                dirty_end,
                kept_end,
                sizes@,
                -1,
                Seq::empty(),
                0,
                e,
            ));
        }
        assert forall|h: usize|
            !(h < nodes@.len() && depths@[h as int].0 <= max) implies #[trigger] kept_alike(
            kept0,
            kept_end,
            h,
        ) by {
            if h < nodes@.len() {
                assert(node_ok(
                    nodes@,
                    depths@,
                    max,
                    dirty0,
                    kept0,
                    before,
                    dirty_end,
                    kept_end,
                    sizes@,
                    -1,
                    Seq::empty(),
                    0,
                    h as int,
                ));
            }
        }
    }
}

/// One step of the cached pass keeps what holds of the table.
proof fn lemma_step_keeps_state(
    nodes: Seq<LayoutNode>,
    depths: Seq<LayoutDepth>,
    max: int,
    dirty0: Set<usize>,
    kept0: Map<usize, (i64, i64)>,
    before: Seq<IntrinsicSize>,
    dirty_a: Set<usize>,
    kept_a: Map<usize, (i64, i64)>,
    sizes_a: Seq<IntrinsicSize>,
    dirty_b: Set<usize>,
    kept_b: Map<usize, (i64, i64)>,
    sizes_b: Seq<IntrinsicSize>,
    level: int,
    bucket: Seq<usize>,
    k: int,
)
    requires
        measure_ready(nodes, depths, sizes_a, max),
        nodes.len() <= usize::MAX,
        0 <= level <= max,
        0 <= k < bucket.len(),
        forall|j: int|
            0 <= j < bucket.len() ==> (#[trigger] bucket[j]) < nodes.len() && depths[bucket[j] as int].0
                == level,
        forall|a: int, b: int|
            0 <= a < b < bucket.len() ==> (#[trigger] bucket[a]) != (#[trigger] bucket[b]),
        pass_state(nodes, depths, max, dirty0, kept0, before, dirty_a, kept_a, sizes_a, level, bucket, k),
        !seen_stale(nodes, dirty_a, bucket[k] as int) && usable(kept_a, bucket[k]) ==> {
            &&& sizes_b == sizes_a.update(bucket[k] as int, as_size(kept_a[bucket[k]]))
            &&& dirty_b == dirty_a
            &&& kept_b == kept_a
        },
        !(!seen_stale(nodes, dirty_a, bucket[k] as int) && usable(kept_a, bucket[k])) ==> {
            &&& sizes_b == sizes_a.update(
                bucket[k] as int,
                measured(nodes, sizes_a, bucket[k] as int),
            )
            &&& dirty_b == dirty_a.insert(bucket[k])
            &&& kept_b == kept_a.insert(
                bucket[k],
                (
                    measured(nodes, sizes_a, bucket[k] as int).width,
                    measured(nodes, sizes_a, bucket[k] as int).height,
                ),
            )
        },
    ensures
        pass_state(
            nodes,
            depths,
            max,
            dirty0,
            kept0,
            before,
            dirty_b,
            kept_b,
            sizes_b,
            level,
            bucket,
            k + 1,
        ),
{
    let e = bucket[k];
    let ei = e as int;
    let fuel = (max - level) as nat;
    let known = known_sizes(kept0);
    assert(!passed(depths, max, level, bucket, k, ei)) by {
        if exists|j: int| 0 <= j < k && #[trigger] bucket[j] == ei {
            let j = choose|j: int| 0 <= j < k && #[trigger] bucket[j] == ei;
            assert(bucket[j] != bucket[k]);
        }
    }
    assert(passed(depths, max, level, bucket, k + 1, ei)) by {
        assert(bucket[k] == ei);
    }
    assert(node_ok(
        nodes,
        depths,
        max,
        dirty0,
        kept0,
        before,
        dirty_a,
        kept_a,
        sizes_a,
        level,
        bucket,
        k,
        ei,
    ));
    // What a child's mark says.
    assert forall|i: int| 0 <= i < nodes[ei].children@.len() implies dirty_a.contains(
        #[trigger] nodes[ei].children@[i],
    ) == (dirty0.contains(nodes[ei].children@[i]) || (fuel > 0 && nodes[ei].children@[i]
        < nodes.len() && needs_measure(
        nodes,
        dirty0,
        known,
        nodes[ei].children@[i],
        (fuel - 1) as nat,
    ))) by {
        let c = nodes[ei].children@[i];
        if c < nodes.len() {
            assert(is_edge(nodes, ei, i));
            assert(depths[c as int].0 == level + 1);
            assert(node_ok(
                nodes,
                depths,
                max,
                dirty0,
                kept0,
                before,
                dirty_a,
                kept_a,
                sizes_a,
                level,
                bucket,
                k,
                c as int,
            ));
            if fuel > 0 {
                assert(passed(depths, max, level, bucket, k, c as int));
                assert((max - depths[c as int].0) as nat == (fuel - 1) as nat);
            } else {
                assert(!passed(depths, max, level, bucket, k, c as int));
            }
        }
    }
    let stale = seen_stale(nodes, dirty_a, ei);
    let needs = needs_measure(nodes, dirty0, known, e, fuel);
    assert(usable(kept_a, e) == known.contains(e));
    assert(needs == (stale || !usable(kept_a, e))) by {
        if stale && !dirty_a.contains(e) {
            let i = choose|i: int|
                0 <= i < nodes[ei].children@.len() && dirty_a.contains(
                    #[trigger] nodes[ei].children@[i],
                );
            assert(dirty0.contains(nodes[ei].children@[i]) || (fuel > 0 && nodes[ei].children@[i]
                < nodes.len() && needs_measure(
                nodes,
                dirty0,
                known,
                nodes[ei].children@[i],
                (fuel - 1) as nat,
            )));
        }
        if needs && !dirty0.contains(e) && known.contains(e) {
            let i = choose|i: int|
                0 <= i < nodes[ei].children@.len() && dirty0.contains(
                    #[trigger] nodes[ei].children@[i],
                ) || (0 <= i < nodes[ei].children@.len() && fuel > 0 && nodes[ei].children@[i]
                    < nodes.len() && needs_measure(
                    nodes,
                    dirty0,
                    known,
                    nodes[ei].children@[i],
                    (fuel - 1) as nat,
                ));
            assert(dirty_a.contains(nodes[ei].children@[i]));
        }
    }
    // The measure of a node that is up to date does not read the size written.
    assert forall|q: int|
        0 <= q < nodes.len() && level <= depths[q].0 <= max implies measured(nodes, sizes_b, q)
        == measured(nodes, sizes_a, q) by {
        assert forall|i: int| is_edge(nodes, q, i) implies sizes_b[(
        #[trigger] nodes[q].children@[i]) as int] == sizes_a[nodes[q].children@[i] as int] by {
            assert(depths[nodes[q].children@[i] as int].0 == depths[q].0 + 1);
        }
        lemma_measure_frame(nodes, sizes_b, sizes_a, q, nodes[q].children@.len() as int);
    }
    assert forall|q: int| 0 <= q < nodes.len() implies #[trigger] node_ok(
        nodes,
        depths,
        max,
        dirty0,
        kept0,
        before,
        dirty_b,
        kept_b,
        sizes_b,
        level,
        bucket,
        k + 1,
        q,
    ) by {
        assert(node_ok(
            nodes,
            depths,
            max,
            dirty0,
            kept0,
            before,
            dirty_a,
            kept_a,
            sizes_a,
            level,
            bucket,
            k,
            q,
        ));
        if q != ei {
            assert(passed(depths, max, level, bucket, k + 1, q) == passed(
                depths,
                max,
                level,
                bucket,
                k,
                q,
            )) by {
                if exists|j: int| 0 <= j < k + 1 && #[trigger] bucket[j] == q {
                    let j = choose|j: int| 0 <= j < k + 1 && #[trigger] bucket[j] == q;
                    assert(j < k);
                }
            }
            assert(sizes_b[q] == sizes_a[q]);
            assert(dirty_b.contains(q as usize) == dirty_a.contains(q as usize));
            assert(kept_b.contains_key(q as usize) == kept_a.contains_key(q as usize));
            assert(kept_a.contains_key(q as usize) ==> kept_b[q as usize] == kept_a[q as usize]);
            if passed(depths, max, level, bucket, k, q) {
                assert(depths[q].0 >= level);
                assert(measured(nodes, sizes_b, q) == measured(nodes, sizes_a, q));
            }
        } else {
            assert((max - depths[ei].0) as nat == fuel);
            assert(measured(nodes, sizes_b, ei) == measured(nodes, sizes_a, ei));
            if needs {
                assert(sizes_b[ei] == measured(nodes, sizes_a, ei));
                assert(kept_b.contains_key(e));
                assert(dirty_b.contains(e));
            } else {
                assert(!dirty0.contains(e));
                assert(sizes_b[ei] == as_size(kept_a[e]));
            }
        }
    }
}

} // verus!
