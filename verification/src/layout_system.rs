//! One frame of layout: depth pass, depth index, measurement, solve, in
//! that order.

use vstd::prelude::*;
use crate::components::{IntrinsicSize, LayoutDepth, LayoutTreeDepth};
use crate::geometry::ComputedSize;
use crate::hierarchy::{
    depths_consistent, depths_settled, reached, update_layout_hierarchy, OUTSIDE_TREE,
};
use crate::layout_cache::{depth_buckets, LayoutCache};
use crate::pass_down::{all_settled, downward_solve_pass_safe};
use crate::pass_up::{
    as_size, known_sizes, needs_measure, sizes_are_valid, sizes_valid, up_to_date,
    upward_measure_pass_cached, usable,
};
use crate::tree::{is_forest, is_forest_table, is_path, nodes_are_valid, nodes_valid, LayoutNode};
use crate::units::Vec2i;

verus! {

/// The tables of a frame fit together: valid nodes that form a forest under
/// the roots, valid sizes, and one entry in each table for each node.
pub open spec fn frame_ready(
    nodes: Seq<LayoutNode>,
    roots: Seq<usize>,
    depths: Seq<LayoutDepth>,
    sizes: Seq<IntrinsicSize>,
    computed: Seq<ComputedSize>,
) -> bool {
    &&& nodes_valid(nodes)
    &&& is_forest(nodes, roots)
    &&& sizes_valid(sizes)
    &&& depths.len() == nodes.len()
    &&& sizes.len() == nodes.len()
    &&& computed.len() == nodes.len()
}

/// The tables of a frame: what the engine computes for each node, and what
/// the cache holds.
pub struct FrameTables {
    pub depths: Seq<LayoutDepth>,
    pub sizes: Seq<IntrinsicSize>,
    pub computed: Seq<ComputedSize>,
    pub dirty: Set<usize>,
    pub kept: Map<usize, (i64, i64)>,
    pub index: Map<usize, Seq<usize>>,
}

/// What a frame leaves, given what it found. Every node of the tree has its
/// depth, every other node is marked as outside; the index lists the nodes
/// by depth; every node of the tree is measured or has its kept size; every
/// node of the tree is settled; no node is dirty.
pub open spec fn frame_done(
    nodes: Seq<LayoutNode>,
    roots: Seq<usize>,
    viewport: Option<Vec2i>,
    found: FrameTables,
    tree_depth: LayoutTreeDepth,
    left: FrameTables,
) -> bool {
    let max = tree_depth.max_depth as int;
    &&& left.depths.len() == nodes.len()
    &&& left.sizes.len() == nodes.len()
    &&& left.computed.len() == nodes.len()
    &&& depths_settled(nodes, roots, left.depths)
    &&& depths_consistent(nodes, left.depths, max)
    &&& forall|x: int|
        0 <= x < nodes.len() && !reached(nodes, roots, x) ==> (#[trigger] left.depths[x]).0
            == OUTSIDE_TREE
    &&& forall|path: Seq<usize>| #[trigger] is_path(nodes, roots, path) ==> path.len() - 1 <= max
    &&& (max == 0 || exists|path: Seq<usize>| #[trigger]
        is_path(nodes, roots, path) && path.len() - 1 == max)
    &&& max < OUTSIDE_TREE
    &&& left.index == depth_buckets(left.depths, left.depths.len() as int)
    &&& left.dirty == Set::<usize>::empty()
    &&& sizes_valid(left.sizes)
    &&& forall|e: int|
        0 <= e < nodes.len() && left.depths[e].0 <= max ==> #[trigger] up_to_date(
            nodes,
            found.dirty,
            found.kept,
            left.kept,
            left.sizes,
            e,
            (max - left.depths[e].0) as nat,
        )
    &&& forall|e: int|
        0 <= e < nodes.len() && left.depths[e].0 > max ==> (#[trigger] left.sizes[e])
            == found.sizes[e]
    &&& all_settled(nodes, left.depths, left.sizes, viewport, left.computed, max)
    &&& all_settled(nodes, left.depths, left.sizes, viewport, found.computed, max)
        ==> left.computed == found.computed
}

/// Runs one frame of layout on tables that fit together, and leaves
/// everything as it is on tables that do not.
///
/// The depth pass comes first, then the depth index is built from the new
/// depths, then the tree is measured bottom-up with the cache, then it is
/// solved top-down. Returns the greatest depth of the tree.
pub fn layout_frame(
    nodes: &Vec<LayoutNode>,
    roots: &Vec<usize>,
    viewport: Option<Vec2i>,
    cache: &mut LayoutCache,
    depths: &mut Vec<LayoutDepth>,
    sizes: &mut Vec<IntrinsicSize>,
    computed: &mut Vec<ComputedSize>,
) -> (ran: Option<LayoutTreeDepth>)
    ensures
        ran is Some == frame_ready(
            nodes@,
            roots@,
            old(depths)@,
            old(sizes)@,
            old(computed)@,
        ),
        ran is None ==> {
            &&& final(depths)@ == old(depths)@
            &&& final(sizes)@ == old(sizes)@
            &&& final(computed)@ == old(computed)@
            &&& final(cache).dirty() == old(cache).dirty()
            &&& final(cache).cached() == old(cache).cached()
            &&& final(cache).by_depth() == old(cache).by_depth()
            &&& final(cache).frame() == old(cache).frame()
        },
        ran is Some ==> frame_done(
            nodes@,
            roots@,
            viewport,
            FrameTables {
                depths: old(depths)@,
                sizes: old(sizes)@,
                computed: old(computed)@,
                dirty: old(cache).dirty(),
                kept: old(cache).cached(),
                index: old(cache).by_depth(),
            },
            ran->0,
            FrameTables {
                depths: final(depths)@,
                sizes: final(sizes)@,
                computed: final(computed)@,
                dirty: final(cache).dirty(),
                kept: final(cache).cached(),
                index: final(cache).by_depth(),
            },
        ),
{
    let n: usize = nodes.len();
    if depths.len() != n || sizes.len() != n || computed.len() != n {
        return None;
    }
    if !nodes_are_valid(nodes) || !sizes_are_valid(sizes) || !is_forest_table(nodes, roots) {
        return None;
    }
    let tree_depth = update_layout_hierarchy(nodes, roots, depths);
    cache.rebuild_depth_map(depths, tree_depth.max_depth);
    upward_measure_pass_cached(nodes, depths, &tree_depth, cache, sizes);
    downward_solve_pass_safe(nodes, depths, &tree_depth, cache, sizes, viewport, computed);
    Some(tree_depth)
}

/// Where the cache keeps a usable size for every node of the tree and no
/// node is dirty, no node must be measured again.
pub proof fn lemma_nothing_stale(
    nodes: Seq<LayoutNode>,
    depths: Seq<LayoutDepth>,
    max: int,
    kept: Map<usize, (i64, i64)>,
    e: int,
    fuel: nat,
)
    requires
        depths.len() == nodes.len(),
        nodes.len() <= usize::MAX,
        depths_consistent(nodes, depths, max),
        forall|x: int|
            0 <= x < nodes.len() && depths[x].0 <= max ==> #[trigger] usable(kept, x as usize),
        0 <= e < nodes.len(),
        depths[e].0 <= max,
        fuel == max - depths[e].0,
    ensures
        !needs_measure(nodes, Set::<usize>::empty(), known_sizes(kept), e as usize, fuel),
    decreases fuel,
{
    let kids = nodes[e].children@;
    assert(usable(kept, e as usize));
    assert forall|i: int|
        0 <= i < kids.len() && fuel > 0 && (#[trigger] kids[i]) < nodes.len() implies !needs_measure(
        nodes,
        Set::<usize>::empty(),
        known_sizes(kept),
        kids[i],
        (fuel - 1) as nat,
    ) by {
        assert(crate::tree::is_edge(nodes, e, i));
        assert(depths[nodes[e].children@[i] as int].0 == depths[e].0 + 1);
        lemma_nothing_stale(nodes, depths, max, kept, kids[i] as int, (fuel - 1) as nat);
    }
}

/// A frame on an unchanged tree changes nothing: what a second frame
/// leaves of depths, sizes and solved boxes is what the first frame left.
pub proof fn lemma_frame_repeats(
    nodes: Seq<LayoutNode>,
    roots: Seq<usize>,
    viewport: Option<Vec2i>,
    found: FrameTables,
    first_depth: LayoutTreeDepth,
    between: FrameTables,
    second_depth: LayoutTreeDepth,
    left: FrameTables,
)
    requires
        nodes.len() <= usize::MAX,
        frame_done(nodes, roots, viewport, found, first_depth, between),
        frame_done(nodes, roots, viewport, between, second_depth, left),
    ensures
        second_depth == first_depth,
        left.depths == between.depths,
        left.sizes == between.sizes,
        left.computed == between.computed,
{
    let max1 = first_depth.max_depth as int;
    let max2 = second_depth.max_depth as int;
    assert(max1 == max2) by {
        if max1 > max2 {
            let path = choose|path: Seq<usize>| #[trigger]
                is_path(nodes, roots, path) && path.len() - 1 == max1;
            assert(is_path(nodes, roots, path));
        }
        if max2 > max1 {
            let path = choose|path: Seq<usize>| #[trigger]
                is_path(nodes, roots, path) && path.len() - 1 == max2;
            assert(is_path(nodes, roots, path));
        }
    }
    assert forall|x: int| 0 <= x < nodes.len() implies left.depths[x] == between.depths[x] by {
        if reached(nodes, roots, x) {
            let path = choose|path: Seq<usize>| #[trigger]
                is_path(nodes, roots, path) && path.last() == x;
            assert(is_path(nodes, roots, path));
        } else {
            assert(left.depths[x].0 == OUTSIDE_TREE);
            assert(between.depths[x].0 == OUTSIDE_TREE);
        }
    }
    assert(left.depths =~= between.depths);
    assert forall|x: int|
        0 <= x < nodes.len() && between.depths[x].0 <= max1 implies #[trigger] usable(
        between.kept,
        x as usize,
    ) && as_size(between.kept[x as usize]) == between.sizes[x] by {
        assert(up_to_date(
            nodes,
            found.dirty,
            found.kept,
            between.kept,
            between.sizes,
            x,
            (max1 - between.depths[x].0) as nat,
        ));
        assert(between.sizes[x].valid());
    }
    assert forall|e: int| 0 <= e < nodes.len() implies left.sizes[e] == between.sizes[e] by {
        if between.depths[e].0 <= max1 {
            lemma_nothing_stale(
                nodes,
                between.depths,
                max1,
                between.kept,
                e,
                (max1 - between.depths[e].0) as nat,
            );
            assert(up_to_date(
                nodes,
                between.dirty,
                between.kept,
                left.kept,
                left.sizes,
                e,
                (max2 - left.depths[e].0) as nat,
            ));
            assert(usable(between.kept, e as usize));
        } else {
            assert(left.sizes[e] == between.sizes[e]);
        }
    }
    assert(left.sizes =~= between.sizes);
}

} // verus!
