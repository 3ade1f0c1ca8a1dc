//! The solve pass: top-down, every container lays out its children within
//! the size its parent offered it.

use vstd::prelude::*;
use crate::components::{IntrinsicSize, LayoutDepth, LayoutTreeDepth};
use crate::geometry::{BoxConstraints, ComputedSize, UVal};
use crate::hierarchy::depths_consistent;
use crate::layout_cache::{depth_buckets, lemma_depth_buckets, listed, LayoutCache};
use crate::pass_up::sizes_valid;
use crate::tree::edges_unique;
use crate::solver::{
    solve_flex_layout, solve_ready, solved_items, solved_size, translate_spec, translated_spec,
    SolverConfig, SolverItem, SolverResult, SolverSizeMode, SolverSpec,
};
use crate::tree::{is_edge, nodes_valid, LayoutNode};
use crate::units::{clamp_i64, clamped, is_length, Vec2i, MAX_ITEMS, MAX_LENGTH};
use crate::univis_node::{
    UAlignItems, UDisplay, UFlexDirection, UJustifyContent, ULayout, UNode, USelf,
};

verus! {

/// Width of a root that declares no canvas, without a viewport.
pub const DEFAULT_ROOT_WIDTH: i64 = 800;

/// Height of a root that declares no canvas, without a viewport.
pub const DEFAULT_ROOT_HEIGHT: i64 = 600;

/// The size of a root: its declared canvas, else the viewport, else the
/// default.
pub open spec fn root_size(canvas: Option<Vec2i>, viewport: Option<Vec2i>) -> Vec2i {
    match canvas {
        Some(c) => c,
        None => match viewport {
            Some(v) => v,
            None => Vec2i { x: DEFAULT_ROOT_WIDTH, y: DEFAULT_ROOT_HEIGHT },
        },
    }
}

/// The size of a root.
pub fn calculate_root_size(canvas: Option<Vec2i>, viewport: Option<Vec2i>) -> (size: Vec2i)
    ensures
        size == root_size(canvas, viewport),
{
    match canvas {
        Some(c) => c,
        None => match viewport {
            Some(v) => v,
            None => Vec2i::new(DEFAULT_ROOT_WIDTH, DEFAULT_ROOT_HEIGHT),
        },
    }
}

/// An offered size as a container size: each part brought into the range
/// of lengths.
pub open spec fn container_of(offered: Vec2i) -> Vec2i {
    Vec2i {
        x: clamped(offered.x as int, 0, MAX_LENGTH as int) as i64,
        y: clamped(offered.y as int, 0, MAX_LENGTH as int) as i64,
    }
}

/// The sizing mode of a declared dimension.
pub open spec fn mode_of(val: UVal) -> SolverSizeMode {
    match val {
        UVal::Px(_) => SolverSizeMode::Fixed,
        UVal::Percent(_) => SolverSizeMode::Percent,
        UVal::Flex(_) => SolverSizeMode::Flex,
        UVal::Content => SolverSizeMode::Content,
        UVal::Auto => SolverSizeMode::Content,
    }
}

/// The sizing mode of a declared dimension.
pub fn map_uval_to_mode(val: UVal) -> (mode: SolverSizeMode)
    ensures
        mode == mode_of(val),
{
    match val {
        UVal::Px(_) => SolverSizeMode::Fixed,
        UVal::Percent(_) => SolverSizeMode::Percent,
        UVal::Flex(_) => SolverSizeMode::Flex,
        UVal::Content => SolverSizeMode::Content,
        UVal::Auto => SolverSizeMode::Content,
    }
}

/// Whether a dimension is left to the content.
pub open spec fn left_to_content(val: UVal) -> bool {
    val is Auto || val is Content
}

/// The bounds a container works in: exactly its size on an axis with a
/// declared dimension, anything up to the largest length on an axis that is
/// left to the content.
pub open spec fn constraints_for(container: Vec2i, node: UNode) -> BoxConstraints {
    BoxConstraints {
        min_width: if left_to_content(node.width) {
            0
        } else {
            container.x
        },
        max_width: if left_to_content(node.width) {
            MAX_LENGTH
        } else {
            container.x
        },
        min_height: if left_to_content(node.height) {
            0
        } else {
            container.y
        },
        max_height: if left_to_content(node.height) {
            MAX_LENGTH
        } else {
            container.y
        },
    }
}

/// The bounds a container of the given size works in.
pub fn build_constraints(container_size: Vec2i, node_spec: &UNode) -> (c: BoxConstraints)
    ensures
        c == constraints_for(container_size, *node_spec),
{
    let mut constraints = BoxConstraints::tight(container_size);
    match node_spec.width {
        UVal::Auto | UVal::Content => {
            constraints.min_width = 0;
            constraints.max_width = MAX_LENGTH;
        },
        _ => {},
    }
    match node_spec.height {
        UVal::Auto | UVal::Content => {
            constraints.min_height = 0;
            constraints.max_height = MAX_LENGTH;
        },
        _ => {},
    }
    constraints
}

/// The layout of a node that declares none: a flow in a row, packed and
/// aligned at the start, without gap, one column.
pub open spec fn default_layout() -> ULayout {
    ULayout {
        display: UDisplay::Flex,
        flex_direction: UFlexDirection::Row,
        justify_content: UJustifyContent::Start,
        align_items: UAlignItems::Start,
        gap: 0,
        grid_columns: 1,
    }
}

/// The layout a node has as a container.
pub open spec fn layout_of(node: &LayoutNode) -> ULayout {
    match node.layout {
        Some(l) => l,
        None => default_layout(),
    }
}

/// The container as the solver reads it.
pub open spec fn config_for<'a>(node: &'a LayoutNode) -> SolverConfig<'a> {
    SolverConfig {
        layout: layout_of(node),
        gap: layout_of(node).gap,
        padding: node.node.padding,
        grid_columns: layout_of(node).grid_columns,
        width_mode: mode_of(node.node.width),
        height_mode: mode_of(node.node.height),
        spokes: &node.spokes,
    }
}

/// Reads a container and its layout into the solver's form.
pub fn translate_config<'a>(layout: &ULayout, node: &'a LayoutNode) -> (config: SolverConfig<'a>)
    ensures
        config == (SolverConfig {
            layout: *layout,
            gap: layout.gap,
            padding: node.node.padding,
            grid_columns: layout.grid_columns,
            width_mode: mode_of(node.node.width),
            height_mode: mode_of(node.node.height),
            spokes: &node.spokes,
        }),
{
    SolverConfig {
        layout: *layout,
        gap: layout.gap,
        padding: node.node.padding,
        grid_columns: layout.grid_columns,
        width_mode: map_uval_to_mode(node.node.width),
        height_mode: map_uval_to_mode(node.node.height),
        spokes: &node.spokes,
    }
}

/// A child as its parent's solver reads it: its declaration, with the
/// measured size on each axis that is sized by content, and its margin.
pub open spec fn child_item(nodes: Seq<LayoutNode>, sizes: Seq<IntrinsicSize>, c: int) -> SolverItem {
    let spec = translated_spec(nodes[c].node, nodes[c].uself);
    SolverItem {
        spec: SolverSpec {
            width_val: if spec.width_mode is Content {
                sizes[c].width
            } else {
                spec.width_val
            },
            height_val: if spec.height_mode is Content {
                sizes[c].height
            } else {
                spec.height_val
            },
            ..spec
        },
        result: SolverResult { size: Vec2i { x: 0, y: 0 }, pos: Vec2i { x: 0, y: 0 } },
        margin: nodes[c].node.margin,
    }
}

/// The children among the first `k` of node `p` that are nodes of the
/// table, in their order.
pub open spec fn present_children(nodes: Seq<LayoutNode>, p: int, k: int) -> Seq<usize>
    decreases k,
{
    if k <= 0 {
        Seq::empty()
    } else if nodes[p].children@[k - 1] < nodes.len() {
        present_children(nodes, p, k - 1).push(nodes[p].children@[k - 1])
    } else {
        present_children(nodes, p, k - 1)
    }
}

/// The children of node `p` that its solver lays out.
pub open spec fn laid_out(nodes: Seq<LayoutNode>, p: int) -> Seq<usize> {
    present_children(nodes, p, nodes[p].children@.len() as int)
}

/// The children of node `p` as its solver reads them.
pub open spec fn child_items(nodes: Seq<LayoutNode>, sizes: Seq<IntrinsicSize>, p: int) -> Seq<
    SolverItem,
> {
    Seq::new(laid_out(nodes, p).len(), |k: int| child_item(nodes, sizes, laid_out(nodes, p)[k] as int))
}

/// Handle `h` is among the first `k` children of node `p`, and is a node
/// of the table.
pub open spec fn names_child(nodes: Seq<LayoutNode>, p: int, k: int, h: usize) -> bool {
    exists|i: int| 0 <= i < k && is_edge(nodes, p, i) && (#[trigger] nodes[p].children@[i]) == h
}

/// The present children are the children that are nodes of the table, and
/// there are no more of them than children.
pub proof fn lemma_present_children(nodes: Seq<LayoutNode>, p: int, k: int)
    requires
        0 <= p < nodes.len(),
        0 <= k <= nodes[p].children@.len(),
    ensures
        present_children(nodes, p, k).len() <= k,
        forall|j: int|
            0 <= j < present_children(nodes, p, k).len() ==> names_child(
                nodes,
                p,
                k,
                #[trigger] present_children(nodes, p, k)[j],
            ),
        forall|i: int|
            0 <= i < k && is_edge(nodes, p, i) ==> present_children(nodes, p, k).contains(
                #[trigger] nodes[p].children@[i],
            ),
    decreases k,
{
    if k > 0 {
        lemma_present_children(nodes, p, k - 1);
        let prev = present_children(nodes, p, k - 1);
        let now = present_children(nodes, p, k);
        let c = nodes[p].children@[k - 1];
        assert forall|j: int| 0 <= j < now.len() implies names_child(nodes, p, k, #[trigger] now[j]) by {
            if j < prev.len() {
                assert(now[j] == prev[j]);
                assert(names_child(nodes, p, k - 1, prev[j]));
                let i = choose|i: int|
                    0 <= i < k - 1 && is_edge(nodes, p, i) && (#[trigger] nodes[p].children@[i])
                        == prev[j];
                assert(0 <= i < k && is_edge(nodes, p, i) && nodes[p].children@[i] == now[j]);
            } else {
                assert(is_edge(nodes, p, k - 1) && nodes[p].children@[k - 1] == now[j]);
            }
        }
        assert forall|i: int| 0 <= i < k && is_edge(nodes, p, i) implies now.contains(
            #[trigger] nodes[p].children@[i],
        ) by {
            if i < k - 1 {
                assert(prev.contains(nodes[p].children@[i]));
                let j = choose|j: int| 0 <= j < prev.len() && prev[j] == nodes[p].children@[i];
                assert(now[j] == nodes[p].children@[i]);
            } else {
                assert(now[now.len() - 1] == c);
            }
        }
    }
}

/// A child as its parent's solver reads it.
pub fn child_layout_data(nodes: &Vec<LayoutNode>, sizes: &Vec<IntrinsicSize>, c: usize) -> (item:
    SolverItem)
    requires
        c < nodes@.len(),
        sizes@.len() == nodes@.len(),
    ensures
        item == child_item(nodes@, sizes@, c as int),
        nodes@[c as int].valid() && sizes@[c as int].valid() ==> item.valid(),
{
    let node = &nodes[c];
    let mut spec = match &node.uself {
        Some(u) => translate_spec(&node.node, Some(u)),
        None => translate_spec(&node.node, None),
    };
    match spec.width_mode {
        SolverSizeMode::Content => {
            spec.width_val = sizes[c].width;
        },
        _ => {},
    }
    match spec.height_mode {
        SolverSizeMode::Content => {
            spec.height_val = sizes[c].height;
        },
        _ => {},
    }
    SolverItem { spec, result: SolverResult::default(), margin: node.node.margin }
}

/// The children of node `p` that are nodes of the table, as the solver
/// reads them, and their handles.
pub fn collect_children_layout_data(
    nodes: &Vec<LayoutNode>,
    sizes: &Vec<IntrinsicSize>,
    p: usize,
) -> (r: (Vec<SolverItem>, Vec<usize>))
    requires
        p < nodes@.len(),
        sizes@.len() == nodes@.len(),
    ensures
        r.1@ == laid_out(nodes@, p as int),
        r.0@ == child_items(nodes@, sizes@, p as int),
        forall|k: int| 0 <= k < r.1@.len() ==> (#[trigger] r.1@[k]) < nodes@.len(),
        nodes_valid(nodes@) && sizes_valid(sizes@) ==> forall|k: int|
            0 <= k < r.0@.len() ==> (#[trigger] r.0@[k]).valid(),
{
    let n: usize = nodes.len();
    let kids = &nodes[p].children;
    let mut items: Vec<SolverItem> = Vec::new();
    let mut handles: Vec<usize> = Vec::new();
    let mut k: usize = 0;
    while k < kids.len()
        invariant
            n == nodes@.len(),
            p < n,
            sizes@.len() == n,
            kids@ == nodes@[p as int].children@,
            k <= kids@.len(),
            handles@ == present_children(nodes@, p as int, k as int),
            items@.len() == handles@.len(),
            forall|j: int| 0 <= j < handles@.len() ==> (#[trigger] handles@[j]) < n,
            forall|j: int|
                0 <= j < handles@.len() ==> (#[trigger] items@[j]) == child_item(
                    nodes@,
                    sizes@,
                    handles@[j] as int,
                ),
            nodes_valid(nodes@) && sizes_valid(sizes@) ==> forall|j: int|
                0 <= j < items@.len() ==> (#[trigger] items@[j]).valid(),
        decreases kids@.len() - k,
    {
        let c: usize = kids[k];
        if c < n {
            let item = child_layout_data(nodes, sizes, c);
            items.push(item);
            handles.push(c);
        }
        k = k + 1;
    }
    assert(items@ =~= child_items(nodes@, sizes@, p as int));
    (items, handles)
}

/// Twice the offset of a child's centre from its parent's centre, with the
/// second axis pointing up: the translation of a child in a scene whose
/// nodes are centred on their origins, in half pixels.
pub fn centered_translation(parent_size: Vec2i, pos: Vec2i, child_size: Vec2i) -> (t: Vec2i)
    requires
        is_length(parent_size.x as int),
        is_length(parent_size.y as int),
        -crate::solver::REACH - 2 * MAX_LENGTH <= pos.x <= crate::solver::REACH + 2 * MAX_LENGTH,
        -crate::solver::REACH - 2 * MAX_LENGTH <= pos.y <= crate::solver::REACH + 2 * MAX_LENGTH,
        0 <= child_size.x <= 3 * MAX_LENGTH,
        0 <= child_size.y <= 3 * MAX_LENGTH,
    ensures
        t.x == -parent_size.x + 2 * pos.x + child_size.x,
        t.y == parent_size.y - 2 * pos.y - child_size.y,
{
    Vec2i::new(
        -parent_size.x + 2 * pos.x + child_size.x,
        parent_size.y - 2 * pos.y - child_size.y,
    )
}

/// The size offered to node `e`: the root size for a node of depth 0, else
/// what its parent's solve step assigned.
pub open spec fn offered_to(
    nodes: Seq<LayoutNode>,
    depths: Seq<LayoutDepth>,
    viewport: Option<Vec2i>,
    computed: Seq<ComputedSize>,
    e: int,
) -> Vec2i {
    if depths[e].0 == 0 {
        root_size(nodes[e].canvas, viewport)
    } else {
        computed[e].offered
    }
}

/// The final size of node `e` in a container of the given size: the
/// container's size for a node without children to lay out, else the size
/// its solver returns.
pub open spec fn own_size(
    nodes: Seq<LayoutNode>,
    sizes: Seq<IntrinsicSize>,
    container: Vec2i,
    e: int,
) -> Vec2i {
    if laid_out(nodes, e).len() == 0 {
        container
    } else {
        solved_size(
            &config_for(&nodes[e]),
            constraints_for(container, nodes[e].node),
            child_items(nodes, sizes, e),
        )
    }
}

/// The children of node `e` as its solver leaves them, in a container of
/// the given size.
pub open spec fn children_solved(
    nodes: Seq<LayoutNode>,
    sizes: Seq<IntrinsicSize>,
    container: Vec2i,
    e: int,
) -> Seq<SolverItem> {
    solved_items(
        &config_for(&nodes[e]),
        constraints_for(container, nodes[e].node),
        child_items(nodes, sizes, e),
    )
}

/// A node's state with the size it was offered and its final size.
pub open spec fn with_size(c: ComputedSize, offered: Vec2i, size: Vec2i) -> ComputedSize {
    ComputedSize { width: size.x, height: size.y, local_pos: c.local_pos, offered }
}

/// A node's state with what its parent's solver assigned: the offered size
/// and the position.
pub open spec fn with_place(c: ComputedSize, r: SolverResult) -> ComputedSize {
    ComputedSize { width: c.width, height: c.height, local_pos: r.pos, offered: r.size }
}

/// The table with the first `k` solved children written to it.
pub open spec fn placed_children(
    computed: Seq<ComputedSize>,
    handles: Seq<usize>,
    out: Seq<SolverItem>,
    k: int,
) -> Seq<ComputedSize>
    decreases k,
{
    if k <= 0 {
        computed
    } else {
        let prev = placed_children(computed, handles, out, k - 1);
        prev.update(
            handles[k - 1] as int,
            with_place(prev[handles[k - 1] as int], out[k - 1].result),
        )
    }
}

/// The table after the solve step of node `e`: the node has its final
/// size, and each child it lays out has its offered size and position.
pub open spec fn node_solved(
    nodes: Seq<LayoutNode>,
    depths: Seq<LayoutDepth>,
    sizes: Seq<IntrinsicSize>,
    viewport: Option<Vec2i>,
    computed: Seq<ComputedSize>,
    e: int,
) -> Seq<ComputedSize> {
    let offered = offered_to(nodes, depths, viewport, computed, e);
    let container = container_of(offered);
    let own = computed.update(
        e,
        with_size(computed[e], offered, own_size(nodes, sizes, container, e)),
    );
    if laid_out(nodes, e).len() == 0 {
        own
    } else {
        placed_children(
            own,
            laid_out(nodes, e),
            children_solved(nodes, sizes, container, e),
            laid_out(nodes, e).len() as int,
        )
    }
}

/// Node `e` is settled: its solve step would change nothing.
pub open spec fn node_settled(
    nodes: Seq<LayoutNode>,
    depths: Seq<LayoutDepth>,
    sizes: Seq<IntrinsicSize>,
    viewport: Option<Vec2i>,
    computed: Seq<ComputedSize>,
    e: int,
) -> bool {
    node_solved(nodes, depths, sizes, viewport, computed, e) == computed
}

/// The tables the solve pass works on fit together: valid nodes and sizes,
/// one entry in each table for each node, no node a child twice, and
/// depths that grow by one along every edge from a node that the pass
/// solves.
pub open spec fn solve_tree_ready(
    nodes: Seq<LayoutNode>,
    depths: Seq<LayoutDepth>,
    sizes: Seq<IntrinsicSize>,
    computed: Seq<ComputedSize>,
    max: int,
) -> bool {
    &&& nodes_valid(nodes)
    &&& sizes_valid(sizes)
    &&& sizes.len() == nodes.len()
    &&& depths.len() == nodes.len()
    &&& computed.len() == nodes.len()
    &&& edges_unique(nodes)
    &&& depths_consistent(nodes, depths, max)
}

/// Writes to each child what the solver assigned to it.
pub fn apply_results_to_children(
    handles: &Vec<usize>,
    solved: &Vec<SolverItem>,
    computed: &mut Vec<ComputedSize>,
)
    requires
        solved@.len() == handles@.len(),
        forall|k: int| 0 <= k < handles@.len() ==> (#[trigger] handles@[k]) < old(computed)@.len(),
    ensures
        final(computed)@ == placed_children(
            old(computed)@,
            handles@,
            solved@,
            handles@.len() as int,
        ),
{
    let ghost start = computed@;
    let mut k: usize = 0;
    while k < handles.len()
        invariant
            k <= handles@.len(),
            solved@.len() == handles@.len(),
            computed@.len() == start.len(),
            forall|j: int| 0 <= j < handles@.len() ==> (#[trigger] handles@[j]) < start.len(),
            computed@ == placed_children(start, handles@, solved@, k as int),
        decreases handles@.len() - k,
    {
        let h: usize = handles[k];
        let mut state = computed[h];
        state.offered = solved[k].result.size;
        state.local_pos = solved[k].result.pos;
        computed.set(h, state);
        k = k + 1;
    }
}

/// The solve step of one node. The node takes the size offered to it (a
/// root the root size), lays out its children within it, and takes the
/// size its solver returns; each child is assigned its offered size and its
/// position. A node without children to lay out keeps the offered size.
pub fn solve_node(
    nodes: &Vec<LayoutNode>,
    depths: &Vec<LayoutDepth>,
    sizes: &Vec<IntrinsicSize>,
    viewport: Option<Vec2i>,
    computed: &mut Vec<ComputedSize>,
    e: usize,
)
    requires
        nodes_valid(nodes@),
        sizes_valid(sizes@),
        sizes@.len() == nodes@.len(),
        depths@.len() == nodes@.len(),
        old(computed)@.len() == nodes@.len(),
        e < nodes@.len(),
    ensures
        final(computed)@ == node_solved(
            nodes@,
            depths@,
            sizes@,
            viewport,
            old(computed)@,
            e as int,
        ),
{
    let node = &nodes[e];
    assert(nodes@[e as int].valid());
    let offered: Vec2i = if depths[e].0 == 0 {
        calculate_root_size(node.canvas, viewport)
    } else {
        computed[e].offered
    };
    let container = Vec2i::new(
        clamp_i64(offered.x, 0, MAX_LENGTH),
        clamp_i64(offered.y, 0, MAX_LENGTH),
    );
    let (mut items, handles) = collect_children_layout_data(nodes, sizes, e);
    let mut state = computed[e];
    state.offered = offered;
    if handles.len() == 0 {
        state.width = container.x;
        state.height = container.y;
        computed.set(e, state);
        return ;
    }
    let constraints = build_constraints(container, &node.node);
    let layout: ULayout = match node.layout {
        Some(l) => l,
        None => ULayout::default(),
    };
    let config = translate_config(&layout, node);
    assert(config == config_for(&nodes@[e as int]));
    proof {
        lemma_present_children(nodes@, e as int, node.children@.len() as int);
        if config.layout.display is Radial {
            crate::solver::lemma_order_short(items@);
        }
    }
    let size = solve_flex_layout(&config, constraints, &mut items);
    state.width = size.x;
    state.height = size.y;
    computed.set(e, state);
    apply_results_to_children(&handles, &items, computed);
}

/// The children a node lays out are different nodes, each a child of it.
pub proof fn lemma_laid_out_distinct(nodes: Seq<LayoutNode>, p: int, k: int)
    requires
        edges_unique(nodes),
        0 <= p < nodes.len(),
        0 <= k <= nodes[p].children@.len(),
    ensures
        forall|a: int, b: int|
            0 <= a < present_children(nodes, p, k).len() && 0 <= b < present_children(
                nodes,
                p,
                k,
            ).len() && a != b ==> (#[trigger] present_children(nodes, p, k)[a]) != (
            #[trigger] present_children(nodes, p, k)[b]),
    decreases k,
{
    if k > 0 {
        lemma_laid_out_distinct(nodes, p, k - 1);
        lemma_present_children(nodes, p, k - 1);
        let prev = present_children(nodes, p, k - 1);
        let now = present_children(nodes, p, k);
        let c = nodes[p].children@[k - 1];
        if c < nodes.len() {
            assert forall|a: int| 0 <= a < prev.len() implies (#[trigger] prev[a]) != c by {
                assert(names_child(nodes, p, k - 1, prev[a]));
                let i = choose|i: int|
                    0 <= i < k - 1 && is_edge(nodes, p, i) && (#[trigger] nodes[p].children@[i])
                        == prev[a];
                assert(is_edge(nodes, p, k - 1));
                if nodes[p].children@[i] == nodes[p].children@[k - 1] {
                    assert(i == k - 1);
                }
            }
            assert forall|a: int, b: int|
                0 <= a < now.len() && 0 <= b < now.len() && a != b implies (#[trigger] now[a]) != (
            #[trigger] now[b]) by {
                if a < prev.len() && b < prev.len() {
                    assert(now[a] == prev[a]);
                    assert(now[b] == prev[b]);
                } else if a < prev.len() {
                    assert(now[a] == prev[a]);
                } else {
                    assert(now[b] == prev[b]);
                }
            }
        }
    }
}

/// What writing solved children to the table changes: each named node gets
/// its place, every other entry stays.
pub proof fn lemma_placed_children(
    computed: Seq<ComputedSize>,
    handles: Seq<usize>,
    out: Seq<SolverItem>,
    k: int,
)
    requires
        0 <= k <= handles.len(),
        k <= out.len(),
        forall|j: int| 0 <= j < handles.len() ==> (#[trigger] handles[j]) < computed.len(),
        forall|a: int, b: int|
            0 <= a < handles.len() && 0 <= b < handles.len() && a != b ==> (#[trigger] handles[a])
                != (#[trigger] handles[b]),
    ensures
        placed_children(computed, handles, out, k).len() == computed.len(),
        forall|j: int|
            0 <= j < k ==> placed_children(computed, handles, out, k)[(#[trigger] handles[j]) as int]
                == with_place(computed[handles[j] as int], out[j].result),
        forall|x: int|
            0 <= x < computed.len() && (forall|j: int| 0 <= j < k ==> (#[trigger] handles[j]) != x)
                ==> (#[trigger] placed_children(computed, handles, out, k)[x]) == computed[x],
    decreases k,
{
    if k > 0 {
        lemma_placed_children(computed, handles, out, k - 1);
        let prev = placed_children(computed, handles, out, k - 1);
        let now = placed_children(computed, handles, out, k);
        assert forall|j: int| 0 <= j < k implies now[(#[trigger] handles[j]) as int] == with_place(
            computed[handles[j] as int],
            out[j].result,
        ) by {
            if j < k - 1 {
                assert(handles[j] != handles[k - 1]);
            } else {
                assert(prev[handles[k - 1] as int] == computed[handles[k - 1] as int]);
            }
        }
    }
}

/// What holds of the children a node lays out, in tables that fit.
pub proof fn lemma_laid_out(nodes: Seq<LayoutNode>, depths: Seq<LayoutDepth>, e: int, max: int)
    requires
        edges_unique(nodes),
        depths_consistent(nodes, depths, max),
        depths.len() == nodes.len(),
        0 <= e < nodes.len(),
        depths[e].0 <= max,
    ensures
        forall|j: int|
            0 <= j < laid_out(nodes, e).len() ==> (#[trigger] laid_out(nodes, e)[j]) < nodes.len()
                && depths[laid_out(nodes, e)[j] as int].0 == depths[e].0 + 1 && names_child(
                nodes,
                e,
                nodes[e].children@.len() as int,
                laid_out(nodes, e)[j],
            ),
        forall|a: int, b: int|
            0 <= a < laid_out(nodes, e).len() && 0 <= b < laid_out(nodes, e).len() && a != b ==> (
            #[trigger] laid_out(nodes, e)[a]) != (#[trigger] laid_out(nodes, e)[b]),
{
    let all = nodes[e].children@.len() as int;
    lemma_present_children(nodes, e, all);
    lemma_laid_out_distinct(nodes, e, all);
    assert forall|j: int| 0 <= j < laid_out(nodes, e).len() implies (#[trigger] laid_out(nodes, e)[j])
        < nodes.len() && depths[laid_out(nodes, e)[j] as int].0 == depths[e].0 + 1 by {
        let h = laid_out(nodes, e)[j];
        assert(names_child(nodes, e, all, h));
        let i = choose|i: int|
            0 <= i < all && is_edge(nodes, e, i) && (#[trigger] nodes[e].children@[i]) == h;
        assert(depths[nodes[e].children@[i] as int].0 == depths[e].0 + 1);
    }
}

/// The solve step of node `e`, entry by entry: the node has its offered and
/// its final size, each child it lays out has its place, and every other
/// entry stays.
pub proof fn lemma_node_solved(
    nodes: Seq<LayoutNode>,
    depths: Seq<LayoutDepth>,
    sizes: Seq<IntrinsicSize>,
    viewport: Option<Vec2i>,
    computed: Seq<ComputedSize>,
    e: int,
    max: int,
)
    requires
        edges_unique(nodes),
        depths_consistent(nodes, depths, max),
        depths.len() == nodes.len(),
        computed.len() == nodes.len(),
        0 <= e < nodes.len(),
        depths[e].0 <= max,
    ensures
        node_solved(nodes, depths, sizes, viewport, computed, e).len() == computed.len(),
        node_solved(nodes, depths, sizes, viewport, computed, e)[e] == with_size(
            computed[e],
            offered_to(nodes, depths, viewport, computed, e),
            own_size(
                nodes,
                sizes,
                container_of(offered_to(nodes, depths, viewport, computed, e)),
                e,
            ),
        ),
        forall|j: int|
            0 <= j < laid_out(nodes, e).len() ==> node_solved(
                nodes,
                depths,
                sizes,
                viewport,
                computed,
                e,
            )[(#[trigger] laid_out(nodes, e)[j]) as int] == with_place(
                computed[laid_out(nodes, e)[j] as int],
                children_solved(
                    nodes,
                    sizes,
                    container_of(offered_to(nodes, depths, viewport, computed, e)),
                    e,
                )[j].result,
            ),
        forall|x: int|
            0 <= x < nodes.len() && x != e && !laid_out(nodes, e).contains(x as usize) ==> (
            #[trigger] node_solved(nodes, depths, sizes, viewport, computed, e)[x]) == computed[x],
{
    let offered = offered_to(nodes, depths, viewport, computed, e);
    let container = container_of(offered);
    let own = computed.update(
        e,
        with_size(computed[e], offered, own_size(nodes, sizes, container, e)),
    );
    let handles = laid_out(nodes, e);
    let out = children_solved(nodes, sizes, container, e);
    let after = node_solved(nodes, depths, sizes, viewport, computed, e);
    lemma_laid_out(nodes, depths, e, max);
    if handles.len() > 0 {
        lemma_placed_children(own, handles, out, handles.len() as int);
        assert forall|j: int| 0 <= j < handles.len() implies (#[trigger] handles[j]) != e by {}
        assert(after[e] == own[e]);
        assert forall|x: int|
            0 <= x < nodes.len() && x != e && !handles.contains(x as usize) implies (
        #[trigger] after[x]) == computed[x] by {
            assert forall|j: int| 0 <= j < handles.len() implies (#[trigger] handles[j]) != x by {
                if handles[j] == x {
                    assert(handles.contains(x as usize));
                }
            }
        }
    }
}

/// A node is settled where it has its offered and its final size and each
/// child it lays out has its place.
pub proof fn lemma_settled_by_entries(
    nodes: Seq<LayoutNode>,
    depths: Seq<LayoutDepth>,
    sizes: Seq<IntrinsicSize>,
    viewport: Option<Vec2i>,
    computed: Seq<ComputedSize>,
    e: int,
    max: int,
)
    requires
        edges_unique(nodes),
        depths_consistent(nodes, depths, max),
        depths.len() == nodes.len(),
        computed.len() == nodes.len(),
        0 <= e < nodes.len() <= usize::MAX,
        depths[e].0 <= max,
        computed[e] == with_size(
            computed[e],
            offered_to(nodes, depths, viewport, computed, e),
            own_size(
                nodes,
                sizes,
                container_of(offered_to(nodes, depths, viewport, computed, e)),
                e,
            ),
        ),
        forall|j: int|
            0 <= j < laid_out(nodes, e).len() ==> computed[(#[trigger] laid_out(nodes, e)[j]) as int]
                == with_place(
                computed[laid_out(nodes, e)[j] as int],
                children_solved(
                    nodes,
                    sizes,
                    container_of(offered_to(nodes, depths, viewport, computed, e)),
                    e,
                )[j].result,
            ),
    ensures
        node_settled(nodes, depths, sizes, viewport, computed, e),
{
    lemma_node_solved(nodes, depths, sizes, viewport, computed, e, max);
    let after = node_solved(nodes, depths, sizes, viewport, computed, e);
    let handles = laid_out(nodes, e);
    assert forall|x: int| 0 <= x < nodes.len() implies after[x] == computed[x] by {
        if x != e && handles.contains(x as usize) {
            let j = choose|j: int| 0 <= j < handles.len() && handles[j] == x as usize;
            assert(after[handles[j] as int] == computed[handles[j] as int]);
        }
    }
    assert(after =~= computed);
}

/// The solve step of node `e` settles `e`, and leaves settled every node
/// that is no deeper than `e`.
pub proof fn lemma_step_settles(
    nodes: Seq<LayoutNode>,
    depths: Seq<LayoutDepth>,
    sizes: Seq<IntrinsicSize>,
    viewport: Option<Vec2i>,
    computed: Seq<ComputedSize>,
    e: int,
    q: int,
    max: int,
)
    requires
        edges_unique(nodes),
        depths_consistent(nodes, depths, max),
        depths.len() == nodes.len(),
        computed.len() == nodes.len(),
        0 <= e < nodes.len() <= usize::MAX,
        0 <= q < nodes.len(),
        depths[q].0 <= depths[e].0 <= max,
        q != e ==> node_settled(nodes, depths, sizes, viewport, computed, q),
    ensures
        node_settled(
            nodes,
            depths,
            sizes,
            viewport,
            node_solved(nodes, depths, sizes, viewport, computed, e),
            q,
        ),
{
    let after = node_solved(nodes, depths, sizes, viewport, computed, e);
    lemma_node_solved(nodes, depths, sizes, viewport, computed, e, max);
    lemma_laid_out(nodes, depths, e, max);
    lemma_laid_out(nodes, depths, q, max);
    let mine = laid_out(nodes, e);
    let theirs = laid_out(nodes, q);
    if q == e {
        assert(offered_to(nodes, depths, viewport, after, e) == offered_to(
            nodes,
            depths,
            viewport,
            computed,
            e,
        ));
        lemma_settled_by_entries(nodes, depths, sizes, viewport, after, e, max);
    } else {
        lemma_node_solved(nodes, depths, sizes, viewport, computed, q, max);
        assert(!mine.contains(q as usize)) by {
            if mine.contains(q as usize) {
                let j = choose|j: int| 0 <= j < mine.len() && mine[j] == q as usize;
                assert(depths[mine[j] as int].0 == depths[e].0 + 1);
            }
        }
        assert(after[q] == computed[q]);
        let container = container_of(offered_to(nodes, depths, viewport, computed, q));
        let out = children_solved(nodes, sizes, container, q);
        assert forall|j: int| 0 <= j < theirs.len() implies after[(#[trigger] theirs[j]) as int]
            == with_place(after[theirs[j] as int], out[j].result) by {
            let h = theirs[j];
            assert(computed[h as int] == with_place(computed[h as int], out[j].result)) by {
                assert(node_solved(nodes, depths, sizes, viewport, computed, q)[theirs[j] as int]
                    == with_place(computed[theirs[j] as int], out[j].result));
            }
            if h == e {
                assert(depths[e].0 == depths[q].0 + 1);
            } else if mine.contains(h) {
                let a = choose|a: int| 0 <= a < mine.len() && mine[a] == h;
                assert(names_child(nodes, e, nodes[e].children@.len() as int, mine[a]));
                assert(names_child(nodes, q, nodes[q].children@.len() as int, theirs[j]));
                let i1 = choose|i: int|
                    0 <= i < nodes[e].children@.len() && is_edge(nodes, e, i) && (
                    #[trigger] nodes[e].children@[i]) == h;
                let i2 = choose|i: int|
                    0 <= i < nodes[q].children@.len() && is_edge(nodes, q, i) && (
                    #[trigger] nodes[q].children@[i]) == h;
                assert(nodes[e].children@[i1] == nodes[q].children@[i2]);
                assert(false);
            } else {
                assert(after[h as int] == computed[h as int]);
            }
        }
        lemma_settled_by_entries(nodes, depths, sizes, viewport, after, q, max);
    }
}

/// Some node of depth `max` or less lays out node `x`.
pub open spec fn has_solved_parent(
    nodes: Seq<LayoutNode>,
    depths: Seq<LayoutDepth>,
    max: int,
    x: int,
) -> bool {
    exists|p: int|
        0 <= p < nodes.len() && depths[p].0 <= max && (#[trigger] laid_out(nodes, p)).contains(
            x as usize,
        )
}

/// Node `x` has the position it had, and the offered size it had unless it
/// is a root.
pub open spec fn place_kept(
    depths: Seq<LayoutDepth>,
    before: Seq<ComputedSize>,
    after: Seq<ComputedSize>,
    x: int,
) -> bool {
    &&& after[x].local_pos == before[x].local_pos
    &&& depths[x].0 != 0 ==> after[x].offered == before[x].offered
}

/// Every node of depth `max` or less is settled.
pub open spec fn all_settled(
    nodes: Seq<LayoutNode>,
    depths: Seq<LayoutDepth>,
    sizes: Seq<IntrinsicSize>,
    viewport: Option<Vec2i>,
    computed: Seq<ComputedSize>,
    max: int,
) -> bool {
    forall|e: int|
        0 <= e < nodes.len() && depths[e].0 <= max ==> #[trigger] node_settled(
            nodes,
            depths,
            sizes,
            viewport,
            computed,
            e,
        )
}

/// Whether the pass has solved node `q`: it lies above `level`, or at
/// `level` among the first `k` of that level's list.
spec fn walked(depths: Seq<LayoutDepth>, level: int, bucket: Seq<usize>, k: int, q: int) -> bool {
    depths[q].0 < level || (depths[q].0 == level && exists|j: int|
        0 <= j < k && #[trigger] bucket[j] == q)
}

/// Node `q` is settled if the pass has solved it.
spec fn walked_settled(
    nodes: Seq<LayoutNode>,
    depths: Seq<LayoutDepth>,
    sizes: Seq<IntrinsicSize>,
    viewport: Option<Vec2i>,
    computed: Seq<ComputedSize>,
    level: int,
    bucket: Seq<usize>,
    k: int,
    q: int,
) -> bool {
    walked(depths, level, bucket, k, q) ==> node_settled(nodes, depths, sizes, viewport, computed, q)
}

/// What holds of the table during the solve pass.
spec fn solve_state(
    nodes: Seq<LayoutNode>,
    depths: Seq<LayoutDepth>,
    sizes: Seq<IntrinsicSize>,
    viewport: Option<Vec2i>,
    before: Seq<ComputedSize>,
    computed: Seq<ComputedSize>,
    max: int,
    level: int,
    bucket: Seq<usize>,
    k: int,
) -> bool {
    &&& computed.len() == nodes.len()
    &&& forall|q: int|
        0 <= q < nodes.len() ==> #[trigger] walked_settled(
            nodes,
            depths,
            sizes,
            viewport,
            computed,
            level,
            bucket,
            k,
            q,
        )
    &&& all_settled(nodes, depths, sizes, viewport, before, max) ==> computed == before
    &&& forall|x: int|
        0 <= x < nodes.len() && depths[x].0 > max ==> (#[trigger] computed[x]).width
            == before[x].width && computed[x].height == before[x].height
    &&& forall|x: int|
        0 <= x < nodes.len() && depths[x].0 > max + 1 ==> (#[trigger] computed[x]) == before[x]
    &&& forall|x: int|
        0 <= x < nodes.len() && !has_solved_parent(nodes, depths, max, x) ==> #[trigger] place_kept(
            depths,
            before,
            computed,
            x,
        )
}

/// One step of the solve pass keeps what holds of the table.
proof fn lemma_solve_step(
    nodes: Seq<LayoutNode>,
    depths: Seq<LayoutDepth>,
    sizes: Seq<IntrinsicSize>,
    viewport: Option<Vec2i>,
    before: Seq<ComputedSize>,
    computed: Seq<ComputedSize>,
    max: int,
    level: int,
    bucket: Seq<usize>,
    k: int,
)
    requires
        solve_tree_ready(nodes, depths, sizes, computed, max),
        nodes.len() <= usize::MAX,
        before.len() == nodes.len(),
        0 <= level <= max,
        0 <= k < bucket.len(),
        forall|j: int|
            0 <= j < bucket.len() ==> (#[trigger] bucket[j]) < nodes.len() && depths[bucket[j] as int].0
                == level,
        solve_state(nodes, depths, sizes, viewport, before, computed, max, level, bucket, k),
    ensures
        solve_state(
            nodes,
            depths,
            sizes,
            viewport,
            before,
            node_solved(nodes, depths, sizes, viewport, computed, bucket[k] as int),
            max,
            level,
            bucket,
            k + 1,
        ),
{
    let e = bucket[k] as int;
    let after = node_solved(nodes, depths, sizes, viewport, computed, e);
    lemma_node_solved(nodes, depths, sizes, viewport, computed, e, max);
    lemma_laid_out(nodes, depths, e, max);
    let mine = laid_out(nodes, e);
    assert forall|q: int| 0 <= q < nodes.len() implies #[trigger] walked_settled(
        nodes,
        depths,
        sizes,
        viewport,
        after,
        level,
        bucket,
        k + 1,
        q,
    ) by {
        if walked(depths, level, bucket, k + 1, q) {
            if q != e {
                assert(walked(depths, level, bucket, k, q)) by {
                    if depths[q].0 == level {
                        let j = choose|j: int| 0 <= j < k + 1 && #[trigger] bucket[j] == q;
                        assert(j < k);
                    }
                }
                assert(walked_settled(
                    nodes,
                    depths,
                    sizes,
                    viewport,
                    computed,
                    level,
                    bucket,
                    k,
                    q,
                ));
            }
            lemma_step_settles(nodes, depths, sizes, viewport, computed, e, q, max);
        }
    }
    if all_settled(nodes, depths, sizes, viewport, before, max) {
        assert(computed == before);
        assert(node_settled(nodes, depths, sizes, viewport, before, e));
    }
    assert forall|x: int| 0 <= x < nodes.len() && depths[x].0 > max implies (
    #[trigger] after[x]).width == before[x].width && after[x].height == before[x].height by {
        if mine.contains(x as usize) {
            let j = choose|j: int| 0 <= j < mine.len() && mine[j] == x as usize;
            assert(after[mine[j] as int].width == computed[mine[j] as int].width);
        }
    }
    assert forall|x: int| 0 <= x < nodes.len() && depths[x].0 > max + 1 implies (
    #[trigger] after[x]) == before[x] by {
        if mine.contains(x as usize) {
            let j = choose|j: int| 0 <= j < mine.len() && mine[j] == x as usize;
            assert(depths[mine[j] as int].0 == depths[e].0 + 1);
        }
    }
    assert forall|x: int|
        0 <= x < nodes.len() && !has_solved_parent(nodes, depths, max, x) implies #[trigger] place_kept(
        depths,
        before,
        after,
        x,
    ) by {
        assert(place_kept(depths, before, computed, x));
        assert(!laid_out(nodes, e).contains(x as usize));
    }
}

/// The solve pass: every indexed node of depth `max_depth` or less takes
/// its solve step, the shallowest first, so that each node is solved after
/// its parent has offered it a size.
///
/// Afterwards every such node is settled. A node that none of them lays
/// out keeps its position and, unless it is a root, its offered size. A
/// table in which they all were settled already comes out as it went in:
/// solving an unchanged tree again changes nothing.
pub fn downward_solve_pass_safe(
    nodes: &Vec<LayoutNode>,
    depths: &Vec<LayoutDepth>,
    tree_depth: &LayoutTreeDepth,
    cache: &LayoutCache,
    sizes: &Vec<IntrinsicSize>,
    viewport: Option<Vec2i>,
    computed: &mut Vec<ComputedSize>,
)
    requires
        solve_tree_ready(nodes@, depths@, sizes@, old(computed)@, tree_depth.max_depth as int),
        cache.by_depth() == depth_buckets(depths@, depths@.len() as int),
    ensures
        final(computed)@.len() == nodes@.len(),
        all_settled(
            nodes@,
            depths@,
            sizes@,
            viewport,
            final(computed)@,
            tree_depth.max_depth as int,
        ),
        all_settled(nodes@, depths@, sizes@, viewport, old(computed)@, tree_depth.max_depth as int)
            ==> final(computed)@ == old(computed)@,
        forall|x: int|
            0 <= x < nodes@.len() && depths@[x].0 > tree_depth.max_depth ==> (#[trigger] final(computed)@[x]).width
                == old(computed)@[x].width && final(computed)@[x].height == old(computed)@[x].height,
        forall|x: int|
            0 <= x < nodes@.len() && depths@[x].0 > tree_depth.max_depth + 1 ==> (
            #[trigger] final(computed)@[x]) == old(computed)@[x],
        forall|x: int|
            0 <= x < nodes@.len() && !has_solved_parent(
                nodes@,
                depths@,
                tree_depth.max_depth as int,
                x,
            ) ==> #[trigger] place_kept(depths@, old(computed)@, final(computed)@, x),
{
    let n: usize = nodes.len();
    let ghost before = computed@;
    let ghost max = tree_depth.max_depth as int;
    let ghost index = cache.by_depth();
    let mut level: usize = 0;
    let mut done: bool = false;
    assert(solve_state(
        nodes@,
        depths@,
        sizes@,
        viewport,
        before,
        computed@,
        max,
        0,
        Seq::empty(),
        0,
    )) by {
        assert forall|q: int| 0 <= q < nodes@.len() implies #[trigger] walked_settled(
            nodes@,
            depths@,
            sizes@,
            viewport,
            computed@,
            0,
            Seq::empty(),
            0,
            q,
        ) by {}
    }
    while !done
        invariant
            solve_tree_ready(nodes@, depths@, sizes@, computed@, tree_depth.max_depth as int),
            n == nodes@.len(),
            before.len() == n,
            max == tree_depth.max_depth,
            level <= max,
            done ==> level == max,
            index == depth_buckets(depths@, depths@.len() as int),
            cache.by_depth() == index,
            solve_state(
                nodes@,
                depths@,
                sizes@,
                viewport,
                before,
                computed@,
                max,
                if done {
                    max + 1
                } else {
                    level as int
                },
                Seq::empty(),
                0,
            ),
        decreases
                (if done {
                    0int
                } else {
                    max - level + 1
                }),
    {
        let bucket: Vec<usize> = cache.entities_at_depth(level);
        proof {
            lemma_depth_buckets(depths@, n as int);
            assert forall|e: int| 0 <= e < n && depths@[e].0 == level implies exists|j: int|
                0 <= j < bucket@.len() && #[trigger] bucket@[j] == e by {
                assert(listed(index, depths@[e].0, e));
                let j = choose|j: int|
                    0 <= j < index[depths@[e].0].len() && #[trigger] index[depths@[e].0][j] == e;
                assert(bucket@[j] == e);
            }
            assert forall|j: int| 0 <= j < bucket@.len() implies (#[trigger] bucket@[j]) < n
                && depths@[bucket@[j] as int].0 == level by {
                assert(index[level][j] == bucket@[j]);
            }
            assert forall|q: int| 0 <= q < n implies #[trigger] walked_settled(
                nodes@,
                depths@,
                sizes@,
                viewport,
                computed@,
                level as int,
                bucket@,
                0,
                q,
            ) by {
                assert(walked_settled(
                    nodes@,
                    depths@,
                    sizes@,
                    viewport,
                    computed@,
                    level as int,
                    Seq::empty(),
                    0,
                    q,
                ));
            }
        }
        let mut k: usize = 0;
        while k < bucket.len()
            invariant
                solve_tree_ready(nodes@, depths@, sizes@, computed@, tree_depth.max_depth as int),
                n == nodes@.len(),
                before.len() == n,
                max == tree_depth.max_depth,
                level <= max,
                k <= bucket@.len(),
                forall|j: int|
                    0 <= j < bucket@.len() ==> (#[trigger] bucket@[j]) < n && depths@[bucket@[j] as int].0
                        == level,
                solve_state(
                    nodes@,
                    depths@,
                    sizes@,
                    viewport,
                    before,
                    computed@,
                    max,
                    level as int,
                    bucket@,
                    k as int,
                ),
            decreases bucket@.len() - k,
        {
            let e: usize = bucket[k];
            proof {
                lemma_solve_step(
                    nodes@,
                    depths@,
                    sizes@,
                    viewport,
                    before,
                    computed@,
                    max,
                    level as int,
                    bucket@,
                    k as int,
                );
            }
            solve_node(nodes, depths, sizes, viewport, computed, e);
            k = k + 1;
        }
        proof {
            assert forall|q: int| 0 <= q < n implies #[trigger] walked_settled(
                nodes@,
                depths@,
                sizes@,
                viewport,
                computed@,
                level as int + 1,
                Seq::empty(),
                0,
                q,
            ) by {
                assert(walked_settled(
                    nodes@,
                    depths@,
                    sizes@,
                    viewport,
                    computed@,
                    level as int,
                    bucket@,
                    bucket@.len() as int,
                    q,
                ));
                if depths@[q].0 == level {
                    let j = choose|j: int| 0 <= j < bucket@.len() && #[trigger] bucket@[j] == q;
                }
            }
        }
        if level == tree_depth.max_depth {
            done = true;
        } else {
            level = level + 1;
        }
    }
    proof {
        assert forall|e: int| 0 <= e < nodes@.len() && depths@[e].0 <= max implies #[trigger] node_settled(
            nodes@,
            depths@,
            sizes@,
            viewport,
            computed@,
            e,
        ) by {
            assert(walked_settled(
                nodes@,
                depths@,
                sizes@,
                viewport,
                computed@,
                max + 1,
                Seq::empty(),
                0,
                e,
            ));
        }
    }
}

} // verus!
