use univis_ui::components::{IntrinsicSize, LayoutDepth, LayoutTreeDepth};
use univis_ui::geometry::{BoxConstraints, ComputedSize, USides, UVal};
use univis_ui::hierarchy::{update_layout_hierarchy, OUTSIDE_TREE};
use univis_ui::layout_cache::{
    track_layout_changes, update_depth_cache, LayoutCache, NodeChange,
};
use univis_ui::layout_system::layout_frame;
use univis_ui::pass_down::{
    build_constraints, calculate_root_size, centered_translation, collect_children_layout_data,
    downward_solve_pass_safe, map_uval_to_mode, solve_node, translate_config,
};
use univis_ui::pass_up::{
    measure_cached_node, measure_node, sizes_are_valid, upward_measure_pass,
    upward_measure_pass_cached,
};
use univis_ui::solver::SolverSizeMode;
use univis_ui::tree::{is_forest_table, nodes_are_valid, LayoutNode};
use univis_ui::units::{Vec2i, MAX_LENGTH};
use univis_ui::univis_node::{
    UAlignItems, UAlignSelf, UDisplay, UFlexDirection, UJustifyContent, ULayout, UNode,
    UPositionType, USelf,
};

fn node(width: UVal, height: UVal, children: Vec<usize>) -> LayoutNode {
    LayoutNode {
        node: UNode { width, height, padding: USides::all(0), margin: USides::all(0) },
        layout: None,
        uself: None,
        children,
        canvas: None,
        spokes: Vec::new(),
    }
}

fn flow(direction: UFlexDirection, gap: i64, align_items: UAlignItems) -> ULayout {
    ULayout {
        display: UDisplay::Flex,
        flex_direction: direction,
        justify_content: UJustifyContent::Start,
        align_items,
        gap,
        grid_columns: 1,
    }
}

/// Root 0 holds 1 and 2; 1 holds 3.
fn small_tree() -> Vec<LayoutNode> {
    let mut root = node(UVal::Content, UVal::Content, vec![1, 2]);
    root.layout = Some(flow(UFlexDirection::Row, 5, UAlignItems::Start));
    let mut inner = node(UVal::Content, UVal::Content, vec![3]);
    inner.node.padding = USides::all(2);
    let mut leaf = node(UVal::Px(30), UVal::Px(10), vec![]);
    leaf.node.margin = USides::all(1);
    vec![root, inner, node(UVal::Px(50), UVal::Px(20), vec![]), leaf]
}

fn blank_sizes(n: usize) -> Vec<IntrinsicSize> {
    vec![IntrinsicSize { width: 0, height: 0 }; n]
}

fn blank_depths(n: usize) -> Vec<LayoutDepth> {
    vec![LayoutDepth(7); n]
}

fn blank_boxes(n: usize) -> Vec<ComputedSize> {
    vec![
        ComputedSize {
            width: 0,
            height: 0,
            local_pos: Vec2i { x: 0, y: 0 },
            offered: Vec2i { x: 0, y: 0 },
        };
        n
    ]
}

fn size(width: i64, height: i64) -> IntrinsicSize {
    IntrinsicSize { width, height }
}

fn depth_values(depths: &Vec<LayoutDepth>) -> Vec<usize> {
    depths.iter().map(|d| d.0).collect()
}

#[test]
fn depth_grows_by_one_along_every_edge() {
    let nodes = small_tree();
    let mut depths = blank_depths(4);
    let tree_depth = update_layout_hierarchy(&nodes, &vec![0], &mut depths);
    assert_eq!(tree_depth, LayoutTreeDepth { max_depth: 2 });
    assert_eq!(depth_values(&depths), vec![0, 1, 1, 2]);
    for (p, parent) in nodes.iter().enumerate() {
        for c in parent.children.iter() {
            assert_eq!(depths[*c].0, depths[p].0 + 1);
        }
    }
}

#[test]
fn nodes_under_no_root_are_outside_the_tree() {
    let mut nodes = small_tree();
    nodes.push(node(UVal::Content, UVal::Content, vec![5, 99]));
    nodes.push(node(UVal::Content, UVal::Content, vec![]));
    let mut depths = blank_depths(6);
    let tree_depth = update_layout_hierarchy(&nodes, &vec![0, 0, 42], &mut depths);
    assert_eq!(tree_depth.max_depth, 2);
    assert_eq!(depth_values(&depths), vec![0, 1, 1, 2, OUTSIDE_TREE, OUTSIDE_TREE]);
}

#[test]
fn a_forest_of_two_roots_and_an_empty_one() {
    let mut nodes = small_tree();
    nodes.push(node(UVal::Content, UVal::Content, vec![]));
    let mut depths = blank_depths(5);
    let tree_depth = update_layout_hierarchy(&nodes, &vec![4, 1], &mut depths);
    assert_eq!(tree_depth.max_depth, 1);
    assert_eq!(depth_values(&depths), vec![OUTSIDE_TREE, 0, OUTSIDE_TREE, 1, 0]);
    let mut none: Vec<LayoutDepth> = Vec::new();
    assert_eq!(update_layout_hierarchy(&Vec::new(), &vec![3], &mut none).max_depth, 0);
}

#[test]
fn a_table_is_a_forest_if_no_node_is_a_child_twice_and_no_root_a_child() {
    let nodes = small_tree();
    assert!(is_forest_table(&nodes, &vec![0]));
    assert!(is_forest_table(&nodes, &vec![0, 99]));
    assert!(!is_forest_table(&nodes, &vec![0, 3]));
    let mut twice = small_tree();
    twice[2].children.push(3);
    assert!(!is_forest_table(&twice, &vec![0]));
    let mut doubled = small_tree();
    doubled[0].children.push(1);
    assert!(!is_forest_table(&doubled, &vec![0]));
    let mut gone = small_tree();
    gone[2].children.push(77);
    gone[1].children.push(77);
    assert!(is_forest_table(&gone, &vec![0]));
}

#[test]
fn nodes_with_values_out_of_range_are_not_valid() {
    assert!(nodes_are_valid(&small_tree()));
    let mut wide = small_tree();
    wide[3].node.width = UVal::Px(MAX_LENGTH + 1);
    assert!(!nodes_are_valid(&wide));
    let mut negative = small_tree();
    negative[1].node.padding.left = -1;
    assert!(!nodes_are_valid(&negative));
    let mut ring = small_tree();
    ring[0].layout = Some(ULayout { display: UDisplay::Radial, ..ring[0].layout.unwrap() });
    assert!(!nodes_are_valid(&ring));
    ring[0].spokes = vec![Vec2i { x: 0, y: 1 }, Vec2i { x: 1, y: 0 }];
    assert!(nodes_are_valid(&ring));
    assert!(sizes_are_valid(&vec![size(0, MAX_LENGTH)]));
    assert!(!sizes_are_valid(&vec![size(0, 0), size(-1, 0)]));
}

#[test]
fn a_node_is_measured_from_its_children() {
    let nodes = small_tree();
    let mut sizes = blank_sizes(4);
    sizes[3] = measure_node(&nodes, &sizes, 3);
    assert_eq!(sizes[3], size(30, 10));
    sizes[2] = measure_node(&nodes, &sizes, 2);
    sizes[1] = measure_node(&nodes, &sizes, 1);
    assert_eq!(sizes[1], size(30 + 2 + 4, 10 + 2 + 4));
    assert_eq!(measure_node(&nodes, &sizes, 0), size(36 + 50 + 5, 20));
}

#[test]
fn a_column_adds_heights_and_takes_the_widest() {
    let mut nodes = small_tree();
    nodes[0].layout = Some(flow(UFlexDirection::Column, 5, UAlignItems::Start));
    let sizes = vec![size(0, 0), size(36, 16), size(50, 20), size(30, 10)];
    assert_eq!(measure_node(&nodes, &sizes, 0), size(50, 16 + 20 + 5));
}

#[test]
fn an_out_of_flow_child_adds_nothing_to_its_parent() {
    let mut nodes = small_tree();
    nodes[2].uself = Some(USelf {
        align_self: UAlignSelf::Auto,
        left: UVal::Auto,
        top: UVal::Auto,
        bottom: UVal::Auto,
        right: UVal::Auto,
        order: 0,
        position_type: UPositionType::Absolute,
    });
    let sizes = vec![size(0, 0), size(36, 16), size(50, 20), size(30, 10)];
    assert_eq!(measure_node(&nodes, &sizes, 0), size(36, 16));
}

#[test]
fn a_node_without_children_measures_its_padding() {
    let mut nodes = vec![node(UVal::Content, UVal::Auto, vec![9])];
    nodes[0].node.padding = USides { left: 1, right: 2, top: 3, bottom: 4 };
    assert_eq!(measure_node(&nodes, &blank_sizes(1), 0), size(3, 7));
}

#[test]
fn a_fixed_dimension_wins_over_the_content() {
    let mut nodes = small_tree();
    nodes[0].node.width = UVal::Px(400);
    let sizes = vec![size(0, 0), size(36, 16), size(50, 20), size(30, 10)];
    assert_eq!(measure_node(&nodes, &sizes, 0), size(400, 20));
}

#[test]
fn a_measure_stops_at_the_largest_length() {
    let mut nodes = vec![
        node(UVal::Content, UVal::Content, vec![1, 2]),
        node(UVal::Px(MAX_LENGTH), UVal::Px(1), vec![]),
        node(UVal::Px(MAX_LENGTH), UVal::Px(1), vec![]),
    ];
    nodes[0].node.padding = USides::all(3);
    let sizes = vec![size(0, 0), size(MAX_LENGTH, 1), size(MAX_LENGTH, 1)];
    assert_eq!(measure_node(&nodes, &sizes, 0), size(MAX_LENGTH, 7));
}

#[test]
fn the_measurement_pass_goes_bottom_up() {
    let nodes = small_tree();
    let depths = vec![LayoutDepth(0), LayoutDepth(1), LayoutDepth(1), LayoutDepth(2)];
    let mut sizes = blank_sizes(4);
    upward_measure_pass(&nodes, &depths, &LayoutTreeDepth { max_depth: 2 }, &mut sizes);
    assert_eq!(sizes, vec![size(91, 20), size(36, 16), size(50, 20), size(30, 10)]);
    let mut sizes = blank_sizes(4);
    upward_measure_pass(&nodes, &depths, &LayoutTreeDepth { max_depth: 1 }, &mut sizes);
    assert_eq!(sizes, vec![size(6 + 50 + 5, 20), size(2 + 4, 2 + 4), size(50, 20), size(0, 0)]);
}

#[test]
fn the_cache_marks_and_forgets() {
    let mut cache = LayoutCache::new();
    assert!(!cache.is_dirty(3));
    assert_eq!(cache.dirty_count(), 0);
    cache.mark_dirty(3);
    cache.mark_dirty(3);
    cache.mark_dirty(8);
    assert!(cache.is_dirty(3));
    assert!(cache.is_dirty(8));
    assert!(!cache.is_dirty(4));
    assert_eq!(cache.dirty_count(), 2);
    assert_eq!(cache.dirty_ratio(4), 50);
    assert_eq!(cache.dirty_ratio(3), 66);
    assert_eq!(cache.dirty_ratio(0), 0);
    cache.clear_dirty(3);
    assert!(!cache.is_dirty(3));
    assert!(cache.is_dirty(8));
    assert_eq!(cache.dirty_count(), 1);
    cache.clear_all_dirty();
    assert!(!cache.is_dirty(8));
    assert_eq!(cache.dirty_count(), 0);
}

#[test]
fn the_cache_keeps_sizes() {
    let mut cache = LayoutCache::new();
    assert_eq!(cache.get_cached_intrinsic(2), None);
    cache.cache_intrinsic(2, size(10, 20));
    cache.cache_intrinsic(5, size(1, 2));
    assert_eq!(cache.get_cached_intrinsic(2), Some(size(10, 20)));
    assert_eq!(cache.get_cached_intrinsic(5), Some(size(1, 2)));
    assert_eq!(cache.get_cached_intrinsic(3), None);
    cache.cache_intrinsic(2, size(11, 21));
    assert_eq!(cache.get_cached_intrinsic(2), Some(size(11, 21)));
}

#[test]
fn the_cache_counts_frames() {
    let mut cache = LayoutCache::new();
    assert_eq!(cache.current_frame(), 0);
    cache.increment_frame();
    cache.increment_frame();
    assert_eq!(cache.current_frame(), 2);
}

#[test]
fn the_depth_index_lists_nodes_by_depth() {
    let mut cache = LayoutCache::new();
    assert_eq!(cache.get_entities_at_depth(0), None);
    let depths = vec![LayoutDepth(0), LayoutDepth(1), LayoutDepth(1), LayoutDepth(2)];
    cache.rebuild_depth_map(&depths, 2);
    assert_eq!(cache.get_entities_at_depth(0), Some(&vec![0]));
    assert_eq!(cache.get_entities_at_depth(1), Some(&vec![1, 2]));
    assert_eq!(cache.get_entities_at_depth(2), Some(&vec![3]));
    assert_eq!(cache.get_entities_at_depth(3), None);
    let depths = vec![LayoutDepth(1), LayoutDepth(0)];
    cache.rebuild_depth_map(&depths, 1);
    assert_eq!(cache.get_entities_at_depth(0), Some(&vec![1]));
    assert_eq!(cache.get_entities_at_depth(1), Some(&vec![0]));
    assert_eq!(cache.get_entities_at_depth(2), None);
}

#[test]
fn the_depth_index_is_rebuilt_when_it_is_out_of_date() {
    let mut cache = LayoutCache::new();
    let depths = vec![LayoutDepth(0), LayoutDepth(1)];
    update_depth_cache(&mut cache, &LayoutTreeDepth { max_depth: 0 }, &depths, false);
    assert_eq!(cache.get_entities_at_depth(1), Some(&vec![1]));
    let moved = vec![LayoutDepth(1), LayoutDepth(0)];
    update_depth_cache(&mut cache, &LayoutTreeDepth { max_depth: 0 }, &moved, false);
    assert_eq!(cache.get_entities_at_depth(1), Some(&vec![1]));
    update_depth_cache(&mut cache, &LayoutTreeDepth { max_depth: 1 }, &moved, false);
    assert_eq!(cache.get_entities_at_depth(1), Some(&vec![0]));
    update_depth_cache(&mut cache, &LayoutTreeDepth { max_depth: 1 }, &depths, true);
    assert_eq!(cache.get_entities_at_depth(1), Some(&vec![1]));
}

#[test]
fn a_mark_spreads_down_but_stops_at_marked_nodes() {
    let nodes = small_tree();
    let mut cache = LayoutCache::new();
    cache.mark_dirty_recursive(1, &nodes);
    assert_eq!(
        (0..5).map(|e| cache.is_dirty(e)).collect::<Vec<bool>>(),
        vec![false, true, false, true, false]
    );
    let mut cache = LayoutCache::new();
    cache.mark_dirty(1);
    cache.mark_dirty_recursive(0, &nodes);
    assert_eq!(
        (0..5).map(|e| cache.is_dirty(e)).collect::<Vec<bool>>(),
        vec![true, true, true, false, false]
    );
    let mut cache = LayoutCache::new();
    cache.mark_dirty(0);
    cache.mark_dirty_recursive(0, &nodes);
    assert_eq!(cache.dirty_count(), 1);
    let mut cache = LayoutCache::new();
    cache.mark_dirty_recursive(40, &nodes);
    assert!(cache.is_dirty(40));
    assert_eq!(cache.dirty_count(), 1);
}

#[test]
fn changes_and_additions_mark_nodes() {
    let nodes = small_tree();
    let mut cache = LayoutCache::new();
    let quiet = NodeChange {
        entity: 0,
        node_changed: false,
        layout_changed: false,
        self_changed: false,
        children_changed: false,
    };
    let changes = vec![quiet, NodeChange { entity: 1, children_changed: true, ..quiet }];
    track_layout_changes(&mut cache, &nodes, &changes, &vec![2]);
    assert_eq!(
        (0..4).map(|e| cache.is_dirty(e)).collect::<Vec<bool>>(),
        vec![false, true, true, true]
    );
    for flagged in [
        NodeChange { node_changed: true, ..quiet },
        NodeChange { layout_changed: true, ..quiet },
        NodeChange { self_changed: true, ..quiet },
    ] {
        let mut cache = LayoutCache::new();
        track_layout_changes(&mut cache, &nodes, &vec![flagged], &Vec::new());
        assert_eq!(cache.dirty_count(), 4);
    }
}

fn measured_once() -> (Vec<LayoutNode>, Vec<LayoutDepth>, LayoutCache, Vec<IntrinsicSize>) {
    let nodes = small_tree();
    let depths = vec![LayoutDepth(0), LayoutDepth(1), LayoutDepth(1), LayoutDepth(2)];
    let mut cache = LayoutCache::new();
    cache.rebuild_depth_map(&depths, 2);
    let mut sizes = blank_sizes(4);
    upward_measure_pass_cached(
        &nodes,
        &depths,
        &LayoutTreeDepth { max_depth: 2 },
        &mut cache,
        &mut sizes,
    );
    (nodes, depths, cache, sizes)
}

#[test]
fn the_first_cached_pass_measures_everything() {
    let (_, _, cache, sizes) = measured_once();
    assert_eq!(sizes, vec![size(91, 20), size(36, 16), size(50, 20), size(30, 10)]);
    for e in 0..4 {
        assert_eq!(cache.get_cached_intrinsic(e), Some(sizes[e]));
    }
    assert_eq!(cache.dirty_count(), 0);
    assert_eq!(cache.current_frame(), 1);
}

#[test]
fn a_dirty_leaf_is_measured_again_with_its_ancestors_only() {
    let (mut nodes, depths, mut cache, mut sizes) = measured_once();
    nodes[3].node.width = UVal::Px(40);
    nodes[2].node.width = UVal::Px(99);
    cache.mark_dirty(3);
    upward_measure_pass_cached(
        &nodes,
        &depths,
        &LayoutTreeDepth { max_depth: 2 },
        &mut cache,
        &mut sizes,
    );
    assert_eq!(sizes, vec![size(101, 20), size(46, 16), size(50, 20), size(40, 10)]);
    assert_eq!(cache.get_cached_intrinsic(2), Some(size(50, 20)));
    assert_eq!(cache.get_cached_intrinsic(1), Some(size(46, 16)));
    assert_eq!(cache.get_cached_intrinsic(0), Some(size(101, 20)));
    assert_eq!(cache.dirty_count(), 0);
    assert_eq!(cache.current_frame(), 2);
}

#[test]
fn a_clean_pass_takes_the_kept_sizes() {
    let (mut nodes, depths, mut cache, mut sizes) = measured_once();
    nodes[3].node.width = UVal::Px(40);
    sizes[1] = size(1, 1);
    upward_measure_pass_cached(
        &nodes,
        &depths,
        &LayoutTreeDepth { max_depth: 2 },
        &mut cache,
        &mut sizes,
    );
    assert_eq!(sizes, vec![size(91, 20), size(36, 16), size(50, 20), size(30, 10)]);
}

#[test]
fn a_kept_size_out_of_range_counts_as_missing() {
    let (nodes, _, mut cache, mut sizes) = measured_once();
    cache.cache_intrinsic(2, size(-5, 20));
    measure_cached_node(&nodes, &mut cache, &mut sizes, 2);
    assert_eq!(sizes[2], size(50, 20));
    assert_eq!(cache.get_cached_intrinsic(2), Some(size(50, 20)));
    assert!(cache.is_dirty(2));
    measure_cached_node(&nodes, &mut cache, &mut sizes, 0);
    assert!(cache.is_dirty(0));
    measure_cached_node(&nodes, &mut cache, &mut sizes, 1);
    assert!(!cache.is_dirty(1));
}

#[test]
fn the_root_size_falls_back() {
    let canvas = Vec2i { x: 1, y: 2 };
    let window = Vec2i { x: 3, y: 4 };
    assert_eq!(calculate_root_size(Some(canvas), Some(window)), canvas);
    assert_eq!(calculate_root_size(None, Some(window)), window);
    assert_eq!(calculate_root_size(None, None), Vec2i { x: 800, y: 600 });
}

#[test]
fn a_container_is_bound_by_its_size_unless_left_to_content() {
    let declared = UNode {
        width: UVal::Px(5),
        height: UVal::Content,
        padding: USides::all(0),
        margin: USides::all(0),
    };
    assert_eq!(
        build_constraints(Vec2i { x: 30, y: 40 }, &declared),
        BoxConstraints { min_width: 30, max_width: 30, min_height: 0, max_height: MAX_LENGTH }
    );
    let auto = UNode { width: UVal::Auto, height: UVal::Flex(1), ..declared };
    assert_eq!(
        build_constraints(Vec2i { x: 30, y: 40 }, &auto),
        BoxConstraints { min_width: 0, max_width: MAX_LENGTH, min_height: 40, max_height: 40 }
    );
    assert_eq!(map_uval_to_mode(UVal::Px(1)), SolverSizeMode::Fixed);
    assert_eq!(map_uval_to_mode(UVal::Percent(1)), SolverSizeMode::Percent);
    assert_eq!(map_uval_to_mode(UVal::Flex(1)), SolverSizeMode::Flex);
    assert_eq!(map_uval_to_mode(UVal::Content), SolverSizeMode::Content);
    assert_eq!(map_uval_to_mode(UVal::Auto), SolverSizeMode::Content);
}

#[test]
fn a_container_is_read_into_the_form_of_the_solver() {
    let mut container = node(UVal::Px(5), UVal::Auto, vec![]);
    container.node.padding = USides::all(3);
    container.spokes = vec![Vec2i { x: 0, y: 1 }];
    let layout = ULayout { grid_columns: 4, ..flow(UFlexDirection::Column, 9, UAlignItems::End) };
    let config = translate_config(&layout, &container);
    assert_eq!(config.layout, layout);
    assert_eq!(config.gap, 9);
    assert_eq!(config.padding, USides::all(3));
    assert_eq!(config.grid_columns, 4);
    assert_eq!(config.width_mode, SolverSizeMode::Fixed);
    assert_eq!(config.height_mode, SolverSizeMode::Content);
    assert_eq!(config.spokes, &vec![Vec2i { x: 0, y: 1 }]);
}

#[test]
fn children_are_collected_with_their_measured_sizes() {
    let mut nodes = small_tree();
    nodes[0].children = vec![2, 8, 1];
    let sizes = vec![size(0, 0), size(36, 16), size(50, 20), size(30, 10)];
    let (items, handles) = collect_children_layout_data(&nodes, &sizes, 0);
    assert_eq!(handles, vec![2, 1]);
    assert_eq!(items.len(), 2);
    assert_eq!(items[0].spec.width_mode, SolverSizeMode::Fixed);
    assert_eq!(items[0].spec.width_val, 50);
    assert_eq!(items[1].spec.width_mode, SolverSizeMode::Content);
    assert_eq!((items[1].spec.width_val, items[1].spec.height_val), (36, 16));
    assert_eq!(items[1].margin, USides::all(0));
}

#[test]
fn a_translation_is_measured_from_centre_to_centre() {
    let t = centered_translation(
        Vec2i { x: 300, y: 100 },
        Vec2i { x: 10, y: 20 },
        Vec2i { x: 50, y: 30 },
    );
    assert_eq!(t, Vec2i { x: -300 + 20 + 50, y: 100 - 40 - 30 });
}

/// A canvas of 300 by 100 with two growing children in a stretched row;
/// the first of them holds a fixed leaf.
fn canvas_tree() -> Vec<LayoutNode> {
    let mut root = node(UVal::Px(300), UVal::Px(100), vec![1, 2]);
    root.layout = Some(flow(UFlexDirection::Row, 10, UAlignItems::Stretch));
    root.canvas = Some(Vec2i { x: 300, y: 100 });
    vec![
        root,
        node(UVal::Flex(1), UVal::Content, vec![3]),
        node(UVal::Flex(1), UVal::Content, vec![]),
        node(UVal::Px(30), UVal::Px(10), vec![]),
    ]
}

fn solved(width: i64, height: i64, pos: (i64, i64), offered: (i64, i64)) -> ComputedSize {
    ComputedSize {
        width,
        height,
        local_pos: Vec2i { x: pos.0, y: pos.1 },
        offered: Vec2i { x: offered.0, y: offered.1 },
    }
}

fn canvas_solution() -> Vec<ComputedSize> {
    vec![
        solved(300, 100, (0, 0), (300, 100)),
        solved(145, 10, (0, 0), (145, 100)),
        solved(145, 100, (155, 0), (145, 100)),
        solved(30, 10, (0, 0), (30, 10)),
    ]
}

#[test]
fn a_frame_lays_out_the_tree() {
    let nodes = canvas_tree();
    let mut cache = LayoutCache::new();
    let mut depths = blank_depths(4);
    let mut sizes = blank_sizes(4);
    let mut boxes = blank_boxes(4);
    let ran = layout_frame(
        &nodes,
        &vec![0],
        None,
        &mut cache,
        &mut depths,
        &mut sizes,
        &mut boxes,
    );
    assert_eq!(ran, Some(LayoutTreeDepth { max_depth: 2 }));
    assert_eq!(depth_values(&depths), vec![0, 1, 1, 2]);
    assert_eq!(sizes, vec![size(300, 100), size(30, 10), size(0, 0), size(30, 10)]);
    assert_eq!(boxes, canvas_solution());
    assert_eq!(cache.get_entities_at_depth(1), Some(&vec![1, 2]));
    assert_eq!(cache.dirty_count(), 0);
    assert_eq!(cache.current_frame(), 1);
}

#[test]
fn a_second_frame_changes_nothing() {
    let nodes = canvas_tree();
    let mut cache = LayoutCache::new();
    let mut depths = blank_depths(4);
    let mut sizes = blank_sizes(4);
    let mut boxes = blank_boxes(4);
    layout_frame(&nodes, &vec![0], None, &mut cache, &mut depths, &mut sizes, &mut boxes);
    let (depths_then, sizes_then, boxes_then) = (depths.clone(), sizes.clone(), boxes.clone());
    let ran = layout_frame(
        &nodes,
        &vec![0],
        None,
        &mut cache,
        &mut depths,
        &mut sizes,
        &mut boxes,
    );
    assert_eq!(ran, Some(LayoutTreeDepth { max_depth: 2 }));
    assert_eq!(depths, depths_then);
    assert_eq!(sizes, sizes_then);
    assert_eq!(boxes, boxes_then);
    assert_eq!(cache.current_frame(), 2);
}

#[test]
fn a_frame_leaves_tables_that_do_not_fit() {
    let mut nodes = canvas_tree();
    let mut cache = LayoutCache::new();
    cache.mark_dirty(1);
    let mut depths = blank_depths(4);
    let mut sizes = blank_sizes(4);
    let mut boxes = blank_boxes(4);
    let mut short = blank_boxes(3);
    assert_eq!(
        layout_frame(&nodes, &vec![0], None, &mut cache, &mut depths, &mut sizes, &mut short),
        None
    );
    nodes[2].children.push(3);
    assert_eq!(
        layout_frame(&nodes, &vec![0], None, &mut cache, &mut depths, &mut sizes, &mut boxes),
        None
    );
    nodes[2].children.clear();
    nodes[3].node.margin.top = -1;
    assert_eq!(
        layout_frame(&nodes, &vec![0], None, &mut cache, &mut depths, &mut sizes, &mut boxes),
        None
    );
    nodes[3].node.margin.top = 0;
    sizes[0].width = -1;
    assert_eq!(
        layout_frame(&nodes, &vec![0], None, &mut cache, &mut depths, &mut sizes, &mut boxes),
        None
    );
    assert_eq!(depths, blank_depths(4));
    assert_eq!(boxes, blank_boxes(4));
    assert!(cache.is_dirty(1));
    assert_eq!(cache.current_frame(), 0);
    assert_eq!(cache.get_entities_at_depth(0), None);
}

#[test]
fn a_root_without_canvas_takes_the_viewport() {
    let mut nodes = canvas_tree();
    nodes[0].canvas = None;
    nodes[0].node.width = UVal::Percent(10_000);
    nodes[0].node.height = UVal::Percent(10_000);
    let mut cache = LayoutCache::new();
    let mut depths = blank_depths(4);
    let mut sizes = blank_sizes(4);
    let mut boxes = blank_boxes(4);
    layout_frame(
        &nodes,
        &vec![0],
        Some(Vec2i { x: 640, y: 480 }),
        &mut cache,
        &mut depths,
        &mut sizes,
        &mut boxes,
    );
    assert_eq!(boxes[0], solved(640, 480, (0, 0), (640, 480)));
    assert_eq!(boxes[1].offered, Vec2i { x: 315, y: 480 });
    let mut boxes = blank_boxes(4);
    layout_frame(&nodes, &vec![0], None, &mut cache, &mut depths, &mut sizes, &mut boxes);
    assert_eq!(boxes[0], solved(800, 600, (0, 0), (800, 600)));
}

#[test]
fn the_solve_pass_settles_the_tree() {
    let nodes = canvas_tree();
    let depths = vec![LayoutDepth(0), LayoutDepth(1), LayoutDepth(1), LayoutDepth(2)];
    let mut cache = LayoutCache::new();
    cache.rebuild_depth_map(&depths, 2);
    let sizes = vec![size(300, 100), size(30, 10), size(0, 0), size(30, 10)];
    let mut boxes = blank_boxes(4);
    boxes[3] = solved(1, 2, (3, 4), (5, 6));
    let tree_depth = LayoutTreeDepth { max_depth: 2 };
    downward_solve_pass_safe(&nodes, &depths, &tree_depth, &cache, &sizes, None, &mut boxes);
    assert_eq!(boxes, canvas_solution());
    downward_solve_pass_safe(&nodes, &depths, &tree_depth, &cache, &sizes, None, &mut boxes);
    assert_eq!(boxes, canvas_solution());
    let mut partial = blank_boxes(4);
    partial[3] = solved(1, 2, (3, 4), (5, 6));
    let shallow = LayoutTreeDepth { max_depth: 0 };
    downward_solve_pass_safe(&nodes, &depths, &shallow, &cache, &sizes, None, &mut partial);
    assert_eq!(partial[0], solved(300, 100, (0, 0), (300, 100)));
    assert_eq!(partial[1], solved(0, 0, (0, 0), (145, 100)));
    assert_eq!(partial[3], solved(1, 2, (3, 4), (5, 6)));
}

#[test]
fn one_solve_step_writes_the_node_and_its_children() {
    let nodes = canvas_tree();
    let depths = vec![LayoutDepth(0), LayoutDepth(1), LayoutDepth(1), LayoutDepth(2)];
    let sizes = vec![size(300, 100), size(30, 10), size(0, 0), size(30, 10)];
    let mut boxes = blank_boxes(4);
    boxes[1].offered = Vec2i { x: 145, y: 100 };
    boxes[1].local_pos = Vec2i { x: 8, y: 9 };
    solve_node(&nodes, &depths, &sizes, None, &mut boxes, 1);
    assert_eq!(boxes[1], solved(145, 10, (8, 9), (145, 100)));
    assert_eq!(boxes[3], solved(0, 0, (0, 0), (30, 10)));
    assert_eq!(boxes[0], solved(0, 0, (0, 0), (0, 0)));
    boxes[2].offered = Vec2i { x: -4, y: MAX_LENGTH + 9 };
    solve_node(&nodes, &depths, &sizes, None, &mut boxes, 2);
    assert_eq!(boxes[2], solved(0, MAX_LENGTH, (0, 0), (-4, MAX_LENGTH + 9)));
}
