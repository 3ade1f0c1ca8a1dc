use univis_ui::flex::flex_share_of;
use univis_ui::geometry::{BoxConstraints, USides, UVal};
use univis_ui::sequence::in_flow_order;
use univis_ui::solver::{
    is_solve_ready, solve_absolute_box, solve_flex_layout, translate_spec, try_solve_flex_layout,
    SolverConfig, SolverItem, SolverResult, SolverSizeMode, SolverSpec,
};
use univis_ui::units::{div_floor, half, Vec2i, MAX_LENGTH};
use univis_ui::univis_node::{
    UAlignItems, UAlignSelf, UDisplay, UFlexDirection, UJustifyContent, ULayout, UNode,
    UPositionType, USelf,
};

fn base_spec() -> SolverSpec {
    SolverSpec {
        width_mode: SolverSizeMode::Fixed,
        width_val: 0,
        width_flex: 0,
        height_mode: SolverSizeMode::Fixed,
        height_val: 0,
        height_flex: 0,
        position_type: UPositionType::Relative,
        left: UVal::Auto,
        right: UVal::Auto,
        top: UVal::Auto,
        bottom: UVal::Auto,
        align_self: None,
        order: 0,
    }
}

fn boxed(width: i64, height: i64) -> SolverItem {
    SolverItem {
        spec: SolverSpec { width_val: width, height_val: height, ..base_spec() },
        result: SolverResult { size: Vec2i { x: 7, y: 7 }, pos: Vec2i { x: 9, y: 9 } },
        margin: USides::all(0),
    }
}

fn layout(direction: UFlexDirection, justify: UJustifyContent, align: UAlignItems) -> ULayout {
    ULayout {
        display: UDisplay::Flex,
        flex_direction: direction,
        justify_content: justify,
        align_items: align,
        gap: 0,
        grid_columns: 1,
    }
}

fn solve(
    layout: ULayout,
    gap: i64,
    padding: USides,
    modes: (SolverSizeMode, SolverSizeMode),
    constraints: BoxConstraints,
    items: &mut Vec<SolverItem>,
) -> Vec2i {
    let spokes = Vec::new();
    let config = SolverConfig {
        layout,
        gap,
        padding,
        grid_columns: layout.grid_columns,
        width_mode: modes.0,
        height_mode: modes.1,
        spokes: &spokes,
    };
    solve_flex_layout(&config, constraints, items)
}

fn fixed() -> (SolverSizeMode, SolverSizeMode) {
    (SolverSizeMode::Fixed, SolverSizeMode::Fixed)
}

fn tight(w: i64, h: i64) -> BoxConstraints {
    BoxConstraints::tight(Vec2i { x: w, y: h })
}

fn xs(items: &Vec<SolverItem>) -> Vec<i64> {
    items.iter().map(|i| i.result.pos.x).collect()
}

fn ys(items: &Vec<SolverItem>) -> Vec<i64> {
    items.iter().map(|i| i.result.pos.y).collect()
}

#[test]
fn siblings_are_placed_by_order_then_insertion() {
    let mut items = vec![boxed(10, 10), boxed(20, 10), boxed(30, 10), boxed(40, 10)];
    items[0].spec.order = 2;
    items[1].spec.order = 0;
    items[2].spec.order = 2;
    items[3].spec.order = -1;
    assert_eq!(in_flow_order(&items), vec![3, 1, 0, 2]);
    solve(
        layout(UFlexDirection::Row, UJustifyContent::Start, UAlignItems::Start),
        0,
        USides::all(0),
        fixed(),
        tight(200, 50),
        &mut items,
    );
    assert_eq!(xs(&items), vec![60, 40, 70, 0]);
}

#[test]
fn out_of_flow_children_are_left_out_of_the_order() {
    let mut items = vec![boxed(10, 10), boxed(20, 10), boxed(30, 10)];
    items[1].spec.position_type = UPositionType::Absolute;
    assert_eq!(in_flow_order(&items), vec![0, 2]);
    solve(
        layout(UFlexDirection::Row, UJustifyContent::Start, UAlignItems::Start),
        5,
        USides::all(0),
        fixed(),
        tight(200, 50),
        &mut items,
    );
    assert_eq!(xs(&items), vec![0, 0, 15]);
    assert_eq!(items[1].result.size, Vec2i { x: 20, y: 10 });
}

#[test]
fn percent_is_taken_of_the_space_inside_the_padding() {
    let mut child = boxed(0, 0);
    child.spec.width_mode = SolverSizeMode::Percent;
    child.spec.width_val = 2_500;
    child.spec.height_mode = SolverSizeMode::Percent;
    child.spec.height_val = 5_000;
    let mut items = vec![child];
    solve(
        layout(UFlexDirection::Row, UJustifyContent::Start, UAlignItems::Start),
        0,
        USides { left: 10, right: 10, top: 20, bottom: 0 },
        fixed(),
        tight(220, 120),
        &mut items,
    );
    assert_eq!(items[0].result.size, Vec2i { x: 50, y: 50 });
    assert_eq!(items[0].result.pos, Vec2i { x: 10, y: 20 });
}

#[test]
fn growth_goes_by_factor_and_uses_up_what_remains() {
    let mut a = boxed(0, 10);
    a.spec.width_mode = SolverSizeMode::Flex;
    a.spec.width_flex = 1;
    let mut b = boxed(0, 10);
    b.spec.width_mode = SolverSizeMode::Flex;
    b.spec.width_flex = 2;
    let c = boxed(40, 10);
    let mut d = boxed(0, 10);
    d.spec.width_mode = SolverSizeMode::Flex;
    d.spec.width_flex = 4;
    let mut items = vec![a, b, c, d];
    solve(
        layout(UFlexDirection::Row, UJustifyContent::Start, UAlignItems::Start),
        0,
        USides::all(0),
        fixed(),
        tight(140, 50),
        &mut items,
    );
    let widths: Vec<i64> = items.iter().map(|i| i.result.size.x).collect();
    assert_eq!(widths, vec![14, 28, 40, 58]);
    assert_eq!(widths[0] + widths[1] + widths[3], 100);
}

#[test]
fn growth_without_factor_adds_nothing() {
    let mut a = boxed(0, 10);
    a.spec.width_mode = SolverSizeMode::Flex;
    a.spec.width_flex = 0;
    let mut items = vec![a, boxed(30, 10)];
    let size = solve(
        layout(UFlexDirection::Row, UJustifyContent::Start, UAlignItems::Start),
        0,
        USides::all(0),
        (SolverSizeMode::Content, SolverSizeMode::Content),
        BoxConstraints { min_width: 0, max_width: 500, min_height: 0, max_height: 500 },
        &mut items,
    );
    assert_eq!(items[0].result.size.x, 0);
    assert_eq!(size, Vec2i { x: 30, y: 10 });
}

#[test]
fn shares_of_one_hundred_over_factors_one_two_three() {
    let remaining = 100;
    let a = flex_share_of(0, 1, 6, remaining);
    let b = flex_share_of(1, 2, 6, remaining);
    let c = flex_share_of(3, 3, 6, remaining);
    assert_eq!((a, b, c), (16, 34, 50));
    assert_eq!(a + b + c, remaining);
    assert_eq!(flex_share_of(0, 0, 0, remaining), 0);
}

#[test]
fn free_space_goes_where_justify_content_says() {
    let cases = [
        (UJustifyContent::Start, vec![0, 20, 40]),
        (UJustifyContent::Center, vec![20, 40, 60]),
        (UJustifyContent::End, vec![40, 60, 80]),
        (UJustifyContent::SpaceBetween, vec![0, 40, 80]),
        (UJustifyContent::SpaceEvenly, vec![10, 40, 70]),
        (UJustifyContent::SpaceAround, vec![6, 39, 72]),
        (UJustifyContent::Stretch, vec![0, 20, 40]),
    ];
    for (justify, expected) in cases.iter() {
        let mut items = vec![boxed(20, 10), boxed(20, 10), boxed(20, 10)];
        solve(
            layout(UFlexDirection::Row, *justify, UAlignItems::Start),
            0,
            USides::all(0),
            fixed(),
            tight(100, 50),
            &mut items,
        );
        assert_eq!(&xs(&items), expected);
    }
}

#[test]
fn gap_stands_between_items_except_for_even_and_around() {
    let mut items = vec![boxed(20, 10), boxed(20, 10)];
    solve(
        layout(UFlexDirection::Row, UJustifyContent::SpaceBetween, UAlignItems::Start),
        10,
        USides::all(0),
        fixed(),
        tight(100, 50),
        &mut items,
    );
    assert_eq!(xs(&items), vec![0, 80]);
    let mut items = vec![boxed(20, 10), boxed(20, 10)];
    solve(
        layout(UFlexDirection::Row, UJustifyContent::SpaceEvenly, UAlignItems::Start),
        10,
        USides::all(0),
        fixed(),
        tight(100, 50),
        &mut items,
    );
    assert_eq!(xs(&items), vec![16, 52]);
}

#[test]
fn cross_position_follows_alignment() {
    let cases = [
        (UAlignItems::Start, None, 0),
        (UAlignItems::FlexStart, None, 0),
        (UAlignItems::Center, None, 20),
        (UAlignItems::End, None, 40),
        (UAlignItems::FlexEnd, None, 40),
        (UAlignItems::Baseline, None, 0),
        (UAlignItems::Start, Some(UAlignSelf::End), 40),
        (UAlignItems::End, Some(UAlignSelf::Center), 20),
        (UAlignItems::End, Some(UAlignSelf::Start), 0),
    ];
    for (align, own, expected) in cases.iter() {
        let mut child = boxed(20, 10);
        child.spec.align_self = *own;
        let mut items = vec![child];
        solve(
            layout(UFlexDirection::Row, UJustifyContent::Start, *align),
            0,
            USides::all(0),
            fixed(),
            tight(100, 50),
            &mut items,
        );
        assert_eq!(items[0].result.pos.y, *expected);
        assert_eq!(items[0].result.size.y, 10);
    }
}

#[test]
fn stretch_fills_the_cross_axis_less_margins() {
    let mut own = boxed(20, 10);
    own.spec.align_self = Some(UAlignSelf::Stretch);
    own.margin = USides { left: 0, right: 0, top: 4, bottom: 6 };
    let mut other = boxed(20, 10);
    other.spec.align_self = Some(UAlignSelf::Start);
    let mut items = vec![own, other, boxed(20, 10)];
    solve(
        layout(UFlexDirection::Row, UJustifyContent::Start, UAlignItems::Stretch),
        0,
        USides::all(5),
        fixed(),
        tight(100, 60),
        &mut items,
    );
    let heights: Vec<i64> = items.iter().map(|i| i.result.size.y).collect();
    assert_eq!(heights, vec![40, 10, 50]);
    assert_eq!(ys(&items), vec![9, 5, 5]);
}

#[test]
fn column_direction_swaps_the_axes() {
    let mut items = vec![boxed(20, 10), boxed(30, 15)];
    let size = solve(
        layout(UFlexDirection::Column, UJustifyContent::Start, UAlignItems::Center),
        5,
        USides::all(0),
        fixed(),
        tight(100, 200),
        &mut items,
    );
    assert_eq!(size, Vec2i { x: 100, y: 200 });
    assert_eq!(ys(&items), vec![0, 15]);
    assert_eq!(xs(&items), vec![40, 35]);
}

#[test]
fn content_sized_container_takes_the_used_size() {
    let mut items = vec![boxed(20, 10), boxed(30, 25)];
    let size = solve(
        layout(UFlexDirection::Row, UJustifyContent::Start, UAlignItems::Start),
        5,
        USides { left: 1, right: 2, top: 3, bottom: 4 },
        (SolverSizeMode::Content, SolverSizeMode::Auto),
        BoxConstraints { min_width: 0, max_width: MAX_LENGTH, min_height: 0, max_height: MAX_LENGTH },
        &mut items,
    );
    assert_eq!(size, Vec2i { x: 20 + 5 + 30 + 3, y: 25 + 7 });
}

#[test]
fn used_size_stays_within_the_bounds() {
    let mut items = vec![boxed(200, 10)];
    let size = solve(
        layout(UFlexDirection::Row, UJustifyContent::Start, UAlignItems::Start),
        0,
        USides::all(0),
        (SolverSizeMode::Content, SolverSizeMode::Content),
        BoxConstraints { min_width: 0, max_width: 150, min_height: 40, max_height: 90 },
        &mut items,
    );
    assert_eq!(size, Vec2i { x: 150, y: 40 });
}

#[test]
fn no_children_leave_the_padding() {
    let mut items: Vec<SolverItem> = Vec::new();
    let size = solve(
        layout(UFlexDirection::Row, UJustifyContent::Start, UAlignItems::Start),
        10,
        USides { left: 1, right: 2, top: 3, bottom: 4 },
        (SolverSizeMode::Content, SolverSizeMode::Content),
        BoxConstraints { min_width: 0, max_width: 500, min_height: 0, max_height: 500 },
        &mut items,
    );
    assert_eq!(size, Vec2i { x: 3, y: 7 });
}

#[test]
fn relative_offsets_move_an_item_in_flow() {
    let mut child = boxed(20, 10);
    child.spec.left = UVal::Px(7);
    child.spec.right = UVal::Px(2);
    child.spec.top = UVal::Percent(1_000);
    child.spec.bottom = UVal::Px(1);
    let mut items = vec![boxed(10, 10), child];
    solve(
        layout(UFlexDirection::Row, UJustifyContent::Start, UAlignItems::Start),
        0,
        USides::all(0),
        fixed(),
        tight(100, 50),
        &mut items,
    );
    assert_eq!(items[1].result.pos, Vec2i { x: 10 + 5, y: 5 - 1 });
    assert_eq!(items[0].result.pos, Vec2i { x: 0, y: 0 });
}

#[test]
fn absolute_box_between_two_anchors_is_stretched() {
    let spec = SolverSpec {
        position_type: UPositionType::Absolute,
        width_val: 999,
        left: UVal::Px(10),
        right: UVal::Px(20),
        top: UVal::Percent(1_000),
        bottom: UVal::Px(5),
        ..base_spec()
    };
    let margin = USides { left: 1, right: 2, top: 3, bottom: 4 };
    let (size, pos) =
        solve_absolute_box(Vec2i { x: 300, y: 200 }, &spec, margin, Vec2i { x: 0, y: 0 });
    assert_eq!(size, Vec2i { x: 300 - 10 - 20 - 1 - 2, y: 200 - 20 - 5 - 3 - 4 });
    assert_eq!(pos, Vec2i { x: 11, y: 23 });
}

#[test]
fn absolute_box_without_room_has_no_extent() {
    let spec = SolverSpec {
        position_type: UPositionType::Absolute,
        left: UVal::Px(80),
        right: UVal::Px(80),
        ..base_spec()
    };
    let (size, _) =
        solve_absolute_box(Vec2i { x: 100, y: 50 }, &spec, USides::all(0), Vec2i { x: 0, y: 0 });
    assert_eq!(size.x, 0);
}

#[test]
fn absolute_box_is_placed_back_from_the_trailing_anchor() {
    let spec = SolverSpec {
        position_type: UPositionType::Absolute,
        width_val: 30,
        height_mode: SolverSizeMode::Content,
        right: UVal::Px(10),
        bottom: UVal::Percent(5_000),
        ..base_spec()
    };
    let margin = USides { left: 1, right: 2, top: 3, bottom: 4 };
    let (size, pos) =
        solve_absolute_box(Vec2i { x: 300, y: 200 }, &spec, margin, Vec2i { x: 9, y: 25 });
    assert_eq!(size, Vec2i { x: 30, y: 25 });
    assert_eq!(pos, Vec2i { x: 300 - 10 - 30 - 2, y: 200 - 100 - 25 - 4 });
}

#[test]
fn absolute_box_without_anchors_sits_at_its_margin() {
    let spec = SolverSpec {
        position_type: UPositionType::Absolute,
        width_mode: SolverSizeMode::Percent,
        width_val: 5_000,
        height_val: 12,
        ..base_spec()
    };
    let margin = USides { left: 6, right: 0, top: 8, bottom: 0 };
    let (size, pos) =
        solve_absolute_box(Vec2i { x: 300, y: 200 }, &spec, margin, Vec2i { x: 0, y: 0 });
    assert_eq!(size, Vec2i { x: 150, y: 12 });
    assert_eq!(pos, Vec2i { x: 6, y: 8 });
}

#[test]
fn solving_again_gives_the_same() {
    let mut a = boxed(0, 10);
    a.spec.width_mode = SolverSizeMode::Flex;
    a.spec.width_flex = 3;
    let mut b = boxed(25, 10);
    b.spec.position_type = UPositionType::Absolute;
    b.spec.left = UVal::Px(4);
    let mut items = vec![a, boxed(40, 30), b];
    let first = solve(
        layout(UFlexDirection::Row, UJustifyContent::Center, UAlignItems::Center),
        3,
        USides::all(2),
        fixed(),
        tight(150, 80),
        &mut items,
    );
    let after_first = items.clone();
    let second = solve(
        layout(UFlexDirection::Row, UJustifyContent::Center, UAlignItems::Center),
        3,
        USides::all(2),
        fixed(),
        tight(150, 80),
        &mut items,
    );
    assert_eq!(first, second);
    assert_eq!(items, after_first);
}

#[test]
fn a_node_is_read_into_the_form_of_the_solver() {
    let node = UNode {
        width: UVal::Px(120),
        height: UVal::Flex(2),
        padding: USides::all(0),
        margin: USides::all(0),
    };
    let spec = translate_spec(&node, None);
    assert_eq!(
        spec,
        SolverSpec {
            width_mode: SolverSizeMode::Fixed,
            width_val: 120,
            width_flex: 0,
            height_mode: SolverSizeMode::Flex,
            height_val: 0,
            height_flex: 2,
            position_type: UPositionType::Relative,
            left: UVal::Auto,
            right: UVal::Auto,
            top: UVal::Auto,
            bottom: UVal::Auto,
            align_self: None,
            order: 0,
        }
    );
    let own = USelf {
        align_self: UAlignSelf::Center,
        left: UVal::Px(1),
        top: UVal::Px(2),
        bottom: UVal::Px(3),
        right: UVal::Px(4),
        order: 9,
        position_type: UPositionType::Absolute,
    };
    let node = UNode { width: UVal::Percent(2_000), height: UVal::Auto, ..node };
    let spec = translate_spec(&node, Some(&own));
    assert_eq!(spec.width_mode, SolverSizeMode::Percent);
    assert_eq!(spec.width_val, 2_000);
    assert_eq!(spec.height_mode, SolverSizeMode::Content);
    assert_eq!(spec.align_self, Some(UAlignSelf::Center));
    assert_eq!((spec.left, spec.top, spec.bottom, spec.right),
        (UVal::Px(1), UVal::Px(2), UVal::Px(3), UVal::Px(4)));
    assert_eq!(spec.order, 9);
    assert_eq!(spec.position_type, UPositionType::Absolute);
    let auto = USelf { align_self: UAlignSelf::Auto, ..own };
    assert_eq!(translate_spec(&node, Some(&auto)).align_self, None);
}

#[test]
fn the_solver_refuses_what_it_cannot_work_on() {
    let spokes = Vec::new();
    let config = SolverConfig {
        layout: layout(UFlexDirection::Row, UJustifyContent::Start, UAlignItems::Start),
        gap: 0,
        padding: USides::all(0),
        grid_columns: 1,
        width_mode: SolverSizeMode::Fixed,
        height_mode: SolverSizeMode::Fixed,
        spokes: &spokes,
    };
    let mut items = vec![boxed(-1, 10)];
    let before = items.clone();
    assert!(!is_solve_ready(&config, tight(100, 50), &items));
    assert_eq!(try_solve_flex_layout(&config, tight(100, 50), &mut items), None);
    assert_eq!(items, before);
    let mut items = vec![boxed(10, 10)];
    assert!(is_solve_ready(&config, tight(100, 50), &items));
    assert_eq!(
        try_solve_flex_layout(&config, tight(100, 50), &mut items),
        Some(Vec2i { x: 100, y: 50 })
    );
    assert!(!is_solve_ready(
        &config,
        BoxConstraints { min_width: 10, max_width: 5, min_height: 0, max_height: 5 },
        &items
    ));
    let radial = SolverConfig {
        layout: ULayout { display: UDisplay::Radial, ..config.layout },
        ..config
    };
    assert!(!is_solve_ready(&radial, tight(100, 50), &items));
}

#[test]
fn halves_and_quotients_round_down() {
    assert_eq!(half(7), 3);
    assert_eq!(half(-7), -4);
    assert_eq!(half(-8), -4);
    assert_eq!(div_floor(-1, 65_536), -1);
    assert_eq!(div_floor(65_536, 65_536), 1);
    assert_eq!(div_floor(-65_537, 65_536), -2);
    assert_eq!(div_floor(0, 3), 0);
}
