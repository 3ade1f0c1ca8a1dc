use univis_ui::bridge::{
    calculate_cross_align, final_size_with_indices, place_by_display, LayoutPlacer,
};
use univis_ui::display::{calculate_cross_pos_with_margin, FlexPlacer};
use univis_ui::geometry::{AxisHelper, USides, UVal};
use univis_ui::grid::GridPlacer;
use univis_ui::masonry::MasonryPlacer;
use univis_ui::radial::{spokes_ok, RadialPlacer, SPOKE_UNIT};
use univis_ui::solver::{PlacementContext, SolverItem, SolverResult, SolverSizeMode, SolverSpec};
use univis_ui::stack::StackPlacer;
use univis_ui::units::Vec2i;
use univis_ui::univis_node::{
    UAlignItems, UAlignSelf, UDisplay, UFlexDirection, UJustifyContent, ULayout, UPositionType,
};

fn sized(width: i64, height: i64) -> SolverItem {
    SolverItem {
        spec: SolverSpec {
            width_mode: SolverSizeMode::Content,
            width_val: 0,
            width_flex: 0,
            height_mode: SolverSizeMode::Content,
            height_val: 0,
            height_flex: 0,
            position_type: UPositionType::Relative,
            left: UVal::Auto,
            right: UVal::Auto,
            top: UVal::Auto,
            bottom: UVal::Auto,
            align_self: None,
            order: 0,
        },
        result: SolverResult { size: Vec2i { x: width, y: height }, pos: Vec2i { x: 0, y: 0 } },
        margin: USides::all(0),
    }
}

fn context(main: i64, cross: i64, gap: i64) -> PlacementContext {
    PlacementContext {
        container_main_size: main,
        container_cross_size: cross,
        padding_main_start: 0,
        padding_main_end: 0,
        padding_cross_start: 0,
        padding_cross_end: 0,
        gap,
        justify_content: UJustifyContent::Start,
        align_items: UAlignItems::Start,
    }
}

fn row() -> AxisHelper {
    AxisHelper::new(UFlexDirection::Row)
}

fn positions(items: &Vec<SolverItem>) -> Vec<(i64, i64)> {
    items.iter().map(|i| (i.result.pos.x, i.result.pos.y)).collect()
}

fn compass() -> Vec<Vec2i> {
    vec![
        Vec2i { x: 0, y: -SPOKE_UNIT },
        Vec2i { x: SPOKE_UNIT, y: 0 },
        Vec2i { x: 0, y: SPOKE_UNIT },
        Vec2i { x: -SPOKE_UNIT, y: 0 },
    ]
}

#[test]
fn flow_reports_spans_gaps_and_padding() {
    let mut ctx = context(200, 100, 4);
    ctx.padding_main_start = 1;
    ctx.padding_main_end = 2;
    ctx.padding_cross_start = 3;
    ctx.padding_cross_end = 5;
    let mut wide = sized(30, 20);
    wide.margin = USides { left: 2, right: 3, top: 1, bottom: 1 };
    let mut items = vec![sized(10, 40), wide];
    let used = FlexPlacer.place(&mut items, &row(), &ctx);
    assert_eq!(used, Vec2i { x: 10 + 35 + 4 + 3, y: 40 + 8 });
    assert_eq!(positions(&items), vec![(1, 3), (1 + 10 + 4 + 2, 4)]);
    assert_eq!(items[0].result.size, Vec2i { x: 10, y: 40 });
}

#[test]
fn flow_of_nothing_reports_the_padding() {
    let mut ctx = context(200, 100, 4);
    ctx.padding_main_start = 1;
    ctx.padding_main_end = 2;
    ctx.padding_cross_start = 3;
    ctx.padding_cross_end = 5;
    let mut items: Vec<SolverItem> = Vec::new();
    assert_eq!(FlexPlacer.place(&mut items, &row(), &ctx), Vec2i { x: 3, y: 8 });
}

#[test]
fn flow_runs_down_a_column() {
    let axis = AxisHelper::new(UFlexDirection::Column);
    let ctx = context(200, 100, 4);
    let mut items = vec![sized(10, 40), sized(30, 20)];
    let used = FlexPlacer.place(&mut items, &axis, &ctx);
    assert_eq!(positions(&items), vec![(0, 0), (0, 44)]);
    assert_eq!(used, Vec2i { x: 64, y: 30 });
}

#[test]
fn cross_position_of_one_child() {
    let mut ctx = context(200, 100, 0);
    ctx.padding_cross_start = 10;
    ctx.padding_cross_end = 10;
    assert_eq!(calculate_cross_pos_with_margin(20, &ctx, None, 2, 4), 12);
    assert_eq!(calculate_cross_pos_with_margin(20, &ctx, Some(UAlignSelf::Center), 2, 4), 39);
    assert_eq!(calculate_cross_pos_with_margin(20, &ctx, Some(UAlignSelf::End), 2, 4), 66);
    assert_eq!(calculate_cross_pos_with_margin(20, &ctx, Some(UAlignSelf::Stretch), 2, 4), 12);
    assert_eq!(calculate_cross_pos_with_margin(90, &ctx, Some(UAlignSelf::End), 0, 0), 10);
    ctx.align_items = UAlignItems::Center;
    assert_eq!(calculate_cross_align(20, &ctx), 40);
    ctx.align_items = UAlignItems::End;
    assert_eq!(calculate_cross_align(20, &ctx), 70);
    ctx.align_items = UAlignItems::Stretch;
    assert_eq!(calculate_cross_align(20, &ctx), 10);
}

#[test]
fn grid_without_columns_or_items_places_nothing() {
    let ctx = context(220, 400, 10);
    let mut items = vec![sized(3, 4)];
    items[0].result.pos = Vec2i { x: 8, y: 9 };
    let before = items.clone();
    assert_eq!(GridPlacer { columns: 0 }.place(&mut items, &row(), &ctx), Vec2i { x: 0, y: 0 });
    assert_eq!(items, before);
    let mut none: Vec<SolverItem> = Vec::new();
    assert_eq!(GridPlacer { columns: 3 }.place(&mut none, &row(), &ctx), Vec2i { x: 0, y: 0 });
}

#[test]
fn grid_respects_margins_and_a_fixed_cross_size() {
    let mut ctx = context(230, 400, 10);
    ctx.padding_main_start = 4;
    ctx.padding_main_end = 6;
    ctx.padding_cross_start = 7;
    ctx.padding_cross_end = 9;
    let mut own = sized(1, 33);
    own.spec.height_mode = SolverSizeMode::Fixed;
    let mut spaced = sized(1, 1);
    spaced.margin = USides { left: 5, right: 6, top: 7, bottom: 8 };
    let mut items = vec![own, spaced, sized(1, 1)];
    let used = GridPlacer { columns: 2 }.place(&mut items, &row(), &ctx);
    assert_eq!(items[0].result.size, Vec2i { x: 105, y: 33 });
    assert_eq!(items[1].result.size, Vec2i { x: 105 - 11, y: 105 - 15 });
    assert_eq!(positions(&items), vec![(4, 7), (4 + 115 + 5, 7 + 7), (4, 7 + 115)]);
    assert_eq!(used, Vec2i { x: 230, y: 2 * 105 + 10 + 16 });
}

#[test]
fn grid_with_more_gap_than_room_has_empty_cells() {
    let ctx = context(15, 400, 10);
    let mut items = vec![sized(1, 1), sized(1, 1), sized(1, 1)];
    let used = GridPlacer { columns: 3 }.place(&mut items, &row(), &ctx);
    assert_eq!(items[2].result.size, Vec2i { x: 0, y: 0 });
    assert_eq!(positions(&items), vec![(0, 0), (10, 0), (20, 0)]);
    assert_eq!(used, Vec2i { x: 15, y: 0 });
}

#[test]
fn grid_follows_the_axis() {
    let axis = AxisHelper::new(UFlexDirection::Column);
    let ctx = context(220, 400, 10);
    let mut items = vec![sized(0, 0), sized(0, 0), sized(0, 0)];
    GridPlacer { columns: 2 }.place(&mut items, &axis, &ctx);
    assert_eq!(positions(&items), vec![(0, 0), (0, 115), (115, 0)]);
}

#[test]
fn masonry_with_more_columns_than_items() {
    let ctx = context(540, 400, 10);
    let mut items = vec![sized(1, 30), sized(1, 20)];
    let used = MasonryPlacer { columns: 5 }.place(&mut items, &row(), &ctx);
    assert_eq!(positions(&items), vec![(0, 0), (110, 0)]);
    assert_eq!(items[0].result.size, Vec2i { x: 100, y: 30 });
    assert_eq!(used, Vec2i { x: 540, y: 40 });
}

#[test]
fn masonry_takes_the_first_of_equal_columns() {
    let mut ctx = context(210, 400, 0);
    ctx.padding_cross_start = 5;
    ctx.padding_cross_end = 6;
    let mut roomy = sized(1, 10);
    roomy.margin = USides { left: 2, right: 3, top: 4, bottom: 5 };
    let mut items = vec![sized(1, 0), roomy, sized(1, 10), sized(1, 10)];
    let used = MasonryPlacer { columns: 2 }.place(&mut items, &row(), &ctx);
    assert_eq!(positions(&items), vec![(0, 5), (2, 9), (105, 5), (105, 15)]);
    assert_eq!(items[1].result.size, Vec2i { x: 100, y: 10 });
    assert_eq!(used, Vec2i { x: 210, y: 25 + 6 });
}

#[test]
fn masonry_without_columns_or_items_places_nothing() {
    let ctx = context(220, 400, 10);
    let mut items = vec![sized(3, 4)];
    let before = items.clone();
    assert_eq!(MasonryPlacer { columns: 0 }.place(&mut items, &row(), &ctx), Vec2i { x: 0, y: 0 });
    assert_eq!(items, before);
    let mut none: Vec<SolverItem> = Vec::new();
    assert_eq!(MasonryPlacer { columns: 3 }.place(&mut none, &row(), &ctx), Vec2i { x: 0, y: 0 });
}

#[test]
fn stack_centres_and_cascades() {
    let ctx = context(100, 60, 0);
    let mut items = vec![sized(20, 10), sized(40, 30)];
    let used = StackPlacer.place(&mut items, &row(), &ctx);
    assert_eq!(positions(&items), vec![(40, 25), (35, 20)]);
    assert_eq!(used, Vec2i { x: 75, y: 50 });
}

#[test]
fn stack_centres_what_does_not_fit() {
    let mut ctx = context(100, 60, 0);
    ctx.padding_main_end = 3;
    ctx.padding_cross_end = 4;
    let mut items = vec![sized(141, 10)];
    let used = StackPlacer.place(&mut items, &row(), &ctx);
    assert_eq!(positions(&items), vec![(-22, 23)]);
    assert_eq!(used, Vec2i { x: -22 + 141 + 3, y: 33 + 4 });
}

#[test]
fn radial_puts_four_items_on_the_compass_points() {
    let spokes = compass();
    let ctx = context(200, 300, 0);
    let mut items = vec![sized(20, 20), sized(20, 20), sized(20, 20), sized(20, 20)];
    let used = RadialPlacer { spokes: &spokes }.place(&mut items, &row(), &ctx);
    assert_eq!(positions(&items), vec![(80, 0), (160, 80), (80, 160), (0, 80)]);
    assert_eq!(used, Vec2i { x: 180, y: 180 });
}

#[test]
fn radial_starts_at_the_padding() {
    let spokes = compass();
    let mut ctx = context(200, 300, 0);
    ctx.padding_main_start = 5;
    ctx.padding_main_end = 6;
    ctx.padding_cross_start = 7;
    ctx.padding_cross_end = 8;
    let mut items = vec![sized(20, 20), sized(20, 20), sized(20, 20), sized(20, 20)];
    let used = RadialPlacer { spokes: &spokes }.place(&mut items, &row(), &ctx);
    assert_eq!(positions(&items), vec![(85, 7), (165, 87), (85, 167), (5, 87)]);
    assert_eq!(used, Vec2i { x: 191, y: 195 });
}

#[test]
fn radial_in_a_small_container_estimates_its_radius() {
    let spokes = compass();
    let ctx = context(40, 40, 0);
    let mut items = vec![sized(0, 0), sized(20, 0)];
    let used = RadialPlacer { spokes: &spokes }.place(&mut items, &row(), &ctx);
    assert_eq!(items[0].result.size, Vec2i { x: 50, y: 50 });
    assert_eq!(items[1].result.size, Vec2i { x: 20, y: 50 });
    assert_eq!(positions(&items), vec![(0, 0), (115, 100)]);
    assert_eq!(used, Vec2i { x: 135, y: 150 });
    let mut many: Vec<SolverItem> = (0..4).map(|_| sized(400, 10)).collect();
    RadialPlacer { spokes: &spokes }.place(&mut many, &row(), &ctx);
    let radius = 1600 * 339 / 1420;
    assert_eq!(many[1].result.pos.x - many[3].result.pos.x, 2 * radius);
}

#[test]
fn radial_rounds_towards_the_far_side() {
    let spokes = vec![Vec2i { x: -1, y: 1 }, Vec2i { x: SPOKE_UNIT, y: SPOKE_UNIT }];
    let ctx = context(200, 200, 0);
    let mut items = vec![sized(10, 10), sized(10, 10)];
    RadialPlacer { spokes: &spokes }.place(&mut items, &row(), &ctx);
    assert_eq!(positions(&items), vec![(0, 0), (81, 80)]);
}

#[test]
fn radial_of_nothing_reports_nothing() {
    let spokes = compass();
    let ctx = context(200, 300, 0);
    let mut items: Vec<SolverItem> = Vec::new();
    assert_eq!(RadialPlacer { spokes: &spokes }.place(&mut items, &row(), &ctx), Vec2i { x: 0, y: 0 });
}

#[test]
fn directions_beyond_the_unit_are_not_valid() {
    assert!(spokes_ok(&compass()));
    assert!(spokes_ok(&Vec::new()));
    assert!(!spokes_ok(&vec![Vec2i { x: SPOKE_UNIT + 1, y: 0 }]));
    assert!(!spokes_ok(&vec![Vec2i { x: 0, y: 0 }, Vec2i { x: 0, y: -SPOKE_UNIT - 1 }]));
}

#[test]
fn the_display_kind_selects_the_strategy() {
    let spokes = compass();
    let ctx = context(220, 400, 10);
    let kinds = [
        (UDisplay::Flex, vec![(0, 0), (30, 0)]),
        (UDisplay::Hidden, vec![(0, 0), (30, 0)]),
        (UDisplay::Grid, vec![(0, 0), (115, 0)]),
        (UDisplay::Masonry, vec![(0, 0), (115, 0)]),
        (UDisplay::Stack, vec![(100, 190), (105, 195)]),
        (UDisplay::Radial, vec![(0, 0), (90, 90)]),
    ];
    for (display, expected) in kinds.iter() {
        let layout = ULayout {
            display: *display,
            flex_direction: UFlexDirection::Row,
            justify_content: UJustifyContent::Start,
            align_items: UAlignItems::Start,
            gap: 10,
            grid_columns: 2,
        };
        let mut items = vec![sized(20, 20), sized(20, 20)];
        place_by_display(layout, &spokes, &mut items, &row(), &ctx);
        assert_eq!(&positions(&items), expected);
    }
}

#[test]
fn placing_by_indices_leaves_the_other_items() {
    let spokes = Vec::new();
    let ctx = context(220, 400, 10);
    let layout = ULayout {
        display: UDisplay::Flex,
        flex_direction: UFlexDirection::Row,
        justify_content: UJustifyContent::Start,
        align_items: UAlignItems::Start,
        gap: 10,
        grid_columns: 1,
    };
    let mut items = vec![sized(20, 20), sized(30, 20), sized(40, 25)];
    items[1].result.pos = Vec2i { x: 77, y: 88 };
    let used = final_size_with_indices(layout, &mut items, &vec![2, 0], &row(), &ctx, &spokes);
    assert_eq!(positions(&items), vec![(50, 0), (77, 88), (0, 0)]);
    assert_eq!(used, Vec2i { x: 70, y: 25 });
}
