use univis_ui::bridge::LayoutPlacer;
use univis_ui::geometry::{AxisHelper, BoxConstraints, USides, UVal};
use univis_ui::grid::GridPlacer;
use univis_ui::masonry::MasonryPlacer;
use univis_ui::solver::{
    solve_flex_layout, PlacementContext, SolverConfig, SolverItem, SolverResult, SolverSizeMode,
    SolverSpec,
};
use univis_ui::units::Vec2i;
use univis_ui::univis_node::{
    UAlignItems, UDisplay, UFlexDirection, UJustifyContent, ULayout, UPositionType,
};

fn plain_spec() -> SolverSpec {
    SolverSpec {
        width_mode: SolverSizeMode::Content,
        width_val: 0,
        width_flex: 0,
        height_mode: SolverSizeMode::Content,
        height_val: 0,
        height_flex: 0,
        position_type: UPositionType::Relative,
        left: UVal::Auto,
        right: UVal::Auto,
        top: UVal::Auto,
        bottom: UVal::Auto,
        align_self: None,
        order: 0,
    }
}

fn item(spec: SolverSpec) -> SolverItem {
    SolverItem {
        spec,
        result: SolverResult { size: Vec2i { x: 0, y: 0 }, pos: Vec2i { x: 0, y: 0 } },
        margin: USides::all(0),
    }
}

fn sized(width: i64, height: i64) -> SolverItem {
    SolverItem {
        spec: plain_spec(),
        result: SolverResult { size: Vec2i { x: width, y: height }, pos: Vec2i { x: 0, y: 0 } },
        margin: USides::all(0),
    }
}

fn flex_child(factor: u32, content_height: i64) -> SolverItem {
    item(SolverSpec {
        width_mode: SolverSizeMode::Flex,
        width_flex: factor,
        height_val: content_height,
        ..plain_spec()
    })
}

fn row_layout(align_items: UAlignItems, gap: i64) -> ULayout {
    ULayout {
        display: UDisplay::Flex,
        flex_direction: UFlexDirection::Row,
        justify_content: UJustifyContent::Start,
        align_items,
        gap,
        grid_columns: 1,
    }
}

fn context(main: i64, cross: i64, gap: i64) -> PlacementContext {
    PlacementContext {
        container_main_size: main,
        container_cross_size: cross,
        padding_main_start: 0,
        padding_main_end: 0,
        padding_cross_start: 0,
        padding_cross_end: 0,
        gap,
        justify_content: UJustifyContent::Start,
        align_items: UAlignItems::Start,
    }
}

#[test]
fn three_flex_children_share_a_row() {
    let spokes = Vec::new();
    let config = SolverConfig {
        layout: row_layout(UAlignItems::Stretch, 10),
        gap: 10,
        padding: USides::all(0),
        grid_columns: 1,
        width_mode: SolverSizeMode::Fixed,
        height_mode: SolverSizeMode::Fixed,
        spokes: &spokes,
    };
    let mut items = vec![flex_child(1, 20), flex_child(1, 20), flex_child(1, 20)];
    let size = solve_flex_layout(
        &config,
        BoxConstraints::tight(Vec2i { x: 300, y: 100 }),
        &mut items,
    );
    assert_eq!(size, Vec2i { x: 300, y: 100 });
    let widths: Vec<i64> = items.iter().map(|i| i.result.size.x).collect();
    assert_eq!(widths, vec![93, 93, 94]);
    assert_eq!(widths.iter().sum::<i64>(), 280);
    for item in items.iter() {
        assert_eq!(item.result.size.y, 100);
        assert_eq!(item.result.pos.y, 0);
    }
    let xs: Vec<i64> = items.iter().map(|i| i.result.pos.x).collect();
    assert_eq!(xs, vec![0, 103, 206]);
}

#[test]
fn flex_children_keep_content_height_without_stretch() {
    let spokes = Vec::new();
    let config = SolverConfig {
        layout: row_layout(UAlignItems::Start, 10),
        gap: 10,
        padding: USides::all(0),
        grid_columns: 1,
        width_mode: SolverSizeMode::Fixed,
        height_mode: SolverSizeMode::Fixed,
        spokes: &spokes,
    };
    let mut items = vec![flex_child(1, 20), flex_child(1, 35), flex_child(1, 20)];
    solve_flex_layout(&config, BoxConstraints::tight(Vec2i { x: 300, y: 100 }), &mut items);
    let heights: Vec<i64> = items.iter().map(|i| i.result.size.y).collect();
    assert_eq!(heights, vec![20, 35, 20]);
    let widths: Vec<i64> = items.iter().map(|i| i.result.size.x).collect();
    assert_eq!(widths, vec![93, 93, 94]);
}

#[test]
fn grid_of_two_columns_puts_five_items_in_three_rows() {
    let axis = AxisHelper::new(UFlexDirection::Row);
    let ctx = context(220, 400, 10);
    let mut items = vec![sized(0, 0), sized(0, 0), sized(0, 0), sized(0, 0), sized(0, 0)];
    let used = GridPlacer { columns: 2 }.place(&mut items, &axis, &ctx);
    for item in items.iter() {
        assert_eq!(item.result.size, Vec2i { x: 105, y: 105 });
    }
    let positions: Vec<(i64, i64)> =
        items.iter().map(|i| (i.result.pos.x, i.result.pos.y)).collect();
    assert_eq!(positions, vec![(0, 0), (115, 0), (0, 115), (115, 115), (0, 230)]);
    assert_eq!(used, Vec2i { x: 220, y: 3 * 105 + 2 * 10 });
}

#[test]
fn masonry_fills_the_shortest_column() {
    let axis = AxisHelper::new(UFlexDirection::Row);
    let ctx = context(320, 1000, 10);
    let heights = [200, 100, 150, 120, 80, 180, 100];
    let mut items: Vec<SolverItem> = heights.iter().map(|h| sized(40, *h)).collect();
    let used = MasonryPlacer { columns: 3 }.place(&mut items, &axis, &ctx);
    let positions: Vec<(i64, i64)> =
        items.iter().map(|i| (i.result.pos.x, i.result.pos.y)).collect();
    assert_eq!(
        positions,
        vec![(0, 0), (110, 0), (220, 0), (110, 110), (220, 160), (0, 210), (110, 240)]
    );
    for (item, h) in items.iter().zip(heights.iter()) {
        assert_eq!(item.result.size, Vec2i { x: 100, y: *h });
    }
    assert_eq!(used, Vec2i { x: 320, y: 400 });
    let columns = [400, 350, 250];
    let tallest = *columns.iter().max().unwrap();
    let shortest = *columns.iter().min().unwrap();
    let largest_advance = heights.iter().map(|h| h + 10).max().unwrap();
    assert!(tallest - shortest <= largest_advance);
}

#[test]
fn absolute_child_with_top_only() {
    let spokes = Vec::new();
    let config = SolverConfig {
        layout: row_layout(UAlignItems::Start, 0),
        gap: 0,
        padding: USides::all(0),
        grid_columns: 1,
        width_mode: SolverSizeMode::Fixed,
        height_mode: SolverSizeMode::Fixed,
        spokes: &spokes,
    };
    let mut child = item(SolverSpec {
        width_mode: SolverSizeMode::Fixed,
        width_val: 30,
        height_mode: SolverSizeMode::Fixed,
        height_val: 40,
        position_type: UPositionType::Absolute,
        top: UVal::Px(10),
        ..plain_spec()
    });
    child.margin = USides { left: 3, right: 0, top: 5, bottom: 0 };
    let mut items = vec![child];
    let size = solve_flex_layout(
        &config,
        BoxConstraints::tight(Vec2i { x: 200, y: 100 }),
        &mut items,
    );
    assert_eq!(size, Vec2i { x: 200, y: 100 });
    assert_eq!(items[0].result.pos, Vec2i { x: 3, y: 15 });
    assert_eq!(items[0].result.size, Vec2i { x: 30, y: 40 });
}
