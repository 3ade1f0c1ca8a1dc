use univis_ui::components::{IntrinsicSize, LayoutDepth, LayoutTreeDepth};
use univis_ui::geometry::{
    scale_percent, AxisHelper, AxisPadding, BoxConstraints, ComputedSize, USides, UVal,
};
use univis_ui::solver::{SolverItem, SolverResult, SolverSizeMode, SolverSpec};
use univis_ui::units::{
    clamp_i64, length_ok, max_i64, min_i64, Vec2i, MAX_ITEMS, MAX_LENGTH, PERCENT_WHOLE,
};
use univis_ui::univis_node::{
    UAlignItems, UAlignSelf, UDisplay, UFlexDirection, UJustifyContent, ULayout, UNode,
    UPositionType, USelf,
};

fn spec() -> SolverSpec {
    SolverSpec {
        width_mode: SolverSizeMode::Fixed,
        width_val: 11,
        width_flex: 1,
        height_mode: SolverSizeMode::Percent,
        height_val: 22,
        height_flex: 2,
        position_type: UPositionType::Relative,
        left: UVal::Auto,
        right: UVal::Auto,
        top: UVal::Auto,
        bottom: UVal::Auto,
        align_self: None,
        order: 0,
    }
}

#[test]
fn sides_are_built_by_axis_and_by_side() {
    assert_eq!(USides::all(3), USides { left: 3, right: 3, top: 3, bottom: 3 });
    assert_eq!(USides::axes(1, 2), USides { left: 1, right: 1, top: 2, bottom: 2 });
    assert_eq!(USides::row(4), USides { left: 4, right: 4, top: 0, bottom: 0 });
    assert_eq!(USides::column(5), USides { left: 0, right: 0, top: 5, bottom: 5 });
    assert_eq!(USides::bottom(6), USides { left: 0, right: 0, top: 0, bottom: 6 });
    assert_eq!(USides::top(7), USides { left: 0, right: 0, top: 7, bottom: 0 });
    assert_eq!(USides::left(8), USides { left: 8, right: 0, top: 0, bottom: 0 });
    assert_eq!(USides::right(9), USides { left: 0, right: 9, top: 0, bottom: 0 });
    let sides = USides { left: 1, right: 2, top: 3, bottom: 4 };
    assert_eq!(sides.width_sum(), 3);
    assert_eq!(sides.height_sum(), 7);
    assert!(sides.is_valid());
    assert!(!USides { left: -1, ..sides }.is_valid());
    assert!(!USides { bottom: MAX_LENGTH + 1, ..sides }.is_valid());
}

#[test]
fn lengths_have_a_range() {
    assert!(length_ok(0));
    assert!(length_ok(MAX_LENGTH));
    assert!(!length_ok(-1));
    assert!(!length_ok(MAX_LENGTH + 1));
    assert_eq!(MAX_LENGTH, 1 << 30);
    assert_eq!(MAX_ITEMS, 1 << 16);
    assert_eq!((max_i64(3, -4), min_i64(3, -4)), (3, -4));
    assert_eq!((clamp_i64(5, 0, 3), clamp_i64(-5, 0, 3), clamp_i64(2, 0, 3)), (3, 0, 2));
    assert_eq!(Vec2i::new(1, 2), Vec2i { x: 1, y: 2 });
    assert_eq!(Vec2i::zero(), Vec2i { x: 0, y: 0 });
}

#[test]
fn values_resolve_against_a_base() {
    assert_eq!(UVal::Px(-7).resolve(100), Some(-7));
    assert_eq!(UVal::Percent(2_500).resolve(101), Some(25));
    assert_eq!(UVal::Percent(PERCENT_WHOLE).resolve(101), Some(101));
    assert_eq!(UVal::Auto.resolve(100), None);
    assert_eq!(UVal::Auto.resolve_or_zero(100), 0);
    assert_eq!(UVal::Px(9).resolve_or_zero(100), 9);
    assert_eq!(scale_percent(3_333, 100), 33);
    assert_eq!(scale_percent(0, 100), 0);
    assert_eq!(UVal::default(), UVal::Px(0));
}

#[test]
fn values_are_valid_as_sizes_or_as_offsets() {
    assert!(UVal::Px(0).is_valid_size());
    assert!(!UVal::Px(-1).is_valid_size());
    assert!(UVal::Px(-1).is_valid_offset());
    assert!(!UVal::Px(-MAX_LENGTH - 1).is_valid_offset());
    assert!(UVal::Percent(PERCENT_WHOLE).is_valid_size());
    assert!(!UVal::Percent(PERCENT_WHOLE + 1).is_valid_size());
    assert!(!UVal::Percent(-1).is_valid_offset());
    assert!(UVal::Flex(3).is_valid_size());
    assert!(!UVal::Flex(3).is_valid_offset());
    assert!(UVal::Content.is_valid_size());
    assert!(!UVal::Content.is_valid_offset());
    assert!(UVal::Auto.is_valid_offset());
}

#[test]
fn the_axis_helper_maps_main_and_cross() {
    let row = AxisHelper::new(UFlexDirection::RowReverse);
    let column = AxisHelper::new(UFlexDirection::Column);
    assert!(row.is_row() && row.is_reverse());
    assert!(!column.is_row() && !column.is_reverse());
    assert!(AxisHelper::new(UFlexDirection::Row).is_row());
    assert!(!AxisHelper::new(UFlexDirection::Row).is_reverse());
    assert!(AxisHelper::new(UFlexDirection::ColumnReverse).is_reverse());
    let v = Vec2i { x: 1, y: 2 };
    assert_eq!(row.from_world(v), (1, 2));
    assert_eq!(column.from_world(v), (2, 1));
    assert_eq!(row.to_world(1, 2), v);
    assert_eq!(column.to_world(2, 1), v);
    let bounds = BoxConstraints { min_width: 1, max_width: 2, min_height: 3, max_height: 4 };
    assert_eq!(row.extract_constraints(bounds), (1, 2, 3, 4));
    assert_eq!(column.extract_constraints(bounds), (3, 4, 1, 2));
    let sides = USides { left: 1, right: 2, top: 3, bottom: 4 };
    assert_eq!(row.extract_padding(sides), AxisPadding { main: 3, cross: 7 });
    assert_eq!(column.extract_padding(sides), AxisPadding { main: 7, cross: 3 });
    assert_eq!(row.extract_margin_sides(sides), (1, 2, 3, 4));
    assert_eq!(column.extract_margin_sides(sides), (3, 4, 1, 2));
    assert_eq!(row.get_main_spec(&spec()), (SolverSizeMode::Fixed, 11, 1));
    assert_eq!(row.get_cross_spec(&spec()), (SolverSizeMode::Percent, 22, 2));
    assert_eq!(column.get_main_spec(&spec()), (SolverSizeMode::Percent, 22, 2));
    assert_eq!(column.get_cross_spec(&spec()), (SolverSizeMode::Fixed, 11, 1));
}

#[test]
fn bounds_are_tight_or_loose() {
    let size = Vec2i { x: 30, y: 40 };
    let tight = BoxConstraints::tight(size);
    assert_eq!(
        tight,
        BoxConstraints { min_width: 30, max_width: 30, min_height: 40, max_height: 40 }
    );
    let loose = BoxConstraints::loose(size);
    assert_eq!(
        loose,
        BoxConstraints { min_width: 0, max_width: 30, min_height: 0, max_height: 40 }
    );
    assert_eq!(loose.max_size(), size);
    assert_eq!(loose.min_size(), Vec2i { x: 0, y: 0 });
    assert_eq!(tight.min_size(), size);
    assert!(tight.is_valid() && loose.is_valid());
    assert!(!BoxConstraints { min_width: 31, ..tight }.is_valid());
    assert!(!BoxConstraints { min_height: -1, ..loose }.is_valid());
    assert!(!BoxConstraints { max_height: MAX_LENGTH + 1, ..loose }.is_valid());
}

#[test]
fn declarations_start_from_defaults() {
    let node = UNode::default();
    assert_eq!((node.width, node.height), (UVal::Content, UVal::Content));
    assert_eq!((node.padding, node.margin), (USides::all(0), USides::all(0)));
    assert!(node.is_valid());
    assert!(!UNode { width: UVal::Px(-3), ..node }.is_valid());
    let layout = ULayout::default();
    assert_eq!(layout.display, UDisplay::Flex);
    assert_eq!(layout.flex_direction, UFlexDirection::Row);
    assert_eq!(layout.justify_content, UJustifyContent::Start);
    assert_eq!(layout.align_items, UAlignItems::Start);
    assert_eq!((layout.gap, layout.grid_columns), (0, 1));
    assert!(layout.is_valid());
    assert!(!ULayout { gap: -1, ..layout }.is_valid());
    assert_eq!(UJustifyContent::default(), UJustifyContent::Start);
    let own = USelf::default();
    assert_eq!(own.align_self, UAlignSelf::Auto);
    assert_eq!((own.left, own.right, own.top, own.bottom),
        (UVal::Auto, UVal::Auto, UVal::Auto, UVal::Auto));
    assert_eq!((own.order, own.position_type), (0, UPositionType::Relative));
    assert_eq!(own.get_val(), 0);
    assert_eq!(USelf { left: UVal::Px(12), ..own }.get_val(), 12);
    assert_eq!(USelf { left: UVal::Percent(12), ..own }.get_val(), 0);
    assert!(own.is_valid());
    assert!(!USelf { top: UVal::Content, ..own }.is_valid());
    assert_eq!(SolverSizeMode::default(), SolverSizeMode::Fixed);
    assert_eq!(SolverResult::default().size, Vec2i { x: 0, y: 0 });
    assert_eq!(SolverResult::default().pos, Vec2i { x: 0, y: 0 });
}

#[test]
fn computed_state_starts_from_nothing() {
    let state = ComputedSize::default();
    assert_eq!(state.size(), Vec2i { x: 0, y: 0 });
    assert_eq!(state.local_pos, Vec2i { x: 0, y: 0 });
    assert_eq!(state.offered, Vec2i { x: 0, y: 0 });
    assert_eq!(ComputedSize { width: 3, height: 4, ..state }.size(), Vec2i { x: 3, y: 4 });
    assert_eq!(IntrinsicSize::default(), IntrinsicSize { width: 0, height: 0 });
    assert_eq!(LayoutDepth::default(), LayoutDepth(0));
    assert_eq!(LayoutTreeDepth::default().max_depth, 0);
}

#[test]
fn a_declaration_is_valid_under_its_modes() {
    let good = spec();
    assert!(good.is_valid());
    assert!(!SolverSpec { height_val: PERCENT_WHOLE + 1, ..good }.is_valid());
    assert!(!SolverSpec { width_val: -1, ..good }.is_valid());
    assert!(!SolverSpec { left: UVal::Flex(1), ..good }.is_valid());
    let item = SolverItem { spec: good, result: SolverResult::default(), margin: USides::all(1) };
    assert!(item.is_valid());
    assert!(!SolverItem { margin: USides::all(-1), ..item }.is_valid());
}
