//! Dimension values, box spacing, constraints, and the helper that maps
//! main / cross onto x / y.

use vstd::prelude::*;
use crate::solver::{SolverSizeMode, SolverSpec};
use crate::units::{is_length, length_ok, percent_of, Vec2i, MAX_LENGTH, PERCENT_WHOLE};
use crate::univis_node::UFlexDirection;

verus! {

/// The final size and position of a node.
#[derive(Clone, Copy, Debug, PartialEq, Eq, Structural)]
pub struct ComputedSize {
    /// Final width.
    pub width: i64,
    /// Final height.
    pub height: i64,
    /// Position of the node's top-left corner, from its parent's.
    pub local_pos: Vec2i,
    /// The size the parent's solve step assigned; a root's is the canvas.
    pub offered: Vec2i,
}

impl ComputedSize {
    /// The final dimensions as a pair.
    pub fn size(&self) -> (s: Vec2i)
        ensures
            s.x == self.width,
            s.y == self.height,
    {
        Vec2i::new(self.width, self.height)
    }
}

impl Default for ComputedSize {
    fn default() -> (c: Self)
        ensures
            c.width == 0,
            c.height == 0,
            c.local_pos == (Vec2i { x: 0, y: 0 }),
            c.offered == (Vec2i { x: 0, y: 0 }),
    {
        ComputedSize { width: 0, height: 0, local_pos: Vec2i::zero(), offered: Vec2i::zero() }
    }
}

/// A declared dimension or offset.
#[derive(Clone, Copy, Debug, PartialEq, Eq, Structural)]
pub enum UVal {
    /// A fixed number of pixels.
    Px(i64),
    /// A share of the parent's size; `PERCENT_WHOLE` is all of it.
    Percent(i64),
    /// As large as the content.
    Content,
    /// Adapts to context.
    Auto,
    /// A share of the remaining space, by growth factor.
    Flex(u32),
}

impl UVal {
    /// Acceptable as a width or height.
    pub open spec fn valid_size(&self) -> bool {
        match *self {
            UVal::Px(v) => is_length(v as int),
            UVal::Percent(p) => 0 <= p <= PERCENT_WHOLE,
            _ => true,
        }
    }

    /// Acceptable as an anchor offset: pixels, a share, or `Auto`.
    pub open spec fn valid_offset(&self) -> bool {
        match *self {
            UVal::Px(v) => -MAX_LENGTH <= v <= MAX_LENGTH,
            UVal::Percent(p) => 0 <= p <= PERCENT_WHOLE,
            UVal::Auto => true,
            _ => false,
        }
    }

    /// Whether the value is acceptable as a width or height.
    pub fn is_valid_size(&self) -> (ok: bool)
        ensures
            ok == self.valid_size(),
    {
        match *self {
            UVal::Px(v) => length_ok(v),
            UVal::Percent(p) => 0 <= p && p <= PERCENT_WHOLE,
            _ => true,
        }
    }

    /// Whether the value is acceptable as an anchor offset.
    pub fn is_valid_offset(&self) -> (ok: bool)
        ensures
            ok == self.valid_offset(),
    {
        match *self {
            UVal::Px(v) => -MAX_LENGTH <= v && v <= MAX_LENGTH,
            UVal::Percent(p) => 0 <= p && p <= PERCENT_WHOLE,
            UVal::Auto => true,
            _ => false,
        }
    }

    /// Whether the value names a definite length.
    pub open spec fn is_definite(&self) -> bool {
        self is Px || self is Percent
    }

    /// The length the value names against `base`, zero where it names none.
    pub open spec fn resolved_or_zero(&self, base: int) -> int {
        match *self {
            UVal::Px(v) => v as int,
            UVal::Percent(p) => percent_of(p as int, base),
            _ => 0,
        }
    }

    /// The length the value names against `base`.
    pub fn resolve(&self, base: i64) -> (r: Option<i64>)
        requires
            self.valid_offset(),
            is_length(base as int),
        ensures
            r is Some <==> self.is_definite(),
            r is Some ==> r->0 == self.resolved_or_zero(base as int),
            r is Some ==> -MAX_LENGTH <= r->0 <= MAX_LENGTH,
    {
        match *self {
            UVal::Px(v) => Some(v),
            UVal::Percent(p) => Some(scale_percent(p, base)),
            _ => None,
        }
    }

    /// The length the value names against `base`, zero where it names none.
    pub fn resolve_or_zero(&self, base: i64) -> (r: i64)
        requires
            self.valid_offset(),
            is_length(base as int),
        ensures
            r == self.resolved_or_zero(base as int),
            -MAX_LENGTH <= r <= MAX_LENGTH,
    {
        match self.resolve(base) {
            Some(v) => v,
            None => 0,
        }
    }
}

impl Default for UVal {
    fn default() -> (v: Self)
        ensures
            v == UVal::Px(0),
    {
        UVal::Px(0)
    }
}

/// The share `p / PERCENT_WHOLE` of `base`, rounded down.
pub fn scale_percent(p: i64, base: i64) -> (r: i64)
    requires
        0 <= p <= PERCENT_WHOLE,
        is_length(base as int),
    ensures
        r == percent_of(p as int, base as int),
        0 <= r <= base,
{
    proof {
        lemma_percent_bounds(p as int, base as int);
    }
    p * base / PERCENT_WHOLE
}

/// A share of at most the whole lies between nothing and the base.
pub proof fn lemma_percent_bounds(p: int, base: int)
    requires
        0 <= p <= PERCENT_WHOLE,
        0 <= base,
    ensures
        0 <= p * base <= PERCENT_WHOLE * base,
        0 <= percent_of(p, base) <= base,
{
    assert(0 <= p * base <= PERCENT_WHOLE * base) by (nonlinear_arith)
        requires
            0 <= p <= PERCENT_WHOLE,
            0 <= base,
    ;
    vstd::arithmetic::div_mod::lemma_div_is_ordered(p * base, PERCENT_WHOLE * base, PERCENT_WHOLE as int);
    vstd::arithmetic::div_mod::lemma_div_multiples_vanish(base, PERCENT_WHOLE as int);
    vstd::arithmetic::div_mod::lemma_div_pos_is_pos(p * base, PERCENT_WHOLE as int);
    assert(PERCENT_WHOLE * base == base * PERCENT_WHOLE) by (nonlinear_arith);
}

/// Spacing on the four sides of a box.
#[derive(Clone, Copy, Debug, PartialEq, Eq, Structural)]
pub struct USides {
    pub left: i64,
    pub right: i64,
    pub top: i64,
    pub bottom: i64,
}

impl USides {
    /// Every side is a length in the accepted range.
    pub open spec fn valid(&self) -> bool {
        &&& is_length(self.left as int)
        &&& is_length(self.right as int)
        &&& is_length(self.top as int)
        &&& is_length(self.bottom as int)
    }

    /// Whether every side is a length in the accepted range.
    pub fn is_valid(&self) -> (ok: bool)
        ensures
            ok == self.valid(),
    {
        length_ok(self.left) && length_ok(self.right) && length_ok(self.top) && length_ok(
            self.bottom,
        )
    }

    /// No spacing at all.
    pub open spec fn zero() -> USides {
        USides { left: 0, right: 0, top: 0, bottom: 0 }
    }

    /// The same spacing on all sides.
    pub fn all(val: i64) -> (s: Self)
        ensures
            s == (USides { left: val, right: val, top: val, bottom: val }),
    {
        USides { left: val, right: val, top: val, bottom: val }
    }

    /// `row` on the left and right, `column` on the top and bottom.
    pub fn axes(row: i64, column: i64) -> (s: Self)
        ensures
            s == (USides { left: row, right: row, top: column, bottom: column }),
    {
        USides { left: row, right: row, top: column, bottom: column }
    }

    /// Spacing on the left and right only.
    pub fn row(val: i64) -> (s: Self)
        ensures
            s == (USides { left: val, right: val, top: 0, bottom: 0 }),
    {
        USides { left: val, right: val, top: 0, bottom: 0 }
    }

    /// Spacing on the top and bottom only.
    pub fn column(val: i64) -> (s: Self)
        ensures
            s == (USides { left: 0, right: 0, top: val, bottom: val }),
    {
        USides { left: 0, right: 0, top: val, bottom: val }
    }

    /// Spacing on the bottom only.
    pub fn bottom(val: i64) -> (s: Self)
        ensures
            s == (USides { left: 0, right: 0, top: 0, bottom: val }),
    {
        USides { left: 0, right: 0, top: 0, bottom: val }
    }

    /// Spacing on the top only.
    pub fn top(val: i64) -> (s: Self)
        ensures
            s == (USides { left: 0, right: 0, top: val, bottom: 0 }),
    {
        USides { left: 0, right: 0, top: val, bottom: 0 }
    }

    /// Spacing on the left only.
    pub fn left(val: i64) -> (s: Self)
        ensures
            s == (USides { left: val, right: 0, top: 0, bottom: 0 }),
    {
        USides { left: val, right: 0, top: 0, bottom: 0 }
    }

    /// Spacing on the right only.
    pub fn right(val: i64) -> (s: Self)
        ensures
            s == (USides { left: 0, right: val, top: 0, bottom: 0 }),
    {
        USides { left: 0, right: val, top: 0, bottom: 0 }
    }

    /// Left plus right.
    pub fn width_sum(&self) -> (s: i64)
        requires
            self.valid(),
        ensures
            s == self.left + self.right,
    {
        self.left + self.right
    }

    /// Top plus bottom.
    pub fn height_sum(&self) -> (s: i64)
        requires
            self.valid(),
        ensures
            s == self.top + self.bottom,
    {
        self.top + self.bottom
    }
}

/// Padding summed per axis.
#[derive(Clone, Copy, Debug, PartialEq, Eq, Structural)]
pub struct AxisPadding {
    /// Padding on the main axis, both ends.
    pub main: i64,
    /// Padding on the cross axis, both ends.
    pub cross: i64,
}

/// Maps main / cross onto x / y for one flow direction, so that each
/// algorithm is written once for both orientations.
pub struct AxisHelper {
    pub axis: UFlexDirection,
}

impl AxisHelper {
    /// The direction the helper was made for.
    pub open spec fn direction(&self) -> UFlexDirection {
        self.axis
    }

    /// The main axis is horizontal.
    pub open spec fn row_like(&self) -> bool {
        self.direction() is Row || self.direction() is RowReverse
    }

    /// The main component of a pair in world coordinates.
    pub open spec fn main_of(&self, v: Vec2i) -> i64 {
        if self.row_like() {
            v.x
        } else {
            v.y
        }
    }

    /// The cross component of a pair in world coordinates.
    pub open spec fn cross_of(&self, v: Vec2i) -> i64 {
        if self.row_like() {
            v.y
        } else {
            v.x
        }
    }

    /// The pair in world coordinates with the given main and cross parts.
    pub open spec fn world(&self, main: i64, cross: i64) -> Vec2i {
        if self.row_like() {
            Vec2i { x: main, y: cross }
        } else {
            Vec2i { x: cross, y: main }
        }
    }

    /// Margin or padding at the start of the main axis.
    pub open spec fn main_start(&self, s: USides) -> i64 {
        if self.row_like() {
            s.left
        } else {
            s.top
        }
    }

    /// Margin or padding at the end of the main axis.
    pub open spec fn main_end(&self, s: USides) -> i64 {
        if self.row_like() {
            s.right
        } else {
            s.bottom
        }
    }

    /// Margin or padding at the start of the cross axis.
    pub open spec fn cross_start(&self, s: USides) -> i64 {
        if self.row_like() {
            s.top
        } else {
            s.left
        }
    }

    /// Margin or padding at the end of the cross axis.
    pub open spec fn cross_end(&self, s: USides) -> i64 {
        if self.row_like() {
            s.bottom
        } else {
            s.right
        }
    }

    /// Sizing mode on the main axis.
    pub open spec fn main_mode(&self, spec: SolverSpec) -> SolverSizeMode {
        if self.row_like() {
            spec.width_mode
        } else {
            spec.height_mode
        }
    }

    /// Sizing value on the main axis.
    pub open spec fn main_val(&self, spec: SolverSpec) -> i64 {
        if self.row_like() {
            spec.width_val
        } else {
            spec.height_val
        }
    }

    /// Growth factor on the main axis.
    pub open spec fn main_flex(&self, spec: SolverSpec) -> u32 {
        if self.row_like() {
            spec.width_flex
        } else {
            spec.height_flex
        }
    }

    /// Sizing mode on the cross axis.
    pub open spec fn cross_mode(&self, spec: SolverSpec) -> SolverSizeMode {
        if self.row_like() {
            spec.height_mode
        } else {
            spec.width_mode
        }
    }

    /// Sizing value on the cross axis.
    pub open spec fn cross_val(&self, spec: SolverSpec) -> i64 {
        if self.row_like() {
            spec.height_val
        } else {
            spec.width_val
        }
    }

    /// Growth factor on the cross axis.
    pub open spec fn cross_flex(&self, spec: SolverSpec) -> u32 {
        if self.row_like() {
            spec.height_flex
        } else {
            spec.width_flex
        }
    }

    pub fn new(axis: UFlexDirection) -> (a: Self)
        ensures
            a.direction() == axis,
    {
        AxisHelper { axis }
    }

    /// Whether the direction runs against its axis.
    pub fn is_reverse(&self) -> (r: bool)
        ensures
            r == (self.direction() is RowReverse || self.direction() is ColumnReverse),
    {
        match self.axis {
            UFlexDirection::RowReverse | UFlexDirection::ColumnReverse => true,
            _ => false,
        }
    }

    /// Whether the main axis is horizontal.
    pub fn is_row(&self) -> (r: bool)
        ensures
            r == self.row_like(),
    {
        match self.axis {
            UFlexDirection::Row | UFlexDirection::RowReverse => true,
            _ => false,
        }
    }

    /// World coordinates to `(main, cross)`.
    pub fn from_world(&self, size: Vec2i) -> (r: (i64, i64))
        ensures
            r.0 == self.main_of(size),
            r.1 == self.cross_of(size),
    {
        if self.is_row() {
            (size.x, size.y)
        } else {
            (size.y, size.x)
        }
    }

    /// `(main, cross)` to world coordinates.
    pub fn to_world(&self, main: i64, cross: i64) -> (v: Vec2i)
        ensures
            v == self.world(main, cross),
    {
        if self.is_row() {
            Vec2i::new(main, cross)
        } else {
            Vec2i::new(cross, main)
        }
    }

    /// The bounds as `(min_main, max_main, min_cross, max_cross)`.
    pub fn extract_constraints(&self, constraints: BoxConstraints) -> (r: (i64, i64, i64, i64))
        ensures
            r.0 == constraints.min_main(self),
            r.1 == constraints.max_main(self),
            r.2 == constraints.min_cross(self),
            r.3 == constraints.max_cross(self),
    {
        if self.is_row() {
            (
                constraints.min_width,
                constraints.max_width,
                constraints.min_height,
                constraints.max_height,
            )
        } else {
            (
                constraints.min_height,
                constraints.max_height,
                constraints.min_width,
                constraints.max_width,
            )
        }
    }

    /// Padding summed along each axis.
    pub fn extract_padding(&self, padding: USides) -> (p: AxisPadding)
        requires
            padding.valid(),
        ensures
            p.main == self.main_start(padding) + self.main_end(padding),
            p.cross == self.cross_start(padding) + self.cross_end(padding),
    {
        if self.is_row() {
            AxisPadding { main: padding.left + padding.right, cross: padding.top + padding.bottom }
        } else {
            AxisPadding { main: padding.top + padding.bottom, cross: padding.left + padding.right }
        }
    }

    /// The sides as `(main_start, main_end, cross_start, cross_end)`.
    pub fn extract_margin_sides(&self, margin: USides) -> (r: (i64, i64, i64, i64))
        ensures
            r.0 == self.main_start(margin),
            r.1 == self.main_end(margin),
            r.2 == self.cross_start(margin),
            r.3 == self.cross_end(margin),
    {
        if self.is_row() {
            (margin.left, margin.right, margin.top, margin.bottom)
        } else {
            (margin.top, margin.bottom, margin.left, margin.right)
        }
    }

    /// Mode, value and growth factor on the main axis.
    pub fn get_main_spec(&self, spec: &SolverSpec) -> (r: (SolverSizeMode, i64, u32))
        ensures
            r.0 == self.main_mode(*spec),
            r.1 == self.main_val(*spec),
            r.2 == self.main_flex(*spec),
    {
        if self.is_row() {
            (spec.width_mode, spec.width_val, spec.width_flex)
        } else {
            (spec.height_mode, spec.height_val, spec.height_flex)
        }
    }

    /// Mode, value and growth factor on the cross axis.
    pub fn get_cross_spec(&self, spec: &SolverSpec) -> (r: (SolverSizeMode, i64, u32))
        ensures
            r.0 == self.cross_mode(*spec),
            r.1 == self.cross_val(*spec),
            r.2 == self.cross_flex(*spec),
    {
        if self.is_row() {
            (spec.height_mode, spec.height_val, spec.height_flex)
        } else {
            (spec.width_mode, spec.width_val, spec.width_flex)
        }
    }
}

/// The smallest and largest size a parent allows.
#[derive(Clone, Copy, Debug, PartialEq, Eq, Structural)]
pub struct BoxConstraints {
    pub min_width: i64,
    pub max_width: i64,
    pub min_height: i64,
    pub max_height: i64,
}

impl BoxConstraints {
    /// The bounds are lengths, each minimum at most its maximum.
    pub open spec fn valid(&self) -> bool {
        &&& 0 <= self.min_width <= self.max_width <= MAX_LENGTH
        &&& 0 <= self.min_height <= self.max_height <= MAX_LENGTH
    }

    /// Whether the bounds are lengths, each minimum at most its maximum.
    pub fn is_valid(&self) -> (ok: bool)
        ensures
            ok == self.valid(),
    {
        0 <= self.min_width && self.min_width <= self.max_width && self.max_width <= MAX_LENGTH
            && 0 <= self.min_height && self.min_height <= self.max_height && self.max_height
            <= MAX_LENGTH
    }

    pub open spec fn min_main(&self, axis: &AxisHelper) -> i64 {
        if axis.row_like() {
            self.min_width
        } else {
            self.min_height
        }
    }

    pub open spec fn max_main(&self, axis: &AxisHelper) -> i64 {
        if axis.row_like() {
            self.max_width
        } else {
            self.max_height
        }
    }

    pub open spec fn min_cross(&self, axis: &AxisHelper) -> i64 {
        if axis.row_like() {
            self.min_height
        } else {
            self.min_width
        }
    }

    pub open spec fn max_cross(&self, axis: &AxisHelper) -> i64 {
        if axis.row_like() {
            self.max_height
        } else {
            self.max_width
        }
    }

    /// The largest allowed size.
    pub fn max_size(&self) -> (s: Vec2i)
        ensures
            s == (Vec2i { x: self.max_width, y: self.max_height }),
    {
        Vec2i::new(self.max_width, self.max_height)
    }

    /// The smallest allowed size.
    pub fn min_size(&self) -> (s: Vec2i)
        ensures
            s == (Vec2i { x: self.min_width, y: self.min_height }),
    {
        Vec2i::new(self.min_width, self.min_height)
    }

    /// Bounds that allow exactly `size`.
    pub fn tight(size: Vec2i) -> (c: Self)
        ensures
            c == (BoxConstraints {
                min_width: size.x,
                max_width: size.x,
                min_height: size.y,
                max_height: size.y,
            }),
    {
        BoxConstraints {
            min_width: size.x,
            max_width: size.x,
            min_height: size.y,
            max_height: size.y,
        }
    }

    /// Bounds that allow anything from nothing up to `size`.
    pub fn loose(size: Vec2i) -> (c: Self)
        ensures
            c == (BoxConstraints {
                min_width: 0,
                max_width: size.x,
                min_height: 0,
                max_height: size.y,
            }),
    {
        BoxConstraints { min_width: 0, max_width: size.x, min_height: 0, max_height: size.y }
    }
}

} // verus!
