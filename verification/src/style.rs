//! Layout-style value types: the per-node flexbox configuration record and
//! the enumerated alignment, direction, wrap and position modes.
//!
//! Scalar magnitudes (point counts, percentages, grow/shrink factors) are
//! carried as opaque 32-bit patterns of type [`ScalarBits`]; the arena never
//! interprets them, and the embedding host converts to and from its own
//! numeric representation at the boundary.

use vstd::prelude::*;

use crate::geometry::{Rect, Size};

verus! {

/// An opaque 32-bit scalar payload, stored but never interpreted here.
pub type ScalarBits = u32;

/// Bit pattern the host uses for a zero scalar.
pub const SCALAR_ZERO_BITS: ScalarBits = 0;

/// Bit pattern the host uses for a unit scalar.
pub const SCALAR_ONE_BITS: ScalarBits = 0x3F80_0000;

/// How nodes are aligned relative to the cross axis.
///
/// The default behavior is [`AlignItems::Stretch`].
#[derive(Copy, Clone, PartialEq, Eq, Debug)]
pub enum AlignItems {
    /// Items are packed toward the start of the cross axis
    FlexStart,
    /// Items are packed toward the end of the cross axis
    FlexEnd,
    /// Items are packed along the center of the cross axis
    Center,
    /// Items are aligned such as their baselines align
    Baseline,
    /// Stretch to fill the container
    Stretch,
}

impl Default for AlignItems {
    fn default() -> (r: Self)
        ensures
            r == AlignItems::Stretch,
    {
        Self::Stretch
    }
}

/// Overrides the inherited [`AlignItems`] behavior for this node.
///
/// The default behavior is [`AlignSelf::Auto`].
#[derive(Copy, Clone, PartialEq, Eq, Debug)]
pub enum AlignSelf {
    /// Inherits the [`AlignItems`] behavior of the parent
    Auto,
    /// Items are packed toward the start of the cross axis
    FlexStart,
    /// Items are packed toward the end of the cross axis
    FlexEnd,
    /// Items are packed along the center of the cross axis
    Center,
    /// Items are aligned such as their baselines align
    Baseline,
    /// Distribute items evenly, but stretch them to fill the container
    Stretch,
}

impl Default for AlignSelf {
    fn default() -> (r: Self)
        ensures
            r == AlignSelf::Auto,
    {
        Self::Auto
    }
}

/// Sets the distribution of space between and around content items along the
/// cross axis.
///
/// The default value is [`AlignContent::Stretch`].
#[derive(Copy, Clone, PartialEq, Eq, Debug)]
pub enum AlignContent {
    /// Items are packed toward the start of the cross axis
    FlexStart,
    /// Items are packed toward the end of the cross axis
    FlexEnd,
    /// Items are packed along the center of the cross axis
    Center,
    /// Distribute items evenly, but stretch them to fill the container
    Stretch,
    /// Distribute items evenly, such that the first and last item are aligned
    /// with the edges
    SpaceBetween,
    /// Distribute items evenly, such that the space between items is the same
    /// as the space between the first and last item and the edges
    SpaceAround,
}

impl Default for AlignContent {
    fn default() -> (r: Self)
        ensures
            r == AlignContent::Stretch,
    {
        Self::Stretch
    }
}

/// Sets the layout used for the children of this node.
///
/// [`Display::Flex`] is the default value.
#[derive(Copy, Clone, PartialEq, Eq, Debug)]
pub enum Display {
    /// The children will follow the flexbox layout algorithm
    Flex,
    /// The children will not be laid out, and will follow absolute
    /// positioning; the CSS `display: none` strategy
    Hidden,
}

impl Default for Display {
    fn default() -> (r: Self)
        ensures
            r == Display::Flex,
    {
        Self::Flex
    }
}

/// The direction of the flexbox layout main axis.
///
/// There are always two perpendicular layout axes: main (or primary) and
/// cross (or secondary). Items are always aligned relative to the cross
/// axis, and justified relative to the main axis.
///
/// The default behavior is [`FlexDirection::Row`].
#[derive(Copy, Clone, PartialEq, Eq, Debug)]
pub enum FlexDirection {
    /// Defines +x as the main axis: items are added from left to right in a row
    Row,
    /// Defines +y as the main axis: items are added from top to bottom in a column
    Column,
    /// Defines -x as the main axis: items are added from right to left in a row
    RowReverse,
    /// Defines -y as the main axis: items are added from bottom to top in a column
    ColumnReverse,
}

impl Default for FlexDirection {
    fn default() -> (r: Self)
        ensures
            r == FlexDirection::Row,
    {
        Self::Row
    }
}

impl FlexDirection {
    /// Whether the direction is row-oriented.
    pub open spec fn spec_is_row(self) -> bool {
        self is Row || self is RowReverse
    }

    /// Whether the direction is column-oriented.
    pub open spec fn spec_is_column(self) -> bool {
        self is Column || self is ColumnReverse
    }

    /// Whether the direction runs against the axis orientation.
    pub open spec fn spec_is_reverse(self) -> bool {
        self is RowReverse || self is ColumnReverse
    }

    /// Is the direction [`FlexDirection::Row`] or [`FlexDirection::RowReverse`]?
    #[verifier::when_used_as_spec(spec_is_row)]
    pub fn is_row(self) -> (r: bool)
        ensures
            r == self.spec_is_row(),
    {
        matches!(self, Self::Row | Self::RowReverse)
    }

    /// Is the direction [`FlexDirection::Column`] or [`FlexDirection::ColumnReverse`]?
    #[verifier::when_used_as_spec(spec_is_column)]
    pub fn is_column(self) -> (r: bool)
        ensures
            r == self.spec_is_column(),
    {
        matches!(self, Self::Column | Self::ColumnReverse)
    }

    /// Is the direction [`FlexDirection::RowReverse`] or [`FlexDirection::ColumnReverse`]?
    #[verifier::when_used_as_spec(spec_is_reverse)]
    pub fn is_reverse(self) -> (r: bool)
        ensures
            r == self.spec_is_reverse(),
    {
        matches!(self, Self::RowReverse | Self::ColumnReverse)
    }
}

/// Sets the distribution of space between and around content items along the
/// main axis.
///
/// The default value is [`JustifyContent::FlexStart`].
#[derive(Copy, Clone, PartialEq, Eq, Debug)]
pub enum JustifyContent {
    /// Items are packed toward the start of the main axis
    FlexStart,
    /// Items are packed toward the end of the main axis
    FlexEnd,
    /// Items are packed along the center of the main axis
    Center,
    /// Distribute items evenly, such that the first and last item are aligned
    /// with the edges
    SpaceBetween,
    /// Distribute items evenly, such that the space between items is twice
    /// the space between the first and last item and the edges
    SpaceAround,
    /// Distribute items evenly, such that the space between items is the same
    /// as the space between the first and last item and the edges
    SpaceEvenly,
}

impl Default for JustifyContent {
    fn default() -> (r: Self)
        ensures
            r == JustifyContent::FlexStart,
    {
        Self::FlexStart
    }
}

/// The positioning strategy for this item.
///
/// [`PositionType::Relative`] is the default value.
#[derive(Copy, Clone, PartialEq, Eq, Debug)]
pub enum PositionType {
    /// The offset is computed relative to the final position given by the
    /// layout algorithm; offsets do not affect the position of other items
    Relative,
    /// The offset is computed relative to the closest positioned ancestor,
    /// and no space is created for the item in the page layout
    Absolute,
}

impl Default for PositionType {
    fn default() -> (r: Self)
        ensures
            r == PositionType::Relative,
    {
        Self::Relative
    }
}

/// Controls whether flex items are forced onto one line or can wrap onto
/// multiple lines.
///
/// Defaults to [`FlexWrap::NoWrap`].
#[derive(Copy, Clone, PartialEq, Eq, Debug)]
pub enum FlexWrap {
    /// Items will not wrap and stay on a single line
    NoWrap,
    /// Items will wrap according to this item's [`FlexDirection`]
    Wrap,
    /// Items will wrap in the opposite direction to this item's [`FlexDirection`]
    WrapReverse,
}

impl Default for FlexWrap {
    fn default() -> (r: Self)
        ensures
            r == FlexWrap::NoWrap,
    {
        Self::NoWrap
    }
}

/// A unit of linear measurement.
///
/// The default value is [`Dimension::Undefined`]. Magnitudes are opaque
/// scalar bit patterns; see [`ScalarBits`].
#[derive(Copy, Clone, PartialEq, Eq, Debug)]
pub enum Dimension {
    /// The dimension is not given
    Undefined,
    /// The dimension should be automatically computed
    Auto,
    /// The dimension is an absolute length, in points
    Points(ScalarBits),
    /// The dimension is a percentage relative to the parent item
    Percent(ScalarBits),
}

impl Default for Dimension {
    fn default() -> (r: Self)
        ensures
            r == Dimension::Undefined,
    {
        Self::Undefined
    }
}

impl Dimension {
    /// Whether the dimension carries a concrete magnitude.
    pub open spec fn spec_is_defined(self) -> bool {
        self is Points || self is Percent
    }

    /// Is this value defined?
    #[verifier::when_used_as_spec(spec_is_defined)]
    pub fn is_defined(self) -> (r: bool)
        ensures
            r == self.spec_is_defined(),
    {
        matches!(self, Dimension::Points(_) | Dimension::Percent(_))
    }
}

impl Default for Rect<Dimension> {
    fn default() -> (r: Self)
        ensures
            r.start == Dimension::Undefined,
            r.end == Dimension::Undefined,
            r.top == Dimension::Undefined,
            r.bottom == Dimension::Undefined,
    {
        Self {
            start: Dimension::Undefined,
            end: Dimension::Undefined,
            top: Dimension::Undefined,
            bottom: Dimension::Undefined,
        }
    }
}

impl Rect<Dimension> {
    /// A [`Rect<Dimension>`] with [`Dimension::Points`] values for `start` and
    /// `top`, and the default for the other sides.
    pub fn top_from_points(start: ScalarBits, top: ScalarBits) -> (r: Rect<Dimension>)
        ensures
            r.start == Dimension::Points(start),
            r.end == Dimension::Undefined,
            r.top == Dimension::Points(top),
            r.bottom == Dimension::Undefined,
    {
        Rect {
            start: Dimension::Points(start),
            end: Dimension::Undefined,
            top: Dimension::Points(top),
            bottom: Dimension::Undefined,
        }
    }

    /// A [`Rect<Dimension>`] with [`Dimension::Points`] values for `end` and
    /// `bottom`, and the default for the other sides.
    pub fn bot_from_points(end: ScalarBits, bottom: ScalarBits) -> (r: Rect<Dimension>)
        ensures
            r.start == Dimension::Undefined,
            r.end == Dimension::Points(end),
            r.top == Dimension::Undefined,
            r.bottom == Dimension::Points(bottom),
    {
        Rect {
            start: Dimension::Undefined,
            end: Dimension::Points(end),
            top: Dimension::Undefined,
            bottom: Dimension::Points(bottom),
        }
    }

    /// A [`Rect<Dimension>`] with [`Dimension::Percent`] values for `start` and
    /// `top`, and the default for the other sides.
    pub fn top_from_percent(start: ScalarBits, top: ScalarBits) -> (r: Rect<Dimension>)
        ensures
            r.start == Dimension::Percent(start),
            r.end == Dimension::Undefined,
            r.top == Dimension::Percent(top),
            r.bottom == Dimension::Undefined,
    {
        Rect {
            start: Dimension::Percent(start),
            end: Dimension::Undefined,
            top: Dimension::Percent(top),
            bottom: Dimension::Undefined,
        }
    }

    /// A [`Rect<Dimension>`] with [`Dimension::Percent`] values for `end` and
    /// `bottom`, and the default for the other sides.
    pub fn bot_from_percent(end: ScalarBits, bottom: ScalarBits) -> (r: Rect<Dimension>)
        ensures
            r.start == Dimension::Undefined,
            r.end == Dimension::Percent(end),
            r.top == Dimension::Undefined,
            r.bottom == Dimension::Percent(bottom),
    {
        Rect {
            start: Dimension::Undefined,
            end: Dimension::Percent(end),
            top: Dimension::Undefined,
            bottom: Dimension::Percent(bottom),
        }
    }

    /// A [`Rect<Dimension>`] with [`Dimension::Points`] values on all sides.
    pub fn from_points(start: ScalarBits, end: ScalarBits, top: ScalarBits, bottom: ScalarBits) -> (r: Self)
        ensures
            r.start == Dimension::Points(start),
            r.end == Dimension::Points(end),
            r.top == Dimension::Points(top),
            r.bottom == Dimension::Points(bottom),
    {
        Rect {
            start: Dimension::Points(start),
            end: Dimension::Points(end),
            top: Dimension::Points(top),
            bottom: Dimension::Points(bottom),
        }
    }

    /// A [`Rect<Dimension>`] with [`Dimension::Percent`] values on all sides.
    pub fn from_percent(start: ScalarBits, end: ScalarBits, top: ScalarBits, bottom: ScalarBits) -> (r: Self)
        ensures
            r.start == Dimension::Percent(start),
            r.end == Dimension::Percent(end),
            r.top == Dimension::Percent(top),
            r.bottom == Dimension::Percent(bottom),
    {
        Rect {
            start: Dimension::Percent(start),
            end: Dimension::Percent(end),
            top: Dimension::Percent(top),
            bottom: Dimension::Percent(bottom),
        }
    }
}

impl Default for Size<Dimension> {
    fn default() -> (r: Self)
        ensures
            r.width == Dimension::Auto,
            r.height == Dimension::Auto,
    {
        Self { width: Dimension::Auto, height: Dimension::Auto }
    }
}

/// The flexbox layout configuration for a single node.
///
/// The main and cross axis orientation is controlled by the
/// [`FlexDirection`] field; the remaining fields follow the CSS flexbox
/// model directly.
#[derive(Copy, Clone, PartialEq, Debug)]
pub struct FlexboxLayout {
    /// What layout strategy should be used?
    pub display: Display,
    /// What should the `position` value of this struct use as a base offset?
    pub position_type: PositionType,
    /// Which direction does the main axis flow in?
    pub flex_direction: FlexDirection,
    /// Should elements wrap, or stay in a single line?
    pub flex_wrap: FlexWrap,
    /// How should items be aligned relative to the cross axis?
    pub align_items: AlignItems,
    /// Should this item violate the cross axis alignment specified by its
    /// parent's [`AlignItems`]?
    pub align_self: AlignSelf,
    /// How should content contained within this item be aligned relative to
    /// the cross axis?
    pub align_content: AlignContent,
    /// How should items be aligned relative to the main axis?
    pub justify_content: JustifyContent,
    /// How should the position of this element be tweaked relative to the
    /// layout defined?
    pub position: Rect<Dimension>,
    /// How large should the margin be on each side?
    pub margin: Rect<Dimension>,
    /// How large should the padding be on each side?
    pub padding: Rect<Dimension>,
    /// How large should the border be on each side?
    pub border: Rect<Dimension>,
    /// The relative rate at which this item grows when it is expanding to
    /// fill space; the host's default is a zero scalar
    pub flex_grow: ScalarBits,
    /// The relative rate at which this item shrinks when it is contracting to
    /// fit into space; the host's default is a unit scalar
    pub flex_shrink: ScalarBits,
    /// Sets the initial main axis size of the item
    pub flex_basis: Dimension,
    /// Sets the initial size of the item
    pub size: Size<Dimension>,
    /// Controls the minimum size of the item
    pub min_size: Size<Dimension>,
    /// Controls the maximum size of the item
    pub max_size: Size<Dimension>,
    /// Sets the preferred aspect ratio for the item, width divided by height
    pub aspect_ratio: Option<ScalarBits>,
}

impl Default for FlexboxLayout {
    fn default() -> (r: Self)
        ensures
            r.display == Display::Flex,
            r.position_type == PositionType::Relative,
            r.flex_direction == FlexDirection::Row,
            r.flex_wrap == FlexWrap::NoWrap,
            r.align_items == AlignItems::Stretch,
            r.align_self == AlignSelf::Auto,
            r.align_content == AlignContent::Stretch,
            r.justify_content == JustifyContent::FlexStart,
            r.position == (Rect {
                start: Dimension::Undefined,
                end: Dimension::Undefined,
                top: Dimension::Undefined,
                bottom: Dimension::Undefined,
            }),
            r.margin == (Rect {
                start: Dimension::Undefined,
                end: Dimension::Undefined,
                top: Dimension::Undefined,
                bottom: Dimension::Undefined,
            }),
            r.padding == (Rect {
                start: Dimension::Undefined,
                end: Dimension::Undefined,
                top: Dimension::Undefined,
                bottom: Dimension::Undefined,
            }),
            r.border == (Rect {
                start: Dimension::Undefined,
                end: Dimension::Undefined,
                top: Dimension::Undefined,
                bottom: Dimension::Undefined,
            }),
            r.flex_grow == SCALAR_ZERO_BITS,
            r.flex_shrink == SCALAR_ONE_BITS,
            r.flex_basis == Dimension::Auto,
            r.size == (Size { width: Dimension::Auto, height: Dimension::Auto }),
            r.min_size == (Size { width: Dimension::Auto, height: Dimension::Auto }),
            r.max_size == (Size { width: Dimension::Auto, height: Dimension::Auto }),
            r.aspect_ratio is None,
    {
        Self {
            display: Default::default(),
            position_type: Default::default(),
            flex_direction: Default::default(),
            flex_wrap: Default::default(),
            align_items: Default::default(),
            align_self: Default::default(),
            align_content: Default::default(),
            justify_content: Default::default(),
            position: Default::default(),
            margin: Default::default(),
            padding: Default::default(),
            border: Default::default(),
            flex_grow: SCALAR_ZERO_BITS,
            flex_shrink: SCALAR_ONE_BITS,
            flex_basis: Dimension::Auto,
            size: Default::default(),
            min_size: Default::default(),
            max_size: Default::default(),
            aspect_ratio: None,
        }
    }
}

impl FlexboxLayout {
    /// The [`AlignSelf`] that results from resolving this item's value
    /// against the parent's [`AlignItems`].
    pub open spec fn spec_align_self(&self, parent: &FlexboxLayout) -> AlignSelf {
        if self.align_self is Auto {
            match parent.align_items {
                AlignItems::FlexStart => AlignSelf::FlexStart,
                AlignItems::FlexEnd => AlignSelf::FlexEnd,
                AlignItems::Center => AlignSelf::Center,
                AlignItems::Baseline => AlignSelf::Baseline,
                AlignItems::Stretch => AlignSelf::Stretch,
            }
        } else {
            self.align_self
        }
    }

    /// If the `direction` is row-oriented, the min width. Otherwise the min height
    pub fn min_main_size(&self, direction: FlexDirection) -> (r: Dimension)
        ensures
            r == (if direction.is_row() {
                self.min_size.width
            } else {
                self.min_size.height
            }),
    {
        if direction.is_row() {
            self.min_size.width
        } else {
            self.min_size.height
        }
    }

    /// If the `direction` is row-oriented, the max width. Otherwise the max height
    pub fn max_main_size(&self, direction: FlexDirection) -> (r: Dimension)
        ensures
            r == (if direction.is_row() {
                self.max_size.width
            } else {
                self.max_size.height
            }),
    {
        if direction.is_row() {
            self.max_size.width
        } else {
            self.max_size.height
        }
    }

    /// If the `direction` is row-oriented, the margin start. Otherwise the margin top
    pub fn main_margin_start(&self, direction: FlexDirection) -> (r: Dimension)
        ensures
            r == (if direction.is_row() {
                self.margin.start
            } else {
                self.margin.top
            }),
    {
        if direction.is_row() {
            self.margin.start
        } else {
            self.margin.top
        }
    }

    /// If the `direction` is row-oriented, the margin end. Otherwise the margin bottom
    pub fn main_margin_end(&self, direction: FlexDirection) -> (r: Dimension)
        ensures
            r == (if direction.is_row() {
                self.margin.end
            } else {
                self.margin.bottom
            }),
    {
        if direction.is_row() {
            self.margin.end
        } else {
            self.margin.bottom
        }
    }

    /// If the `direction` is row-oriented, the height. Otherwise the width
    pub fn cross_size(&self, direction: FlexDirection) -> (r: Dimension)
        ensures
            r == (if direction.is_row() {
                self.size.height
            } else {
                self.size.width
            }),
    {
        if direction.is_row() {
            self.size.height
        } else {
            self.size.width
        }
    }

    /// If the `direction` is row-oriented, the min height. Otherwise the min width
    pub fn min_cross_size(&self, direction: FlexDirection) -> (r: Dimension)
        ensures
            r == (if direction.is_row() {
                self.min_size.height
            } else {
                self.min_size.width
            }),
    {
        if direction.is_row() {
            self.min_size.height
        } else {
            self.min_size.width
        }
    }

    /// If the `direction` is row-oriented, the max height. Otherwise the max width
    pub fn max_cross_size(&self, direction: FlexDirection) -> (r: Dimension)
        ensures
            r == (if direction.is_row() {
                self.max_size.height
            } else {
                self.max_size.width
            }),
    {
        if direction.is_row() {
            self.max_size.height
        } else {
            self.max_size.width
        }
    }

    /// If the `direction` is row-oriented, the margin top. Otherwise the margin start
    pub fn cross_margin_start(&self, direction: FlexDirection) -> (r: Dimension)
        ensures
            r == (if direction.is_row() {
                self.margin.top
            } else {
                self.margin.start
            }),
    {
        if direction.is_row() {
            self.margin.top
        } else {
            self.margin.start
        }
    }

    /// If the `direction` is row-oriented, the margin bottom. Otherwise the margin end
    pub fn cross_margin_end(&self, direction: FlexDirection) -> (r: Dimension)
        ensures
            r == (if direction.is_row() {
                self.margin.bottom
            } else {
                self.margin.end
            }),
    {
        if direction.is_row() {
            self.margin.bottom
        } else {
            self.margin.end
        }
    }

    /// Computes the final alignment of this item based on the parent's
    /// [`AlignItems`] and this item's [`AlignSelf`].
    pub fn align_self(&self, parent: &FlexboxLayout) -> (r: AlignSelf)
        ensures
            r == self.spec_align_self(parent),
    {
        if matches!(self.align_self, AlignSelf::Auto) {
            match parent.align_items {
                AlignItems::FlexStart => AlignSelf::FlexStart,
                AlignItems::FlexEnd => AlignSelf::FlexEnd,
                AlignItems::Center => AlignSelf::Center,
                AlignItems::Baseline => AlignSelf::Baseline,
                AlignItems::Stretch => AlignSelf::Stretch,
            }
        } else {
            self.align_self
        }
    }
}

} // verus!
