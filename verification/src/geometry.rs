//! Geometric primitives useful for layout.

use vstd::prelude::*;
use vstd::std_specs::ops::AddSpec;

use crate::style::{Dimension, FlexDirection, ScalarBits};

verus! {

/// An axis-aligned UI rectangle, as four per-side values.
#[derive(Debug, Copy, Clone, PartialEq, Eq)]
pub struct Rect<T> {
    /// The x-coordinate of the starting edge, or the amount of padding on the
    /// starting side
    pub start: T,
    /// The x-coordinate of the ending edge, or the amount of padding on the
    /// ending side
    pub end: T,
    /// The y-coordinate of the top edge, or the amount of padding on the top
    /// side
    pub top: T,
    /// The y-coordinate of the bottom edge, or the amount of padding on the
    /// bottom side
    pub bottom: T,
}

impl<T> Rect<T> {
    /// Applies the function `f` to all four sides of the rect.
    ///
    /// When applied to the start and end sides, the width is used as the
    /// second parameter of `f`; for the top and bottom sides, the height is
    /// used instead.
    pub fn zip_size<R, U: Copy, F: Fn(T, U) -> R>(self, size: Size<U>, f: F) -> (r: Rect<R>)
        requires
            call_requires(f, (self.start, size.width)),
            call_requires(f, (self.end, size.width)),
            call_requires(f, (self.top, size.height)),
            call_requires(f, (self.bottom, size.height)),
        ensures
            call_ensures(f, (self.start, size.width), r.start),
            call_ensures(f, (self.end, size.width), r.end),
            call_ensures(f, (self.top, size.height), r.top),
            call_ensures(f, (self.bottom, size.height), r.bottom),
    {
        let Rect { start, end, top, bottom } = self;
        Rect {
            start: f(start, size.width),
            end: f(end, size.width),
            top: f(top, size.height),
            bottom: f(bottom, size.height),
        }
    }
}

impl<T: core::ops::Add<Output = T> + Copy> Rect<T> {
    /// The sum of [`Rect::start`] and [`Rect::end`], typically used when
    /// computing total padding.
    ///
    /// This is *not* the width of the rectangle.
    pub fn horizontal_axis_sum(&self) -> (r: T)
        requires
            self.start.add_req(self.end),
        ensures
            T::obeys_add_spec() ==> r == self.start.add_spec(self.end),
    {
        self.start + self.end
    }

    /// The sum of [`Rect::top`] and [`Rect::bottom`], typically used when
    /// computing total padding.
    ///
    /// This is *not* the height of the rectangle.
    pub fn vertical_axis_sum(&self) -> (r: T)
        requires
            self.top.add_req(self.bottom),
        ensures
            T::obeys_add_spec() ==> r == self.top.add_spec(self.bottom),
    {
        self.top + self.bottom
    }

    /// The sum of the two sides of the [`Rect`] lying on the main axis:
    /// the horizontal sum for a row-oriented `direction`, the vertical sum
    /// otherwise.
    pub fn main_axis_sum(&self, direction: FlexDirection) -> (r: T)
        requires
            direction.is_row() ==> self.start.add_req(self.end),
            !direction.is_row() ==> self.top.add_req(self.bottom),
        ensures
            T::obeys_add_spec() ==> r == (if direction.is_row() {
                self.start.add_spec(self.end)
            } else {
                self.top.add_spec(self.bottom)
            }),
    {
        if direction.is_row() {
            self.horizontal_axis_sum()
        } else {
            self.vertical_axis_sum()
        }
    }

    /// The sum of the two sides of the [`Rect`] lying on the cross axis:
    /// the vertical sum for a row-oriented `direction`, the horizontal sum
    /// otherwise.
    pub fn cross_axis_sum(&self, direction: FlexDirection) -> (r: T)
        requires
            direction.is_row() ==> self.top.add_req(self.bottom),
            !direction.is_row() ==> self.start.add_req(self.end),
        ensures
            T::obeys_add_spec() ==> r == (if direction.is_row() {
                self.top.add_spec(self.bottom)
            } else {
                self.start.add_spec(self.end)
            }),
    {
        if direction.is_row() {
            self.vertical_axis_sum()
        } else {
            self.horizontal_axis_sum()
        }
    }
}

impl<T: Copy> Rect<T> {
    /// The `start` or `top` value of the [`Rect`], from the perspective of
    /// the main layout axis.
    pub fn main_start(&self, direction: FlexDirection) -> (r: T)
        ensures
            r == (if direction.is_row() {
                self.start
            } else {
                self.top
            }),
    {
        if direction.is_row() {
            self.start
        } else {
            self.top
        }
    }

    /// The `end` or `bottom` value of the [`Rect`], from the perspective of
    /// the main layout axis.
    pub fn main_end(&self, direction: FlexDirection) -> (r: T)
        ensures
            r == (if direction.is_row() {
                self.end
            } else {
                self.bottom
            }),
    {
        if direction.is_row() {
            self.end
        } else {
            self.bottom
        }
    }

    /// The `top` or `start` value of the [`Rect`], from the perspective of
    /// the cross layout axis.
    pub fn cross_start(&self, direction: FlexDirection) -> (r: T)
        ensures
            r == (if direction.is_row() {
                self.top
            } else {
                self.start
            }),
    {
        if direction.is_row() {
            self.top
        } else {
            self.start
        }
    }

    /// The `bottom` or `end` value of the [`Rect`], from the perspective of
    /// the cross layout axis.
    pub fn cross_end(&self, direction: FlexDirection) -> (r: T)
        ensures
            r == (if direction.is_row() {
                self.bottom
            } else {
                self.end
            }),
    {
        if direction.is_row() {
            self.bottom
        } else {
            self.end
        }
    }
}

/// The width and height of a [`Rect`].
#[derive(Debug, Copy, Clone, PartialEq, Eq)]
pub struct Size<T> {
    /// The x extent of the rectangle
    pub width: T,
    /// The y extent of the rectangle
    pub height: T,
}

impl Size<()> {
    /// A size whose width and height are both absent.
    pub fn undefined() -> (r: Size<Option<ScalarBits>>)
        ensures
            r.width is None,
            r.height is None,
    {
        Size { width: None, height: None }
    }
}

impl<T> Size<T> {
    /// Applies the function `f` to both the width and height.
    pub fn map<R, F: Fn(T) -> R>(self, f: F) -> (r: Size<R>)
        requires
            call_requires(f, (self.width,)),
            call_requires(f, (self.height,)),
        ensures
            call_ensures(f, (self.width,), r.width),
            call_ensures(f, (self.height,), r.height),
    {
        let Size { width, height } = self;
        Size { width: f(width), height: f(height) }
    }

    /// Sets the extent of the main layout axis: the width for a row-oriented
    /// `direction`, the height otherwise.
    pub fn set_main(&mut self, direction: FlexDirection, value: T)
        ensures
            direction.is_row() ==> final(self).width == value && final(self).height == old(
                self,
            ).height,
            !direction.is_row() ==> final(self).height == value && final(self).width == old(
                self,
            ).width,
    {
        if direction.is_row() {
            self.width = value
        } else {
            self.height = value
        }
    }

    /// Sets the extent of the cross layout axis: the height for a
    /// row-oriented `direction`, the width otherwise.
    pub fn set_cross(&mut self, direction: FlexDirection, value: T)
        ensures
            direction.is_row() ==> final(self).height == value && final(self).width == old(
                self,
            ).width,
            !direction.is_row() ==> final(self).width == value && final(self).height == old(
                self,
            ).height,
    {
        if direction.is_row() {
            self.height = value
        } else {
            self.width = value
        }
    }

    /// Gets the extent of the main layout axis: the width for a row-oriented
    /// `direction`, the height otherwise.
    pub fn main(self, direction: FlexDirection) -> (r: T)
        ensures
            r == (if direction.is_row() {
                self.width
            } else {
                self.height
            }),
    {
        if direction.is_row() {
            self.width
        } else {
            self.height
        }
    }

    /// Gets the extent of the cross layout axis: the height for a
    /// row-oriented `direction`, the width otherwise.
    pub fn cross(self, direction: FlexDirection) -> (r: T)
        ensures
            r == (if direction.is_row() {
                self.height
            } else {
                self.width
            }),
    {
        if direction.is_row() {
            self.height
        } else {
            self.width
        }
    }
}

impl Size<Option<ScalarBits>> {
    /// A size whose width and height are both present, as scalar bit
    /// patterns.
    pub fn new(width: ScalarBits, height: ScalarBits) -> (r: Self)
        ensures
            r.width == Some(width),
            r.height == Some(height),
    {
        Size { width: Some(width), height: Some(height) }
    }
}

impl Size<Dimension> {
    /// A size with [`Dimension::Points`] values for width and height.
    pub fn from_points(width: ScalarBits, height: ScalarBits) -> (r: Self)
        ensures
            r.width == Dimension::Points(width),
            r.height == Dimension::Points(height),
    {
        Size { width: Dimension::Points(width), height: Dimension::Points(height) }
    }

    /// A size with [`Dimension::Percent`] values for width and height.
    pub fn from_percent(width: ScalarBits, height: ScalarBits) -> (r: Self)
        ensures
            r.width == Dimension::Percent(width),
            r.height == Dimension::Percent(height),
    {
        Size { width: Dimension::Percent(width), height: Dimension::Percent(height) }
    }
}

/// A 2-dimensional coordinate.
///
/// When used in association with a [`Rect`], represents the bottom-left
/// corner.
#[derive(Debug, Copy, Clone, PartialEq, Eq)]
pub struct Point<T> {
    /// The x-coordinate
    pub x: T,
    /// The y-coordinate
    pub y: T,
}

} // verus!
