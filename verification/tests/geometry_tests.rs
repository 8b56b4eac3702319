use layout_arena::geometry::{Rect, Size};
use layout_arena::style::{
    AlignContent, AlignItems, AlignSelf, Dimension, Display, FlexDirection, FlexWrap,
    FlexboxLayout, JustifyContent, PositionType, SCALAR_ONE_BITS, SCALAR_ZERO_BITS,
};

#[test]
fn zip_size_pairs_each_side_with_its_axis_extent() {
    let rect = Rect { start: 1u32, end: 2u32, top: 3u32, bottom: 4u32 };
    let size = Size { width: 10u32, height: 20u32 };
    let zipped = rect.zip_size(size, |side: u32, extent: u32| side + extent);
    assert_eq!(zipped, Rect { start: 11, end: 12, top: 23, bottom: 24 });
}

#[test]
fn size_map_applies_to_both_extents() {
    let size = Size { width: 3u32, height: 4u32 };
    let doubled = size.map(|v: u32| v * 2);
    assert_eq!(doubled, Size { width: 6, height: 8 });
}

#[test]
fn axis_sums_follow_the_direction() {
    let rect = Rect { start: 1u32, end: 2u32, top: 10u32, bottom: 20u32 };
    assert_eq!(rect.horizontal_axis_sum(), 3);
    assert_eq!(rect.vertical_axis_sum(), 30);
    assert_eq!(rect.main_axis_sum(FlexDirection::Row), 3);
    assert_eq!(rect.main_axis_sum(FlexDirection::Column), 30);
    assert_eq!(rect.cross_axis_sum(FlexDirection::Row), 30);
    assert_eq!(rect.cross_axis_sum(FlexDirection::RowReverse), 30);
    assert_eq!(rect.cross_axis_sum(FlexDirection::ColumnReverse), 3);
}

#[test]
fn main_and_cross_accessors_follow_the_direction() {
    let rect = Rect { start: 1u32, end: 2u32, top: 3u32, bottom: 4u32 };
    assert_eq!(rect.main_start(FlexDirection::Row), 1);
    assert_eq!(rect.main_start(FlexDirection::Column), 3);
    assert_eq!(rect.main_end(FlexDirection::Row), 2);
    assert_eq!(rect.main_end(FlexDirection::Column), 4);
    assert_eq!(rect.cross_start(FlexDirection::Row), 3);
    assert_eq!(rect.cross_start(FlexDirection::Column), 1);
    assert_eq!(rect.cross_end(FlexDirection::Row), 4);
    assert_eq!(rect.cross_end(FlexDirection::Column), 2);
}

#[test]
fn size_main_and_cross_follow_the_direction() {
    let mut size = Size { width: 7u32, height: 8u32 };
    assert_eq!(size.main(FlexDirection::Row), 7);
    assert_eq!(size.main(FlexDirection::Column), 8);
    assert_eq!(size.cross(FlexDirection::Row), 8);
    assert_eq!(size.cross(FlexDirection::Column), 7);
    size.set_main(FlexDirection::Row, 70);
    assert_eq!(size, Size { width: 70, height: 8 });
    size.set_cross(FlexDirection::Row, 80);
    assert_eq!(size, Size { width: 70, height: 80 });
    size.set_main(FlexDirection::Column, 9);
    assert_eq!(size, Size { width: 70, height: 9 });
    size.set_cross(FlexDirection::ColumnReverse, 6);
    assert_eq!(size, Size { width: 6, height: 9 });
}

#[test]
fn size_constructors_build_the_advertised_dimensions() {
    let undefined = Size::undefined();
    assert_eq!(undefined, Size { width: None, height: None });
    let present = Size::new((1.5f32).to_bits(), (2.5f32).to_bits());
    assert_eq!(present.width, Some((1.5f32).to_bits()));
    assert_eq!(present.height, Some((2.5f32).to_bits()));
    let points = Size::from_points((1.0f32).to_bits(), (2.0f32).to_bits());
    assert_eq!(points.width, Dimension::Points((1.0f32).to_bits()));
    assert_eq!(points.height, Dimension::Points((2.0f32).to_bits()));
    let percent = Size::from_percent((3.0f32).to_bits(), (4.0f32).to_bits());
    assert_eq!(percent.width, Dimension::Percent((3.0f32).to_bits()));
    assert_eq!(percent.height, Dimension::Percent((4.0f32).to_bits()));
}

#[test]
fn rect_constructors_build_the_advertised_dimensions() {
    let r = Rect::from_points(
        (1.0f32).to_bits(),
        (2.0f32).to_bits(),
        (3.0f32).to_bits(),
        (4.0f32).to_bits(),
    );
    assert_eq!(r.start, Dimension::Points((1.0f32).to_bits()));
    assert_eq!(r.end, Dimension::Points((2.0f32).to_bits()));
    assert_eq!(r.top, Dimension::Points((3.0f32).to_bits()));
    assert_eq!(r.bottom, Dimension::Points((4.0f32).to_bits()));
    let r = Rect::from_percent(
        (1.0f32).to_bits(),
        (2.0f32).to_bits(),
        (3.0f32).to_bits(),
        (4.0f32).to_bits(),
    );
    assert_eq!(r.start, Dimension::Percent((1.0f32).to_bits()));
    assert_eq!(r.bottom, Dimension::Percent((4.0f32).to_bits()));
    let r = Rect::top_from_percent((1.0f32).to_bits(), (2.0f32).to_bits());
    assert_eq!(r.start, Dimension::Percent((1.0f32).to_bits()));
    assert_eq!(r.top, Dimension::Percent((2.0f32).to_bits()));
    assert_eq!(r.end, Dimension::Undefined);
    let r = Rect::bot_from_percent((1.0f32).to_bits(), (2.0f32).to_bits());
    assert_eq!(r.end, Dimension::Percent((1.0f32).to_bits()));
    assert_eq!(r.bottom, Dimension::Percent((2.0f32).to_bits()));
    assert_eq!(r.top, Dimension::Undefined);
}

#[test]
fn dimension_is_defined_only_for_concrete_magnitudes() {
    assert!(!Dimension::Undefined.is_defined());
    assert!(!Dimension::Auto.is_defined());
    assert!(Dimension::Points((1.0f32).to_bits()).is_defined());
    assert!(Dimension::Percent(0).is_defined());
}

#[test]
fn defaults_match_the_css_initial_values() {
    assert_eq!(AlignItems::default(), AlignItems::Stretch);
    assert_eq!(AlignSelf::default(), AlignSelf::Auto);
    assert_eq!(AlignContent::default(), AlignContent::Stretch);
    assert_eq!(Display::default(), Display::Flex);
    assert_eq!(FlexDirection::default(), FlexDirection::Row);
    assert_eq!(JustifyContent::default(), JustifyContent::FlexStart);
    assert_eq!(PositionType::default(), PositionType::Relative);
    assert_eq!(FlexWrap::default(), FlexWrap::NoWrap);
    assert_eq!(Dimension::default(), Dimension::Undefined);

    let layout = FlexboxLayout::default();
    assert_eq!(layout.display, Display::Flex);
    assert_eq!(layout.flex_grow, SCALAR_ZERO_BITS);
    assert_eq!(layout.flex_grow, (0.0f32).to_bits());
    assert_eq!(layout.flex_shrink, SCALAR_ONE_BITS);
    assert_eq!(layout.flex_shrink, (1.0f32).to_bits());
    assert_eq!(layout.flex_basis, Dimension::Auto);
    assert_eq!(layout.size, Size { width: Dimension::Auto, height: Dimension::Auto });
    assert_eq!(layout.margin, Rect::default());
    assert_eq!(layout.aspect_ratio, None);
}
