use layout_arena::geometry::{Rect, Size};
use layout_arena::style::{
    AlignItems, AlignSelf, Dimension, FlexDirection, FlexboxLayout,
};

fn layout_from_align_items(align: AlignItems) -> FlexboxLayout {
    FlexboxLayout { align_items: align, ..Default::default() }
}

fn layout_from_align_self(align: AlignSelf) -> FlexboxLayout {
    FlexboxLayout { align_self: align, ..Default::default() }
}

#[test]
fn flex_direction_is_row() {
    assert_eq!(FlexDirection::Row.is_row(), true);
    assert_eq!(FlexDirection::RowReverse.is_row(), true);
    assert_eq!(FlexDirection::Column.is_row(), false);
    assert_eq!(FlexDirection::ColumnReverse.is_row(), false);
}

#[test]
fn flex_direction_is_column() {
    assert_eq!(FlexDirection::Row.is_column(), false);
    assert_eq!(FlexDirection::RowReverse.is_column(), false);
    assert_eq!(FlexDirection::Column.is_column(), true);
    assert_eq!(FlexDirection::ColumnReverse.is_column(), true);
}

#[test]
fn flex_direction_is_reverse() {
    assert_eq!(FlexDirection::Row.is_reverse(), false);
    assert_eq!(FlexDirection::RowReverse.is_reverse(), true);
    assert_eq!(FlexDirection::Column.is_reverse(), false);
    assert_eq!(FlexDirection::ColumnReverse.is_reverse(), true);
}

#[test]
fn flexbox_layout_min_main_size() {
    let layout = FlexboxLayout {
        min_size: Size::from_points((1.0f32).to_bits(), (2.0f32).to_bits()),
        ..Default::default()
    };
    assert_eq!(layout.min_main_size(FlexDirection::Row), Dimension::Points((1.0f32).to_bits()));
    assert_eq!(layout.min_main_size(FlexDirection::Column), Dimension::Points((2.0f32).to_bits()));
}

#[test]
fn flexbox_layout_max_main_size() {
    let layout = FlexboxLayout {
        max_size: Size::from_points((1.0f32).to_bits(), (2.0f32).to_bits()),
        ..Default::default()
    };
    assert_eq!(layout.max_main_size(FlexDirection::Row), Dimension::Points((1.0f32).to_bits()));
    assert_eq!(layout.max_main_size(FlexDirection::Column), Dimension::Points((2.0f32).to_bits()));
}

#[test]
fn flexbox_layout_main_margin_start() {
    let layout = FlexboxLayout {
        margin: Rect::top_from_points((2.0f32).to_bits(), (1.0f32).to_bits()),
        ..Default::default()
    };
    assert_eq!(layout.main_margin_start(FlexDirection::Row), Dimension::Points((2.0f32).to_bits()));
    assert_eq!(
        layout.main_margin_start(FlexDirection::Column),
        Dimension::Points((1.0f32).to_bits())
    );
}

#[test]
fn flexbox_layout_main_margin_end() {
    let layout = FlexboxLayout {
        margin: Rect::bot_from_points((2.0f32).to_bits(), (1.0f32).to_bits()),
        ..Default::default()
    };
    assert_eq!(layout.main_margin_end(FlexDirection::Row), Dimension::Points((2.0f32).to_bits()));
    assert_eq!(layout.main_margin_end(FlexDirection::Column), Dimension::Points((1.0f32).to_bits()));
}

#[test]
fn flexbox_layout_cross_size() {
    let layout = FlexboxLayout {
        size: Size::from_points((1.0f32).to_bits(), (2.0f32).to_bits()),
        ..Default::default()
    };
    assert_eq!(layout.cross_size(FlexDirection::Row), Dimension::Points((2.0f32).to_bits()));
    assert_eq!(layout.cross_size(FlexDirection::Column), Dimension::Points((1.0f32).to_bits()));
}

#[test]
fn flexbox_layout_min_cross_size() {
    let layout = FlexboxLayout {
        min_size: Size::from_points((1.0f32).to_bits(), (2.0f32).to_bits()),
        ..Default::default()
    };
    assert_eq!(layout.min_cross_size(FlexDirection::Row), Dimension::Points((2.0f32).to_bits()));
    assert_eq!(layout.min_cross_size(FlexDirection::Column), Dimension::Points((1.0f32).to_bits()));
}

#[test]
fn flexbox_layout_max_cross_size() {
    let layout = FlexboxLayout {
        max_size: Size::from_points((1.0f32).to_bits(), (2.0f32).to_bits()),
        ..Default::default()
    };
    assert_eq!(layout.max_cross_size(FlexDirection::Row), Dimension::Points((2.0f32).to_bits()));
    assert_eq!(layout.max_cross_size(FlexDirection::Column), Dimension::Points((1.0f32).to_bits()));
}

#[test]
fn flexbox_layout_cross_margin_start() {
    let layout = FlexboxLayout {
        margin: Rect::top_from_points((2.0f32).to_bits(), (1.0f32).to_bits()),
        ..Default::default()
    };
    assert_eq!(
        layout.cross_margin_start(FlexDirection::Row),
        Dimension::Points((1.0f32).to_bits())
    );
    assert_eq!(
        layout.cross_margin_start(FlexDirection::Column),
        Dimension::Points((2.0f32).to_bits())
    );
}

#[test]
fn flexbox_layout_cross_margin_end() {
    let layout = FlexboxLayout {
        margin: Rect::bot_from_points((2.0f32).to_bits(), (1.0f32).to_bits()),
        ..Default::default()
    };
    assert_eq!(layout.cross_margin_end(FlexDirection::Row), Dimension::Points((1.0f32).to_bits()));
    assert_eq!(
        layout.cross_margin_end(FlexDirection::Column),
        Dimension::Points((2.0f32).to_bits())
    );
}

#[test]
fn flexbox_layout_align_self_auto() {
    let parent = layout_from_align_items(AlignItems::FlexStart);
    let layout = layout_from_align_self(AlignSelf::Auto);
    assert_eq!(layout.align_self(&parent), AlignSelf::FlexStart);

    let parent = layout_from_align_items(AlignItems::FlexEnd);
    let layout = layout_from_align_self(AlignSelf::Auto);
    assert_eq!(layout.align_self(&parent), AlignSelf::FlexEnd);

    let parent = layout_from_align_items(AlignItems::Center);
    let layout = layout_from_align_self(AlignSelf::Auto);
    assert_eq!(layout.align_self(&parent), AlignSelf::Center);

    let parent = layout_from_align_items(AlignItems::Baseline);
    let layout = layout_from_align_self(AlignSelf::Auto);
    assert_eq!(layout.align_self(&parent), AlignSelf::Baseline);

    let parent = layout_from_align_items(AlignItems::Stretch);
    let layout = layout_from_align_self(AlignSelf::Auto);
    assert_eq!(layout.align_self(&parent), AlignSelf::Stretch);
}

#[test]
fn align_self() {
    let parent = layout_from_align_items(AlignItems::FlexEnd);
    let layout = layout_from_align_self(AlignSelf::FlexStart);
    assert_eq!(layout.align_self(&parent), AlignSelf::FlexStart);

    let parent = layout_from_align_items(AlignItems::FlexStart);
    let layout = layout_from_align_self(AlignSelf::FlexEnd);
    assert_eq!(layout.align_self(&parent), AlignSelf::FlexEnd);

    let parent = layout_from_align_items(AlignItems::FlexStart);
    let layout = layout_from_align_self(AlignSelf::Center);
    assert_eq!(layout.align_self(&parent), AlignSelf::Center);

    let parent = layout_from_align_items(AlignItems::FlexStart);
    let layout = layout_from_align_self(AlignSelf::Baseline);
    assert_eq!(layout.align_self(&parent), AlignSelf::Baseline);

    let parent = layout_from_align_items(AlignItems::FlexStart);
    let layout = layout_from_align_self(AlignSelf::Stretch);
    assert_eq!(layout.align_self(&parent), AlignSelf::Stretch);
}
