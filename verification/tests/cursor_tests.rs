use unit_render::cursor::{
    cursor_pixel_rect, cursor_pixel_rect_wrapping, cursor_texture_rect, cursor_tile, PixelRect, UiTool,
};

#[test]
fn tiles_of_each_tool() {
    assert_eq!(cursor_tile(UiTool::Repair), Some((0, 0)));
    assert_eq!(cursor_tile(UiTool::Spawn), Some((1, 0)));
    assert_eq!(cursor_tile(UiTool::Guard), Some((2, 1)));
    assert_eq!(cursor_tile(UiTool::Attack), Some((1, 1)));
    assert_eq!(cursor_tile(UiTool::Other), None);
}

#[test]
fn texture_rect_in_quarters() {
    assert_eq!(cursor_texture_rect(UiTool::Guard), ((2, 1), (3, 2)));
    assert_eq!(cursor_texture_rect(UiTool::Repair), ((0, 0), (1, 1)));
    assert_eq!(cursor_texture_rect(UiTool::Other), ((0, 0), (0, 0)));
}

#[test]
fn pixel_rect_around_cursor() {
    let r = cursor_pixel_rect(100, 200);
    assert_eq!(r, PixelRect { min_x: 92, min_y: 160, max_x: 140, max_y: 208 });
    assert_eq!(r.max_x - r.min_x, 48);
    assert_eq!(r.max_y - r.min_y, 48);
}

#[test]
fn pixel_rect_at_origin_and_extremes() {
    assert_eq!(cursor_pixel_rect(0, 0), PixelRect { min_x: -8, min_y: -40, max_x: 40, max_y: 8 });
    let r = cursor_pixel_rect(i32::MAX - 40, i32::MIN + 40);
    assert_eq!(r.max_x, i32::MAX);
    assert_eq!(r.min_y, i32::MIN);
}

#[test]
fn wrapping_rect_agrees_in_range() {
    assert_eq!(cursor_pixel_rect_wrapping(100, 200), cursor_pixel_rect(100, 200));
    assert_eq!(cursor_pixel_rect_wrapping(-5, 7), cursor_pixel_rect(-5, 7));
}

#[test]
fn wrapping_rect_wraps_at_the_edges() {
    let r = cursor_pixel_rect_wrapping(i32::MAX, i32::MIN);
    assert_eq!(r.min_x, i32::MAX - 8);
    assert_eq!(r.max_x, i32::MIN + 39);
    assert_eq!(r.min_y, i32::MAX - 39);
    assert_eq!(r.max_y, i32::MIN + 8);
}
