use vstd::prelude::*;

verus! {

/// Width of the map viewport, in tiles.
pub const MAP_WIDTH: u32 = 80;
/// Height of the map viewport, in tiles.
pub const MAP_HEIGHT: u32 = 43;

/// Top-left corner of the camera such that the given point sits at the
/// middle of the map viewport.
pub fn get_render_offset(center_x: i32, center_y: i32) -> (r: (i32, i32))
    requires
        center_x - MAP_WIDTH / 2 >= i32::MIN,
        center_y - MAP_HEIGHT / 2 >= i32::MIN,
    ensures
        r.0 == center_x - MAP_WIDTH / 2,
        r.1 == center_y - MAP_HEIGHT / 2,
{
    let offset_x = center_x - (MAP_WIDTH / 2) as i32;
    let offset_y = center_y - (MAP_HEIGHT / 2) as i32;
    (offset_x, offset_y)
}

/// Translates a point in viewport coordinates into map coordinates for a
/// camera centred on the given point.
pub fn get_render_offset_for_xy(center_x: i32, center_y: i32, x: i32, y: i32) -> (r: (i32, i32))
    requires
        center_x - MAP_WIDTH / 2 >= i32::MIN,
        center_y - MAP_HEIGHT / 2 >= i32::MIN,
        i32::MIN <= x + center_x - MAP_WIDTH / 2 <= i32::MAX,
        i32::MIN <= y + center_y - MAP_HEIGHT / 2 <= i32::MAX,
    ensures
        r.0 == x + center_x - MAP_WIDTH / 2,
        r.1 == y + center_y - MAP_HEIGHT / 2,
{
    let (center_offset_x, center_offset_y) = get_render_offset(center_x, center_y);
    let offset_x = x + center_offset_x;
    let offset_y = y + center_offset_y;
    (offset_x, offset_y)
}

} // verus!
