//! The cursor icon: which tile of the 4 x 4 icon atlas the current tool
//! shows, and the square of pixels the icon covers near the cursor.

use vstd::prelude::*;

verus! {

/// Side of the cursor icon, in pixels.
pub const CURSOR_ICON_SIZE: i32 = 48;

/// Number of tiles along each side of the icon atlas.
pub const ATLAS_TILES: u8 = 4;

/// The tool the player holds, as far as the cursor icon is concerned.
#[derive(Clone, Copy, PartialEq, Eq, Debug)]
pub enum UiTool {
    /// Any tool without an icon of its own.
    Other,
    Repair,
    Spawn,
    Guard,
    Attack,
}

/// The atlas tile (column, row) of a tool's icon, if it has one.
pub open spec fn spec_cursor_tile(tool: UiTool) -> Option<(u8, u8)> {
    match tool {
        UiTool::Repair => Some((0u8, 0u8)),
        UiTool::Spawn => Some((1u8, 0u8)),
        UiTool::Guard => Some((2u8, 1u8)),
        UiTool::Attack => Some((1u8, 1u8)),
        UiTool::Other => None,
    }
}

/// The atlas tile of the tool's icon.
pub fn cursor_tile(tool: UiTool) -> (tile: Option<(u8, u8)>)
    ensures
        tile == spec_cursor_tile(tool),
{
    match tool {
        UiTool::Repair => Some((0, 0)),
        UiTool::Spawn => Some((1, 0)),
        UiTool::Guard => Some((2, 1)),
        UiTool::Attack => Some((1, 1)),
        UiTool::Other => None,
    }
}

/// The texture rectangle of the cursor icon, in quarters of the atlas
/// side: the tile's corners, or the empty rectangle at the origin when the
/// tool has no icon.
pub fn cursor_texture_rect(tool: UiTool) -> (rect: ((u8, u8), (u8, u8)))
    ensures
        match spec_cursor_tile(tool) {
            Some((c, r)) => rect == ((c, r), ((c + 1) as u8, (r + 1) as u8)),
            None => rect == ((0u8, 0u8), (0u8, 0u8)),
        },
        rect.0.0 <= rect.1.0 <= ATLAS_TILES,
        rect.0.1 <= rect.1.1 <= ATLAS_TILES,
{
    match cursor_tile(tool) {
        Some((c, r)) => ((c, r), (c + 1, r + 1)),
        None => ((0, 0), (0, 0)),
    }
}

/// A rectangle of pixels, corners included in the coordinates.
#[derive(Clone, Copy, PartialEq, Eq, Debug)]
pub struct PixelRect {
    pub min_x: i32,
    pub min_y: i32,
    pub max_x: i32,
    pub max_y: i32,
}

/// The pixels the cursor icon covers when the cursor is at (`x`, `y`):
/// a square of the icon's size centred a third of the icon to the right of
/// and above the cursor.
pub fn cursor_pixel_rect(x: i32, y: i32) -> (rect: PixelRect)
    requires
        i32::MIN + 8 <= x <= i32::MAX - 40,
        i32::MIN + 40 <= y <= i32::MAX - 8,
    ensures
        rect.min_x == x + 16 - 24,
        rect.min_y == y - 16 - 24,
        rect.max_x == x + 16 + 24,
        rect.max_y == y - 16 + 24,
        rect.max_x - rect.min_x == CURSOR_ICON_SIZE,
        rect.max_y - rect.min_y == CURSOR_ICON_SIZE,
        rect.min_x <= x <= rect.max_x,
        rect.min_y <= y <= rect.max_y,
{
    let half = CURSOR_ICON_SIZE / 2;
    let third = CURSOR_ICON_SIZE / 3;
    let cx = x + third;
    let cy = y - third;
    PixelRect { min_x: cx - half, min_y: cy - half, max_x: cx + half, max_y: cy + half }
}

/// The pixels the cursor icon covers when the cursor is at (`x`, `y`),
/// with each sum taken modulo 2^32 as a build without overflow checks
/// takes it. Where nothing overflows it is `cursor_pixel_rect`.
pub fn cursor_pixel_rect_wrapping(x: i32, y: i32) -> (rect: PixelRect)
    ensures
        rect.min_x == vstd::wrapping::i32_specs::wrapping_sub(
            vstd::wrapping::i32_specs::wrapping_add(x, 16),
            24,
        ),
        rect.min_y == vstd::wrapping::i32_specs::wrapping_sub(
            vstd::wrapping::i32_specs::wrapping_sub(y, 16),
            24,
        ),
        rect.max_x == vstd::wrapping::i32_specs::wrapping_add(
            vstd::wrapping::i32_specs::wrapping_add(x, 16),
            24,
        ),
        rect.max_y == vstd::wrapping::i32_specs::wrapping_add(
            vstd::wrapping::i32_specs::wrapping_sub(y, 16),
            24,
        ),
        i32::MIN + 8 <= x <= i32::MAX - 40 && i32::MIN + 40 <= y <= i32::MAX - 8 ==> rect == (
        PixelRect {
            min_x: (x + 16 - 24) as i32,
            min_y: (y - 16 - 24) as i32,
            max_x: (x + 16 + 24) as i32,
            max_y: (y - 16 + 24) as i32,
        }),
{
    let half = CURSOR_ICON_SIZE / 2;
    let third = CURSOR_ICON_SIZE / 3;
    let cx = x.wrapping_add(third);
    let cy = y.wrapping_sub(third);
    PixelRect {
        min_x: cx.wrapping_sub(half),
        min_y: cy.wrapping_sub(half),
        max_x: cx.wrapping_add(half),
        max_y: cy.wrapping_add(half),
    }
}

} // verus!
