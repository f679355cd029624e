//! Sizes of the picker's grid.

use vstd::prelude::*;

verus! {

/// The side of a thumbnail, in pixels.
pub const THUMB_SIZE: u32 = 200;

/// The widest that a preview is shown, in pixels.
pub const MAX_PREVIEW_WIDTH: u32 = 1920;

/// How many thumbnails stand in a row of a window of the given width: as
/// many as fit, and at least one. A width beyond what a signed 32-bit number
/// holds gives one column.
pub fn suggested_columns(window_width: u32) -> (cols: usize)
    ensures
        cols == if 200 <= window_width <= 0x7fff_ffff {
            window_width as int / 200
        } else {
            1
        },
{
    if window_width > 0x7fff_ffff {
        1
    } else {
        let cols = window_width / THUMB_SIZE;
        if cols < 1 {
            1
        } else {
            cols as usize
        }
    }
}

} // verus!
