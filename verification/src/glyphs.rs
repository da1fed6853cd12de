//! The numeric glyphs stamped as visual feedback after a brush-size
//! change: a fixed 16x16 cell, seven-segment style, for the sizes 1
//! through 10.

use vstd::prelude::*;

verus! {

/// Top bar.
pub open spec fn seg_top(d: int) -> bool {
    d == 0 || d == 2 || d == 3 || d == 5 || d == 6 || d == 7 || d == 8 || d == 9
}

/// Middle bar.
pub open spec fn seg_middle(d: int) -> bool {
    d == 2 || d == 3 || d == 4 || d == 5 || d == 6 || d == 8 || d == 9
}

/// Bottom bar.
pub open spec fn seg_bottom(d: int) -> bool {
    d == 0 || d == 2 || d == 3 || d == 5 || d == 6 || d == 8 || d == 9
}

/// Upper-left bar.
pub open spec fn seg_top_left(d: int) -> bool {
    d == 0 || d == 4 || d == 5 || d == 6 || d == 8 || d == 9
}

/// Upper-right bar.
pub open spec fn seg_top_right(d: int) -> bool {
    d == 0 || d == 1 || d == 2 || d == 3 || d == 4 || d == 7 || d == 8 || d == 9
}

/// Lower-left bar.
pub open spec fn seg_bottom_left(d: int) -> bool {
    d == 0 || d == 2 || d == 6 || d == 8
}

/// Lower-right bar.
pub open spec fn seg_bottom_right(d: int) -> bool {
    d == 0 || d == 1 || d == 3 || d == 4 || d == 5 || d == 6 || d == 7 || d == 8 || d == 9
}

/// Whether the cell `(x, y)` of one digit's 8x16 box is lit.
pub open spec fn digit_on(d: int, x: int, y: int) -> bool {
    0 <= x < 8 && 0 <= y < 16 && {
        ||| (seg_top(d) && y < 2)
        ||| (seg_middle(d) && 7 <= y < 9)
        ||| (seg_bottom(d) && 14 <= y)
        ||| (seg_top_left(d) && x < 2 && y < 9)
        ||| (seg_top_right(d) && x >= 6 && y < 9)
        ||| (seg_bottom_left(d) && x < 2 && y >= 7)
        ||| (seg_bottom_right(d) && x >= 6 && y >= 7)
    }
}

/// Whether the cell `(x, y)` of the 16x16 glyph box for the number
/// `n` is lit: a single centered digit for 1 through 9, the two
/// digits of 10 side by side.
pub open spec fn glyph_on(n: int, x: int, y: int) -> bool {
    if 1 <= n <= 9 {
        digit_on(n, x - 4, y)
    } else if n == 10 {
        digit_on(1, x, y) || digit_on(0, x - 8, y)
    } else {
        false
    }
}

/// Decide `glyph_on` executably.
pub fn glyph_pixel(n: u32, x: u32, y: u32) -> (r: bool)
    requires
        x <= 16,
        y <= 16,
    ensures
        r == glyph_on(n as int, x as int, y as int),
{
    if 1 <= n && n <= 9 {
        digit_pixel(n, x as i32 - 4, y as i32)
    } else if n == 10 {
        digit_pixel(1, x as i32, y as i32) || digit_pixel(0, x as i32 - 8, y as i32)
    } else {
        false
    }
}

/// Decide `digit_on` executably.
fn digit_pixel(d: u32, x: i32, y: i32) -> (r: bool)
    requires
        d <= 10,
        -16 <= x <= 16,
        0 <= y <= 16,
    ensures
        r == digit_on(d as int, x as int, y as int),
{
    if !(0 <= x && x < 8 && 0 <= y && y < 16) {
        return false;
    }
    let top = d == 0 || d == 2 || d == 3 || d == 5 || d == 6 || d == 7 || d == 8 || d == 9;
    let middle = d == 2 || d == 3 || d == 4 || d == 5 || d == 6 || d == 8 || d == 9;
    let bottom = d == 0 || d == 2 || d == 3 || d == 5 || d == 6 || d == 8 || d == 9;
    let top_left = d == 0 || d == 4 || d == 5 || d == 6 || d == 8 || d == 9;
    let top_right = d == 0 || d == 1 || d == 2 || d == 3 || d == 4 || d == 7 || d == 8 || d == 9;
    let bottom_left = d == 0 || d == 2 || d == 6 || d == 8;
    let bottom_right = d == 0 || d == 1 || d == 3 || d == 4 || d == 5 || d == 6 || d == 7 || d == 8
        || d == 9;
    (top && y < 2) || (middle && 7 <= y && y < 9) || (bottom && 14 <= y) || (top_left && x < 2 && y
        < 9) || (top_right && x >= 6 && y < 9) || (bottom_left && x < 2 && y >= 7) || (bottom_right
        && x >= 6 && y >= 7)
}

} // verus!
