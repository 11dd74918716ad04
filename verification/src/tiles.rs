//! Patterns that repeat with the tile size: checkerboard and stripes.
//!
//! Every generator overwrites the whole buffer and reads nothing of what it
//! held. The tile size has to be positive.

use vstd::prelude::*;
use vstd::arithmetic::div_mod::lemma_div_is_ordered_by_denominator;
use vstd::arithmetic::div_mod::lemma_div_plus_one;
use vstd::arithmetic::div_mod::lemma_mod_add_multiples_vanish;
use crate::raster::lemma_coordinate_sum;
use crate::raster::lemma_paint_at;
use crate::raster::lemma_scan_end;
use crate::raster::lemma_scan_pixel;
use crate::raster::lemma_scan_row;
use crate::raster::lemma_scan_start;
use crate::raster::offset;
use crate::raster::paint;
use crate::raster::plot;
use crate::raster::scanned;

verus! {

/// Checkerboard: the plane is cut into squares of side `tile_size`, and a
/// pixel is foreground when the column and row of its square add up to an even
/// number.
pub open spec fn check_mask(x: int, y: int, tile_size: int) -> bool {
    (x / tile_size + y / tile_size) % 2 == 0
}

/// Diagonal stripes: a pixel is foreground when its anti-diagonal `x + y` falls
/// in an even band of `tile_size` diagonals.
pub open spec fn diagonal_mask(x: int, y: int, tile_size: int) -> bool {
    ((x + y) / tile_size) % 2 == 0
}

/// Vertical stripes: a pixel is foreground in the first `tile_size` columns of
/// every `2 * tile_size`.
pub open spec fn vertical_mask(x: int, y: int, tile_size: int) -> bool {
    x % (2 * tile_size) < tile_size
}

/// Horizontal stripes: a pixel is foreground in the first `tile_size` rows of
/// every `2 * tile_size`.
pub open spec fn horizontal_mask(x: int, y: int, tile_size: int) -> bool {
    y % (2 * tile_size) < tile_size
}

/// The checkerboard image.
pub open spec fn check_image(
    width: int,
    height: int,
    tile_size: int,
    foreground: u32,
    background: u32,
) -> Seq<u32> {
    paint(width, height, |x: int, y: int| check_mask(x, y, tile_size), foreground, background)
}

/// The image of diagonal stripes.
pub open spec fn diagonal_image(
    width: int,
    height: int,
    tile_size: int,
    foreground: u32,
    background: u32,
) -> Seq<u32> {
    paint(width, height, |x: int, y: int| diagonal_mask(x, y, tile_size), foreground, background)
}

/// The image of vertical stripes.
pub open spec fn vertical_image(
    width: int,
    height: int,
    tile_size: int,
    foreground: u32,
    background: u32,
) -> Seq<u32> {
    paint(width, height, |x: int, y: int| vertical_mask(x, y, tile_size), foreground, background)
}

/// The image of horizontal stripes.
pub open spec fn horizontal_image(
    width: int,
    height: int,
    tile_size: int,
    foreground: u32,
    background: u32,
) -> Seq<u32> {
    paint(
        width,
        height,
        |x: int, y: int| horizontal_mask(x, y, tile_size),
        foreground,
        background,
    )
}

/// Fills the buffer with a checkerboard of squares of side `tile_size`.
pub fn draw_check_pattern(
    pixels: &mut [u32],
    foreground_color: u32,
    background_color: u32,
    width: usize,
    height: usize,
    tile_size: usize,
)
    requires
        old(pixels)@.len() == width * height,
        tile_size > 0,
    ensures
        final(pixels)@ == check_image(
            width as int,
            height as int,
            tile_size as int,
            foreground_color,
            background_color,
        ),
{
    let ghost mask = |x: int, y: int| check_mask(x, y, tile_size as int);
    proof {
        lemma_scan_start(pixels@, width as int, mask, foreground_color, background_color);
    }
    let mut y: usize = 0;
    while y < height
        invariant
            tile_size > 0,
            y <= height,
            pixels@.len() == width * height,
            mask == |x: int, y: int| check_mask(x, y, tile_size as int),
            scanned(pixels@, width as int, mask, foreground_color, background_color, 0, y as int),
        decreases height - y,
    {
        let mut x: usize = 0;
        while x < width
            invariant
                tile_size > 0,
                y < height,
                x <= width,
                pixels@.len() == width * height,
                mask == |x: int, y: int| check_mask(x, y, tile_size as int),
                scanned(
                    pixels@,
                    width as int,
                    mask,
                    foreground_color,
                    background_color,
                    x as int,
                    y as int,
                ),
            decreases width - x,
        {
            proof {
                lemma_coordinate_sum(x as int, y as int, width as int, height as int);
                lemma_div_is_ordered_by_denominator(x as int, 1, tile_size as int);
                lemma_div_is_ordered_by_denominator(y as int, 1, tile_size as int);
                assert(pixels.len() == width * height);
            }
            let color = if (x / tile_size + y / tile_size) % 2 == 0 {
                foreground_color
            } else {
                background_color
            };
            proof {
                lemma_scan_pixel(
                    pixels@,
                    width as int,
                    height as int,
                    mask,
                    foreground_color,
                    background_color,
                    x as int,
                    y as int,
                );
            }
            plot(pixels, width, height, x, y, color);
            x += 1;
        }
        proof {
            lemma_scan_row(
                pixels@,
                width as int,
                mask,
                foreground_color,
                background_color,
                y as int,
            );
        }
        y += 1;
    }
    proof {
        lemma_scan_end(
            pixels@,
            width as int,
            height as int,
            mask,
            foreground_color,
            background_color,
        );
    }
}

/// Fills the buffer with diagonal stripes, `tile_size` diagonals wide.
pub fn draw_stripe_pattern(
    pixels: &mut [u32],
    foreground_color: u32,
    background_color: u32,
    width: usize,
    height: usize,
    tile_size: usize,
)
    requires
        old(pixels)@.len() == width * height,
        tile_size > 0,
    ensures
        final(pixels)@ == diagonal_image(
            width as int,
            height as int,
            tile_size as int,
            foreground_color,
            background_color,
        ),
{
    let ghost mask = |x: int, y: int| diagonal_mask(x, y, tile_size as int);
    proof {
        lemma_scan_start(pixels@, width as int, mask, foreground_color, background_color);
    }
    let mut y: usize = 0;
    while y < height
        invariant
            tile_size > 0,
            y <= height,
            pixels@.len() == width * height,
            mask == |x: int, y: int| diagonal_mask(x, y, tile_size as int),
            scanned(pixels@, width as int, mask, foreground_color, background_color, 0, y as int),
        decreases height - y,
    {
        let mut x: usize = 0;
        while x < width
            invariant
                tile_size > 0,
                y < height,
                x <= width,
                pixels@.len() == width * height,
                mask == |x: int, y: int| diagonal_mask(x, y, tile_size as int),
                scanned(
                    pixels@,
                    width as int,
                    mask,
                    foreground_color,
                    background_color,
                    x as int,
                    y as int,
                ),
            decreases width - x,
        {
            proof {
                lemma_coordinate_sum(x as int, y as int, width as int, height as int);
                assert(pixels.len() == width * height);
            }
            let color = if ((x + y) / tile_size) % 2 == 0 {
                foreground_color
            } else {
                background_color
            };
            proof {
                lemma_scan_pixel(
                    pixels@,
                    width as int,
                    height as int,
                    mask,
                    foreground_color,
                    background_color,
                    x as int,
                    y as int,
                );
            }
            plot(pixels, width, height, x, y, color);
            x += 1;
        }
        proof {
            lemma_scan_row(
                pixels@,
                width as int,
                mask,
                foreground_color,
                background_color,
                y as int,
            );
        }
        y += 1;
    }
    proof {
        lemma_scan_end(
            pixels@,
            width as int,
            height as int,
            mask,
            foreground_color,
            background_color,
        );
    }
}

/// Fills the buffer with vertical stripes, `tile_size` columns wide.
pub fn draw_vertical_stripes(
    pixels: &mut [u32],
    foreground_color: u32,
    background_color: u32,
    width: usize,
    height: usize,
    tile_size: usize,
)
    requires
        old(pixels)@.len() == width * height,
        tile_size > 0,
    ensures
        final(pixels)@ == vertical_image(
            width as int,
            height as int,
            tile_size as int,
            foreground_color,
            background_color,
        ),
{
    let ghost mask = |x: int, y: int| vertical_mask(x, y, tile_size as int);
    proof {
        lemma_scan_start(pixels@, width as int, mask, foreground_color, background_color);
    }
    let mut y: usize = 0;
    while y < height
        invariant
            tile_size > 0,
            y <= height,
            pixels@.len() == width * height,
            mask == |x: int, y: int| vertical_mask(x, y, tile_size as int),
            scanned(pixels@, width as int, mask, foreground_color, background_color, 0, y as int),
        decreases height - y,
    {
        let mut x: usize = 0;
        while x < width
            invariant
                tile_size > 0,
                y < height,
                x <= width,
                pixels@.len() == width * height,
                mask == |x: int, y: int| vertical_mask(x, y, tile_size as int),
                scanned(
                    pixels@,
                    width as int,
                    mask,
                    foreground_color,
                    background_color,
                    x as int,
                    y as int,
                ),
            decreases width - x,
        {
            let color = if (x as u128) % (tile_size as u128 * 2) < tile_size as u128 {
                foreground_color
            } else {
                background_color
            };
            proof {
                lemma_scan_pixel(
                    pixels@,
                    width as int,
                    height as int,
                    mask,
                    foreground_color,
                    background_color,
                    x as int,
                    y as int,
                );
            }
            plot(pixels, width, height, x, y, color);
            x += 1;
        }
        proof {
            lemma_scan_row(
                pixels@,
                width as int,
                mask,
                foreground_color,
                background_color,
                y as int,
            );
        }
        y += 1;
    }
    proof {
        lemma_scan_end(
            pixels@,
            width as int,
            height as int,
            mask,
            foreground_color,
            background_color,
        );
    }
}

/// Fills the buffer with horizontal stripes, `tile_size` rows wide.
pub fn draw_horizontal_stripes(
    pixels: &mut [u32],
    foreground_color: u32,
    background_color: u32,
    width: usize,
    height: usize,
    tile_size: usize,
)
    requires
        old(pixels)@.len() == width * height,
        tile_size > 0,
    ensures
        final(pixels)@ == horizontal_image(
            width as int,
            height as int,
            tile_size as int,
            foreground_color,
            background_color,
        ),
{
    let ghost mask = |x: int, y: int| horizontal_mask(x, y, tile_size as int);
    proof {
        lemma_scan_start(pixels@, width as int, mask, foreground_color, background_color);
    }
    let mut y: usize = 0;
    while y < height
        invariant
            tile_size > 0,
            y <= height,
            pixels@.len() == width * height,
            mask == |x: int, y: int| horizontal_mask(x, y, tile_size as int),
            scanned(pixels@, width as int, mask, foreground_color, background_color, 0, y as int),
        decreases height - y,
    {
        let mut x: usize = 0;
        while x < width
            invariant
                tile_size > 0,
                y < height,
                x <= width,
                pixels@.len() == width * height,
                mask == |x: int, y: int| horizontal_mask(x, y, tile_size as int),
                scanned(
                    pixels@,
                    width as int,
                    mask,
                    foreground_color,
                    background_color,
                    x as int,
                    y as int,
                ),
            decreases width - x,
        {
            let color = if (y as u128) % (tile_size as u128 * 2) < tile_size as u128 {
                foreground_color
            } else {
                background_color
            };
            proof {
                lemma_scan_pixel(
                    pixels@,
                    width as int,
                    height as int,
                    mask,
                    foreground_color,
                    background_color,
                    x as int,
                    y as int,
                );
            }
            plot(pixels, width, height, x, y, color);
            x += 1;
        }
        proof {
            lemma_scan_row(
                pixels@,
                width as int,
                mask,
                foreground_color,
                background_color,
                y as int,
            );
        }
        y += 1;
    }
    proof {
        lemma_scan_end(
            pixels@,
            width as int,
            height as int,
            mask,
            foreground_color,
            background_color,
        );
    }
}

/// One tile to the right, the checkerboard shows the other kind of square.
pub proof fn lemma_check_mask_flips(x: int, y: int, tile_size: int)
    requires
        tile_size > 0,
    ensures
        check_mask(x + tile_size, y, tile_size) == !check_mask(x, y, tile_size),
        check_mask(x, y + tile_size, tile_size) == !check_mask(x, y, tile_size),
{
    lemma_div_plus_one(x, tile_size);
    lemma_div_plus_one(y, tile_size);
    assert(x + tile_size == tile_size + x);
    assert(y + tile_size == tile_size + y);
}

/// Two tiles to the right, or two tiles down, the checkerboard repeats.
pub proof fn lemma_check_mask_periodic(x: int, y: int, tile_size: int)
    requires
        tile_size > 0,
    ensures
        check_mask(x + 2 * tile_size, y, tile_size) == check_mask(x, y, tile_size),
        check_mask(x, y + 2 * tile_size, tile_size) == check_mask(x, y, tile_size),
{
    lemma_check_mask_flips(x, y, tile_size);
    lemma_check_mask_flips(x + tile_size, y, tile_size);
    lemma_check_mask_flips(x, y + tile_size, tile_size);
    assert(x + tile_size + tile_size == x + 2 * tile_size);
    assert(y + tile_size + tile_size == y + 2 * tile_size);
}

/// In the checkerboard image the pixels `(x, y)` and `(x + tile_size, y)` lie in
/// squares of different kinds: they hold the same colour exactly when
/// foreground and background are one colour.
pub proof fn lemma_check_image_tile_shift(
    width: int,
    height: int,
    tile_size: int,
    foreground: u32,
    background: u32,
    x: int,
    y: int,
)
    requires
        tile_size > 0,
        0 <= x,
        x + tile_size < width,
        0 <= y < height,
    ensures
        check_image(width, height, tile_size, foreground, background)[offset(
            x + tile_size,
            y,
            width,
        )] == check_image(width, height, tile_size, foreground, background)[offset(x, y, width)]
            <==> foreground == background,
{
    let mask = |x: int, y: int| check_mask(x, y, tile_size);
    lemma_paint_at(width, height, mask, foreground, background, x, y);
    lemma_paint_at(width, height, mask, foreground, background, x + tile_size, y);
    lemma_check_mask_flips(x, y, tile_size);
}

/// The checkerboard image repeats after two tiles along a row.
pub proof fn lemma_check_image_periodic(
    width: int,
    height: int,
    tile_size: int,
    foreground: u32,
    background: u32,
    x: int,
    y: int,
)
    requires
        tile_size > 0,
        0 <= x,
        x + 2 * tile_size < width,
        0 <= y < height,
    ensures
        check_image(width, height, tile_size, foreground, background)[offset(
            x + 2 * tile_size,
            y,
            width,
        )] == check_image(width, height, tile_size, foreground, background)[offset(x, y, width)],
{
    let mask = |x: int, y: int| check_mask(x, y, tile_size);
    lemma_paint_at(width, height, mask, foreground, background, x, y);
    lemma_paint_at(width, height, mask, foreground, background, x + 2 * tile_size, y);
    lemma_check_mask_periodic(x, y, tile_size);
}

/// Vertical stripes repeat after `2 * tile_size` columns and do not depend on
/// the row.
pub proof fn lemma_vertical_mask_periodic(x: int, y: int, other_y: int, tile_size: int)
    requires
        tile_size > 0,
    ensures
        vertical_mask(x + 2 * tile_size, y, tile_size) == vertical_mask(x, y, tile_size),
        vertical_mask(x, other_y, tile_size) == vertical_mask(x, y, tile_size),
{
    lemma_mod_add_multiples_vanish(x, 2 * tile_size);
    assert(x + 2 * tile_size == 2 * tile_size + x);
}

/// In the image of vertical stripes, a pixel holds the colour of the pixel
/// `2 * tile_size` columns to its right.
pub proof fn lemma_vertical_image_periodic(
    width: int,
    height: int,
    tile_size: int,
    foreground: u32,
    background: u32,
    x: int,
    y: int,
)
    requires
        tile_size > 0,
        0 <= x,
        x + 2 * tile_size < width,
        0 <= y < height,
    ensures
        vertical_image(width, height, tile_size, foreground, background)[offset(
            x + 2 * tile_size,
            y,
            width,
        )] == vertical_image(width, height, tile_size, foreground, background)[offset(
            x,
            y,
            width,
        )],
{
    let mask = |x: int, y: int| vertical_mask(x, y, tile_size);
    lemma_paint_at(width, height, mask, foreground, background, x, y);
    lemma_paint_at(width, height, mask, foreground, background, x + 2 * tile_size, y);
    lemma_vertical_mask_periodic(x, y, y, tile_size);
}

/// In the image of vertical stripes, every column holds one colour.
pub proof fn lemma_vertical_image_columns(
    width: int,
    height: int,
    tile_size: int,
    foreground: u32,
    background: u32,
    x: int,
    y: int,
    other_y: int,
)
    requires
        0 <= x < width,
        0 <= y < height,
        0 <= other_y < height,
    ensures
        vertical_image(width, height, tile_size, foreground, background)[offset(
            x,
            other_y,
            width,
        )] == vertical_image(width, height, tile_size, foreground, background)[offset(
            x,
            y,
            width,
        )],
{
    let mask = |x: int, y: int| vertical_mask(x, y, tile_size);
    lemma_paint_at(width, height, mask, foreground, background, x, y);
    lemma_paint_at(width, height, mask, foreground, background, x, other_y);
}

/// Horizontal stripes repeat after `2 * tile_size` rows and do not depend on
/// the column.
pub proof fn lemma_horizontal_mask_periodic(x: int, y: int, other_x: int, tile_size: int)
    requires
        tile_size > 0,
    ensures
        horizontal_mask(x, y + 2 * tile_size, tile_size) == horizontal_mask(x, y, tile_size),
        horizontal_mask(other_x, y, tile_size) == horizontal_mask(x, y, tile_size),
{
    lemma_mod_add_multiples_vanish(y, 2 * tile_size);
    assert(y + 2 * tile_size == 2 * tile_size + y);
}

/// Diagonal stripes repeat after `2 * tile_size` pixels along a row or a
/// column, and are constant along every anti-diagonal.
pub proof fn lemma_diagonal_mask_periodic(x: int, y: int, step: int, tile_size: int)
    requires
        tile_size > 0,
    ensures
        diagonal_mask(x + 2 * tile_size, y, tile_size) == diagonal_mask(x, y, tile_size),
        diagonal_mask(x, y + 2 * tile_size, tile_size) == diagonal_mask(x, y, tile_size),
        diagonal_mask(x + step, y - step, tile_size) == diagonal_mask(x, y, tile_size),
{
    lemma_div_plus_one(x + y, tile_size);
    lemma_div_plus_one(x + y + tile_size, tile_size);
    assert(tile_size + (x + y) == x + y + tile_size);
    assert(tile_size + (x + y + tile_size) == x + 2 * tile_size + y);
    assert(x + 2 * tile_size + y == x + (y + 2 * tile_size));
    assert(x + step + (y - step) == x + y);
}

} // verus!
