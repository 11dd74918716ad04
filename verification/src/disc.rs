//! The solid disc.
//!
//! Distances are measured between pixel centres and the centre of the image in
//! doubled coordinates: the centre of the image is `(width, height)` and the
//! centre of pixel `(x, y)` is `(2 * x + 1, 2 * y + 1)`, so every comparison is
//! exact integer arithmetic.

use vstd::prelude::*;
use crate::raster::lemma_paint_at;
use crate::raster::lemma_scan_end;
use crate::raster::lemma_scan_pixel;
use crate::raster::lemma_scan_row;
use crate::raster::lemma_scan_start;
use crate::raster::offset;
use crate::raster::paint;
use crate::raster::plot;
use crate::raster::scanned;

verus! {

/// The square of the doubled distance between the centre of pixel `(x, y)` and
/// the centre of an image of `width * height` pixels.
pub open spec fn disc_distance(x: int, y: int, width: int, height: int) -> int {
    let dx = width - (2 * x + 1);
    let dy = height - (2 * y + 1);
    dx * dx + dy * dy
}

/// Solid disc: a pixel is foreground when its centre lies within `radius` of
/// the centre of the image.
pub open spec fn disc_mask(x: int, y: int, width: int, height: int, radius: int) -> bool {
    disc_distance(x, y, width, height) <= (2 * radius) * (2 * radius)
}

/// The image of the solid disc.
pub open spec fn disc_image(
    width: int,
    height: int,
    radius: int,
    foreground: u32,
    background: u32,
) -> Seq<u32> {
    paint(
        width,
        height,
        |x: int, y: int| disc_mask(x, y, width, height, radius),
        foreground,
        background,
    )
}

/// Inside an image that fits in memory, squared doubled distances fit in 128
/// bits, and they are the squares of the absolute offsets.
proof fn lemma_distance_fits(x: int, y: int, width: int, height: int, ax: int, ay: int)
    requires
        0 <= x < width,
        0 <= y < height,
        width * height <= usize::MAX,
        ax == width - (2 * x + 1) || ax == (2 * x + 1) - width,
        ay == height - (2 * y + 1) || ay == (2 * y + 1) - height,
        0 <= ax,
        0 <= ay,
    ensures
        ax * ax + ay * ay == disc_distance(x, y, width, height),
        ax * ax + ay * ay <= u128::MAX,
        0 <= ax * ax,
        0 <= ay * ay,
{
    let a = width - 1;
    let b = height - 1;
    let m = width * height - 1;
    let dx = width - (2 * x + 1);
    let dy = height - (2 * y + 1);
    assert(ax * ax == dx * dx) by (nonlinear_arith)
        requires
            ax == dx || ax == -dx,
    ;
    assert(ay * ay == dy * dy) by (nonlinear_arith)
        requires
            ay == dy || ay == -dy,
    ;
    assert(0 <= ax * ax <= a * a) by (nonlinear_arith)
        requires
            0 <= ax <= a,
    ;
    assert(0 <= ay * ay <= b * b) by (nonlinear_arith)
        requires
            0 <= ay <= b,
    ;
    assert(m == a * b + a + b) by (nonlinear_arith)
        requires
            a == width - 1,
            b == height - 1,
            m == width * height - 1,
    ;
    assert(a * a + b * b <= m * m) by (nonlinear_arith)
        requires
            0 <= a,
            0 <= b,
            m == a * b + a + b,
    ;
    assert(m * m <= 0xFFFF_FFFF_FFFF_FFFE * 0xFFFF_FFFF_FFFF_FFFE) by (nonlinear_arith)
        requires
            0 <= m <= 0xFFFF_FFFF_FFFF_FFFE,
    ;
}

/// Fills the buffer with a solid disc of `radius` around the centre of the
/// image; every pixel outside the disc becomes background.
///
/// With a radius of zero the disc is the centre pixel of an image with odd
/// sides, and empty where a side is even.
pub fn draw_solid_circle(
    pixels: &mut [u32],
    foreground_color: u32,
    background_color: u32,
    width: usize,
    height: usize,
    radius: usize,
)
    requires
        old(pixels)@.len() == width * height,
    ensures
        final(pixels)@ == disc_image(
            width as int,
            height as int,
            radius as int,
            foreground_color,
            background_color,
        ),
{
    let ghost mask = |x: int, y: int| disc_mask(x, y, width as int, height as int, radius as int);
    proof {
        lemma_scan_start(pixels@, width as int, mask, foreground_color, background_color);
    }
    let cx: u128 = width as u128;
    let cy: u128 = height as u128;
    let r: u128 = 2 * (radius as u128);
    let reach: Option<u128> = r.checked_mul(r);
    let mut y: usize = 0;
    while y < height
        invariant
            y <= height,
            cx == width,
            cy == height,
            r == 2 * radius,
            reach == (if r * r > u128::MAX {
                None
            } else {
                Some((r * r) as u128)
            }),
            pixels@.len() == width * height,
            mask == |x: int, y: int| disc_mask(x, y, width as int, height as int, radius as int),
            scanned(pixels@, width as int, mask, foreground_color, background_color, 0, y as int),
        decreases height - y,
    {
        let mut x: usize = 0;
        while x < width
            invariant
                y < height,
                x <= width,
                cx == width,
                cy == height,
                r == 2 * radius,
                reach == (if r * r > u128::MAX {
                    None
                } else {
                    Some((r * r) as u128)
                }),
                pixels@.len() == width * height,
                mask == |x: int, y: int|
                    disc_mask(x, y, width as int, height as int, radius as int),
                scanned(
                    pixels@,
                    width as int,
                    mask,
                    foreground_color,
                    background_color,
                    x as int,
                    y as int,
                ),
            decreases width - x,
        {
            let px: u128 = 2 * (x as u128) + 1;
            let py: u128 = 2 * (y as u128) + 1;
            let dx: u128 = if px > cx {
                px - cx
            } else {
                cx - px
            };
            let dy: u128 = if py > cy {
                py - cy
            } else {
                cy - py
            };
            proof {
                assert(pixels.len() == width * height);
                lemma_distance_fits(
                    x as int,
                    y as int,
                    width as int,
                    height as int,
                    dx as int,
                    dy as int,
                );
            }
            let inside = match reach {
                Some(limit) => dx * dx + dy * dy <= limit,
                None => true,
            };
            let color = if inside {
                foreground_color
            } else {
                background_color
            };
            proof {
                lemma_scan_pixel(
                    pixels@,
                    width as int,
                    height as int,
                    mask,
                    foreground_color,
                    background_color,
                    x as int,
                    y as int,
                );
            }
            plot(pixels, width, height, x, y, color);
            x += 1;
        }
        proof {
            lemma_scan_row(
                pixels@,
                width as int,
                mask,
                foreground_color,
                background_color,
                y as int,
            );
        }
        y += 1;
    }
    proof {
        lemma_scan_end(
            pixels@,
            width as int,
            height as int,
            mask,
            foreground_color,
            background_color,
        );
    }
}

/// No pixel is nearer to the centre of the image than pixel
/// `(width / 2, height / 2)`, whose centre is at most one doubled unit away
/// along either axis.
pub proof fn lemma_disc_centre_nearest(x: int, y: int, width: int, height: int)
    ensures
        disc_distance(width / 2, height / 2, width, height) <= 2,
        disc_distance(width / 2, height / 2, width, height) <= disc_distance(x, y, width, height),
{
    let cx = width - (2 * (width / 2) + 1);
    let cy = height - (2 * (height / 2) + 1);
    let dx = width - (2 * x + 1);
    let dy = height - (2 * y + 1);
    assert(cx * cx <= 1 && cx * cx <= dx * dx) by (nonlinear_arith)
        requires
            cx == 0 || (cx == -1 && dx != 0),
    ;
    assert(cy * cy <= 1 && cy * cy <= dy * dy) by (nonlinear_arith)
        requires
            cy == 0 || (cy == -1 && dy != 0),
    ;
}

/// With a radius of one or more the pixel nearest the centre is foreground.
pub proof fn lemma_disc_centre_inside(
    width: int,
    height: int,
    radius: int,
    foreground: u32,
    background: u32,
)
    requires
        0 < width,
        0 < height,
        1 <= radius,
    ensures
        disc_mask(width / 2, height / 2, width, height, radius),
        disc_image(width, height, radius, foreground, background)[offset(
            width / 2,
            height / 2,
            width,
        )] == foreground,
{
    lemma_disc_centre_nearest(0, 0, width, height);
    assert(4 <= (2 * radius) * (2 * radius)) by (nonlinear_arith)
        requires
            1 <= radius,
    ;
    lemma_paint_at(
        width,
        height,
        |x: int, y: int| disc_mask(x, y, width, height, radius),
        foreground,
        background,
        width / 2,
        height / 2,
    );
}

/// A pixel whose centre lies farther than `radius` from the centre of the
/// image is background.
pub proof fn lemma_disc_outside(
    width: int,
    height: int,
    radius: int,
    foreground: u32,
    background: u32,
    x: int,
    y: int,
)
    requires
        0 <= x < width,
        0 <= y < height,
        disc_distance(x, y, width, height) > (2 * radius) * (2 * radius),
    ensures
        !disc_mask(x, y, width, height, radius),
        disc_image(width, height, radius, foreground, background)[offset(x, y, width)]
            == background,
{
    lemma_paint_at(
        width,
        height,
        |x: int, y: int| disc_mask(x, y, width, height, radius),
        foreground,
        background,
        x,
        y,
    );
}

/// With a radius of zero the disc is the one pixel whose centre is the centre
/// of the image: pixel `((width - 1) / 2, (height - 1) / 2)` when both sides
/// are odd, and no pixel when a side is even.
pub proof fn lemma_disc_radius_zero(x: int, y: int, width: int, height: int)
    ensures
        disc_mask(x, y, width, height, 0) <==> 2 * x + 1 == width && 2 * y + 1 == height,
{
    let dx = width - (2 * x + 1);
    let dy = height - (2 * y + 1);
    assert(dx * dx + dy * dy <= 0 <==> dx == 0 && dy == 0) by (nonlinear_arith);
    assert((2 * 0int) * (2 * 0int) == 0);
}

} // verus!
