//! The circle outline, traced with the midpoint algorithm.
//!
//! The buffer is a square of side `side`. The circle is sampled in doubled
//! coordinates relative to the centre of the square, on even abscissas `x` and
//! odd ordinates `y` of the octant `0 <= x < y`. A sample with `x < side` and
//! `y < side` stands for the pixel in column `(x + side) / 2` and row
//! `(y + side) / 2`; samples beyond that are outside the buffer and are
//! skipped. Every pixel of a sample is reflected across both axes through the
//! centre and across the diagonal, where reflection takes column or row `c` to
//! `side - c`.

use vstd::prelude::*;
use crate::raster::fill;
use crate::raster::lemma_offset;
use crate::raster::lemma_paint_at;
use crate::raster::lemma_paint_covers;
use crate::raster::offset;
use crate::raster::paint;
use crate::raster::plot;
use crate::raster::shade;
use crate::raster::uniform;

verus! {

/// `(x, y)` is the sample of the circle of doubled radius `r` at the even
/// abscissa `x` of the octant `0 <= x < y`: `y` is the largest odd ordinate
/// that keeps the point inside the circle.
pub open spec fn on_arc(x: int, y: int, r: int) -> bool {
    &&& 0 <= x < y
    &&& x % 2 == 0
    &&& y % 2 == 1
    &&& x * x + y * y <= r * r
    &&& r * r < x * x + (y + 2) * (y + 2)
}

/// `c` is `a` or its reflection in a square of side `side`.
pub open spec fn mirrors(c: int, a: int, side: int) -> bool {
    c == a || c == side - a
}

/// Pixel `(col, row)` is one of the eight reflections of pixel `(a, b)`.
pub open spec fn reflects(col: int, row: int, a: int, b: int, side: int) -> bool {
    ||| mirrors(col, a, side) && mirrors(row, b, side)
    ||| mirrors(col, b, side) && mirrors(row, a, side)
}

/// The sample `(x, y)` lies on the circle of `radius`, falls inside the
/// buffer, and one of its reflections is pixel `(col, row)`.
pub open spec fn arc_paints(col: int, row: int, side: int, radius: int, x: int, y: int) -> bool {
    &&& on_arc(x, y, 2 * radius)
    &&& x < side
    &&& y < side
    &&& reflects(col, row, (x + side) / 2, (y + side) / 2, side)
}

/// Pixel `(col, row)` belongs to the outline of the circle of `radius` centred
/// in a square of side `side`.
pub open spec fn on_ring(col: int, row: int, side: int, radius: int) -> bool {
    exists|x: int, y: int| #[trigger] arc_paints(col, row, side, radius, x, y)
}

/// The outline of the circle of `radius` on a square image of side `side`.
pub open spec fn ring_image(side: int, radius: int, foreground: u32, background: u32) -> Seq<u32> {
    paint(side, side, |col: int, row: int| on_ring(col, row, side, radius), foreground, background)
}

/// The part of the outline that comes from samples left of `limit`.
spec fn on_ring_before(col: int, row: int, side: int, radius: int, limit: int) -> bool {
    exists|x: int, y: int| #[trigger] arc_paints(col, row, side, radius, x, y) && x < limit
}

/// The buffer shows the part of the outline that comes from samples left of
/// `limit`, on background.
spec fn traced(
    pixels: Seq<u32>,
    side: int,
    radius: int,
    limit: int,
    foreground: u32,
    background: u32,
) -> bool {
    &&& pixels.len() == side * side
    &&& forall|col: int, row: int|
        0 <= col < side && 0 <= row < side ==> #[trigger] pixels[offset(col, row, side)] == shade(
            on_ring_before(col, row, side, radius, limit),
            foreground,
            background,
        )
}

/// `after` is `before` with the eight reflections of pixel `(a, b)` set to
/// `color`.
spec fn reflected(
    before: Seq<u32>,
    after: Seq<u32>,
    side: int,
    a: int,
    b: int,
    color: u32,
) -> bool {
    &&& after.len() == before.len()
    &&& forall|col: int, row: int|
        0 <= col < side && 0 <= row < side
            ==> #[trigger] after[offset(col, row, side)] == if reflects(col, row, a, b, side) {
            color
        } else {
            before[offset(col, row, side)]
        }
}

/// Sets pixel `(a, b)` and its seven reflections to `color`.
fn plot_reflections(pixels: &mut [u32], side: usize, a: usize, b: usize, color: u32)
    requires
        old(pixels)@.len() == side * side,
        0 < a < side,
        0 < b < side,
    ensures
        reflected(old(pixels)@, final(pixels)@, side as int, a as int, b as int, color),
{
    plot(pixels, side, side, a, b, color);
    plot(pixels, side, side, b, a, color);
    plot(pixels, side, side, a, side - b, color);
    plot(pixels, side, side, side - b, a, color);
    plot(pixels, side, side, side - a, b, color);
    plot(pixels, side, side, b, side - a, color);
    plot(pixels, side, side, side - a, side - b, color);
    plot(pixels, side, side, side - b, side - a, color);
    proof {
        let n = side as int;
        let (a, b) = (a as int, b as int);
        assert forall|col: int, row: int| 0 <= col < n && 0 <= row < n implies
        #[trigger] pixels@[offset(col, row, n)] == if reflects(col, row, a, b, n) {
            color
        } else {
            old(pixels)@[offset(col, row, n)]
        } by {
            lemma_offset(col, row, n, n);
            lemma_offset(a, b, n, n);
            lemma_offset(b, a, n, n);
            lemma_offset(a, n - b, n, n);
            lemma_offset(n - b, a, n, n);
            lemma_offset(n - a, b, n, n);
            lemma_offset(b, n - a, n, n);
            lemma_offset(n - a, n - b, n, n);
            lemma_offset(n - b, n - a, n, n);
        }
    }
}

/// A square buffer that fits in memory has a side below `2^32`.
proof fn lemma_side_fits(side: int)
    requires
        0 <= side,
        side * side <= usize::MAX,
    ensures
        side < 0x1_0000_0000,
{
    assert(side < 0x1_0000_0000) by (nonlinear_arith)
        requires
            0 <= side,
            side * side <= 0xFFFF_FFFF_FFFF_FFFF,
    ;
}

/// The sample at a given abscissa is unique.
proof fn lemma_arc_unique(x: int, y1: int, y2: int, r: int)
    requires
        on_arc(x, y1, r),
        on_arc(x, y2, r),
    ensures
        y1 == y2,
{
    assert(y1 < y2 + 2) by (nonlinear_arith)
        requires
            0 <= y1,
            0 <= y2,
            y1 * y1 < (y2 + 2) * (y2 + 2),
    ;
    assert(y2 < y1 + 2) by (nonlinear_arith)
        requires
            0 <= y1,
            0 <= y2,
            y2 * y2 < (y1 + 2) * (y1 + 2),
    ;
}

/// Visiting the sample `(x, y)` extends the traced outline by its reflections,
/// if it falls inside the buffer, and by nothing else.
proof fn lemma_ring_step(col: int, row: int, side: int, radius: int, x: int, y: int)
    requires
        on_arc(x, y, 2 * radius),
    ensures
        on_ring_before(col, row, side, radius, x + 2) <==> on_ring_before(col, row, side, radius, x)
            || (x < side && y < side && reflects(
            col,
            row,
            (x + side) / 2,
            (y + side) / 2,
            side,
        )),
{
    if on_ring_before(col, row, side, radius, x + 2) {
        let (x1, y1) = choose|x1: int, y1: int| #[trigger]
            arc_paints(col, row, side, radius, x1, y1) && x1 < x + 2;
        if x1 >= x {
            lemma_arc_unique(x, y, y1, 2 * radius);
        }
    }
    if on_ring_before(col, row, side, radius, x) {
        let (x1, y1) = choose|x1: int, y1: int| #[trigger]
            arc_paints(col, row, side, radius, x1, y1) && x1 < x;
        assert(arc_paints(col, row, side, radius, x1, y1) && x1 < x + 2);
    }
    if x < side && y < side && reflects(col, row, (x + side) / 2, (y + side) / 2, side) {
        assert(arc_paints(col, row, side, radius, x, y) && x < x + 2);
    }
}

/// Once the abscissa has passed the ordinate, no sample is left to visit.
proof fn lemma_ring_done(col: int, row: int, side: int, radius: int, x: int, y: int)
    requires
        y < x,
        0 <= x,
        -1 <= y,
        (2 * radius) * (2 * radius) < x * x + (y + 2) * (y + 2),
    ensures
        on_ring_before(col, row, side, radius, x) <==> on_ring(col, row, side, radius),
{
    if on_ring(col, row, side, radius) {
        let (x1, y1) = choose|x1: int, y1: int| #[trigger]
            arc_paints(col, row, side, radius, x1, y1);
        let r = 2 * radius;
        if x1 >= x {
            assert(y1 < y + 2) by (nonlinear_arith)
                requires
                    0 <= x <= x1,
                    0 <= y1,
                    0 <= y + 2,
                    x1 * x1 + y1 * y1 <= r * r,
                    r * r < x * x + (y + 2) * (y + 2),
            ;
        }
        assert(arc_paints(col, row, side, radius, x1, y1) && x1 < x);
    }
    if on_ring_before(col, row, side, radius, x) {
        let (x1, y1) = choose|x1: int, y1: int| #[trigger]
            arc_paints(col, row, side, radius, x1, y1) && x1 < x;
        assert(arc_paints(col, row, side, radius, x1, y1));
    }
}

/// A circle of radius zero, or one too large for the buffer, leaves no pixel.
proof fn lemma_ring_empty(col: int, row: int, side: int, radius: int)
    requires
        radius == 0 || radius >= side,
        0 <= radius,
    ensures
        !on_ring(col, row, side, radius),
{
    if on_ring(col, row, side, radius) {
        let (x, y) = choose|x: int, y: int| #[trigger] arc_paints(col, row, side, radius, x, y);
        let r = 2 * radius;
        assert(false) by (nonlinear_arith)
            requires
                0 <= x < y,
                y < side,
                r == 0 || r >= 2 * side,
                0 <= r,
                x * x + y * y <= r * r,
                r * r < x * x + (y + 2) * (y + 2),
        ;
    }
}

/// Where the next sample is lower, it still lies inside the circle, as long as
/// the abscissa has not passed the ordinate.
proof fn lemma_arc_descends(x: int, y: int, r: int)
    requires
        x * x + y * y <= r * r,
    ensures
        x + 2 <= y ==> (x + 2) * (x + 2) + (y - 2) * (y - 2) <= r * r,
{
    assert(x + 2 <= y ==> (x + 2) * (x + 2) + (y - 2) * (y - 2) <= r * r) by (nonlinear_arith)
        requires
            x * x + y * y <= r * r,
    ;
}

/// Where the next sample is level, the point above it is still outside the
/// circle.
proof fn lemma_arc_level(x: int, y: int, r: int)
    requires
        0 <= x,
        r * r < x * x + (y + 2) * (y + 2),
    ensures
        r * r < (x + 2) * (x + 2) + (y + 2) * (y + 2),
{
    assert(r * r < (x + 2) * (x + 2) + (y + 2) * (y + 2)) by (nonlinear_arith)
        requires
            0 <= x,
            r * r < x * x + (y + 2) * (y + 2),
    ;
}

/// A buffer of background shows the outline before the first sample.
proof fn lemma_trace_start(
    pixels: Seq<u32>,
    side: int,
    radius: int,
    foreground: u32,
    background: u32,
)
    requires
        0 <= side,
        pixels == uniform((side * side) as nat, background),
    ensures
        traced(pixels, side, radius, 0, foreground, background),
{
    assert(0 <= side * side) by (nonlinear_arith)
        requires
            0 <= side,
    ;
    assert forall|col: int, row: int| 0 <= col < side && 0 <= row < side implies
        #[trigger] pixels[offset(col, row, side)] == shade(
            on_ring_before(col, row, side, radius, 0),
            foreground,
            background,
        ) by {
        lemma_offset(col, row, side, side);
    }
}

/// Plotting the reflections of the sample `(x, y)`, if it falls inside the
/// buffer, moves the trace past `x`.
proof fn lemma_trace_step(
    before: Seq<u32>,
    after: Seq<u32>,
    side: int,
    radius: int,
    foreground: u32,
    background: u32,
    x: int,
    y: int,
)
    requires
        traced(before, side, radius, x, foreground, background),
        on_arc(x, y, 2 * radius),
        if x < side && y < side {
            reflected(before, after, side, (x + side) / 2, (y + side) / 2, foreground)
        } else {
            after == before
        },
    ensures
        traced(after, side, radius, x + 2, foreground, background),
{
    assert forall|col: int, row: int| 0 <= col < side && 0 <= row < side implies
        #[trigger] after[offset(col, row, side)] == shade(
            on_ring_before(col, row, side, radius, x + 2),
            foreground,
            background,
        ) by {
        lemma_ring_step(col, row, side, radius, x, y);
    }
}

/// Once the abscissa has passed the ordinate, the trace is the outline.
proof fn lemma_trace_end(
    pixels: Seq<u32>,
    side: int,
    radius: int,
    foreground: u32,
    background: u32,
    x: int,
    y: int,
)
    requires
        0 <= side,
        traced(pixels, side, radius, x, foreground, background),
        y < x,
        0 <= x,
        -1 <= y,
        (2 * radius) * (2 * radius) < x * x + (y + 2) * (y + 2),
    ensures
        pixels == ring_image(side, radius, foreground, background),
{
    let mask = |col: int, row: int| on_ring(col, row, side, radius);
    assert forall|col: int, row: int| 0 <= col < side && 0 <= row < side implies
        #[trigger] pixels[offset(col, row, side)]
            == shade(mask(col, row), foreground, background) by {
        lemma_ring_done(col, row, side, radius, x, y);
    }
    lemma_paint_covers(pixels, side, side, mask, foreground, background);
}

/// A circle of radius zero, or of a radius of the side or more, has no sample
/// inside the buffer: its image is all background.
proof fn lemma_trace_none(
    pixels: Seq<u32>,
    side: int,
    radius: int,
    foreground: u32,
    background: u32,
)
    requires
        0 <= side,
        0 <= radius,
        radius == 0 || radius >= side,
        pixels == uniform((side * side) as nat, background),
    ensures
        pixels == ring_image(side, radius, foreground, background),
{
    let mask = |col: int, row: int| on_ring(col, row, side, radius);
    assert(0 <= side * side) by (nonlinear_arith)
        requires
            0 <= side,
    ;
    assert forall|col: int, row: int| 0 <= col < side && 0 <= row < side implies
        #[trigger] pixels[offset(col, row, side)]
            == shade(mask(col, row), foreground, background) by {
        lemma_offset(col, row, side, side);
        lemma_ring_empty(col, row, side, radius);
    }
    lemma_paint_covers(pixels, side, side, mask, foreground, background);
}

/// Traces the outline of the circle of `radius` around the centre of a square
/// buffer in the foreground colour; every other pixel becomes background.
///
/// The buffer has to be square. Samples of the circle that fall outside the
/// buffer are skipped, so a circle wider than the buffer is clipped to what
/// the corners hold of it. A radius of zero, or of the side or more, leaves the
/// buffer all background.
pub fn draw_hollow_circle(
    pixels: &mut [u32],
    foreground_color: u32,
    background_color: u32,
    width: usize,
    height: usize,
    radius: usize,
)
    requires
        width == height,
        old(pixels)@.len() == width * height,
    ensures
        final(pixels)@ == ring_image(
            width as int,
            radius as int,
            foreground_color,
            background_color,
        ),
{
    fill(pixels, background_color);
    let ghost side = width as int;
    let ghost rad = radius as int;
    if radius == 0 || radius >= width {
        proof {
            lemma_trace_none(pixels@, side, rad, foreground_color, background_color);
        }
        return ;
    }
    let w: i128 = width as i128;
    let h: i128 = height as i128;
    let r: i128 = 2 * (radius as i128);
    let mut x: i128 = 0;
    let mut y: i128 = r - 1;
    proof {
        assert(pixels.len() == width * height);
        lemma_side_fits(side);
        lemma_trace_start(pixels@, side, rad, foreground_color, background_color);
        assert(y * y <= r * r && r * r < (y + 2) * (y + 2)) by (nonlinear_arith)
            requires
                y == r - 1,
                r > 0,
        ;
    }
    while x <= y
        invariant
            side == width,
            rad == radius,
            w == width,
            h == height,
            width == height,
            r == 2 * radius,
            0 < radius < width < 0x1_0000_0000,
            0 <= x <= y + 4,
            x % 2 == 0,
            -1 <= y < r,
            y % 2 == 1,
            r * r < x * x + (y + 2) * (y + 2),
            x <= y ==> x * x + y * y <= r * r,
            traced(pixels@, side, rad, x as int, foreground_color, background_color),
        decreases y - x + 4,
    {
        let ghost before = pixels@;
        if x < w && y < h {
            let a = ((x + w) / 2) as usize;
            let b = ((y + h) / 2) as usize;
            plot_reflections(pixels, width, a, b, foreground_color);
        }
        proof {
            lemma_trace_step(
                before,
                pixels@,
                side,
                rad,
                foreground_color,
                background_color,
                x as int,
                y as int,
            );
        }
        x += 2;
        proof {
            assert(x * x <= (r + 1) * (r + 1) <= 0x8_0000_0000_0000_0000) by (nonlinear_arith)
                requires
                    0 <= x <= r + 1,
                    0 <= r <= 0x2_0000_0000,
            ;
            assert(y * y <= r * r <= 0x4_0000_0000_0000_0000) by (nonlinear_arith)
                requires
                    0 <= y <= r,
                    r <= 0x2_0000_0000,
            ;
        }
        if x * x + y * y > r * r {
            proof {
                lemma_arc_descends(x - 2, y as int, r as int);
            }
            y -= 2;
        } else {
            proof {
                lemma_arc_level(x - 2, y as int, r as int);
            }
        }
    }
    proof {
        lemma_trace_end(
            pixels@,
            side,
            rad,
            foreground_color,
            background_color,
            x as int,
            y as int,
        );
    }
}

/// Reflecting a pixel across an axis through the centre, or across the
/// diagonal, keeps it among the reflections of `(a, b)`.
proof fn lemma_reflects_symmetric(col: int, row: int, a: int, b: int, side: int)
    requires
        reflects(col, row, a, b, side),
    ensures
        reflects(side - col, row, a, b, side),
        reflects(col, side - row, a, b, side),
        reflects(row, col, a, b, side),
{
}

/// The outline is symmetric about the centre of the square: with a pixel it
/// holds the seven pixels that reflections across the two axes through the
/// centre and across the diagonals make of it.
pub proof fn lemma_ring_symmetric(col: int, row: int, side: int, radius: int)
    requires
        on_ring(col, row, side, radius),
    ensures
        on_ring(side - col, row, side, radius),
        on_ring(col, side - row, side, radius),
        on_ring(side - col, side - row, side, radius),
        on_ring(row, col, side, radius),
        on_ring(side - row, col, side, radius),
        on_ring(row, side - col, side, radius),
        on_ring(side - row, side - col, side, radius),
{
    let (x, y) = choose|x: int, y: int| #[trigger] arc_paints(col, row, side, radius, x, y);
    let a = (x + side) / 2;
    let b = (y + side) / 2;
    lemma_reflects_symmetric(col, row, a, b, side);
    lemma_reflects_symmetric(side - col, row, a, b, side);
    lemma_reflects_symmetric(row, col, a, b, side);
    lemma_reflects_symmetric(side - row, col, a, b, side);
    assert(arc_paints(side - col, row, side, radius, x, y));
    assert(arc_paints(col, side - row, side, radius, x, y));
    assert(arc_paints(side - col, side - row, side, radius, x, y));
    assert(arc_paints(row, col, side, radius, x, y));
    assert(arc_paints(side - row, col, side, radius, x, y));
    assert(arc_paints(row, side - col, side, radius, x, y));
    assert(arc_paints(side - row, side - col, side, radius, x, y));
}

/// The outline stays clear of the first row and the first column, so the
/// reflections of a pixel of the outline are pixels of the image.
pub proof fn lemma_ring_inside(col: int, row: int, side: int, radius: int)
    requires
        on_ring(col, row, side, radius),
    ensures
        0 < col < side,
        0 < row < side,
{
    let (x, y) = choose|x: int, y: int| #[trigger] arc_paints(col, row, side, radius, x, y);
}

/// In the image of the outline, a pixel in the foreground colour has its seven
/// reflections inside the image, and they hold the foreground colour too.
pub proof fn lemma_ring_image_symmetric(
    side: int,
    radius: int,
    foreground: u32,
    background: u32,
    col: int,
    row: int,
)
    requires
        0 <= col < side,
        0 <= row < side,
        foreground != background,
        ring_image(side, radius, foreground, background)[offset(col, row, side)] == foreground,
    ensures
        0 < col < side,
        0 < row < side,
        ring_image(side, radius, foreground, background)[offset(side - col, row, side)]
            == foreground,
        ring_image(side, radius, foreground, background)[offset(col, side - row, side)]
            == foreground,
        ring_image(side, radius, foreground, background)[offset(side - col, side - row, side)]
            == foreground,
        ring_image(side, radius, foreground, background)[offset(row, col, side)] == foreground,
        ring_image(side, radius, foreground, background)[offset(side - row, col, side)]
            == foreground,
        ring_image(side, radius, foreground, background)[offset(row, side - col, side)]
            == foreground,
        ring_image(side, radius, foreground, background)[offset(side - row, side - col, side)]
            == foreground,
{
    let mask = |col: int, row: int| on_ring(col, row, side, radius);
    lemma_paint_at(side, side, mask, foreground, background, col, row);
    lemma_ring_symmetric(col, row, side, radius);
    lemma_ring_inside(col, row, side, radius);
    lemma_paint_at(side, side, mask, foreground, background, side - col, row);
    lemma_paint_at(side, side, mask, foreground, background, col, side - row);
    lemma_paint_at(side, side, mask, foreground, background, side - col, side - row);
    lemma_paint_at(side, side, mask, foreground, background, row, col);
    lemma_paint_at(side, side, mask, foreground, background, side - row, col);
    lemma_paint_at(side, side, mask, foreground, background, row, side - col);
    lemma_paint_at(side, side, mask, foreground, background, side - row, side - col);
}

/// A sample of the circle of `radius` lies on the circle or less than two
/// doubled units inside it.
pub proof fn lemma_arc_near_circle(x: int, y: int, radius: int)
    requires
        on_arc(x, y, 2 * radius),
        0 <= radius,
    ensures
        (2 * radius - 2) * (2 * radius - 2) - 4 < x * x + y * y <= (2 * radius) * (2 * radius),
{
    let r = 2 * radius;
    assert(y < r) by (nonlinear_arith)
        requires
            0 <= y,
            0 <= r,
            y * y <= r * r,
            y != r,
    ;
    assert((r - 2) * (r - 2) - 4 < x * x + y * y) by (nonlinear_arith)
        requires
            y < r,
            r * r < x * x + (y + 2) * (y + 2),
    ;
}

/// A circle that fits in the square has its first sample on the axis: the
/// outline is not empty.
pub proof fn lemma_ring_on_axis(side: int, radius: int)
    requires
        1 <= radius,
        2 * radius <= side,
    ensures
        on_ring(side / 2, (2 * radius - 1 + side) / 2, side, radius),
{
    let r = 2 * radius;
    assert((r - 1) * (r - 1) <= r * r && r * r < (r + 1) * (r + 1)) by (nonlinear_arith)
        requires
            2 <= r,
    ;
    assert(on_arc(0, r - 1, r));
    assert(arc_paints(side / 2, (r - 1 + side) / 2, side, radius, 0, r - 1));
}

/// Along the octant the outline has no gap: the sample at the next abscissa is
/// level with the sample before it or one pixel nearer to the axis.
pub proof fn lemma_arc_continuous(x: int, y: int, next_y: int, r: int)
    requires
        on_arc(x, y, r),
        on_arc(x + 2, next_y, r),
    ensures
        next_y == y || next_y == y - 2,
{
    assert(next_y < y + 2) by (nonlinear_arith)
        requires
            0 <= x,
            0 <= y,
            0 <= next_y,
            (x + 2) * (x + 2) + next_y * next_y <= r * r,
            r * r < x * x + (y + 2) * (y + 2),
    ;
    assert(y - 2 < next_y + 2) by (nonlinear_arith)
        requires
            0 <= x,
            x + 2 < next_y,
            next_y <= y,
            x * x + y * y <= r * r,
            r * r < (x + 2) * (x + 2) + (next_y + 2) * (next_y + 2),
    ;
}

} // verus!
