//! The shared model of a two-colour raster image.
//!
//! A mask says, for every pixel coordinate, whether the pixel is foreground.
//! Painting a mask yields the row-major sequence of colours that a generator
//! leaves in the buffer.

use vstd::prelude::*;
use vstd::arithmetic::div_mod::lemma_fundamental_div_mod;
use vstd::arithmetic::div_mod::lemma_fundamental_div_mod_converse;
use vstd::arithmetic::mul::lemma_mul_is_commutative;

verus! {

/// The colour of a pixel that is `on` (foreground) or off (background).
pub open spec fn shade(on: bool, foreground: u32, background: u32) -> u32 {
    if on {
        foreground
    } else {
        background
    }
}

/// Row-major position of pixel `(x, y)` in a buffer that is `width` pixels wide.
pub open spec fn offset(x: int, y: int, width: int) -> int {
    y * width + x
}

/// The image of `width * height` pixels in which pixel `(x, y)` is foreground
/// exactly when `mask(x, y)` holds.
pub open spec fn paint(
    width: int,
    height: int,
    mask: spec_fn(int, int) -> bool,
    foreground: u32,
    background: u32,
) -> Seq<u32> {
    Seq::new(
        (width * height) as nat,
        |i: int| shade(mask(i % width, i / width), foreground, background),
    )
}

/// A buffer of `len` pixels that all hold `color`.
pub open spec fn uniform(len: nat, color: u32) -> Seq<u32> {
    Seq::new(len, |i: int| color)
}

/// A pixel inside the image has a position inside the buffer, and the position
/// determines the pixel.
pub proof fn lemma_offset(x: int, y: int, width: int, height: int)
    requires
        0 <= x < width,
        0 <= y < height,
    ensures
        0 <= y * width <= offset(x, y, width) < width * height,
        offset(x, y, width) % width == x,
        offset(x, y, width) / width == y,
{
    assert(0 <= y * width && y * width + width <= width * height) by (nonlinear_arith)
        requires
            0 <= y < height,
            0 < width,
    ;
    lemma_fundamental_div_mod_converse(offset(x, y, width), width, y, x);
}

/// A position inside the buffer belongs to exactly one pixel inside the image.
pub proof fn lemma_coordinates(i: int, width: int, height: int)
    requires
        0 <= i < width * height,
        0 <= width,
        0 <= height,
    ensures
        0 <= i % width < width,
        0 <= i / width < height,
        i == offset(i % width, i / width, width),
{
    assert(width > 0) by (nonlinear_arith)
        requires
            0 <= i < width * height,
            0 <= width,
    ;
    lemma_fundamental_div_mod(i, width);
    lemma_mul_is_commutative(width, i / width);
    let q = i / width;
    assert(0 <= q < height) by (nonlinear_arith)
        requires
            0 <= i < width * height,
            i == q * width + i % width,
            0 <= i % width < width,
            0 < width,
            0 <= height,
    ;
}

/// The colour that painting a mask leaves at pixel `(x, y)`.
pub proof fn lemma_paint_at(
    width: int,
    height: int,
    mask: spec_fn(int, int) -> bool,
    foreground: u32,
    background: u32,
    x: int,
    y: int,
)
    requires
        0 <= x < width,
        0 <= y < height,
    ensures
        0 <= offset(x, y, width) < paint(width, height, mask, foreground, background).len(),
        paint(width, height, mask, foreground, background)[offset(x, y, width)] == shade(
            mask(x, y),
            foreground,
            background,
        ),
{
    lemma_offset(x, y, width, height);
}

/// A buffer that holds the shade of the mask at every pixel is the painted
/// image.
pub proof fn lemma_paint_covers(
    pixels: Seq<u32>,
    width: int,
    height: int,
    mask: spec_fn(int, int) -> bool,
    foreground: u32,
    background: u32,
)
    requires
        0 <= width,
        0 <= height,
        pixels.len() == width * height,
        forall|x: int, y: int|
            0 <= x < width && 0 <= y < height
                ==> #[trigger] pixels[offset(x, y, width)]
                    == shade(mask(x, y), foreground, background),
    ensures
        pixels == paint(width, height, mask, foreground, background),
{
    let image = paint(width, height, mask, foreground, background);
    assert forall|i: int| 0 <= i < pixels.len() implies pixels[i] == image[i] by {
        lemma_coordinates(i, width, height);
        assert(pixels[offset(i % width, i / width, width)] == shade(
            mask(i % width, i / width),
            foreground,
            background,
        ));
    }
}

/// The pixels that a row-major scan has passed before it reaches `(x, y)` hold
/// the shade of the mask.
pub(crate) closed spec fn scanned(
    pixels: Seq<u32>,
    width: int,
    mask: spec_fn(int, int) -> bool,
    foreground: u32,
    background: u32,
    x: int,
    y: int,
) -> bool {
    forall|col: int, row: int|
        0 <= col < width && (0 <= row < y || (row == y && col < x))
            ==> #[trigger] pixels[offset(col, row, width)]
                == shade(mask(col, row), foreground, background)
}

/// A scan that has not started has passed no pixel.
pub(crate) proof fn lemma_scan_start(
    pixels: Seq<u32>,
    width: int,
    mask: spec_fn(int, int) -> bool,
    foreground: u32,
    background: u32,
)
    ensures
        scanned(pixels, width, mask, foreground, background, 0, 0),
{
}

/// Shading pixel `(x, y)` moves the scan one pixel to the right.
pub(crate) proof fn lemma_scan_pixel(
    before: Seq<u32>,
    width: int,
    height: int,
    mask: spec_fn(int, int) -> bool,
    foreground: u32,
    background: u32,
    x: int,
    y: int,
)
    requires
        0 <= x < width,
        0 <= y < height,
        before.len() == width * height,
        scanned(before, width, mask, foreground, background, x, y),
    ensures
        scanned(
            before.update(offset(x, y, width), shade(mask(x, y), foreground, background)),
            width,
            mask,
            foreground,
            background,
            x + 1,
            y,
        ),
{
    let after = before.update(offset(x, y, width), shade(mask(x, y), foreground, background));
    assert forall|col: int, row: int|
        0 <= col < width && (0 <= row < y || (row == y && col < x + 1)) implies
        #[trigger] after[offset(col, row, width)]
            == shade(mask(col, row), foreground, background) by {
        lemma_offset(col, row, width, height);
        lemma_offset(x, y, width, height);
    }
}

/// The end of a row is the start of the next one.
pub(crate) proof fn lemma_scan_row(
    pixels: Seq<u32>,
    width: int,
    mask: spec_fn(int, int) -> bool,
    foreground: u32,
    background: u32,
    y: int,
)
    requires
        scanned(pixels, width, mask, foreground, background, width, y),
    ensures
        scanned(pixels, width, mask, foreground, background, 0, y + 1),
{
}

/// A scan that has passed every row has painted the image.
pub(crate) proof fn lemma_scan_end(
    pixels: Seq<u32>,
    width: int,
    height: int,
    mask: spec_fn(int, int) -> bool,
    foreground: u32,
    background: u32,
)
    requires
        0 <= width,
        0 <= height,
        pixels.len() == width * height,
        scanned(pixels, width, mask, foreground, background, 0, height),
    ensures
        pixels == paint(width, height, mask, foreground, background),
{
    lemma_paint_covers(pixels, width, height, mask, foreground, background);
}

/// Coordinates inside the image add up to less than its size.
pub proof fn lemma_coordinate_sum(x: int, y: int, width: int, height: int)
    requires
        0 <= x < width,
        0 <= y < height,
    ensures
        x + y < width * height,
{
    assert((width - 1) * (height - 1) >= 0) by (nonlinear_arith)
        requires
            1 <= width,
            1 <= height,
    ;
    assert((width - 1) * (height - 1) == width * height - width - height + 1)
        by (nonlinear_arith);
}

/// Sets pixel `(x, y)`, leaving the others as they were.
pub fn plot(pixels: &mut [u32], width: usize, height: usize, x: usize, y: usize, color: u32)
    requires
        old(pixels)@.len() == width * height,
        x < width,
        y < height,
    ensures
        0 <= offset(x as int, y as int, width as int) < old(pixels)@.len(),
        final(pixels)@ == old(pixels)@.update(offset(x as int, y as int, width as int), color),
{
    proof {
        lemma_offset(x as int, y as int, width as int, height as int);
        assert(pixels.len() == width * height);
    }
    pixels[y * width + x] = color;
}

/// Overwrites every pixel with `color`.
pub fn fill(pixels: &mut [u32], color: u32)
    ensures
        final(pixels)@ == uniform(old(pixels)@.len(), color),
{
    let n = pixels.len();
    let mut i: usize = 0;
    while i < n
        invariant
            i <= n,
            pixels@.len() == n,
            forall|k: int| 0 <= k < i ==> pixels@[k] == color,
        decreases n - i,
    {
        pixels[i] = color;
        i += 1;
    }
}

} // verus!
