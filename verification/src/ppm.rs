//! The binary PPM encoding of a pixel buffer.
//!
//! An encoded image is a text header, `P6`, the width and the height in
//! decimal and the maximum channel value `255`, followed by one red, green and
//! blue byte for every pixel in row-major order:
//!
//! ```text
//! "P6\n" <width> " " <height> "\n" "255\n" <width * height records of R, G, B>
//! ```

use vstd::prelude::*;

verus! {

/// The red channel of a packed colour `0xRRGGBB`.
pub open spec fn red(pixel: u32) -> u8 {
    ((pixel / 0x1_0000) % 0x100) as u8
}

/// The green channel of a packed colour `0xRRGGBB`.
pub open spec fn green(pixel: u32) -> u8 {
    ((pixel / 0x100) % 0x100) as u8
}

/// The blue channel of a packed colour `0xRRGGBB`.
pub open spec fn blue(pixel: u32) -> u8 {
    (pixel % 0x100) as u8
}

/// The ASCII digit for `d`, which is below ten.
pub open spec fn digit(d: nat) -> u8 {
    (0x30 + d) as u8
}

/// The decimal text of `n`, without leading zeros.
pub open spec fn decimal(n: nat) -> Seq<u8>
    decreases n,
{
    if n < 10 {
        seq![digit(n)]
    } else {
        decimal(n / 10).push(digit(n % 10))
    }
}

/// The header of an image of `width * height` pixels.
pub open spec fn ppm_header(width: nat, height: nat) -> Seq<u8> {
    seq![0x50u8, 0x36, 0x0A] + decimal(width) + seq![0x20u8] + decimal(height)
        + seq![0x0Au8, 0x32, 0x35, 0x35, 0x0A]
}

/// The three channel bytes of every pixel, in the order of the pixels.
pub open spec fn ppm_payload(pixels: Seq<u32>) -> Seq<u8> {
    Seq::new(
        3 * pixels.len(),
        |i: int|
            if i % 3 == 0 {
                red(pixels[i / 3])
            } else if i % 3 == 1 {
                green(pixels[i / 3])
            } else {
                blue(pixels[i / 3])
            },
    )
}

/// The encoded image.
pub open spec fn ppm_bytes(pixels: Seq<u32>, width: nat, height: nat) -> Seq<u8> {
    ppm_header(width, height) + ppm_payload(pixels)
}

/// The packed colour `0xRRGGBB` of three channel bytes.
pub open spec fn pack(r: u8, g: u8, b: u8) -> u32 {
    (r * 0x1_0000 + g * 0x100 + b) as u32
}

/// `byte` is an ASCII decimal digit.
pub open spec fn is_digit(byte: u8) -> bool {
    0x30 <= byte <= 0x39
}

/// The number of decimal digits that `text` starts with.
pub open spec fn digit_run(text: Seq<u8>) -> nat
    decreases text.len(),
{
    if text.len() > 0 && is_digit(text[0]) {
        1 + digit_run(text.drop_first())
    } else {
        0
    }
}

/// The number that a string of decimal digits denotes.
pub open spec fn decimal_value(digits: Seq<u8>) -> nat
    decreases digits.len(),
{
    if digits.len() == 0 {
        0
    } else {
        10 * decimal_value(digits.drop_last()) + (digits.last() - 0x30) as nat
    }
}

/// What a reader of the format finds in `bytes`: the width, the height and
/// the channel bytes, or nothing if `bytes` is no image of this layout.
///
/// The reader takes the tag, reads the width up to the space and the height
/// up to the line end, takes the line of the maximum channel value, and
/// accepts the rest if it holds three bytes for every pixel.
pub open spec fn read_ppm(bytes: Seq<u8>) -> Option<(nat, nat, Seq<u8>)> {
    let after_tag = bytes.skip(3);
    let width_len = digit_run(after_tag) as int;
    let after_width = after_tag.skip(width_len + 1);
    let height_len = digit_run(after_width) as int;
    let payload = after_width.skip(height_len + 5);
    let width = decimal_value(after_tag.take(width_len));
    let height = decimal_value(after_width.take(height_len));
    let well_formed = {
        &&& bytes.len() >= 3
        &&& bytes.take(3) == seq![0x50u8, 0x36, 0x0A]
        &&& 0 < width_len < after_tag.len()
        &&& after_tag[width_len] == 0x20
        &&& 0 < height_len
        &&& height_len + 5 <= after_width.len()
        &&& after_width.subrange(height_len, height_len + 5)
            == seq![0x0Au8, 0x32, 0x35, 0x35, 0x0A]
        &&& payload.len() == 3 * width * height
    };
    if well_formed {
        Some((width, height, payload))
    } else {
        None
    }
}

/// The decimal text of a number is a non-empty string of digits.
pub proof fn lemma_decimal_digits(n: nat)
    ensures
        decimal(n).len() > 0,
        forall|i: int| 0 <= i < decimal(n).len() ==> is_digit(#[trigger] decimal(n)[i]),
    decreases n,
{
    if n >= 10 {
        lemma_decimal_digits(n / 10);
    }
}

/// The decimal text of a number denotes that number.
pub proof fn lemma_decimal_value(n: nat)
    ensures
        decimal_value(decimal(n)) == n,
    decreases n,
{
    let text = decimal(n);
    assert(text.last() == digit(n % 10));
    assert((text.last() - 0x30) as nat == n % 10);
    if n >= 10 {
        lemma_decimal_value(n / 10);
        assert(text.drop_last() =~= decimal(n / 10));
    } else {
        assert(text.drop_last() =~= Seq::<u8>::empty());
        assert(decimal_value(text.drop_last()) == 0);
    }
}

/// A string of digits that is followed by another byte, or by nothing, is
/// read to its end.
pub proof fn lemma_digit_run(digits: Seq<u8>, rest: Seq<u8>)
    requires
        forall|i: int| 0 <= i < digits.len() ==> is_digit(#[trigger] digits[i]),
        rest.len() > 0 ==> !is_digit(rest[0]),
    ensures
        digit_run(digits + rest) == digits.len(),
    decreases digits.len(),
{
    if digits.len() > 0 {
        assert((digits + rest).drop_first() =~= digits.drop_first() + rest);
        lemma_digit_run(digits.drop_first(), rest);
    }
}

/// The payload holds the red, green and blue byte of pixel `i` at `3 * i`.
pub proof fn lemma_payload_record(pixels: Seq<u32>, i: int)
    requires
        0 <= i < pixels.len(),
    ensures
        ppm_payload(pixels).len() == 3 * pixels.len(),
        ppm_payload(pixels)[3 * i] == red(pixels[i]),
        ppm_payload(pixels)[3 * i + 1] == green(pixels[i]),
        ppm_payload(pixels)[3 * i + 2] == blue(pixels[i]),
{
}

/// The channels of a 24-bit colour pack to that colour.
pub proof fn lemma_pack_channels(pixel: u32)
    requires
        pixel <= 0xFF_FFFF,
    ensures
        pack(red(pixel), green(pixel), blue(pixel)) == pixel,
{
}

/// A sequence splits back into the two parts it was joined from.
proof fn lemma_split(front: Seq<u8>, back: Seq<u8>)
    ensures
        (front + back).len() == front.len() + back.len(),
        (front + back).take(front.len() as int) == front,
        (front + back).skip(front.len() as int) == back,
{
    assert((front + back).take(front.len() as int) =~= front);
    assert((front + back).skip(front.len() as int) =~= back);
}

/// A number in decimal that is followed by a byte that is no digit is read
/// as that number, and reading goes on behind that byte.
proof fn lemma_read_number(n: nat, stop: u8, rest: Seq<u8>)
    requires
        !is_digit(stop),
    ensures
        digit_run(decimal(n) + (seq![stop] + rest)) == decimal(n).len(),
        decimal(n).len() > 0,
        (decimal(n) + (seq![stop] + rest)).len() == decimal(n).len() + 1 + rest.len(),
        (decimal(n) + (seq![stop] + rest))[decimal(n).len() as int] == stop,
        decimal_value((decimal(n) + (seq![stop] + rest)).take(decimal(n).len() as int)) == n,
        (decimal(n) + (seq![stop] + rest)).skip(decimal(n).len() as int + 1) == rest,
{
    let text = decimal(n);
    let tail = seq![stop] + rest;
    lemma_decimal_digits(n);
    lemma_decimal_value(n);
    lemma_digit_run(text, tail);
    lemma_split(text, tail);
    assert((text + tail).skip(text.len() as int + 1) =~= rest);
}

/// A header that is followed by three bytes for every pixel is read as an
/// image of that width and height.
proof fn lemma_read_layout(width: nat, height: nat, payload: Seq<u8>)
    requires
        payload.len() == 3 * width * height,
    ensures
        read_ppm(ppm_header(width, height) + payload) == Some((width, height, payload)),
{
    let tag = seq![0x50u8, 0x36, 0x0A];
    let maxval = seq![0x0Au8, 0x32, 0x35, 0x35, 0x0A];
    let bytes = ppm_header(width, height) + payload;
    let rest_h = seq![0x32u8, 0x35, 0x35, 0x0A] + payload;
    let tail_h = seq![0x0Au8] + rest_h;
    let rest_w = decimal(height) + tail_h;
    let tail_w = seq![0x20u8] + rest_w;
    let after_tag = decimal(width) + tail_w;
    assert(bytes =~= tag + after_tag);
    lemma_split(tag, after_tag);
    assert(bytes.skip(3) == after_tag);
    assert(bytes.take(3) == tag);
    lemma_read_number(width, 0x20u8, rest_w);
    let width_len = decimal(width).len() as int;
    assert(after_tag.skip(width_len + 1) == rest_w);
    lemma_read_number(height, 0x0Au8, rest_h);
    let height_len = decimal(height).len() as int;
    assert(rest_w.subrange(height_len, height_len + 5) =~= maxval);
    assert(rest_w.skip(height_len + 5) =~= payload);
}

/// Reading an encoded image gives back the width, the height and the channel
/// bytes of every pixel.
pub proof fn lemma_read_encoded(pixels: Seq<u32>, width: nat, height: nat)
    requires
        pixels.len() == width * height,
    ensures
        read_ppm(ppm_bytes(pixels, width, height)) == Some(
            (width, height, ppm_payload(pixels)),
        ),
{
    assert(3 * width * height == 3 * (width * height)) by (nonlinear_arith);
    lemma_read_layout(width, height, ppm_payload(pixels));
}

/// Splits a packed colour into its red, green and blue bytes.
pub fn channels(pixel: u32) -> (rgb: (u8, u8, u8))
    ensures
        rgb.0 == red(pixel),
        rgb.1 == green(pixel),
        rgb.2 == blue(pixel),
{
    assert((pixel >> 16) & 0xFF == (pixel / 0x1_0000) % 0x100) by (bit_vector);
    assert((pixel >> 8) & 0xFF == (pixel / 0x100) % 0x100) by (bit_vector);
    assert(pixel & 0xFF == pixel % 0x100) by (bit_vector);
    (((pixel >> 16) & 0xFF) as u8, ((pixel >> 8) & 0xFF) as u8, (pixel & 0xFF) as u8)
}

/// Appends the decimal text of `n`.
pub fn push_decimal(out: &mut Vec<u8>, n: usize)
    ensures
        final(out)@ == old(out)@ + decimal(n as nat),
    decreases n,
{
    if n >= 10 {
        push_decimal(out, n / 10);
    }
    out.push(0x30 + (n % 10) as u8);
}

/// Encodes a buffer of `width * height` packed colours as a binary PPM image.
pub fn encode_ppm(pixels: &[u32], width: usize, height: usize) -> (bytes: Vec<u8>)
    requires
        pixels@.len() == width * height,
    ensures
        bytes@ == ppm_bytes(pixels@, width as nat, height as nat),
{
    let mut bytes: Vec<u8> = Vec::new();
    bytes.push(0x50);
    bytes.push(0x36);
    bytes.push(0x0A);
    push_decimal(&mut bytes, width);
    bytes.push(0x20);
    push_decimal(&mut bytes, height);
    bytes.push(0x0A);
    bytes.push(0x32);
    bytes.push(0x35);
    bytes.push(0x35);
    bytes.push(0x0A);
    let ghost header = bytes@;
    assert(header == ppm_header(width as nat, height as nat));
    let n = pixels.len();
    let mut i: usize = 0;
    while i < n
        invariant
            i <= n,
            n == pixels@.len(),
            bytes@.len() == header.len() + 3 * i,
            bytes@.subrange(0, header.len() as int) == header,
            forall|k: int|
                0 <= k < 3 * i ==> #[trigger] bytes@[header.len() + k] == ppm_payload(pixels@)[k],
        decreases n - i,
    {
        let (r, g, b) = channels(pixels[i]);
        bytes.push(r);
        bytes.push(g);
        bytes.push(b);
        i += 1;
    }
    proof {
        let encoded = header + ppm_payload(pixels@);
        assert forall|j: int| 0 <= j < bytes@.len() implies bytes@[j] == encoded[j] by {
            if j < header.len() {
                assert(bytes@[j] == bytes@.subrange(0, header.len() as int)[j]);
            } else {
                let k = j - header.len();
                assert(bytes@[header.len() + k] == ppm_payload(pixels@)[k]);
            }
        }
        assert(bytes@ =~= encoded);
    }
    bytes
}

} // verus!
