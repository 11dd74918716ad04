use raster_patterns::draw_check_pattern;
use raster_patterns::encode_ppm;
use raster_patterns::ppm::channels;
use raster_patterns::ppm::push_decimal;

/// Reads a decimal number at `at` and returns it with the position behind it.
fn read_number(bytes: &[u8], mut at: usize) -> (usize, usize) {
    let start = at;
    let mut value = 0usize;
    while at < bytes.len() && bytes[at].is_ascii_digit() {
        value = value * 10 + (bytes[at] - b'0') as usize;
        at += 1;
    }
    assert!(at > start);
    (value, at)
}

/// Reads an encoded image back into its width, height and packed colours.
fn read_image(bytes: &[u8]) -> (usize, usize, Vec<u32>) {
    assert_eq!(&bytes[..3], b"P6\n");
    let (width, at) = read_number(bytes, 3);
    assert_eq!(bytes[at], b' ');
    let (height, at) = read_number(bytes, at + 1);
    assert_eq!(&bytes[at..at + 5], b"\n255\n");
    let payload = &bytes[at + 5..];
    assert_eq!(payload.len(), 3 * width * height);
    let mut pixels = Vec::new();
    for rgb in payload.chunks(3) {
        pixels.push((rgb[0] as u32) << 16 | (rgb[1] as u32) << 8 | rgb[2] as u32);
    }
    (width, height, pixels)
}

#[test]
fn encodes_four_known_colours() {
    let pixels = vec![0xFF0000u32, 0x00FF00, 0x0000FF, 0xFFFFFF];
    let bytes = encode_ppm(&pixels, 2, 2);
    let mut expected = b"P6\n2 2\n255\n".to_vec();
    expected.extend_from_slice(&[0xFF, 0, 0, 0, 0xFF, 0, 0, 0, 0xFF, 0xFF, 0xFF, 0xFF]);
    assert_eq!(bytes, expected);
}

#[test]
fn reading_an_encoded_image_gives_the_buffer_back() {
    let pixels = vec![0xFF0000u32, 0x00FF00, 0x0000FF, 0xFFFFFF];
    let bytes = encode_ppm(&pixels, 2, 2);
    let (width, height, read) = read_image(&bytes);
    assert_eq!(width, 2);
    assert_eq!(height, 2);
    assert_eq!(read, pixels);
}

#[test]
fn reading_a_larger_encoded_image_gives_the_buffer_back() {
    let (width, height) = (120usize, 37usize);
    let mut pixels = Vec::new();
    for i in 0..width * height {
        pixels.push(((i * 2_654_435_761) % 0x100_0000) as u32);
    }
    let bytes = encode_ppm(&pixels, width, height);
    assert_eq!(&bytes[..14], b"P6\n120 37\n255\n");
    assert_eq!(bytes.len(), 14 + 3 * width * height);
    let (w, h, read) = read_image(&bytes);
    assert_eq!((w, h), (width, height));
    assert_eq!(read, pixels);
}

#[test]
fn header_has_the_sizes_in_decimal_on_one_line() {
    let pixels = vec![0u32; 10 * 3];
    let bytes = encode_ppm(&pixels, 10, 3);
    assert_eq!(&bytes[..12], b"P6\n10 3\n255\n");
    let bytes = encode_ppm(&pixels, 3, 10);
    assert_eq!(&bytes[..12], b"P6\n3 10\n255\n");
    let bytes = encode_ppm(&pixels, 1, 30);
    assert_eq!(&bytes[..12], b"P6\n1 30\n255\n");
}

#[test]
fn encodes_an_empty_image() {
    let pixels: Vec<u32> = Vec::new();
    assert_eq!(encode_ppm(&pixels, 0, 0), b"P6\n0 0\n255\n".to_vec());
    assert_eq!(encode_ppm(&pixels, 0, 12), b"P6\n0 12\n255\n".to_vec());
}

#[test]
fn the_byte_above_the_red_channel_is_not_written() {
    let pixels = vec![0xAB123456u32];
    let bytes = encode_ppm(&pixels, 1, 1);
    assert_eq!(&bytes[11..], &[0x12, 0x34, 0x56]);
}

#[test]
fn pixels_are_written_row_by_row() {
    let pixels = vec![1u32, 2, 3, 4, 5, 6];
    let bytes = encode_ppm(&pixels, 3, 2);
    assert_eq!(&bytes[..11], b"P6\n3 2\n255\n");
    assert_eq!(
        &bytes[11..],
        &[0, 0, 1, 0, 0, 2, 0, 0, 3, 0, 0, 4, 0, 0, 5, 0, 0, 6]
    );
}

#[test]
fn encodes_a_generated_pattern() {
    let mut pixels = vec![0u32; 4];
    draw_check_pattern(&mut pixels, 0xFFFFFF, 0x000000, 2, 2, 1);
    let bytes = encode_ppm(&pixels, 2, 2);
    let mut expected = b"P6\n2 2\n255\n".to_vec();
    expected.extend_from_slice(&[255, 255, 255, 0, 0, 0, 0, 0, 0, 255, 255, 255]);
    assert_eq!(bytes, expected);
}

#[test]
fn channels_of_a_packed_colour() {
    assert_eq!(channels(0x123456), (0x12, 0x34, 0x56));
    assert_eq!(channels(0xFF00FF), (0xFF, 0x00, 0xFF));
    assert_eq!(channels(0x000000), (0, 0, 0));
    assert_eq!(channels(0xFFFFFFFF), (0xFF, 0xFF, 0xFF));
    assert_eq!(channels(0x01000000), (0, 0, 0));
    assert_eq!(channels(0x00010000), (1, 0, 0));
    assert_eq!(channels(0x00000100), (0, 1, 0));
    assert_eq!(channels(0x00000001), (0, 0, 1));
}

#[test]
fn decimal_text_of_numbers() {
    let cases: Vec<(usize, &str)> = vec![
        (0, "0"),
        (7, "7"),
        (9, "9"),
        (10, "10"),
        (99, "99"),
        (100, "100"),
        (512, "512"),
        (12345, "12345"),
        (4294967295, "4294967295"),
    ];
    for (n, text) in cases {
        let mut out = Vec::new();
        push_decimal(&mut out, n);
        assert_eq!(out, text.as_bytes().to_vec());
    }
    let mut out = b"w=".to_vec();
    push_decimal(&mut out, usize::MAX);
    assert_eq!(out, format!("w={}", usize::MAX).into_bytes());
}
