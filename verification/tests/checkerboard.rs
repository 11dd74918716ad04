use raster_patterns::draw_check_pattern;

const WHITE: u32 = 0xFFFFFF;
const BLACK: u32 = 0x000000;

/// The buffer that holds `fg` where `rows` has a `#` and `bg` elsewhere.
fn picture(rows: &[&str], fg: u32, bg: u32) -> Vec<u32> {
    let mut pixels = Vec::new();
    for row in rows {
        for cell in row.chars() {
            pixels.push(if cell == '#' { fg } else { bg });
        }
    }
    pixels
}

#[test]
fn checkerboard_of_single_pixels_alternates_in_both_axes() {
    let mut pixels = vec![0x00FF00u32; 16];
    draw_check_pattern(&mut pixels, WHITE, BLACK, 4, 4, 1);
    let expected = vec![
        WHITE, BLACK, WHITE, BLACK,
        BLACK, WHITE, BLACK, WHITE,
        WHITE, BLACK, WHITE, BLACK,
        BLACK, WHITE, BLACK, WHITE,
    ];
    assert_eq!(pixels, expected);
}

#[test]
fn checkerboard_of_two_pixel_tiles_on_a_wide_buffer() {
    let mut pixels = vec![0u32; 24];
    draw_check_pattern(&mut pixels, 0xFF00FF, 0x102030, 6, 4, 2);
    let expected = picture(&["##..##", "##..##", "..##..", "..##.."], 0xFF00FF, 0x102030);
    assert_eq!(pixels, expected);
}

#[test]
fn checkerboard_with_a_tile_wider_than_the_rows_are_high() {
    let mut pixels = vec![0u32; 15];
    draw_check_pattern(&mut pixels, 1, 2, 5, 3, 3);
    assert_eq!(pixels, picture(&["###..", "###..", "###.."], 1, 2));
}

#[test]
fn checkerboard_tile_larger_than_the_buffer_is_all_foreground() {
    let mut pixels = vec![0u32; 12];
    draw_check_pattern(&mut pixels, 9, 4, 4, 3, usize::MAX);
    assert_eq!(pixels, vec![9u32; 12]);
}

#[test]
fn checkerboard_overwrites_every_pixel() {
    let mut pixels = vec![0xABCDEFu32; 35];
    draw_check_pattern(&mut pixels, WHITE, BLACK, 7, 5, 2);
    assert!(pixels.iter().all(|&p| p == WHITE || p == BLACK));
}

#[test]
fn checkerboard_changes_kind_one_tile_along_and_repeats_after_two() {
    let (width, height, tile) = (23usize, 11usize, 3usize);
    let mut pixels = vec![0u32; width * height];
    draw_check_pattern(&mut pixels, WHITE, BLACK, width, height, tile);
    for y in 0..height {
        for x in 0..width {
            let here = pixels[y * width + x];
            if x + tile < width {
                assert_ne!(here, pixels[y * width + x + tile]);
            }
            if x + 2 * tile < width {
                assert_eq!(here, pixels[y * width + x + 2 * tile]);
            }
            if y + tile < height {
                assert_ne!(here, pixels[(y + tile) * width + x]);
            }
        }
    }
}

#[test]
fn checkerboard_of_one_colour_is_uniform() {
    let mut pixels = vec![0u32; 20];
    draw_check_pattern(&mut pixels, 0x777777, 0x777777, 5, 4, 2);
    assert_eq!(pixels, vec![0x777777u32; 20]);
}

#[test]
fn checkerboard_on_an_empty_buffer() {
    let mut pixels: Vec<u32> = Vec::new();
    draw_check_pattern(&mut pixels, WHITE, BLACK, 0, 0, 4);
    assert!(pixels.is_empty());
    draw_check_pattern(&mut pixels, WHITE, BLACK, 0, 9, 4);
    assert!(pixels.is_empty());
}

#[test]
fn checkerboard_of_the_demonstration_size() {
    let (width, height, tile) = (512usize, 512usize, 32usize);
    let mut pixels = vec![0x00FF00u32; width * height];
    draw_check_pattern(&mut pixels, 0xFF00FF, 0x000000, width, height, tile);
    assert_eq!(pixels[0], 0xFF00FF);
    assert_eq!(pixels[31], 0xFF00FF);
    assert_eq!(pixels[32], 0x000000);
    assert_eq!(pixels[32 * width], 0x000000);
    assert_eq!(pixels[32 * width + 32], 0xFF00FF);
    assert_eq!(pixels[511 * width + 511], 0xFF00FF);
}
