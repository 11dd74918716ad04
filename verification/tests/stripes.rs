use raster_patterns::draw_horizontal_stripes;
use raster_patterns::draw_stripe_pattern;
use raster_patterns::draw_vertical_stripes;

/// The buffer that holds `fg` where `rows` has a `#` and `bg` elsewhere.
fn picture(rows: &[&str], fg: u32, bg: u32) -> Vec<u32> {
    let mut pixels = Vec::new();
    for row in rows {
        for cell in row.chars() {
            pixels.push(if cell == '#' { fg } else { bg });
        }
    }
    pixels
}

#[test]
fn diagonal_stripes_two_wide() {
    let mut pixels = vec![0u32; 24];
    draw_stripe_pattern(&mut pixels, 0xFF00FF, 0, 6, 4, 2);
    assert_eq!(pixels, picture(&["##..##", "#..##.", "..##..", ".##..#"], 0xFF00FF, 0));
}

#[test]
fn diagonal_stripes_are_constant_along_anti_diagonals() {
    let (width, height, tile) = (17usize, 13usize, 4usize);
    let mut pixels = vec![0u32; width * height];
    draw_stripe_pattern(&mut pixels, 5, 6, width, height, tile);
    for y in 1..height {
        for x in 0..width - 1 {
            assert_eq!(pixels[y * width + x], pixels[(y - 1) * width + x + 1]);
        }
    }
    assert_eq!(pixels[0], 5);
    assert_eq!(pixels[3], 5);
    assert_eq!(pixels[4], 6);
    assert_eq!(pixels[8], 5);
}

#[test]
fn diagonal_stripes_with_a_huge_tile_are_all_foreground() {
    let mut pixels = vec![0u32; 6];
    draw_stripe_pattern(&mut pixels, 3, 8, 3, 2, usize::MAX);
    assert_eq!(pixels, vec![3u32; 6]);
}

#[test]
fn vertical_stripes_two_wide() {
    let mut pixels = vec![0u32; 14];
    draw_vertical_stripes(&mut pixels, 0xFFFFFF, 0x000001, 7, 2, 2);
    assert_eq!(pixels, picture(&["##..##.", "##..##."], 0xFFFFFF, 0x000001));
}

#[test]
fn vertical_stripes_repeat_every_two_tiles_and_fill_columns() {
    let (width, height, tile) = (29usize, 7usize, 3usize);
    let mut pixels = vec![0u32; width * height];
    draw_vertical_stripes(&mut pixels, 1, 0, width, height, tile);
    for y in 0..height {
        for x in 0..width {
            assert_eq!(pixels[y * width + x], pixels[x]);
            if x + 2 * tile < width {
                assert_eq!(pixels[y * width + x], pixels[y * width + x + 2 * tile]);
            }
            assert_eq!(pixels[y * width + x] == 1, x % 6 < 3);
        }
    }
}

#[test]
fn vertical_stripes_with_a_tile_of_more_than_half_the_word() {
    let mut pixels = vec![0u32; 8];
    draw_vertical_stripes(&mut pixels, 4, 2, 4, 2, usize::MAX);
    assert_eq!(pixels, vec![4u32; 8]);
    draw_vertical_stripes(&mut pixels, 4, 2, 4, 2, usize::MAX / 2 + 1);
    assert_eq!(pixels, vec![4u32; 8]);
}

#[test]
fn horizontal_stripes_three_high() {
    let mut pixels = vec![0u32; 14];
    draw_horizontal_stripes(&mut pixels, 0xFF0000, 0x0000FF, 2, 7, 3);
    assert_eq!(
        pixels,
        picture(&["##", "##", "##", "..", "..", "..", "##"], 0xFF0000, 0x0000FF)
    );
}

#[test]
fn horizontal_stripes_repeat_every_two_tiles_and_fill_rows() {
    let (width, height, tile) = (5usize, 31usize, 4usize);
    let mut pixels = vec![0u32; width * height];
    draw_horizontal_stripes(&mut pixels, 1, 0, width, height, tile);
    for y in 0..height {
        for x in 0..width {
            assert_eq!(pixels[y * width + x], pixels[y * width]);
            if y + 2 * tile < height {
                assert_eq!(pixels[y * width + x], pixels[(y + 2 * tile) * width + x]);
            }
            assert_eq!(pixels[y * width + x] == 1, y % 8 < 4);
        }
    }
}

#[test]
fn stripes_of_one_pixel() {
    let mut pixels = vec![7u32; 4];
    draw_vertical_stripes(&mut pixels, 1, 0, 4, 1, 1);
    assert_eq!(pixels, vec![1, 0, 1, 0]);
    draw_horizontal_stripes(&mut pixels, 1, 0, 1, 4, 1);
    assert_eq!(pixels, vec![1, 0, 1, 0]);
    draw_stripe_pattern(&mut pixels, 1, 0, 2, 2, 1);
    assert_eq!(pixels, vec![1, 0, 0, 1]);
}
