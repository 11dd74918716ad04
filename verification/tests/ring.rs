use raster_patterns::draw_hollow_circle;

/// The buffer that holds `fg` where `rows` has a `#` and `bg` elsewhere.
fn picture(rows: &[&str], fg: u32, bg: u32) -> Vec<u32> {
    let mut pixels = Vec::new();
    for row in rows {
        for cell in row.chars() {
            pixels.push(if cell == '#' { fg } else { bg });
        }
    }
    pixels
}

#[test]
fn ring_of_half_the_side() {
    let mut pixels = vec![0x00FF00u32; 64];
    draw_hollow_circle(&mut pixels, 0xFF00FF, 0, 8, 8, 4);
    let expected = picture(
        &[
            "........",
            "...###..",
            "..#...#.",
            ".#.....#",
            ".#.....#",
            ".#.....#",
            "..#...#.",
            "...###..",
        ],
        0xFF00FF,
        0,
    );
    assert_eq!(pixels, expected);
}

#[test]
fn ring_inside_the_buffer() {
    let mut pixels = vec![0x00FF00u32; 64];
    draw_hollow_circle(&mut pixels, 1, 0, 8, 8, 3);
    let expected = picture(
        &[
            "........",
            "........",
            "...###..",
            "..#...#.",
            "..#...#.",
            "..#...#.",
            "...###..",
            "........",
        ],
        1,
        0,
    );
    assert_eq!(pixels, expected);
}

#[test]
fn ring_on_an_odd_side() {
    let mut pixels = vec![0u32; 81];
    draw_hollow_circle(&mut pixels, 1, 0, 9, 9, 4);
    let expected = picture(
        &[
            ".........",
            "....##...",
            "...#..#..",
            "..#....#.",
            ".#......#",
            ".#......#",
            "..#....#.",
            "...#..#..",
            "....##...",
        ],
        1,
        0,
    );
    assert_eq!(pixels, expected);
}

#[test]
fn ring_on_small_sides() {
    let mut pixels = vec![7u32; 16];
    draw_hollow_circle(&mut pixels, 1, 0, 4, 4, 2);
    assert_eq!(pixels, picture(&["....", ".###", ".#.#", ".###"], 1, 0));
    let mut pixels = vec![7u32; 36];
    draw_hollow_circle(&mut pixels, 1, 0, 6, 6, 3);
    assert_eq!(
        pixels,
        picture(&["......", "..###.", ".#...#", ".#...#", ".#...#", "..###."], 1, 0)
    );
}

#[test]
fn ring_of_radius_one_is_a_single_pixel() {
    let mut pixels = vec![7u32; 64];
    draw_hollow_circle(&mut pixels, 1, 0, 8, 8, 1);
    let mut expected = vec![0u32; 64];
    expected[4 * 8 + 4] = 1;
    assert_eq!(pixels, expected);
}

#[test]
fn ring_of_radius_zero_is_empty() {
    let mut pixels = vec![7u32; 25];
    draw_hollow_circle(&mut pixels, 1, 0, 5, 5, 0);
    assert_eq!(pixels, vec![0u32; 25]);
}

#[test]
fn ring_wider_than_the_buffer_is_clipped_to_the_corners() {
    let mut pixels = vec![7u32; 100];
    draw_hollow_circle(&mut pixels, 1, 0, 10, 10, 6);
    let expected = picture(
        &[
            "..........",
            "..#.....#.",
            ".#.......#",
            "..........",
            "..........",
            "..........",
            "..........",
            "..........",
            ".#.......#",
            "..#.....#.",
        ],
        1,
        0,
    );
    assert_eq!(pixels, expected);
}

#[test]
fn ring_far_wider_than_the_buffer_is_empty() {
    for radius in [8usize, 9, 100, usize::MAX / 2, usize::MAX / 2 + 1, usize::MAX] {
        let mut pixels = vec![7u32; 64];
        draw_hollow_circle(&mut pixels, 1, 0, 8, 8, radius);
        assert_eq!(pixels, vec![0u32; 64]);
    }
}

#[test]
fn ring_on_the_smallest_buffers() {
    let mut pixels: Vec<u32> = Vec::new();
    draw_hollow_circle(&mut pixels, 1, 0, 0, 0, 3);
    assert!(pixels.is_empty());
    let mut pixels = vec![7u32; 1];
    draw_hollow_circle(&mut pixels, 1, 0, 1, 1, 1);
    assert_eq!(pixels, vec![0u32]);
    let mut pixels = vec![7u32; 4];
    draw_hollow_circle(&mut pixels, 1, 0, 2, 2, 1);
    assert_eq!(pixels, vec![0, 0, 0, 1]);
}

#[test]
fn ring_holds_the_seven_reflections_of_each_of_its_pixels() {
    for side in 2..40usize {
        for radius in 0..=side / 2 {
            let mut pixels = vec![7u32; side * side];
            draw_hollow_circle(&mut pixels, 1, 0, side, side, radius);
            for row in 0..side {
                for col in 0..side {
                    if pixels[row * side + col] != 1 {
                        assert_eq!(pixels[row * side + col], 0);
                        continue;
                    }
                    assert!(col > 0 && row > 0);
                    let (c, r) = (side - col, side - row);
                    assert_eq!(pixels[row * side + c], 1);
                    assert_eq!(pixels[r * side + col], 1);
                    assert_eq!(pixels[r * side + c], 1);
                    assert_eq!(pixels[col * side + row], 1);
                    assert_eq!(pixels[col * side + r], 1);
                    assert_eq!(pixels[c * side + row], 1);
                    assert_eq!(pixels[c * side + r], 1);
                }
            }
        }
    }
}

#[test]
fn ring_pixels_lie_within_a_pixel_of_the_circle() {
    let (side, radius) = (64usize, 30usize);
    let mut pixels = vec![7u32; side * side];
    draw_hollow_circle(&mut pixels, 1, 0, side, side, radius);
    let mut count = 0;
    for row in 0..side {
        for col in 0..side {
            if pixels[row * side + col] == 1 {
                count += 1;
                let dx = 2 * col as i64 - side as i64;
                let dy = 2 * row as i64 - side as i64;
                let d2 = dx * dx + dy * dy;
                let r = 2 * radius as i64;
                assert!((r - 3) * (r - 3) <= d2 && d2 <= (r + 1) * (r + 1));
            }
        }
    }
    assert!(count > 0);
}

#[test]
fn ring_of_the_demonstration_size() {
    let (side, radius) = (512usize, 256usize);
    let mut pixels = vec![0x00FF00u32; side * side];
    draw_hollow_circle(&mut pixels, 0xFF00FF, 0, side, side, radius);
    assert_eq!(pixels[511 * side + 256], 0xFF00FF);
    assert_eq!(pixels[256 * side + 511], 0xFF00FF);
    assert_eq!(pixels[side + 256], 0xFF00FF);
    assert_eq!(pixels[256 * side + 1], 0xFF00FF);
    assert_eq!(pixels[256 * side + 256], 0);
    assert_eq!(pixels[0], 0);
    assert!(pixels.iter().all(|&p| p == 0xFF00FF || p == 0));
}
