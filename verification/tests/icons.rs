use deep_tek::{UTILITY_ICON_FRAME_SIZE, UTILITY_ICON_WIDTH, utility_icon_pixel, utility_icon_pixels};

fn pixel(pixels: &[u8], frame: usize, x: usize, y: usize) -> [u8; 4] {
    let start = (y * UTILITY_ICON_WIDTH + frame * UTILITY_ICON_FRAME_SIZE + x) * 4;
    [pixels[start], pixels[start + 1], pixels[start + 2], pixels[start + 3]]
}

#[test]
fn utility_icon_strip_holds_four_frames_of_nine_by_nine() {
    let pixels = utility_icon_pixels();
    assert_eq!(pixels.len(), 36 * 9 * 4);
    assert_eq!(pixel(&pixels, 0, 4, 0), [0, 255, 255, 255]);
    assert_eq!(pixel(&pixels, 0, 3, 8), [42, 65, 72, 255]);
    assert_eq!(pixel(&pixels, 0, 0, 0), [0, 0, 0, 0]);
    assert_eq!(pixel(&pixels, 1, 4, 4), [0, 255, 255, 255]);
    assert_eq!(pixel(&pixels, 1, 2, 3), [44, 52, 58, 255]);
    assert_eq!(pixel(&pixels, 1, 3, 3), [122, 136, 140, 255]);
    assert_eq!(pixel(&pixels, 2, 6, 2), [255, 255, 0, 255]);
    assert_eq!(pixel(&pixels, 2, 4, 7), [45, 55, 61, 255]);
    assert_eq!(pixel(&pixels, 2, 1, 1), [34, 42, 48, 255]);
    assert_eq!(pixel(&pixels, 3, 4, 3), [0, 255, 255, 255]);
    assert_eq!(pixel(&pixels, 3, 2, 5), [28, 39, 44, 255]);
    assert_eq!(pixel(&pixels, 3, 2, 4), [94, 110, 114, 255]);
    assert_eq!(pixel(&pixels, 3, 8, 8), [0, 0, 0, 0]);
}

#[test]
fn utility_icon_pixel_matches_the_strip() {
    let pixels = utility_icon_pixels();
    for frame in 0..4 {
        for y in 0..9 {
            for x in 0..9 {
                let (r, g, b, a) = utility_icon_pixel(frame, x, y);
                assert_eq!(pixel(&pixels, frame, x, y), [r, g, b, a]);
            }
        }
    }
}
