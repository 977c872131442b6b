use display_fs::image::{
    auto_fit_half_points, create_blank_image, image_to_rgb565_bytes, rgb_to_rgb565, Orientation,
    Rgb, RgbImage, MAX_FONT_HALF_POINTS, MIN_FONT_HALF_POINTS,
};

/// Physical dimensions of the small (0.96") display, used as the test fixture.
const SMALL_W: u32 = 80;
const SMALL_H: u32 = 160;
const LANDSCAPE: Orientation = Orientation::Landscape;

fn pixel_value(data: &[u8], px: u32, py: u32, width: u32) -> u16 {
    let idx = ((py * width + px) * 2) as usize;
    (data[idx] as u16) | ((data[idx + 1] as u16) << 8)
}

#[test]
fn test_orientation_dimensions() {
    assert_eq!(Orientation::Landscape.dimensions(SMALL_W, SMALL_H), (160, 80));
    assert_eq!(Orientation::Portrait.dimensions(SMALL_W, SMALL_H), (80, 160));
    assert_eq!(Orientation::LandscapeFlip.dimensions(SMALL_W, SMALL_H), (160, 80));
    assert_eq!(Orientation::PortraitFlip.dimensions(SMALL_W, SMALL_H), (80, 160));
    assert_eq!(Orientation::Landscape.dimensions(320, 480), (480, 320));
}

#[test]
fn test_default_orientation_is_landscape() {
    assert_eq!(Orientation::default(), Orientation::Landscape);
}

#[test]
fn test_create_blank_image_dimensions_and_black() {
    let img = create_blank_image(LANDSCAPE, SMALL_W, SMALL_H);
    assert_eq!((img.width(), img.height()), (160, 80));
    assert_eq!(img.get_pixel(0, 0), &Rgb(0, 0, 0));

    let portrait = create_blank_image(Orientation::Portrait, SMALL_W, SMALL_H);
    assert_eq!((portrait.width(), portrait.height()), (80, 160));
}

#[test]
fn test_rgb565_primary_colors() {
    assert_eq!(rgb_to_rgb565(0, 0, 0), 0x0000);
    assert_eq!(rgb_to_rgb565(255, 255, 255), 0xFFFF);
    assert_eq!(rgb_to_rgb565(255, 0, 0), 0xF800);
    assert_eq!(rgb_to_rgb565(0, 255, 0), 0x07E0);
    assert_eq!(rgb_to_rgb565(0, 0, 255), 0x001F);
}

#[test]
fn test_rgb565_output_size() {
    let img = create_blank_image(LANDSCAPE, SMALL_W, SMALL_H);
    let data = image_to_rgb565_bytes(&img, LANDSCAPE, SMALL_W, SMALL_H);
    // 80 × 160 × 2 bytes = 25600 bytes
    assert_eq!(data.len(), 25600);

    let large = create_blank_image(LANDSCAPE, 320, 480);
    let data = image_to_rgb565_bytes(&large, LANDSCAPE, 320, 480);
    assert_eq!(data.len(), 320 * 480 * 2);
}

#[test]
fn test_rgb565_landscape_rotation_mapping() {
    // Mark logical top-left pixel red in a landscape image; after the 90° CW
    // rotation it must land at physical (79, 0), i.e. the last pixel of the
    // first physical row.
    let mut img = create_blank_image(LANDSCAPE, SMALL_W, SMALL_H);
    img.put_pixel(0, 0, Rgb(255, 0, 0));
    let data = image_to_rgb565_bytes(&img, LANDSCAPE, SMALL_W, SMALL_H);

    let idx = (79 * 2) as usize; // physical (x=79, y=0), 2 bytes per pixel
    let value = (data[idx] as u16) | ((data[idx + 1] as u16) << 8);
    assert_eq!(value, 0xF800);
}

#[test]
fn rgb565_keeps_top_bits_of_each_channel() {
    assert_eq!(rgb_to_rgb565(0x12, 0x34, 0x56), (0x12 >> 3) << 11 | (0x34 >> 2) << 5 | (0x56 >> 3));
    assert_eq!(rgb_to_rgb565(7, 3, 7), 0);
    assert_eq!(rgb_to_rgb565(8, 4, 8), 0x0821);
}

#[test]
fn blank_image_encodes_to_zero_bytes() {
    let img = create_blank_image(Orientation::PortraitFlip, 4, 6);
    let data = image_to_rgb565_bytes(&img, Orientation::PortraitFlip, 4, 6);
    assert_eq!(data, vec![0u8; 4 * 6 * 2]);
}

#[test]
fn portrait_is_sent_as_is() {
    let mut img = create_blank_image(Orientation::Portrait, 3, 2);
    img.put_pixel(1, 0, Rgb(0, 0, 255));
    img.put_pixel(2, 1, Rgb(255, 255, 255));
    let data = image_to_rgb565_bytes(&img, Orientation::Portrait, 3, 2);
    assert_eq!(data.len(), 12);
    assert_eq!(pixel_value(&data, 1, 0, 3), 0x001F);
    assert_eq!(pixel_value(&data, 2, 1, 3), 0xFFFF);
    assert_eq!(pixel_value(&data, 0, 0, 3), 0);
}

#[test]
fn flip_variants_turn_by_half() {
    // Physical panel 3 wide, 5 tall.
    let (pw, ph) = (3u32, 5u32);

    // Portrait flip: logical (0, 0) shows at physical (2, 4).
    let mut img = create_blank_image(Orientation::PortraitFlip, pw, ph);
    img.put_pixel(0, 0, Rgb(255, 0, 0));
    let data = image_to_rgb565_bytes(&img, Orientation::PortraitFlip, pw, ph);
    assert_eq!(pixel_value(&data, 2, 4, pw), 0xF800);

    // Landscape: logical canvas is 5 x 3; logical (4, 0) shows at physical (2, 4).
    let mut img = create_blank_image(Orientation::Landscape, pw, ph);
    assert_eq!((img.width(), img.height()), (5, 3));
    img.put_pixel(4, 0, Rgb(0, 255, 0));
    let data = image_to_rgb565_bytes(&img, Orientation::Landscape, pw, ph);
    assert_eq!(pixel_value(&data, 2, 4, pw), 0x07E0);

    // Landscape flip: logical (4, 0) shows at physical (0, 0).
    let mut img = create_blank_image(Orientation::LandscapeFlip, pw, ph);
    img.put_pixel(4, 0, Rgb(0, 0, 255));
    let data = image_to_rgb565_bytes(&img, Orientation::LandscapeFlip, pw, ph);
    assert_eq!(pixel_value(&data, 0, 0, pw), 0x001F);
}

#[test]
fn from_pixels_checks_the_buffer_size() {
    assert!(RgbImage::from_pixels(2, 2, vec![Rgb(1, 2, 3); 3]).is_none());
    let img = RgbImage::from_pixels(2, 2, vec![Rgb(1, 2, 3), Rgb(4, 5, 6), Rgb(7, 8, 9), Rgb(10, 11, 12)])
        .unwrap();
    assert_eq!(img.get_pixel(0, 1), &Rgb(7, 8, 9));
    assert_eq!(img.get_pixel(1, 0), &Rgb(4, 5, 6));
}

#[test]
fn auto_fit_empty_text_is_minimum() {
    let size = auto_fit_half_points("", Orientation::Landscape, SMALL_W, SMALL_H, |_, _, _| true);
    assert_eq!(size, MIN_FONT_HALF_POINTS);
}

#[test]
fn auto_fit_finds_largest_fitting_size() {
    // Text is 3 px wide per half point: fits the 152 px box up to 50 half points.
    let size = auto_fit_half_points("Hi", Orientation::Landscape, SMALL_W, SMALL_H, |s, w, _h| {
        s * 3 <= w
    });
    assert_eq!(size, 50);
    // Everything fits: the search ends one half point below 72 px.
    let all = auto_fit_half_points("Hi", Orientation::Landscape, SMALL_W, SMALL_H, |_, _, _| true);
    assert_eq!(all, MAX_FONT_HALF_POINTS - 1);
    // Nothing fits: the minimum.
    let none = auto_fit_half_points("Hi", Orientation::Landscape, SMALL_W, SMALL_H, |_, _, _| false);
    assert_eq!(none, MIN_FONT_HALF_POINTS);
}

#[test]
fn auto_fit_uses_padded_canvas() {
    let seen = std::cell::Cell::new((0u32, 0u32));
    let _ = auto_fit_half_points("X", Orientation::Portrait, SMALL_W, SMALL_H, |_, w, h| {
        seen.set((w, h));
        true
    });
    assert_eq!(seen.get(), (72, 156));
}

#[test]
fn flip_sends_pixels_in_reverse_order() {
    let (pw, ph) = (3u32, 4u32);
    let mut img = create_blank_image(Orientation::Landscape, pw, ph);
    let mut v = 0u8;
    for y in 0..img.height() {
        for x in 0..img.width() {
            img.put_pixel(x, y, Rgb(v * 8, v * 4, v * 8));
            v += 1;
        }
    }
    let base = image_to_rgb565_bytes(&img, Orientation::Landscape, pw, ph);
    let flip = image_to_rgb565_bytes(&img, Orientation::LandscapeFlip, pw, ph);
    let base_px: Vec<&[u8]> = base.chunks(2).collect();
    let mut flip_px: Vec<&[u8]> = flip.chunks(2).collect();
    flip_px.reverse();
    assert_eq!(base_px, flip_px);
    assert_ne!(base, flip);
}
