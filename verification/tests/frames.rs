use pixelator::{
    background_for_slides, create_background, cross, fit, make_image, map_onto_whitespace,
    pixelate, split, BackgroundColour, Mode, Pixel, Raster,
};

fn opaque(r: u8, g: u8, b: u8) -> Pixel {
    Pixel { r, g, b, a: 255 }
}

#[test]
fn background_replaces_fully_transparent_pixels() {
    let img = Raster::filled(2, 1, Pixel { r: 9, g: 9, b: 9, a: 0 });
    let out = create_background(img, &BackgroundColour::White);
    assert_eq!(out.get(0, 0), opaque(255, 255, 255));
    assert_eq!(out.get(1, 0), opaque(255, 255, 255));
}

#[test]
fn background_leaves_fully_opaque_pixels() {
    let img = Raster::filled(1, 1, opaque(12, 34, 56));
    let out = create_background(img, &BackgroundColour::Black);
    assert_eq!(out.get(0, 0), opaque(12, 34, 56));
}

#[test]
fn background_custom_colour_fills_transparency() {
    let img = Raster::filled(1, 1, Pixel { r: 0, g: 0, b: 0, a: 0 });
    let out = create_background(img, &BackgroundColour::Custom((10, 20, 30)));
    assert_eq!(out.get(0, 0), opaque(10, 20, 30));
}

#[test]
fn background_for_slides_keeps_count_and_order() {
    let a = Raster::filled(1, 1, Pixel { r: 1, g: 0, b: 0, a: 0 });
    let b = Raster::filled(1, 1, Pixel { r: 0, g: 2, b: 0, a: 255 });
    let out = background_for_slides(vec![a, b], BackgroundColour::White);
    assert_eq!(out.len(), 2);
    assert_eq!(out[0].get(0, 0), opaque(255, 255, 255));
    assert_eq!(out[1].get(0, 0), opaque(0, 2, 0));
}

#[test]
fn whitespace_light_blanks_the_dark_bucket() {
    let mut img = Raster::filled(2, 1, opaque(0, 0, 0));
    img.set(1, 0, opaque(200, 210, 220));
    let out = map_onto_whitespace(&img, &Mode::Light).unwrap();
    assert_eq!(out.get(0, 0), opaque(255, 255, 255));
    assert_eq!(out.get(1, 0), opaque(200, 210, 220));
}

#[test]
fn whitespace_dark_blanks_the_light_bucket() {
    let mut img = Raster::filled(2, 1, opaque(30, 30, 30));
    img.set(1, 0, opaque(240, 240, 240));
    let out = map_onto_whitespace(&img, &Mode::Dark).unwrap();
    assert_eq!(out.get(0, 0), opaque(30, 30, 30));
    assert_eq!(out.get(1, 0), opaque(255, 255, 255));
}

#[test]
fn whitespace_random_renders_plain_bilevel() {
    let mut img = Raster::filled(2, 1, opaque(10, 10, 10));
    img.set(1, 0, opaque(250, 250, 250));
    let out = map_onto_whitespace(&img, &Mode::Random).unwrap();
    assert_eq!(out.get(0, 0), opaque(0, 0, 0));
    assert_eq!(out.get(1, 0), opaque(255, 255, 255));
}

#[test]
fn pixelate_averages_each_block() {
    let mut pixels = Vec::new();
    // two 2x2 blocks side by side in a 4x2 image
    let left = [
        Pixel { r: 0, g: 0, b: 0, a: 0 },
        Pixel { r: 2, g: 2, b: 2, a: 2 },
        Pixel { r: 4, g: 4, b: 4, a: 4 },
        Pixel { r: 6, g: 6, b: 6, a: 6 },
    ];
    let right = [
        Pixel { r: 100, g: 0, b: 0, a: 255 },
        Pixel { r: 100, g: 0, b: 0, a: 255 },
        Pixel { r: 100, g: 0, b: 0, a: 255 },
        Pixel { r: 102, g: 0, b: 0, a: 255 },
    ];
    pixels.push(left[0]);
    pixels.push(left[1]);
    pixels.push(right[0]);
    pixels.push(right[1]);
    pixels.push(left[2]);
    pixels.push(left[3]);
    pixels.push(right[2]);
    pixels.push(right[3]);
    let img = Raster::from_pixels(4, 2, pixels).unwrap();
    let out = pixelate(img, 2);
    assert_eq!(out.width, 2);
    assert_eq!(out.height, 1);
    assert_eq!(out.get(0, 0), Pixel { r: 3, g: 3, b: 3, a: 3 });
    assert_eq!(out.get(1, 0), Pixel { r: 100, g: 0, b: 0, a: 255 });
}

#[test]
fn pixelate_keeps_single_pixel_blocks() {
    let mut img = Raster::filled(2, 2, opaque(1, 2, 3));
    img.set(1, 1, opaque(7, 8, 9));
    let out = pixelate(img, 2);
    assert_eq!(out.width, 2);
    assert_eq!(out.height, 2);
    assert_eq!(out.get(0, 0), opaque(1, 2, 3));
    assert_eq!(out.get(1, 1), opaque(7, 8, 9));
}

#[test]
fn split_confirms_bilevel_midpoint() {
    assert!(split());
}

#[test]
fn fit_lists_common_factors_in_order() {
    let pairs = fit(12, 8).unwrap();
    assert_eq!(pairs, vec![(6, 4), (3, 2)]);
}

#[test]
fn fit_finds_nothing_for_coprime_sides() {
    assert!(fit(7, 5).is_none());
}

#[test]
fn make_image_is_all_white() {
    let img = make_image((3, 2));
    assert_eq!(img.width, 3);
    assert_eq!(img.height, 2);
    for y in 0..2 {
        for x in 0..3 {
            assert_eq!(img.get(x, y), opaque(255, 255, 255));
        }
    }
}

#[test]
fn cross_draws_two_red_bars() {
    let img = cross();
    assert_eq!(img.width, 32);
    assert_eq!(img.height, 32);
    assert_eq!(img.get(16, 10), opaque(255, 0, 0));
    assert_eq!(img.get(10, 16), opaque(255, 0, 0));
    assert_eq!(img.get(16, 16), opaque(255, 0, 0));
    assert_eq!(img.get(0, 0), opaque(0, 0, 0));
    assert_eq!(img.get(14, 7), opaque(0, 0, 0));
}

#[test]
fn from_pixels_checks_the_buffer_length() {
    assert!(Raster::from_pixels(2, 2, vec![opaque(0, 0, 0); 4]).is_some());
    assert!(Raster::from_pixels(2, 2, vec![opaque(0, 0, 0); 3]).is_none());
}
