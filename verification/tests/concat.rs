use image_concat_rs::concat_images;
use image_concat_rs::get_concat_blits;
use image_concat_rs::place_images_in_buffer;
use image_concat_rs::ConcatDirection;
use image_concat_rs::Image;
use image_concat_rs::ImageBlit;
use image_concat_rs::Rgb;
use image_concat_rs::compose::composite;
use image_concat_rs::ConcatError;

fn solid(width: u32, height: u32, p: Rgb) -> Image {
    let mut img = Image::new(width, height);
    for y in 0..height {
        for x in 0..width {
            img.set_pixel(x, y, p);
        }
    }
    img
}

fn red() -> Rgb {
    Rgb { r: 200, g: 10, b: 10 }
}
fn green() -> Rgb {
    Rgb { r: 10, g: 200, b: 10 }
}
fn blue() -> Rgb {
    Rgb { r: 10, g: 10, b: 200 }
}
fn black() -> Rgb {
    Rgb { r: 0, g: 0, b: 0 }
}

#[test]
fn test_concat_images() {
    let imgs = vec![solid(120, 40, red()), solid(80, 60, green())];
    let expected_w = imgs.iter().map(|img| img.width()).max().unwrap();
    let expected_h: u32 = imgs.iter().map(|img| img.height()).sum();

    let img_result = concat_images(&imgs, ConcatDirection::Vertical).unwrap();
    assert_eq!(img_result.width(), expected_w);
    assert_eq!(img_result.height(), expected_h);
}

#[test]
fn two_images_stacked_vertical() {
    let a = solid(100, 50, red());
    let b = solid(100, 50, green());
    let imgs = vec![a, b];

    let blits = get_concat_blits(&imgs, ConcatDirection::Vertical, 0, 0);
    assert_eq!(blits.len(), 2);
    assert_eq!((blits[0].x, blits[0].y), (0, 0));
    assert_eq!((blits[1].x, blits[1].y), (0, 50));

    let canvas = concat_images(&imgs, ConcatDirection::Vertical).unwrap();
    assert_eq!(canvas.width(), 100);
    assert_eq!(canvas.height(), 100);
    assert_eq!(canvas.get_pixel(0, 0), red());
    assert_eq!(canvas.get_pixel(99, 49), red());
    assert_eq!(canvas.get_pixel(0, 50), green());
    assert_eq!(canvas.get_pixel(99, 99), green());
}

#[test]
fn three_widths_stacked_horizontal() {
    let imgs = vec![solid(100, 30, red()), solid(150, 60, green()), solid(120, 45, blue())];
    let canvas = concat_images(&imgs, ConcatDirection::Horizontal).unwrap();
    assert_eq!(canvas.width(), 370);
    assert_eq!(canvas.height(), 60);
    assert_eq!(canvas.get_pixel(0, 0), red());
    assert_eq!(canvas.get_pixel(100, 0), green());
    assert_eq!(canvas.get_pixel(250, 0), blue());
    // below the shorter first image the canvas stays black
    assert_eq!(canvas.get_pixel(0, 59), black());
}

#[test]
fn empty_input_gives_empty_canvas() {
    let imgs: Vec<Image> = Vec::new();
    let canvas = concat_images(&imgs, ConcatDirection::Vertical).unwrap();
    assert_eq!(canvas.width(), 0);
    assert_eq!(canvas.height(), 0);
}

#[test]
fn zero_sized_image_contributes_nothing() {
    let imgs = vec![solid(0, 0, red()), solid(2, 2, green())];
    let canvas = concat_images(&imgs, ConcatDirection::Vertical).unwrap();
    assert_eq!(canvas.width(), 2);
    assert_eq!(canvas.height(), 2);
    assert_eq!(canvas.get_pixel(0, 0), green());
}

#[test]
fn round_trip_reads_back_sources() {
    let a = solid(3, 2, red());
    let b = solid(2, 4, blue());
    let blits = vec![
        ImageBlit { img: &a, x: 0, y: 0 },
        ImageBlit { img: &b, x: 5, y: 1 },
    ];
    let canvas = place_images_in_buffer(&blits).unwrap();
    assert_eq!(canvas.width(), 7);
    assert_eq!(canvas.height(), 5);
    for dy in 0..2 {
        for dx in 0..3 {
            assert_eq!(canvas.get_pixel(dx, dy), a.get_pixel(dx, dy));
        }
    }
    for dy in 0..4 {
        for dx in 0..2 {
            assert_eq!(canvas.get_pixel(5 + dx, 1 + dy), b.get_pixel(dx, dy));
        }
    }
    // the gap between the two rectangles stays black
    assert_eq!(canvas.get_pixel(4, 0), black());
}

#[test]
fn later_blit_wins_on_overlap() {
    let a = solid(4, 4, red());
    let b = solid(4, 4, green());
    let blits = vec![
        ImageBlit { img: &a, x: 0, y: 0 },
        ImageBlit { img: &b, x: 2, y: 2 },
    ];
    let canvas = place_images_in_buffer(&blits).unwrap();
    assert_eq!(canvas.width(), 6);
    assert_eq!(canvas.height(), 6);
    assert_eq!(canvas.get_pixel(1, 1), red());
    // in the overlap the later blit overwrites the earlier one
    assert_eq!(canvas.get_pixel(2, 2), green());
    assert_eq!(canvas.get_pixel(3, 3), green());
}

#[test]
fn stacking_twice_is_bit_identical() {
    let imgs = vec![solid(33, 7, red()), solid(12, 19, green()), solid(25, 3, blue())];
    let c1 = concat_images(&imgs, ConcatDirection::Vertical).unwrap();
    let c2 = concat_images(&imgs, ConcatDirection::Vertical).unwrap();
    assert_eq!(c1.width(), c2.width());
    assert_eq!(c1.height(), c2.height());
    assert_eq!(c1.data, c2.data);
}

#[test]
fn composite_rejects_blit_outside_canvas() {
    let a = solid(3, 3, red());
    let blits = vec![ImageBlit { img: &a, x: 1, y: 0 }];
    let r = composite(3, 3, &blits);
    assert_eq!(r.unwrap_err(), ConcatError::OutOfBounds);

    let ok = composite(4, 3, &blits).unwrap();
    assert_eq!(ok.get_pixel(0, 0), black());
    assert_eq!(ok.get_pixel(1, 0), red());
}

#[test]
fn from_raw_checks_length() {
    let data = vec![7u8; 12];
    let img = Image::from_raw(2, 2, data).unwrap();
    assert_eq!(img.width(), 2);
    assert_eq!(img.height(), 2);
    assert_eq!(img.get_pixel(1, 1), Rgb { r: 7, g: 7, b: 7 });

    let wrong = Image::from_raw(2, 2, vec![7u8; 11]);
    assert!(wrong.is_none());
}

#[test]
fn set_pixel_then_get_pixel() {
    let mut img = Image::new(3, 3);
    img.set_pixel(2, 1, blue());
    assert_eq!(img.get_pixel(2, 1), blue());
    assert_eq!(img.get_pixel(1, 2), black());
}
