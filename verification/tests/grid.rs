use image_concat_rs::column_concat_images;
use image_concat_rs::concat_images;
use image_concat_rs::layout::plan_vertical_decode;
use image_concat_rs::plan_columns;
use image_concat_rs::ConcatDirection;
use image_concat_rs::ConcatError;
use image_concat_rs::Image;
use image_concat_rs::Rgb;

fn solid(width: u32, height: u32, p: Rgb) -> Image {
    let mut img = Image::new(width, height);
    for y in 0..height {
        for x in 0..width {
            img.set_pixel(x, y, p);
        }
    }
    img
}

fn red() -> Rgb {
    Rgb { r: 200, g: 10, b: 10 }
}
fn green() -> Rgb {
    Rgb { r: 10, g: 200, b: 10 }
}
fn blue() -> Rgb {
    Rgb { r: 10, g: 10, b: 200 }
}

#[test]
fn test_column_concat_images_unbalanced() {
    let single_img = vec![solid(40, 30, red())];
    // request concatting 2 columns, but only pass 1 image
    let _img_result = column_concat_images(&single_img, 2).unwrap();
}

#[test]
fn seven_images_three_columns_sizes() {
    let sizes = plan_columns(7, 3).unwrap();
    assert_eq!(sizes, vec![3, 2, 2]);
}

#[test]
fn one_image_two_columns_sizes_and_no_gap() {
    let sizes = plan_columns(1, 2).unwrap();
    assert_eq!(sizes, vec![1, 0]);

    let single = vec![solid(40, 30, red())];
    let canvas = column_concat_images(&single, 2).unwrap();
    // the empty trailing column contributes no width: no gap
    assert_eq!(canvas.width(), 40);
    assert_eq!(canvas.height(), 30);
    assert_eq!(canvas.get_pixel(39, 29), red());
}

#[test]
fn zero_columns_is_invalid_argument() {
    assert_eq!(plan_columns(5, 0).unwrap_err(), ConcatError::InvalidArgument);

    let imgs = vec![solid(4, 4, red())];
    assert_eq!(column_concat_images(&imgs, 0).unwrap_err(), ConcatError::InvalidArgument);
}

#[test]
fn plan_sizes_sum_and_shape() {
    for n in 0..20usize {
        for c in 1..7usize {
            let sizes = plan_columns(n, c).unwrap();
            assert_eq!(sizes.len(), c);
            assert_eq!(sizes.iter().sum::<usize>(), n);
            for w in sizes.windows(2) {
                assert!(w[0] >= w[1]);
                assert!(w[0] - w[1] <= 1);
            }
        }
    }
}

#[test]
fn columns_are_filled_top_to_bottom_then_left_to_right() {
    // 3 images over 2 columns: column 0 gets the first two, column 1 the third
    let imgs = vec![solid(10, 5, red()), solid(8, 5, green()), solid(6, 5, blue())];
    let canvas = column_concat_images(&imgs, 2).unwrap();
    // column 0 is 10 wide (max of 10 and 8), column 1 is 6 wide
    assert_eq!(canvas.width(), 16);
    // column 0 is 10 tall, column 1 is 5 tall
    assert_eq!(canvas.height(), 10);
    assert_eq!(canvas.get_pixel(0, 0), red());
    assert_eq!(canvas.get_pixel(0, 5), green());
    assert_eq!(canvas.get_pixel(10, 0), blue());
    // under the narrower second image the column stays black
    assert_eq!(canvas.get_pixel(9, 5), Rgb { r: 0, g: 0, b: 0 });
    // under the short second column the canvas stays black
    assert_eq!(canvas.get_pixel(10, 5), Rgb { r: 0, g: 0, b: 0 });
}

#[test]
fn column_concat_matches_horizontal_of_stacked_columns() {
    let imgs = vec![solid(7, 3, red()), solid(5, 4, green()), solid(6, 2, blue())];
    let grid = column_concat_images(&imgs, 2).unwrap();

    let col0 = concat_images(&imgs[0..2], ConcatDirection::Vertical).unwrap();
    let col1 = concat_images(&imgs[2..3], ConcatDirection::Vertical).unwrap();
    let strip = concat_images(&[col0, col1], ConcatDirection::Horizontal).unwrap();

    assert_eq!(grid.width(), strip.width());
    assert_eq!(grid.height(), strip.height());
    assert_eq!(grid.data, strip.data);
}

#[test]
fn vertical_decode_plan_uniform_widths() {
    let dims = vec![(4u32, 2u32), (4u32, 3u32)];
    let plan = plan_vertical_decode(&dims);
    assert_eq!(plan.width, 4);
    assert_eq!(plan.height, 5);
    let ranges = plan.ranges.unwrap();
    assert_eq!(ranges, vec![(0, 24), (24, 60)]);
}

#[test]
fn vertical_decode_plan_refuses_mixed_widths() {
    let dims = vec![(4u32, 2u32), (3u32, 3u32)];
    let plan = plan_vertical_decode(&dims);
    assert_eq!(plan.width, 4);
    assert_eq!(plan.height, 5);
    assert!(plan.ranges.is_none());
}
