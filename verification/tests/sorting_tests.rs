use pixelsort::color::{ColorComponent, ColorSpace, ColorSpaceMask};
use pixelsort::raster::{Pixel, RgbImage};
use pixelsort::sorting::{io_to_xy, sort_in_place, Dimension, SortingOptions};

fn px(r: u8, g: u8, b: u8) -> Pixel {
    Pixel { r, g, b }
}

fn options(component: ColorComponent, dimension: Dimension, names: [&str; 3]) -> SortingOptions {
    SortingOptions {
        comparison_component: component,
        dimension,
        affected_components: ColorSpaceMask::from(names),
    }
}

#[test]
fn dimension_names_parse() {
    assert_eq!(Dimension::from_str("Row"), Ok(Dimension::Row));
    assert_eq!(Dimension::from_str("Column"), Ok(Dimension::Column));
}

#[test]
fn dimension_bad_names_rejected() {
    assert_eq!(Dimension::from_str("row"), Err(()));
    assert_eq!(Dimension::from_str("Diagonal"), Err(()));
    assert_eq!(Dimension::from_str(""), Err(()));
}

#[test]
fn io_to_xy_maps_axes() {
    assert_eq!(io_to_xy(3, 7, Dimension::Row), (3, 7));
    assert_eq!(io_to_xy(3, 7, Dimension::Column), (7, 3));
}

#[test]
fn row_sort_by_red_orders_pixels() {
    let pixels = vec![
        px(200, 10, 10),
        px(50, 0, 0),
        px(255, 3, 9),
        px(0, 7, 1),
        px(120, 0, 0),
    ];
    let mut image = RgbImage::new(5, 1, pixels);
    let opts = options(
        ColorComponent::Red,
        Dimension::Row,
        ["Red", "Green", "Blue"],
    );
    sort_in_place(&mut image, &opts);
    let expected = vec![
        px(0, 7, 1),
        px(50, 0, 0),
        px(120, 0, 0),
        px(200, 10, 10),
        px(255, 3, 9),
    ];
    assert_eq!(image.pixels(), &expected);
}

#[test]
fn row_sorted_red_is_nondecreasing() {
    let pixels = vec![
        px(9, 1, 2),
        px(250, 0, 0),
        px(17, 200, 3),
        px(17, 5, 250),
        px(99, 99, 99),
        px(0, 0, 0),
    ];
    let mut image = RgbImage::new(6, 1, pixels);
    let opts = options(
        ColorComponent::Red,
        Dimension::Row,
        ["Red", "Green", "Blue"],
    );
    sort_in_place(&mut image, &opts);
    let out = image.pixels();
    for i in 1..out.len() {
        assert!(out[i - 1].r <= out[i].r);
    }
}

#[test]
fn hue_row_sort_of_primaries_is_stable() {
    let pixels = vec![px(255, 0, 0), px(0, 255, 0), px(0, 0, 255)];
    let mut image = RgbImage::new(3, 1, pixels.clone());
    let opts = options(
        ColorComponent::Hue,
        Dimension::Row,
        ["Red", "Green", "Blue"],
    );
    sort_in_place(&mut image, &opts);
    assert_eq!(image.pixels(), &pixels);
}

#[test]
fn lightness_column_sort_masked_keeps_primaries() {
    let pixels = vec![px(255, 0, 0), px(0, 255, 0), px(0, 0, 255)];
    let mut image = RgbImage::new(1, 3, pixels.clone());
    let opts = options(
        ColorComponent::Lightness,
        Dimension::Column,
        ["Lightness", "", ""],
    );
    sort_in_place(&mut image, &opts);
    assert_eq!(image.pixels(), &pixels);
}

#[test]
fn column_sort_by_red_orders_pixels() {
    let pixels = vec![px(30, 1, 1), px(10, 2, 2), px(20, 3, 3)];
    let mut image = RgbImage::new(1, 3, pixels);
    let opts = options(
        ColorComponent::Red,
        Dimension::Column,
        ["Red", "Green", "Blue"],
    );
    sort_in_place(&mut image, &opts);
    let expected = vec![px(10, 2, 2), px(20, 3, 3), px(30, 1, 1)];
    assert_eq!(image.pixels(), &expected);
}

#[test]
fn rows_do_not_interact() {
    let pixels = vec![px(9, 0, 0), px(3, 0, 0), px(200, 0, 0), px(100, 0, 0)];
    let mut image = RgbImage::new(2, 2, pixels);
    let opts = options(
        ColorComponent::Red,
        Dimension::Row,
        ["Red", "Green", "Blue"],
    );
    sort_in_place(&mut image, &opts);
    let expected = vec![px(3, 0, 0), px(9, 0, 0), px(100, 0, 0), px(200, 0, 0)];
    assert_eq!(image.pixels(), &expected);
}

#[test]
fn all_false_mask_is_no_op() {
    let pixels = vec![px(200, 13, 77), px(4, 250, 98), px(31, 31, 31), px(0, 255, 17)];
    let mut image = RgbImage::new(4, 1, pixels.clone());
    let opts = SortingOptions {
        comparison_component: ColorComponent::Hue,
        dimension: Dimension::Row,
        affected_components: Default::default(),
    };
    sort_in_place(&mut image, &opts);
    assert_eq!(image.pixels(), &pixels);
}

#[test]
fn all_false_hsl_mask_is_no_op() {
    // Even a hand-built all-false mask in a non-RGB space writes nothing:
    // no pixel is round-tripped through the mask's space.
    let pixels = vec![px(1, 2, 3), px(254, 253, 252), px(77, 131, 99)];
    let mut image = RgbImage::new(3, 1, pixels.clone());
    let opts = SortingOptions {
        comparison_component: ColorComponent::Value,
        dimension: Dimension::Row,
        affected_components: ColorSpaceMask {
            space: ColorSpace::HSL,
            components: [false, false, false],
        },
    };
    sort_in_place(&mut image, &opts);
    assert_eq!(image.pixels(), &pixels);
}

#[test]
fn sorting_twice_equals_sorting_once() {
    let pixels = vec![
        px(0, 0, 255),
        px(255, 0, 0),
        px(128, 128, 0),
        px(0, 255, 0),
        px(10, 200, 130),
    ];
    let mut image = RgbImage::new(5, 1, pixels);
    let opts = options(
        ColorComponent::Hue,
        Dimension::Row,
        ["Hue", "Saturation", "Lightness"],
    );
    sort_in_place(&mut image, &opts);
    let once = image.pixels().clone();
    sort_in_place(&mut image, &opts);
    assert_eq!(image.pixels(), &once);
}

#[test]
fn dimensions_and_pixel_count_preserved() {
    let pixels: Vec<Pixel> = (0..12).map(|i| px(i as u8 * 20, 255 - i as u8, i as u8)).collect();
    let mut image = RgbImage::new(4, 3, pixels);
    let opts = options(ColorComponent::Value, Dimension::Column, ["Value", "", ""]);
    sort_in_place(&mut image, &opts);
    assert_eq!(image.width(), 4);
    assert_eq!(image.height(), 3);
    assert_eq!(image.pixels().len(), 12);
}

#[test]
fn empty_image_is_no_op() {
    let mut image = RgbImage::new(0, 0, Vec::new());
    let opts = options(
        ColorComponent::Hue,
        Dimension::Row,
        ["Red", "Green", "Blue"],
    );
    sort_in_place(&mut image, &opts);
    assert_eq!(image.width(), 0);
    assert_eq!(image.height(), 0);
    assert_eq!(image.pixels().len(), 0);
}

#[test]
fn single_pixel_line_sorts_to_itself() {
    let pixels = vec![px(42, 17, 99)];
    let mut image = RgbImage::new(1, 1, pixels.clone());
    let opts = options(
        ColorComponent::Saturation,
        Dimension::Column,
        ["Hue", "Saturation", "Lightness"],
    );
    sort_in_place(&mut image, &opts);
    assert_eq!(image.pixels(), &pixels);
}
