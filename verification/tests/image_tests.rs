use fon_de_de_na_ja::image_processing::ImageProcessor;
use fon_de_de_na_ja::raster::{GradientImage, GrayImage, MAX_PIXELS};
use fon_de_de_na_ja::template::OmrTemplate;

fn image(width: u32, height: u32, data: Vec<u8>) -> GrayImage {
    GrayImage::from_raw(width, height, data).unwrap()
}

#[test]
fn an_image_holds_width_times_height_pixels() {
    assert!(GrayImage::from_raw(3, 2, vec![0; 6]).is_some());
    assert!(GrayImage::from_raw(3, 2, vec![0; 5]).is_none());
    assert!(GrayImage::from_raw(3, 2, vec![0; 7]).is_none());
    assert!(GrayImage::from_raw(0, 9, vec![]).is_some());
    assert!(GrayImage::filled(4096, 4096, 1).is_some());
    assert!(GrayImage::filled(4097, 4096, 1).is_none());
    assert!(GrayImage::filled(u32::MAX, u32::MAX, 1).is_none());
    assert_eq!(MAX_PIXELS, 4096 * 4096);
    assert!(GradientImage::from_raw(2, 2, vec![0; 3]).is_none());
}

#[test]
fn pixels_are_stored_row_by_row() {
    let img = image(3, 2, vec![1, 2, 3, 4, 5, 6]);
    assert_eq!(img.get_pixel(0, 0), 1);
    assert_eq!(img.get_pixel(2, 0), 3);
    assert_eq!(img.get_pixel(0, 1), 4);
    assert_eq!(img.get_pixel_checked(2, 1), Some(6));
    assert_eq!(img.get_pixel_checked(3, 0), None);
    assert_eq!(img.get_pixel_checked(0, 2), None);
    assert_eq!(img.get(4), 5);
    assert_eq!(img.pixel_count(), 6);
    assert_eq!(img.duplicate().into_raw(), vec![1, 2, 3, 4, 5, 6]);
}

#[test]
fn a_crop_copies_a_window() {
    let img = image(4, 3, vec![0, 1, 2, 3, 10, 11, 12, 13, 20, 21, 22, 23]);
    let crop = img.crop(1, 1, 2, 2);
    assert_eq!((crop.width(), crop.height()), (2, 2));
    assert_eq!(crop.into_raw(), vec![11, 12, 21, 22]);
    assert_eq!(img.crop(4, 3, 0, 0).pixel_count(), 0);
}

#[test]
fn threshold_maps_below_to_black_and_the_rest_to_white() {
    let out = ImageProcessor::apply_threshold(&image(4, 1, vec![0, 99, 100, 255]), 100);
    assert_eq!(out.into_raw(), vec![0, 0, 255, 255]);
    let all = ImageProcessor::apply_threshold(&image(2, 1, vec![0, 255]), 0);
    assert_eq!(all.into_raw(), vec![255, 255]);
}

#[test]
fn normalisation_stretches_to_the_full_range() {
    let out = ImageProcessor::normalize_image(&image(5, 1, vec![50, 100, 125, 149, 150]));
    // (v - 50) * 255 / 100, rounded down.
    assert_eq!(out.into_raw(), vec![0, 127, 191, 252, 255]);
}

#[test]
fn normalisation_leaves_a_flat_image_alone() {
    let out = ImageProcessor::normalize_image(&image(3, 1, vec![77, 77, 77]));
    assert_eq!(out.into_raw(), vec![77, 77, 77]);
    let empty = ImageProcessor::normalize_image(&image(0, 0, vec![]));
    assert_eq!(empty.pixel_count(), 0);
}

#[test]
fn gamma_correction_looks_pixels_up() {
    let table: Vec<u8> = (0..256u32).map(|i| (255 - i) as u8).collect();
    let out = ImageProcessor::apply_gamma_correction(&image(3, 1, vec![0, 10, 255]), &table);
    assert_eq!(out.into_raw(), vec![255, 245, 0]);
}

#[test]
fn preprocessing_normalises_then_corrects() {
    let table: Vec<u8> = (0..256u32).map(|i| (i / 2) as u8).collect();
    let out = ImageProcessor::preprocess_image(&image(3, 1, vec![50, 100, 150]), &table);
    assert_eq!(out.into_raw(), vec![0, 63, 127]);
}

#[test]
fn erosion_takes_the_least_of_the_neighbourhood() {
    let img = image(4, 3, vec![9, 8, 7, 6, 5, 4, 3, 2, 9, 9, 9, 1]);
    let out = ImageProcessor::apply_morphology(&img, "erode");
    assert_eq!(out.into_raw(), vec![4, 3, 2, 2, 4, 3, 1, 1, 4, 3, 1, 1]);
}

#[test]
fn dilation_takes_the_greatest_of_the_neighbourhood() {
    let img = image(4, 3, vec![9, 8, 7, 6, 5, 4, 3, 2, 9, 9, 9, 1]);
    let out = ImageProcessor::apply_morphology(&img, "dilate");
    assert_eq!(out.into_raw(), vec![9, 9, 8, 7, 9, 9, 9, 9, 9, 9, 9, 9]);
}

#[test]
fn opening_removes_a_speck_and_closing_fills_a_hole() {
    let mut speck = vec![0u8; 25];
    speck[12] = 255;
    let opened = ImageProcessor::apply_morphology(&image(5, 5, speck.clone()), "open");
    assert_eq!(opened.into_raw(), vec![0u8; 25]);
    let closed_speck = ImageProcessor::apply_morphology(&image(5, 5, speck.clone()), "close");
    assert_eq!(closed_speck.into_raw(), speck);
    let mut hole = vec![255u8; 25];
    hole[12] = 0;
    let closed = ImageProcessor::apply_morphology(&image(5, 5, hole.clone()), "close");
    assert_eq!(closed.into_raw(), vec![255u8; 25]);
    // Erosion widens the hole to three by three; dilation closes it again up to the
    // one pixel whose whole neighbourhood is dark.
    let opened_hole = ImageProcessor::apply_morphology(&image(5, 5, hole.clone()), "open");
    assert_eq!(opened_hole.into_raw(), hole.clone());
    let eroded_hole = ImageProcessor::apply_morphology(&image(5, 5, hole), "erode");
    let mut expected = vec![255u8; 25];
    for y in 1..4 {
        for x in 1..4 {
            expected[y * 5 + x] = 0;
        }
    }
    assert_eq!(eroded_hole.into_raw(), expected);
}

#[test]
fn an_unknown_operation_copies_the_image() {
    let img = image(2, 2, vec![1, 2, 3, 4]);
    assert_eq!(ImageProcessor::apply_morphology(&img, "skeleton").into_raw(), vec![1, 2, 3, 4]);
    assert_eq!(ImageProcessor::apply_morphology(&img, "Erode").into_raw(), vec![1, 2, 3, 4]);
}

#[test]
fn morphology_with_a_larger_kernel() {
    let mut data = vec![100u8; 49];
    data[24] = 0;
    let eroded = ImageProcessor::morphological_erode(&image(7, 7, data.clone()), 5);
    let raw = eroded.into_raw();
    for y in 0..7usize {
        for x in 0..7usize {
            let inside = (1..=5).contains(&x) && (1..=5).contains(&y);
            assert_eq!(raw[y * 7 + x], if inside { 0 } else { 100 });
        }
    }
    let dilated = ImageProcessor::morphological_dilate(&image(7, 7, data.clone()), 1);
    assert_eq!(dilated.into_raw(), data);
    let huge = ImageProcessor::morphological_erode(&image(7, 7, data), u32::MAX);
    assert_eq!(huge.into_raw(), vec![0u8; 49]);
}

#[test]
fn median_filter_takes_the_middle_of_the_sorted_neighbourhood() {
    let img = image(3, 3, vec![1, 2, 3, 4, 100, 6, 7, 8, 9]);
    let out = ImageProcessor::apply_median_filter(&img, 1);
    // The corners see four pixels and take the third smallest, the edges see six and take
    // the fourth, the centre sees nine and takes the fifth.
    assert_eq!(out.into_raw(), vec![4, 4, 6, 7, 6, 8, 8, 8, 9]);
    let same = ImageProcessor::apply_median_filter(&img, 0);
    assert_eq!(same.into_raw(), vec![1, 2, 3, 4, 100, 6, 7, 8, 9]);
}

#[test]
fn histogram_equalisation_of_a_region() {
    let mut img = image(4, 2, vec![10, 20, 30, 40, 10, 10, 30, 50]);
    ImageProcessor::apply_histogram_equalization_to_region(&mut img, 0, 0, 2, 2);
    // The tile holds 10, 20, 10, 10: three of four are no brighter than 10, four of four
    // than 20.
    assert_eq!(img.into_raw(), vec![191, 255, 30, 40, 191, 191, 30, 50]);
    let mut clipped = image(2, 2, vec![1, 2, 3, 4]);
    ImageProcessor::apply_histogram_equalization_to_region(&mut clipped, 1, 0, 9, 9);
    assert_eq!(clipped.into_raw(), vec![1, 127, 3, 255]);
    let mut outside = image(2, 2, vec![1, 2, 3, 4]);
    ImageProcessor::apply_histogram_equalization_to_region(&mut outside, 2, 0, 9, 9);
    assert_eq!(outside.into_raw(), vec![1, 2, 3, 4]);
}

#[test]
fn tiles_are_equalised_one_by_one() {
    let mut data = vec![0u8; 10 * 8];
    for y in 0..8 {
        for x in 0..10 {
            data[y * 10 + x] = if x < 8 { (x * 8 + y) as u8 } else { 200 };
        }
    }
    let out = ImageProcessor::apply_clahe(&image(10, 8, data));
    // In the first tile all 64 pixels differ: the pixel of rank r becomes (r + 1) * 255 / 64.
    assert_eq!(out.get_pixel(0, 0), 3);
    assert_eq!(out.get_pixel(0, 1), 7);
    assert_eq!(out.get_pixel(7, 7), 255);
    assert_eq!(out.get_pixel(4, 0), (33 * 255 / 64) as u8);
    // The second tile is flat.
    assert_eq!(out.get_pixel(8, 0), 255);
    assert_eq!(out.get_pixel(9, 7), 255);
    assert_eq!(ImageProcessor::apply_clahe(&image(0, 5, vec![])).pixel_count(), 0);
}

#[test]
fn edges_are_where_the_gradient_exceeds_the_threshold() {
    let mut data = vec![0u8; 64];
    for y in 0..8 {
        for x in 4..8 {
            data[y * 8 + x] = 255;
        }
    }
    let edges = ImageProcessor::detect_edges(&image(8, 8, data.clone()), 50);
    for y in 0..8 {
        for x in 0..8 {
            assert_eq!(edges.get_pixel(x, y), if x == 3 || x == 4 { 255 } else { 0 });
        }
    }
    // The magnitude at the step is 1020.
    let strict = ImageProcessor::detect_edges(&image(8, 8, data.clone()), 1020);
    assert_eq!(strict.into_raw(), vec![0u8; 64]);
    let loose = ImageProcessor::detect_edges(&image(8, 8, data), 1019);
    assert_eq!(loose.get_pixel(3, 3), 255);
}

#[test]
fn magnitudes_are_thresholded_one_by_one() {
    let img = image(2, 2, vec![0; 4]);
    let out = ImageProcessor::threshold_magnitudes(&img, &vec![50, 51, 0, 65535], 50);
    assert_eq!(out.into_raw(), vec![0, 255, 0, 255]);
    let never = ImageProcessor::threshold_magnitudes(&img, &vec![50, 51, 0, 65535], 70_000);
    assert_eq!(never.into_raw(), vec![0, 0, 0, 0]);
}

#[test]
fn auto_alignment_hands_the_image_back() {
    let img = image(2, 2, vec![1, 2, 3, 4]);
    let out = ImageProcessor::auto_align_image(img, &OmrTemplate::create_basic_template());
    assert_eq!(out.into_raw(), vec![1, 2, 3, 4]);
}
