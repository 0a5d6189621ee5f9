use fon_de_de_na_ja::alignment::{AlignmentEngine, Correlation};
use fon_de_de_na_ja::raster::{GradientImage, GrayImage};
use fon_de_de_na_ja::template::OmrTemplate;

fn engine() -> AlignmentEngine {
    AlignmentEngine::new()
}

fn textured(width: u32, height: u32) -> Vec<u8> {
    let mut data = Vec::new();
    for y in 0..height {
        for x in 0..width {
            data.push(((x * 37 + y * 101 + x * y * 7 + (x * x) % 13 * 19) % 251) as u8);
        }
    }
    data
}

fn image(width: u32, height: u32, data: Vec<u8>) -> GrayImage {
    GrayImage::from_raw(width, height, data).unwrap()
}

fn ncc(c: &Correlation) -> f64 {
    let d = (c.template_variance as f64) * (c.window_variance as f64);
    if c.template_variance > 0 && c.window_variance > 0 {
        c.covariance as f64 / d.sqrt()
    } else {
        0.0
    }
}

#[test]
fn engine_defaults() {
    let e = engine();
    assert_eq!(e.feature_threshold, 1);
    assert_eq!(e.max_features, 500);
    assert_eq!(e.search_radius, 50);
}

#[test]
fn a_patch_correlates_perfectly_with_itself() {
    let img = image(30, 30, textured(30, 30));
    let template = img.crop(5, 7, 8, 6);
    let c = engine().calculate_normalized_correlation(&img, &template, 5, 7);
    assert!(c.template_variance > 0);
    assert_eq!(c.covariance, c.template_variance);
    assert_eq!(c.window_variance, c.template_variance);
    assert!((ncc(&c) - 1.0).abs() < 1e-12);
    assert!(c.exceeds_threshold());
}

#[test]
fn correlation_statistics_follow_the_formula() {
    // Template 1 2 / 3 4 against the window 2 4 / 6 9.
    let img = image(3, 3, vec![2, 4, 0, 6, 9, 0, 0, 0, 0]);
    let template = image(2, 2, vec![1, 2, 3, 4]);
    let c = engine().calculate_normalized_correlation(&img, &template, 0, 0);
    // n = 4, sum p = 10, sum q = 21, sum pq = 2 + 8 + 18 + 36 = 64,
    // sum pp = 30, sum qq = 4 + 16 + 36 + 81 = 137.
    assert_eq!(c.covariance, 4 * 64 - 10 * 21);
    assert_eq!(c.template_variance, 4 * 30 - 100);
    assert_eq!(c.window_variance, 4 * 137 - 441);
    let expected = 46.0 / (20.0f64 * 107.0).sqrt();
    assert!((ncc(&c) - expected).abs() < 1e-12);
    assert!(c.exceeds_threshold());
}

#[test]
fn a_flat_patch_has_a_correlation_of_zero() {
    let img = image(10, 10, vec![90; 100]);
    let template = img.crop(1, 1, 4, 4);
    let c = engine().calculate_normalized_correlation(&img, &template, 1, 1);
    assert_eq!(c.covariance, 0);
    assert_eq!(c.template_variance, 0);
    assert_eq!(ncc(&c), 0.0);
    assert!(!c.exceeds_threshold());
    assert_eq!(engine().find_template_match(&img, 1, 1, 4, 4), None);
}

#[test]
fn a_patch_that_fills_the_image_correlates_perfectly_with_it() {
    let img = image(2, 2, vec![0, 255, 255, 0]);
    let template = image(2, 2, vec![0, 255, 255, 0]);
    let c = engine().calculate_normalized_correlation(&img, &template, 0, 0);
    assert!(c.template_variance > 0);
    assert_eq!(c.covariance, c.template_variance);
    assert_eq!(c.window_variance, c.template_variance);
    assert!((ncc(&c) - 1.0).abs() <= 1e-9);
    assert!(c.exceeds_threshold());
}

#[test]
fn a_window_that_touches_the_edge_is_correlated() {
    let img = image(10, 10, textured(10, 10));
    let template = img.crop(6, 6, 4, 4);
    let at_edge = engine().calculate_normalized_correlation(&img, &template, 6, 6);
    assert!(at_edge.template_variance > 0);
    assert_eq!(at_edge.covariance, at_edge.template_variance);
    assert!((ncc(&at_edge) - 1.0).abs() < 1e-12);
}

#[test]
fn a_window_that_leaves_the_image_has_a_correlation_of_zero() {
    let img = image(10, 10, textured(10, 10));
    let template = img.crop(0, 0, 4, 4);
    for (x, y) in [(7, 2), (2, 7), (10, 0), (u32::MAX, u32::MAX)] {
        let outside = engine().calculate_normalized_correlation(&img, &template, x, y);
        assert_eq!(
            (outside.covariance, outside.template_variance, outside.window_variance),
            (0, 0, 0)
        );
    }
    let inside = engine().calculate_normalized_correlation(&img, &template, 6, 6);
    assert!(inside.template_variance > 0);
    assert!(inside.window_variance > 0);
}

#[test]
fn an_inverted_patch_correlates_negatively() {
    let data: Vec<u8> = textured(8, 8);
    let inverted: Vec<u8> = data.iter().map(|v| 255 - v).collect();
    let mut wide = vec![0u8; 9 * 9];
    for y in 0..8 {
        for x in 0..8 {
            wide[y * 9 + x] = inverted[y * 8 + x];
        }
    }
    let c = engine().calculate_normalized_correlation(&image(9, 9, wide), &image(8, 8, data), 0, 0);
    assert!(c.covariance < 0);
    assert!((ncc(&c) + 1.0).abs() < 1e-12);
    assert!(!c.exceeds_threshold());
}

#[test]
fn the_search_finds_the_patch_where_it_was_cut() {
    let img = image(40, 40, textured(40, 40));
    assert_eq!(engine().find_template_match(&img, 10, 12, 8, 8), Some((0, 0)));
}

#[test]
fn the_search_takes_the_first_of_two_perfect_matches() {
    let mut data = textured(40, 40);
    // The patch at (20, 22) also stands at (4, 3).
    for y in 0..6 {
        for x in 0..6 {
            data[(3 + y) * 40 + 4 + x] = data[(22 + y) * 40 + 20 + x];
        }
    }
    let img = image(40, 40, data);
    assert_eq!(engine().find_template_match(&img, 20, 22, 6, 6), Some((-16, -19)));
    assert_eq!(engine().find_template_match(&img, 4, 3, 6, 6), Some((0, 0)));
}

#[test]
fn the_search_stays_within_its_radius() {
    let mut data = textured(40, 40);
    for y in 0..6 {
        for x in 0..6 {
            data[(3 + y) * 40 + 4 + x] = data[(22 + y) * 40 + 20 + x];
        }
    }
    let img = image(40, 40, data);
    // The copy lies 16 to the left and 19 above.
    let near = AlignmentEngine { feature_threshold: 1, max_features: 500, search_radius: 18 };
    assert_eq!(near.find_template_match(&img, 20, 22, 6, 6), Some((0, 0)));
    let far = AlignmentEngine { feature_threshold: 1, max_features: 500, search_radius: 19 };
    assert_eq!(far.find_template_match(&img, 20, 22, 6, 6), Some((-16, -19)));
    let wide = AlignmentEngine { feature_threshold: 1, max_features: 500, search_radius: u32::MAX };
    assert_eq!(wide.find_template_match(&img, 20, 22, 6, 6), Some((-16, -19)));
    // The search ends before the expected place is reached.
    let none = AlignmentEngine { feature_threshold: 1, max_features: 500, search_radius: 0 };
    assert_eq!(none.find_template_match(&img, 20, 22, 6, 6), None);
}

#[test]
fn the_search_refuses_a_patch_that_does_not_fit() {
    let img = image(40, 40, textured(40, 40));
    assert_eq!(engine().find_template_match(&img, 33, 10, 8, 8), None);
    assert_eq!(engine().find_template_match(&img, 10, 33, 8, 8), None);
    assert_eq!(engine().find_template_match(&img, u32::MAX, 0, 8, 8), None);
    assert_eq!(engine().find_template_match(&img, 0, 0, 41, 1), None);
    // A patch that ends one pixel before the edge fits, and so does one cut flush with it.
    assert_eq!(engine().find_template_match(&img, 31, 31, 8, 8), Some((0, 0)));
    assert_eq!(engine().find_template_match(&img, 32, 10, 8, 8), Some((0, 0)));
    assert_eq!(engine().find_template_match(&img, 10, 32, 8, 8), Some((0, 0)));
    assert_eq!(engine().find_template_match(&img, 32, 32, 8, 8), Some((0, 0)));
    // The whole image is found where it is; a patch without pixels is found nowhere.
    assert_eq!(engine().find_template_match(&img, 0, 0, 40, 40), Some((0, 0)));
    assert_eq!(engine().find_template_match(&img, 5, 5, 0, 3), None);
    assert_eq!(engine().find_template_match(&image(0, 0, vec![]), 0, 0, 0, 0), None);
}

#[test]
fn the_last_window_that_fits_is_searched() {
    // The patch in the bottom right corner also stands at (10, 12). A search that reaches
    // the copy finds it first; one that does not finds the patch in the corner, the very
    // last place it looks at.
    let mut data = textured(40, 40);
    for y in 0..6 {
        for x in 0..6 {
            data[(12 + y) * 40 + 10 + x] = data[(34 + y) * 40 + 34 + x];
        }
    }
    let img = image(40, 40, data);
    assert_eq!(engine().find_template_match(&img, 34, 34, 6, 6), Some((-24, -22)));
    let near = AlignmentEngine { feature_threshold: 1, max_features: 500, search_radius: 10 };
    assert_eq!(near.find_template_match(&img, 34, 34, 6, 6), Some((0, 0)));
}

#[test]
fn a_template_at_the_edge_of_a_large_image_is_found() {
    let img = image(200, 200, textured(200, 200));
    assert_eq!(engine().find_template_match(&img, 180, 60, 20, 20), Some((0, 0)));
}

#[test]
fn alignment_takes_the_first_region_that_matches() {
    let mut data = textured(40, 40);
    for y in 0..6 {
        for x in 0..6 {
            data[(3 + y) * 40 + 4 + x] = data[(22 + y) * 40 + 20 + x];
        }
    }
    let img = image(40, 40, data);
    let regions = vec![(38, 38, 8, 8), (20, 22, 6, 6), (10, 10, 5, 5)];
    assert_eq!(engine().template_alignment(&img, &regions), (-16, -19));
    assert_eq!(engine().template_alignment(&img, &vec![(38, 38, 8, 8)]), (0, 0));
    assert_eq!(engine().template_alignment(&img, &vec![]), (0, 0));
}

#[test]
fn sobel_gradients_of_a_ramp() {
    let img = image(3, 3, vec![1, 2, 3, 4, 5, 6, 7, 8, 9]);
    let (gx, gy) = engine().calculate_gradients(&img);
    assert_eq!((gx.width(), gx.height()), (3, 3));
    assert_eq!(gx.get_pixel(1, 1), 8);
    assert_eq!(gy.get_pixel(1, 1), 24);
    for (x, y) in [(0, 0), (1, 0), (2, 0), (0, 1), (2, 1), (0, 2), (1, 2), (2, 2)] {
        assert_eq!(gx.get_pixel(x, y), 0);
        assert_eq!(gy.get_pixel(x, y), 0);
    }
}

#[test]
fn sobel_gradients_reach_their_extremes() {
    let img = image(3, 3, vec![0, 0, 255, 0, 0, 255, 0, 0, 255]);
    let (gx, gy) = engine().calculate_gradients(&img);
    assert_eq!(gx.get_pixel(1, 1), 1020);
    assert_eq!(gy.get_pixel(1, 1), 0);
    let flipped = image(3, 3, vec![255, 255, 255, 0, 0, 0, 0, 0, 0]);
    let (_, fy) = engine().calculate_gradients(&flipped);
    assert_eq!(fy.get_pixel(1, 1), -1020);
    let tiny = image(2, 1, vec![3, 200]);
    let (tx, _) = engine().calculate_gradients(&tiny);
    assert_eq!(tx.get_pixel(1, 0), 0);
}

#[test]
fn harris_response_follows_the_formula() {
    let gx = GradientImage::from_raw(3, 3, vec![1, 2, 3, 4, 5, 6, 7, 8, 9]).unwrap();
    let gy = GradientImage::from_raw(3, 3, vec![9, -8, 7, -6, 5, -4, 3, -2, 1]).unwrap();
    let score = engine().calculate_harris_response(&gx, &gy, 1, 1, 3);
    let ixx: i128 = 285;
    let iyy: i128 = 285;
    let ixy: i128 = 9 - 16 + 21 - 24 + 25 - 24 + 21 - 16 + 9;
    assert_eq!(score, 25 * (ixx * iyy - ixy * ixy) - (ixx + iyy) * (ixx + iyy));
    // A window of one pixel.
    let single = engine().calculate_harris_response(&gx, &gy, 2, 0, 1);
    assert_eq!(single, 25 * (9 * 49 - 21 * 21) - (9 + 49) * (9 + 49));
}

#[test]
fn a_flat_image_has_no_corners() {
    assert!(engine().detect_harris_corners(&image(20, 20, vec![120; 400])).is_empty());
    assert!(engine().detect_harris_corners(&image(2, 20, textured(2, 20))).is_empty());
    assert!(engine().detect_harris_corners(&image(0, 0, vec![])).is_empty());
}

#[test]
fn corners_come_best_first_and_at_most_as_many_as_asked() {
    let img = image(40, 40, textured(40, 40));
    let all = engine().detect_harris_corners(&img);
    assert!(!all.is_empty());
    assert!(all.len() <= 500);
    for pair in all.windows(2) {
        assert!(
            pair[0].score > pair[1].score
                || (pair[0].score == pair[1].score
                    && (pair[0].y, pair[0].x) < (pair[1].y, pair[1].x))
        );
    }
    let (gx, gy) = engine().calculate_gradients(&img);
    for corner in &all {
        assert!(corner.x >= 1 && corner.x < 39 && corner.y >= 1 && corner.y < 39);
        assert!(4 * corner.score > 1);
        assert_eq!(corner.score, engine().calculate_harris_response(&gx, &gy, corner.x, corner.y, 3));
    }
    let few = AlignmentEngine { feature_threshold: 1, max_features: 5, search_radius: 50 };
    let best = few.detect_harris_corners(&img);
    assert_eq!(best.len(), 5);
    for i in 0..5 {
        assert_eq!((best[i].x, best[i].y, best[i].score), (all[i].x, all[i].y, all[i].score));
    }
    let none = AlignmentEngine { feature_threshold: 1, max_features: 0, search_radius: 50 };
    assert!(none.detect_harris_corners(&img).is_empty());
}

#[test]
fn a_bright_square_has_a_corner_at_its_corner() {
    let mut data = vec![0u8; 30 * 30];
    for y in 10..20 {
        for x in 10..20 {
            data[y * 30 + x] = 255;
        }
    }
    let corners = engine().detect_harris_corners(&image(30, 30, data));
    assert!(!corners.is_empty());
    let best = corners[0];
    let near = |c: u32| (9..=11).contains(&c) || (18..=20).contains(&c);
    assert!(near(best.x) && near(best.y));
}

fn square_mask() -> GrayImage {
    let mut data = vec![0u8; 20 * 20];
    for y in 4..14 {
        for x in 3..13 {
            data[y * 20 + x] = 255;
        }
    }
    // A blob too small to be reported.
    for y in 16..19 {
        for x in 15..18 {
            data[y * 20 + x] = 255;
        }
    }
    image(20, 20, data)
}

#[test]
fn contours_are_the_regions_of_at_least_fifty_pixels() {
    let contours = engine().find_contours(&square_mask());
    assert_eq!(contours.len(), 1);
    assert_eq!(contours[0].len(), 100);
    assert_eq!(contours[0][0], (3, 4));
    let mut sorted = contours[0].clone();
    sorted.sort();
    sorted.dedup();
    assert_eq!(sorted.len(), 100);
    assert!(sorted.iter().all(|&(x, y)| (3..13).contains(&x) && (4..14).contains(&y)));
}

#[test]
fn a_region_of_exactly_fifty_pixels_is_a_contour() {
    let mut data = vec![0u8; 30 * 10];
    for x in 0..50usize {
        data[(x / 25) * 30 + x % 25] = 255;
    }
    for x in 0..49usize {
        data[(5 + x / 25) * 30 + x % 25] = 255;
    }
    let contours = engine().find_contours(&image(30, 10, data));
    assert_eq!(contours.len(), 1);
    assert_eq!(contours[0].len(), 50);
}

#[test]
fn regions_that_touch_by_a_corner_are_one_contour() {
    let mut data = vec![0u8; 20 * 20];
    for y in 0..6 {
        for x in 0..6 {
            data[y * 20 + x] = 255;
            data[(y + 6) * 20 + x + 6] = 255;
        }
    }
    // Pixels of another value do not belong.
    data[6 * 20 + 5] = 254;
    let contours = engine().find_contours(&image(20, 20, data));
    assert_eq!(contours.len(), 1);
    assert_eq!(contours[0].len(), 72);
}

#[test]
fn tracing_marks_what_it_collects() {
    let mask = square_mask();
    let mut visited = vec![false; 400];
    let blob = engine().trace_contour(&mask, &mut visited, 16, 17);
    assert_eq!(blob.len(), 9);
    assert_eq!(blob[0], (16, 17));
    assert_eq!(visited.iter().filter(|&&v| v).count(), 9);
    assert!(visited[17 * 20 + 16] && visited[16 * 20 + 15] && visited[18 * 20 + 17]);
    assert!(!visited[4 * 20 + 3]);
}

#[test]
fn tracing_collects_pixels_in_flood_order() {
    // The neighbour put on the stack last, the one below to the right, is looked at first.
    let mask = image(3, 2, vec![255, 255, 0, 255, 255, 0]);
    let mut visited = vec![false; 6];
    let block = engine().trace_contour(&mask, &mut visited, 0, 0);
    assert_eq!(block, vec![(0, 0), (1, 1), (0, 1), (1, 0)]);
    let line = image(4, 1, vec![255, 255, 255, 255]);
    let mut seen = vec![false; 4];
    assert_eq!(engine().trace_contour(&line, &mut seen, 1, 0), vec![(1, 0), (2, 0), (3, 0), (0, 0)]);
    // Marked pixels are not collected again.
    let mut blocked = vec![false, false, true, false];
    assert_eq!(engine().trace_contour(&line, &mut blocked, 0, 0), vec![(0, 0), (1, 0)]);
    assert_eq!(blocked, vec![true, true, true, false]);
}

#[test]
fn rectangle_of_a_contour_is_its_bounding_box() {
    let contour = vec![(5, 9), (3, 4), (12, 6), (7, 13)];
    let corners = engine().approximate_rectangle(&contour).unwrap();
    assert_eq!(corners, vec![(3, 4), (12, 4), (12, 13), (3, 13)]);
    assert_eq!(engine().approximate_rectangle(&vec![(1, 1), (2, 2), (3, 3)]), None);
}

#[test]
fn quadrilateral_area_by_the_shoelace_formula() {
    // Twice the area is returned.
    assert_eq!(engine().calculate_quadrilateral_area(&vec![(3, 4), (12, 4), (12, 13), (3, 13)]), 162);
    assert_eq!(engine().calculate_quadrilateral_area(&vec![(3, 13), (12, 13), (12, 4), (3, 4)]), 162);
    assert_eq!(engine().calculate_quadrilateral_area(&vec![(0, 0), (4, 0), (5, 3), (0, 1)]), 17);
    assert_eq!(engine().calculate_quadrilateral_area(&vec![(0, 0), (4, 0), (4, 3)]), 0);
    assert_eq!(engine().calculate_quadrilateral_area(&vec![(1, 1), (2, 2), (3, 3), (4, 4)]), 0);
    let m = u32::MAX;
    assert_eq!(
        engine().calculate_quadrilateral_area(&vec![(0, 0), (m, 0), (m, m), (0, m)]),
        2 * (m as u128) * (m as u128)
    );
}

#[test]
fn the_largest_rectangle_wins_and_the_first_among_equals() {
    let small = vec![(0, 0), (2, 0), (2, 2), (0, 2)];
    let large = vec![(10, 10), (20, 10), (20, 15), (10, 15), (12, 12)];
    let same = vec![(30, 30), (35, 30), (35, 40), (30, 40)];
    let line = vec![(1, 1), (2, 1), (3, 1), (4, 1)];
    let found = engine().find_largest_rectangular_contour(&vec![small.clone(), large, same, line.clone()]);
    assert_eq!(found, Some(vec![(10, 10), (20, 10), (20, 15), (10, 15)]));
    assert_eq!(engine().find_largest_rectangular_contour(&vec![line]), None);
    assert_eq!(engine().find_largest_rectangular_contour(&vec![]), None);
}

#[test]
fn page_corners_fall_back_to_the_image_corners() {
    let flat = image(30, 20, vec![200; 600]);
    assert_eq!(engine().detect_page_corners(&flat), vec![(0, 0), (30, 0), (30, 20), (0, 20)]);
}

#[test]
fn page_corners_box_the_edges_of_the_page() {
    // A bright page on a dark desk: the edge pixels form one ring.
    let mut data = vec![0u8; 60 * 50];
    for y in 10..40 {
        for x in 10..50 {
            data[y * 60 + x] = 255;
        }
    }
    let img = image(60, 50, data);
    let mask = engine().detect_page_edges(&img);
    assert_eq!(mask.get_pixel(9, 20), 255);
    assert_eq!(mask.get_pixel(10, 20), 255);
    assert_eq!(mask.get_pixel(8, 20), 0);
    assert_eq!(mask.get_pixel(11, 20), 0);
    assert_eq!(mask.get_pixel(30, 25), 0);
    assert_eq!(engine().detect_page_corners(&img), vec![(9, 9), (50, 9), (50, 40), (9, 40)]);
}

#[test]
fn alignment_hands_the_image_back() {
    let img = image(12, 9, textured(12, 9));
    let blurred = image(12, 9, vec![100; 108]);
    let aligned = engine().auto_align_using_edges(&img, &blurred);
    assert_eq!((aligned.width(), aligned.height()), (12, 9));
    assert_eq!(aligned.into_raw(), textured(12, 9));
    let collinear = vec![(0, 0), (1, 1), (2, 2), (3, 3)];
    let corrected = engine().correct_perspective(&img, &collinear);
    assert_eq!(corrected.into_raw(), textured(12, 9));
    let to_template = engine().align_image_to_template(&img, &OmrTemplate::create_basic_template());
    assert_eq!(to_template.into_raw(), textured(12, 9));
}
