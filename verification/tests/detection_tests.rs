use fon_de_de_na_ja::bubble_detection::{
    collect_regions, BubbleDetector, BubbleRegion, ClassStats, MarkConfidence,
};
use fon_de_de_na_ja::config::{BubbleDimensions, ProcessingConfig};
use fon_de_de_na_ja::evaluation::{AnswerKey, EvaluationEngine, ScoringConfig};
use fon_de_de_na_ja::labels::LabelMap;
use fon_de_de_na_ja::raster::GrayImage;
use fon_de_de_na_ja::template::{BubbleLocation, FieldBlock, FieldType, OmrTemplate};
use fon_de_de_na_ja::{average_confidence, BubbleResponse, OmrConfig, ProcessedFile};

fn detector() -> BubbleDetector {
    BubbleDetector::new(&ProcessingConfig::default())
}

fn uniform(width: u32, height: u32, value: u8) -> GrayImage {
    GrayImage::filled(width, height, value).unwrap()
}

fn painted(width: u32, height: u32, background: u8, blocks: &[(u32, u32, u32, u32, u8)]) -> GrayImage {
    let mut data = vec![background; (width * height) as usize];
    for &(x0, y0, w, h, value) in blocks {
        for y in y0..y0 + h {
            for x in x0..x0 + w {
                data[(y * width + x) as usize] = value;
            }
        }
    }
    GrayImage::from_raw(width, height, data).unwrap()
}

fn q1_template(field_type: FieldType) -> OmrTemplate {
    let mut template = OmrTemplate::default();
    template.field_blocks.push(FieldBlock {
        field_label: "Q1".to_string(),
        field_type,
        origin: (100, 200),
        bubbles: vec![
            BubbleLocation { position: (0, 0), value: "A".to_string() },
            BubbleLocation { position: (50, 0), value: "B".to_string() },
            BubbleLocation { position: (100, 0), value: "C".to_string() },
            BubbleLocation { position: (150, 0), value: "D".to_string() },
        ],
        labels: vec!["A".to_string(), "B".to_string(), "C".to_string(), "D".to_string()],
    });
    template
}

#[test]
fn a_black_region_has_a_confidence_of_one() {
    let c = detector().analyze_bubble_marking(&uniform(32, 32, 0));
    assert_eq!(c.numerator, c.denominator);
    assert_eq!(c.millionths(), 1_000_000);
    assert!(c.is_selected());
    assert!(c.is_marked());
}

#[test]
fn a_white_region_has_a_confidence_of_zero() {
    let c = detector().analyze_bubble_marking(&uniform(32, 32, 255));
    assert_eq!(c.numerator, 0);
    assert_eq!(c.millionths(), 0);
    assert!(!c.is_selected());
    assert!(!c.is_marked());
}

#[test]
fn a_region_without_pixels_has_a_confidence_of_zero() {
    let c = detector().analyze_bubble_marking(&uniform(0, 7, 0));
    assert_eq!(c, MarkConfidence { numerator: 0, denominator: 1 });
    assert_eq!(c.millionths(), 0);
}

#[test]
fn confidence_weighs_dark_share_and_mean_darkness() {
    // Ten pixels: four at 100 (dark), six at 200. Dark share 0.4, mean 160.
    // 0.7 * 0.4 + 0.3 * (1 - 160 / 255) = 0.28 + 0.111764... = 0.391764...
    let image = GrayImage::from_raw(5, 2, vec![100, 100, 100, 100, 200, 200, 200, 200, 200, 200]).unwrap();
    let c = detector().analyze_bubble_marking(&image);
    assert_eq!(c.denominator, 25_500);
    assert_eq!(c.numerator, 1785 * 4 + 765 * 10 - 3 * 1600);
    // Rounded up to the next millionth.
    assert_eq!(c.millionths(), 391_765);
    assert!(!c.is_selected());
    let as_float = c.numerator as f64 / c.denominator as f64;
    assert!((as_float - (0.7 * 0.4 + 0.3 * (1.0 - 160.0 / 255.0))).abs() < 1e-12);
}

#[test]
fn a_confidence_of_exactly_six_tenths_does_not_select() {
    // The threshold is exceeded, not met.
    let exact = MarkConfidence { numerator: 3, denominator: 5 };
    assert!(!exact.is_selected());
    assert_eq!(exact.millionths(), 600_000);
    let above = MarkConfidence { numerator: 3_001, denominator: 5_000 };
    assert!(above.is_selected());
    let half = MarkConfidence { numerator: 1, denominator: 2 };
    assert!(!half.is_marked());
    assert!(MarkConfidence { numerator: 501, denominator: 1000 }.is_marked());
}

#[test]
fn scenario_dark_region_under_b_detects_b() {
    let image = painted(666, 820, 255, &[(150, 200, 32, 32, 0)]);
    let template = q1_template(FieldType::SingleChoice);
    let responses = detector().detect_bubbles_with_template(&image, &template);
    assert_eq!(responses.len(), 1);
    assert_eq!(responses[0].field_label, "Q1");
    assert_eq!(responses[0].detected_values, vec!["B".to_string()]);
    assert!(!responses[0].is_multi_marked);
    // The field's confidence is the mean over its four bubbles.
    assert_eq!(responses[0].confidence, 250_000);
    // The confidence of the bubble itself exceeds 0.6.
    let block = &template.field_blocks[0];
    let region = detector().extract_bubble_region(&image, block, &block.bubbles[1], &template);
    let bubble = detector().analyze_bubble_marking(&region);
    assert!(bubble.millionths() > 600_000);
    assert_eq!(bubble.millionths(), 1_000_000);
}

#[test]
fn scenario_answer_key_b_marks_the_response_correct() {
    let image = painted(666, 820, 255, &[(150, 200, 32, 32, 0)]);
    let template = q1_template(FieldType::SingleChoice);
    let responses = detector().detect_bubbles_with_template(&image, &template);
    let mut key: AnswerKey = LabelMap::new();
    key.insert("Q1".to_string(), vec!["B".to_string()]);
    let engine = EvaluationEngine::new(ScoringConfig::default());
    let result = engine.evaluate_single_field(&responses[0], &key);
    assert!(result.is_correct);
    assert_eq!(result.score, 1_000_000);
}

#[test]
fn scenario_two_dark_regions_are_multi_marked_and_score_incorrect() {
    let image = painted(666, 820, 255, &[(100, 200, 32, 32, 0), (150, 200, 32, 32, 0)]);
    let template = q1_template(FieldType::SingleChoice);
    let responses = detector().detect_bubbles_with_template(&image, &template);
    assert_eq!(responses[0].detected_values, vec!["A".to_string(), "B".to_string()]);
    assert!(responses[0].is_multi_marked);
    assert_eq!(responses[0].confidence, 500_000);
    let engine = EvaluationEngine::new(ScoringConfig::default());
    for expected in [vec!["A".to_string()], vec!["A".to_string(), "B".to_string()], vec![]] {
        let mut key: AnswerKey = LabelMap::new();
        key.insert("Q1".to_string(), expected);
        let result = engine.evaluate_single_field(&responses[0], &key);
        assert!(!result.is_correct);
        assert_eq!(result.score, -250_000);
    }
}

#[test]
fn two_marks_in_a_multiple_choice_field_are_not_multi_marked() {
    let image = painted(666, 820, 255, &[(100, 200, 32, 32, 0), (150, 200, 32, 32, 0)]);
    let template = OmrTemplate::create_basic_template();
    let responses = detector().detect_bubbles_with_template(&image, &template);
    assert_eq!(responses[0].detected_values, vec!["A".to_string(), "B".to_string()]);
    assert!(!responses[0].is_multi_marked);
}

#[test]
fn each_block_is_judged_by_its_own_type() {
    let image = painted(666, 820, 255, &[(100, 200, 32, 32, 0), (150, 200, 32, 32, 0)]);
    let mut template = q1_template(FieldType::MultipleChoice);
    let mut second = q1_template(FieldType::SingleChoice);
    template.field_blocks.push(second.field_blocks.remove(0));
    let mut third = q1_template(FieldType::Integer);
    template.field_blocks.push(third.field_blocks.remove(0));
    let responses = detector().detect_bubbles_with_template(&image, &template);
    assert_eq!(responses.len(), 3);
    for response in &responses {
        assert_eq!(response.field_label, "Q1");
        assert_eq!(response.detected_values, vec!["A".to_string(), "B".to_string()]);
    }
    assert!(!responses[0].is_multi_marked);
    assert!(responses[1].is_multi_marked);
    assert!(responses[2].is_multi_marked);
    // A block stands for itself, whether or not the template holds it.
    let alone = q1_template(FieldType::SingleChoice);
    let judged = detector().process_field_block(&image, &alone.field_blocks[0], &template);
    assert!(judged[0].is_multi_marked);
}

#[test]
fn a_bubble_past_the_edge_is_pulled_back_inside() {
    let mut data = vec![255u8; 40 * 40];
    // The last 32 columns and rows are dark: the region pulled back to (8, 8).
    for y in 8..40 {
        for x in 8..40 {
            data[y * 40 + x] = 0;
        }
    }
    let image = GrayImage::from_raw(40, 40, data).unwrap();
    let mut template = q1_template(FieldType::SingleChoice);
    template.field_blocks[0].origin = (4_000_000_000, 4_000_000_000);
    let block = &template.field_blocks[0];
    let region = detector().extract_bubble_region(&image, block, &block.bubbles[3], &template);
    assert_eq!((region.width(), region.height()), (32, 32));
    assert_eq!(detector().analyze_bubble_marking(&region).millionths(), 1_000_000);
}

#[test]
fn on_an_image_smaller_than_a_bubble_the_region_is_the_image() {
    let image = uniform(10, 6, 0);
    let mut template = q1_template(FieldType::SingleChoice);
    template.bubble_dimensions = BubbleDimensions { width: 32, height: 32 };
    let block = &template.field_blocks[0];
    let region = detector().extract_bubble_region(&image, block, &block.bubbles[0], &template);
    assert_eq!((region.width(), region.height()), (10, 6));
    let empty = GrayImage::filled(0, 0, 0).unwrap();
    let nothing = detector().extract_bubble_region(&empty, block, &block.bubbles[0], &template);
    assert_eq!(nothing.pixel_count(), 0);
    let responses = detector().detect_bubbles_with_template(&empty, &template);
    assert_eq!(responses[0].confidence, 0);
    assert!(responses[0].detected_values.is_empty());
}

#[test]
fn a_field_without_bubbles_has_a_confidence_of_zero() {
    let mut template = q1_template(FieldType::SingleChoice);
    template.field_blocks[0].bubbles.clear();
    let responses = detector().process_field_block(&uniform(50, 50, 0), &template.field_blocks[0], &template);
    assert_eq!(responses.len(), 1);
    assert_eq!(responses[0].confidence, 0);
    assert!(responses[0].detected_values.is_empty());
    assert!(!responses[0].is_multi_marked);
}

#[test]
fn otsu_threshold_of_two_tones_is_just_above_the_darker() {
    let image = painted(20, 20, 50, &[(5, 5, 6, 6, 200)]);
    let t = detector().calculate_otsu_threshold(&image);
    assert_eq!(t, 51);
    assert!(50 < t && t < 200);
    let binary = detector().apply_adaptive_threshold(&image);
    assert_eq!(binary.get_pixel(0, 0), 0);
    assert_eq!(binary.get_pixel(5, 5), 255);
    assert_eq!(binary.get_pixel(10, 10), 255);
    assert_eq!(binary.get_pixel(11, 11), 0);
}

#[test]
fn otsu_threshold_of_a_single_tone_is_zero() {
    assert_eq!(detector().calculate_otsu_threshold(&uniform(8, 8, 77)), 0);
    assert_eq!(detector().calculate_otsu_threshold(&uniform(0, 0, 0)), 0);
}

#[test]
fn otsu_threshold_of_two_clusters_lies_between_their_means() {
    // A dark cluster around 40 and a bright cluster around 210.
    let mut data = Vec::new();
    for i in 0..300u32 {
        data.push((38 + i % 5) as u8);
    }
    for i in 0..200u32 {
        data.push((208 + i % 5) as u8);
    }
    let image = GrayImage::from_raw(25, 20, data).unwrap();
    let t = detector().calculate_otsu_threshold(&image);
    assert!(40 < t && t < 210);
    // The lowest threshold that splits the clusters.
    assert_eq!(t, 43);
}

#[test]
fn class_stats_split_the_histogram() {
    let mut histogram = vec![0usize; 256];
    histogram[10] = 3;
    histogram[20] = 1;
    histogram[200] = 4;
    let stats = detector().calculate_class_stats(&histogram, 100);
    assert_eq!(stats, ClassStats { weight0: 4, weight1: 4, sum0: 50, sum1: 800 });
    assert!(stats.separates());
    let low = detector().calculate_class_stats(&histogram, 15);
    assert_eq!(low, ClassStats { weight0: 3, weight1: 5, sum0: 30, sum1: 820 });
    assert!(stats.separates_better(&low));
    assert!(!low.separates_better(&stats));
    let none = detector().calculate_class_stats(&histogram, 0);
    assert_eq!(none, ClassStats { weight0: 0, weight1: 8, sum0: 0, sum1: 850 });
    assert!(!none.separates());
    let all = detector().calculate_class_stats(&histogram, 256);
    assert_eq!(all, ClassStats { weight0: 8, weight1: 0, sum0: 850, sum1: 0 });
    assert!(!all.separates());
}

#[test]
fn region_tracks_its_bounding_box() {
    let mut region = BubbleRegion::new();
    assert_eq!(region.pixel_count(), 0);
    assert!(!region.is_likely_bubble());
    region.add_pixel(7, 9);
    region.add_pixel(3, 12);
    region.add_pixel(5, 4);
    assert_eq!(region.pixel_count(), 3);
    assert_eq!(region.get_bounds(), (3, 4, 8, 13));
}

fn block_region(width: u32, height: u32, extra: usize) -> BubbleRegion {
    let mut region = BubbleRegion::new();
    for y in 0..height {
        for x in 0..width {
            region.add_pixel(x, y);
        }
    }
    for _ in 0..extra {
        region.add_pixel(0, 0);
    }
    region
}

#[test]
fn a_region_looks_like_a_bubble_by_its_size() {
    // Spans are the distances between the extreme pixels: a block of 7 spans 6.
    assert!(block_region(7, 7, 0).is_likely_bubble());
    assert!(!block_region(6, 7, 0).is_likely_bubble());
    assert!(!block_region(7, 6, 0).is_likely_bubble());
    // Twenty pixels are enough, nineteen are not.
    let mut twenty = BubbleRegion::new();
    for i in 0..7 {
        twenty.add_pixel(i, i);
    }
    for _ in 0..12 {
        twenty.add_pixel(3, 3);
    }
    assert!(!twenty.is_likely_bubble());
    twenty.add_pixel(3, 3);
    assert_eq!(twenty.pixel_count(), 20);
    assert!(twenty.is_likely_bubble());
    // Two thousand pixels are allowed, one more is not.
    assert!(block_region(40, 50, 0).is_likely_bubble());
    assert!(!block_region(40, 50, 1).is_likely_bubble());
    // A span of 99 is allowed, a span of 100 is not.
    assert!(block_region(100, 7, 0).is_likely_bubble());
    assert!(!block_region(101, 7, 0).is_likely_bubble());
}

#[test]
fn regions_are_collected_by_label_in_order_of_first_occurrence() {
    let labels = vec![
        0, 5, 5, 0, //
        2, 0, 5, 0, //
        2, 2, 0, 9,
    ];
    let regions = collect_regions(&labels, 4, 3);
    assert_eq!(regions.len(), 3);
    assert_eq!(regions[0].pixel_count(), 3);
    assert_eq!(regions[0].get_bounds(), (1, 0, 3, 2));
    assert_eq!(regions[1].pixel_count(), 3);
    assert_eq!(regions[1].get_bounds(), (0, 1, 2, 3));
    assert_eq!(regions[2].pixel_count(), 1);
    assert_eq!(regions[2].get_bounds(), (3, 2, 4, 3));
}

#[test]
fn auto_detection_reports_a_dim_blob_on_black() {
    // The blob is brighter than the background, so it is foreground after
    // thresholding, and dark enough to count as marked.
    let image = painted(40, 30, 0, &[(10, 8, 10, 10, 100)]);
    let regions = detector().find_bubble_regions(&image);
    assert_eq!(regions.len(), 1);
    assert_eq!(regions[0].pixel_count(), 100);
    assert_eq!(regions[0].get_bounds(), (10, 8, 20, 18));
    let confidence = detector().calculate_bubble_confidence(&image, &regions[0]);
    assert_eq!(confidence.numerator, 1785 * 100 + 765 * 100 - 3 * 10_000);
    assert_eq!(confidence.denominator, 255_000);
    let responses = detector().detect_bubbles_auto(&image);
    assert_eq!(responses.len(), 1);
    assert_eq!(responses[0].field_label, "Auto_Field_0");
    assert_eq!(responses[0].detected_values, vec!["MARKED".to_string()]);
    // 225000 / 255000 = 0.882352..., rounded up.
    assert_eq!(responses[0].confidence, 882_353);
    assert!(!responses[0].is_multi_marked);
}

#[test]
fn auto_detection_labels_responses_by_region_position() {
    // A solid bright square is not dark enough to count as marked; the two
    // bright rings are, by the dark pixels they enclose; the last blob is
    // too small to be a region.
    let image = painted(
        60,
        40,
        0,
        &[
            (2, 2, 8, 8, 200),
            (20, 5, 9, 9, 200),
            (21, 6, 7, 7, 0),
            (40, 20, 3, 3, 200),
            (45, 3, 10, 10, 200),
            (46, 4, 8, 8, 0),
        ],
    );
    let regions = detector().find_bubble_regions(&image);
    assert_eq!(regions.len(), 3);
    assert_eq!(regions[0].get_bounds(), (2, 2, 10, 10));
    assert_eq!(regions[1].get_bounds(), (45, 3, 55, 13));
    assert_eq!(regions[2].get_bounds(), (20, 5, 29, 14));
    let responses = detector().detect_bubbles_auto(&image);
    let labels: Vec<&str> = responses.iter().map(|r| r.field_label.as_str()).collect();
    assert_eq!(labels, vec!["Auto_Field_1", "Auto_Field_2"]);
    // The ring of 36 bright pixels around 64 dark ones:
    // (1785 * 64 + 765 * 100 - 3 * 7200) / 255000 = 0.66329...
    assert_eq!(responses[0].confidence, 663_295);
}

#[test]
fn a_confidence_just_above_a_half_reads_above_a_half() {
    let close = MarkConfidence { numerator: 1_561_878, denominator: 3_123_750 };
    assert!(close.is_marked());
    assert_eq!(close.millionths(), 500_001);
    let half = MarkConfidence { numerator: 1_561_875, denominator: 3_123_750 };
    assert!(!half.is_marked());
    assert_eq!(half.millionths(), 500_000);
    let selected = MarkConfidence { numerator: 15_300_001, denominator: 25_500_000 };
    assert!(selected.is_selected());
    assert_eq!(selected.millionths(), 600_001);
    assert_eq!(MarkConfidence { numerator: 1, denominator: 25_500_000 }.millionths(), 1);
    assert_eq!(MarkConfidence { numerator: 0, denominator: 25_500_000 }.millionths(), 0);
    assert_eq!(MarkConfidence { numerator: 7, denominator: 7 }.millionths(), 1_000_000);
}

#[test]
fn auto_detection_finds_nothing_on_an_image_of_one_pixel() {
    for value in [0u8, 1, 128, 255] {
        let image = uniform(1, 1, value);
        assert!(detector().find_bubble_regions(&image).is_empty());
        assert!(detector().detect_bubbles_auto(&image).is_empty());
        let file = OmrConfig::default().process_image("dot.png", uniform(1, 1, value), &None, 0);
        assert!(file.detected_bubbles.is_empty());
        assert_eq!(file.confidence_score, 0);
    }
    // Two pixels give at most one region, too small to be a bubble.
    let pair = GrayImage::from_raw(2, 1, vec![1, 2]).unwrap();
    assert!(detector().find_bubble_regions(&pair).is_empty());
    let column = GrayImage::from_raw(1, 2, vec![200, 200]).unwrap();
    assert!(detector().detect_bubbles_auto(&column).is_empty());
    assert!(detector().detect_bubbles_auto(&uniform(1, 0, 0)).is_empty());
}

#[test]
fn auto_detection_finds_nothing_on_a_blank_sheet() {
    assert!(detector().detect_bubbles_auto(&uniform(30, 30, 255)).is_empty());
    assert!(detector().detect_bubbles_auto(&uniform(0, 0, 0)).is_empty());
}

#[test]
fn a_region_outside_the_image_has_a_confidence_of_zero() {
    let image = uniform(10, 10, 0);
    let mut region = BubbleRegion::new();
    region.add_pixel(20, 20);
    region.add_pixel(25, 30);
    let c = detector().calculate_bubble_confidence(&image, &region);
    assert_eq!(c, MarkConfidence { numerator: 0, denominator: 1 });
    let nothing = detector().calculate_bubble_confidence(&image, &BubbleRegion::new());
    assert_eq!(nothing.millionths(), 0);
    // A region that reaches past the edge is cut off there.
    let mut partial = BubbleRegion::new();
    partial.add_pixel(8, 8);
    partial.add_pixel(4_000_000_000, 4_000_000_000);
    assert_eq!(detector().calculate_bubble_confidence(&image, &partial).millionths(), 1_000_000);
}

#[test]
fn file_confidence_is_the_mean_of_the_field_confidences() {
    let responses: Vec<BubbleResponse> = [100_000u32, 200_000, 400_001]
        .iter()
        .map(|&confidence| BubbleResponse {
            field_label: "Q".to_string(),
            detected_values: vec![],
            confidence,
            is_multi_marked: false,
        })
        .collect();
    assert_eq!(average_confidence(&responses), 233_333);
    assert_eq!(average_confidence(&vec![]), 0);
}

#[test]
fn processing_an_image_with_a_template_reports_each_field() {
    let image = painted(666, 820, 255, &[(150, 200, 32, 32, 0)]);
    let mut config = OmrConfig::default();
    config.auto_align = true;
    let template = Some(q1_template(FieldType::SingleChoice));
    let file: ProcessedFile = config.process_image("scans/a.png", image, &template, 1234);
    assert_eq!(file.file_path, "scans/a.png");
    assert_eq!(file.processing_time, 1234);
    assert!(file.alignment_applied);
    assert_eq!(file.detected_bubbles.len(), 1);
    assert_eq!(file.detected_bubbles[0].detected_values, vec!["B".to_string()]);
    assert_eq!(file.confidence_score, 250_000);
}

#[test]
fn processing_an_image_without_a_template_detects_regions() {
    let image = painted(40, 30, 0, &[(10, 8, 10, 10, 100)]);
    let mut config = OmrConfig::default();
    config.auto_align = true;
    let file = config.process_image("b.png", image, &None, 0);
    assert!(!file.alignment_applied);
    assert_eq!(file.detected_bubbles.len(), 1);
    assert_eq!(file.detected_bubbles[0].field_label, "Auto_Field_0");
    assert_eq!(file.confidence_score, 882_353);
}
