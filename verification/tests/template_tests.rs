use fon_de_de_na_ja::config::{
    AlignmentParams, BubbleDimensions, DimensionConfig, OutputConfig, ProcessingConfig,
    ThresholdParams,
};
use fon_de_de_na_ja::histogram::{empty_histogram, window_histogram};
use fon_de_de_na_ja::labels::{
    clone_strings, contains_text, decimal_text, join_strings, same_text, LabelMap,
};
use fon_de_de_na_ja::raster::GrayImage;
use fon_de_de_na_ja::template::{
    BubbleLocation, FieldBlock, FieldType, OmrTemplate, TemplateError,
};
use fon_de_de_na_ja::wide::{product_less, Wide};
use fon_de_de_na_ja::{BubbleResponse, OmrConfig, ProcessedFile, MILLION};

fn block(label: &str, field_type: FieldType, values: &[&str]) -> FieldBlock {
    FieldBlock {
        field_label: label.to_string(),
        field_type,
        origin: (0, 0),
        bubbles: values
            .iter()
            .map(|v| BubbleLocation { position: (0, 0), value: v.to_string() })
            .collect(),
        labels: vec![],
    }
}

#[test]
fn default_parameters() {
    let d = DimensionConfig::default();
    assert_eq!(
        (d.display_width, d.display_height, d.processing_width, d.processing_height),
        (1640, 2480, 666, 820)
    );
    let t = ThresholdParams::default();
    assert_eq!((t.gamma_low, t.min_gap, t.min_jump, t.confident_surplus, t.jump_delta), (700, 30, 25, 5, 30));
    assert_eq!(t.page_type, "white");
    let a = AlignmentParams::default();
    assert_eq!((a.auto_align, a.match_col, a.max_steps, a.stride, a.thickness), (false, 5, 20, 1, 3));
    let o = OutputConfig::default();
    assert_eq!(
        (o.show_image_level, o.save_image_level, o.save_detections, o.filter_out_multimarked_files),
        (0, 0, true, false)
    );
    let b = BubbleDimensions::default();
    assert_eq!((b.width, b.height), (32, 32));
    let p = ProcessingConfig::default();
    assert_eq!(p.dimensions.processing_width, 666);
    let copy = p.duplicate();
    assert_eq!(copy.threshold_params.page_type, "white");
    assert_eq!(copy.alignment_params.max_steps, 20);
}

#[test]
fn fractions_are_counted_in_millionths() {
    assert_eq!(MILLION, 1_000_000);
}

#[test]
fn default_run() {
    let config = OmrConfig::default();
    assert_eq!(config.input_paths, vec!["inputs".to_string()]);
    assert_eq!(config.output_dir, "outputs");
    assert!(config.template_path.is_none());
    assert!(!config.debug && !config.auto_align && !config.set_layout);
}

#[test]
fn default_template_is_an_empty_page() {
    let t = OmrTemplate::default();
    assert_eq!(t.page_dimensions, (666, 820));
    assert_eq!((t.bubble_dimensions.width, t.bubble_dimensions.height), (32, 32));
    assert!(t.field_blocks.is_empty());
    assert!(t.pre_processors.is_empty());
    assert_eq!(t.custom_labels.len(), 0);
    assert_eq!(t.empty_value, "");
    assert_eq!(t.validate(), Ok(()));
    assert_eq!(t.get_expected_bubble_count(), 0);
}

#[test]
fn basic_template_has_one_field_of_four_bubbles() {
    let t = OmrTemplate::create_basic_template();
    assert_eq!(t.validate(), Ok(()));
    assert_eq!(t.field_blocks.len(), 1);
    let q1 = t.get_field_block("Q1").unwrap();
    assert_eq!(q1.origin, (100, 200));
    assert_eq!(q1.field_type, FieldType::MultipleChoice);
    let places: Vec<((u32, u32), &str)> =
        q1.bubbles.iter().map(|b| (b.position, b.value.as_str())).collect();
    assert_eq!(places, vec![((0, 0), "A"), ((50, 0), "B"), ((100, 0), "C"), ((150, 0), "D")]);
    assert_eq!(q1.labels, vec!["A", "B", "C", "D"]);
    assert_eq!(t.output_columns, vec!["Q1"]);
    assert_eq!(t.get_expected_bubble_count(), 4);
    assert!(t.is_multi_choice_field("Q1"));
    assert!(!t.is_multi_choice_field("Q2"));
    assert!(t.get_field_block("q1").is_none());
    assert!(t.get_preprocessor_chain().is_empty());
}

#[test]
fn validation_names_the_first_fault() {
    let mut t = OmrTemplate::create_basic_template();
    t.bubble_dimensions.width = 0;
    t.page_dimensions = (0, 0);
    t.field_blocks.push(block("", FieldType::Integer, &[]));
    assert_eq!(t.validate(), Err(TemplateError::BubbleDimensions));
    t.bubble_dimensions = BubbleDimensions { width: 1, height: 0 };
    assert_eq!(t.validate(), Err(TemplateError::BubbleDimensions));
    t.bubble_dimensions.height = 1;
    assert_eq!(t.validate(), Err(TemplateError::PageDimensions));
    t.page_dimensions = (1, 0);
    assert_eq!(t.validate(), Err(TemplateError::PageDimensions));
    t.page_dimensions = (1, 1);
    assert_eq!(t.validate(), Err(TemplateError::EmptyFieldLabel));
    t.field_blocks[1].field_label = "Q2".to_string();
    assert_eq!(t.validate(), Err(TemplateError::NoBubbles));
    t.field_blocks.insert(1, block("", FieldType::Integer, &["1"]));
    assert_eq!(t.validate(), Err(TemplateError::EmptyFieldLabel));
    t.field_blocks.remove(1);
    t.field_blocks[1].bubbles.push(BubbleLocation { position: (1, 1), value: "7".to_string() });
    assert_eq!(t.validate(), Ok(()));
}

#[test]
fn loading_hands_a_valid_template_on() {
    let loaded = OmrTemplate::load(OmrTemplate::create_basic_template());
    assert_eq!(loaded.ok().map(|t| t.field_blocks.len()), Some(1));
    let mut bad = OmrTemplate::default();
    bad.page_dimensions = (0, 820);
    assert_eq!(OmrTemplate::load(bad).err(), Some(TemplateError::PageDimensions));
}

#[test]
fn template_errors_tell_what_is_wrong() {
    assert_eq!(TemplateError::BubbleDimensions.message(), "Bubble dimensions must be positive");
    assert_eq!(TemplateError::PageDimensions.message(), "Page dimensions must be positive");
    assert_eq!(TemplateError::EmptyFieldLabel.message(), "Field label cannot be empty");
    assert_eq!(TemplateError::NoBubbles.message(), "Field block must have at least one bubble");
}

#[test]
fn the_first_block_of_a_label_counts() {
    let mut t = OmrTemplate::default();
    t.field_blocks.push(block("Q1", FieldType::SingleChoice, &["A"]));
    t.field_blocks.push(block("Q1", FieldType::MultipleChoice, &["A", "B"]));
    t.field_blocks.push(block("Roll", FieldType::RollNumber, &["0", "1", "2"]));
    assert_eq!(t.get_field_block("Q1").unwrap().bubbles.len(), 1);
    assert!(!t.is_multi_choice_field("Q1"));
    assert!(!t.is_multi_choice_field("Roll"));
    assert_eq!(t.get_expected_bubble_count(), 6);
    let all = t.get_all_bubble_locations();
    assert_eq!(all.len(), 3);
    assert_eq!(all[1].0, "Q1");
    assert_eq!(all[1].1.len(), 2);
    assert_eq!(all[2].1[2].value, "2");
}

#[test]
fn label_map_keeps_one_value_for_each_label() {
    let mut map: LabelMap<u32> = LabelMap::new();
    assert_eq!(map.len(), 0);
    assert!(map.get("a").is_none());
    map.insert("a".to_string(), 1);
    map.insert("b".to_string(), 2);
    map.insert("a".to_string(), 3);
    assert_eq!(map.len(), 2);
    assert_eq!(map.get("a"), Some(&3));
    assert_eq!(map.get("b"), Some(&2));
    assert!(map.contains_key("b"));
    assert!(!map.contains_key("c"));
    assert_eq!(map.label_at(0), "a");
    assert_eq!(map.label_at(1), "b");
}

#[test]
fn text_helpers() {
    let items = vec!["x".to_string(), "".to_string(), "yz".to_string()];
    assert_eq!(join_strings(&items, ", "), "x, , yz");
    assert_eq!(join_strings(&items[..1].to_vec(), ";"), "x");
    assert_eq!(join_strings(&vec![], ";"), "");
    assert_eq!(clone_strings(&items), items);
    assert!(contains_text(&items, &"yz".to_string()));
    assert!(!contains_text(&items, &"y".to_string()));
    assert!(same_text("tiff", "tiff"));
    assert!(!same_text("tiff", "tif"));
    assert_eq!(decimal_text(0), "0");
    assert_eq!(decimal_text(7), "7");
    assert_eq!(decimal_text(10), "10");
    assert_eq!(decimal_text(1234567890), "1234567890");
    assert_eq!(decimal_text(usize::MAX), usize::MAX.to_string());
}

#[test]
fn image_files_are_known_by_their_extension() {
    for ext in ["jpg", "JPG", "jpeg", "Png", "bmp", "TIFF"] {
        assert!(OmrConfig::is_image_file(ext));
    }
    for ext in ["gif", "tif", "", "jpg ", "pdf"] {
        assert!(!OmrConfig::is_image_file(ext));
    }
}

#[test]
fn result_rows_list_each_field_of_each_file() {
    let files = vec![
        ProcessedFile {
            file_path: "a.png".to_string(),
            detected_bubbles: vec![
                BubbleResponse {
                    field_label: "Q1".to_string(),
                    detected_values: vec!["A".to_string(), "C".to_string()],
                    confidence: 500_000,
                    is_multi_marked: true,
                },
                BubbleResponse {
                    field_label: "Q2".to_string(),
                    detected_values: vec![],
                    confidence: 1,
                    is_multi_marked: false,
                },
            ],
            confidence_score: 250_000,
            processing_time: 42,
            alignment_applied: false,
        },
        ProcessedFile {
            file_path: "empty.png".to_string(),
            detected_bubbles: vec![],
            confidence_score: 0,
            processing_time: 1,
            alignment_applied: false,
        },
        ProcessedFile {
            file_path: "b.png".to_string(),
            detected_bubbles: vec![BubbleResponse {
                field_label: "Q1".to_string(),
                detected_values: vec!["B".to_string()],
                confidence: 1_000_000,
                is_multi_marked: false,
            }],
            confidence_score: 1_000_000,
            processing_time: 7,
            alignment_applied: true,
        },
    ];
    let rows = OmrConfig::result_rows(&files);
    let plain: Vec<(&str, &str, &str, u32, u64)> = rows
        .iter()
        .map(|r| {
            (
                r.file_path.as_str(),
                r.field_label.as_str(),
                r.detected_values.as_str(),
                r.confidence,
                r.processing_time,
            )
        })
        .collect();
    assert_eq!(
        plain,
        vec![
            ("a.png", "Q1", "A;C", 500_000, 42),
            ("a.png", "Q2", "", 1, 42),
            ("b.png", "Q1", "B", 1_000_000, 7),
        ]
    );
    assert_eq!(
        OmrConfig::result_header(),
        vec!["file_path", "field_label", "detected_values", "confidence", "processing_time"]
    );
}

fn processed(path: &str) -> ProcessedFile {
    ProcessedFile {
        file_path: path.to_string(),
        detected_bubbles: vec![],
        confidence_score: 0,
        processing_time: 0,
        alignment_applied: false,
    }
}

#[test]
fn a_run_without_files_fails() {
    let result = OmrConfig::conclude_run(0, vec![], vec![], 99);
    assert!(!result.success);
    assert_eq!(result.message, "No image files found in input directories");
    assert_eq!(result.errors, vec!["No input files found"]);
    assert_eq!(result.total_processing_time, 0);
    assert!(result.processed_files.is_empty());
}

#[test]
fn a_run_succeeds_when_a_file_comes_through() {
    let done = OmrConfig::conclude_run(1, vec![processed("a")], vec![], 99);
    assert!(done.success);
    assert_eq!(done.message, "Successfully processed 1 files");
    assert!(done.errors.is_empty());
    assert_eq!(done.total_processing_time, 99);
    assert_eq!(done.processed_files.len(), 1);
}

#[test]
fn a_bad_file_does_not_fail_the_run() {
    let errors = vec!["b.png: Failed to load image".to_string()];
    let files = vec![processed("a.png"), processed("c.png")];
    let result = OmrConfig::conclude_run(3, files, errors.clone(), 1234);
    assert!(result.success);
    assert_eq!(result.message, "Successfully processed 2 files");
    assert_eq!(result.errors, errors);
    assert_eq!(result.total_processing_time, 1234);
    let paths: Vec<&str> = result.processed_files.iter().map(|f| f.file_path.as_str()).collect();
    assert_eq!(paths, vec!["a.png", "c.png"]);
}

#[test]
fn a_run_in_which_every_file_fails_is_a_failure() {
    let errors = vec!["a.png: broken".to_string(), "b.png: broken".to_string()];
    let result = OmrConfig::conclude_run(2, vec![], errors.clone(), 7);
    assert!(!result.success);
    assert_eq!(result.message, "No image file could be processed");
    assert_eq!(result.errors, errors);
    assert_eq!(result.total_processing_time, 7);
}

#[test]
fn wide_products_compare_exactly() {
    let w = Wide::product(u128::MAX, u64::MAX);
    // (2^128 - 1) * (2^64 - 1) = (2^128 - 2^64 - 1) * 2^64 + 1.
    assert_eq!(w.hi, u128::MAX - (1u128 << 64));
    assert_eq!(w.lo, 1);
    let small = Wide::product(3, 4);
    assert_eq!((small.hi, small.lo), (0, 12));
    assert!(small.less_than(&w));
    assert!(!w.less_than(&small));
    assert!(!w.less_than(&w));
    let a = 1u128 << 100;
    assert!(product_less(a, 1 << 40, a + 1, 1 << 40));
    assert!(!product_less(a + 1, 1 << 40, a, 1 << 40));
    // 2^140 - 2^100 against 2^140 + 2^100 - 2^40 - 1.
    assert!(product_less(a, (1 << 40) - 1, a - 1, (1 << 40) + 1));
    assert!(!product_less(a - 1, (1 << 40) + 1, a, (1 << 40) - 1));
    assert!(!product_less(0, 5, 0, 9));
    assert!(product_less(1 << 127, 2, u128::MAX, 2));
}

#[test]
fn histograms_count_the_pixels_of_a_window() {
    let img = GrayImage::from_raw(3, 2, vec![5, 5, 9, 0, 5, 255]).unwrap();
    let all = window_histogram(&img, 0, 0, 3, 2);
    assert_eq!(all.len(), 256);
    assert_eq!((all[0], all[5], all[9], all[255], all[6]), (1, 3, 1, 1, 0));
    let part = window_histogram(&img, 1, 0, 2, 1);
    assert_eq!((part[5], part[9], part[0]), (1, 1, 0));
    assert_eq!(empty_histogram(), vec![0usize; 256]);
}
