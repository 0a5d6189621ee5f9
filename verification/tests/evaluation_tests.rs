use fon_de_de_na_ja::evaluation::{
    answer_key_from_entries, answer_key_from_rows, count_responses, count_results, AnswerKey,
    AnswerKeyError, EvaluationEngine, EvaluationReport, EvaluationResult, ScoringConfig,
};
use fon_de_de_na_ja::labels::LabelMap;
use fon_de_de_na_ja::template::ScoreVariant;
use fon_de_de_na_ja::{BubbleResponse, ProcessedFile};

fn texts(items: &[&str]) -> Vec<String> {
    items.iter().map(|s| s.to_string()).collect()
}

fn response(label: &str, detected: &[&str], confidence: u32, multi: bool) -> BubbleResponse {
    BubbleResponse {
        field_label: label.to_string(),
        detected_values: texts(detected),
        confidence,
        is_multi_marked: multi,
    }
}

fn file(path: &str, responses: Vec<BubbleResponse>) -> ProcessedFile {
    ProcessedFile {
        file_path: path.to_string(),
        detected_bubbles: responses,
        confidence_score: 0,
        processing_time: 0,
        alignment_applied: false,
    }
}

fn key_of(entries: &[(&str, &[&str])]) -> AnswerKey {
    let mut key: AnswerKey = LabelMap::new();
    for (label, answers) in entries {
        key.insert(label.to_string(), texts(answers));
    }
    key
}

fn engine() -> EvaluationEngine {
    EvaluationEngine::new(ScoringConfig::default())
}

fn result(label: &str, correct: bool, confidence: u32) -> EvaluationResult {
    EvaluationResult {
        field_label: label.to_string(),
        detected_values: vec![],
        correct_answers: vec![],
        is_correct: correct,
        score: 0,
        confidence,
        feedback: String::new(),
    }
}

fn report(results: Vec<EvaluationResult>) -> EvaluationReport {
    EvaluationReport {
        file_path: String::new(),
        total_score: 0,
        max_possible_score: 0,
        percentage: 0,
        field_results: results,
        multi_marked_fields: vec![],
    }
}

#[test]
fn default_scores_are_one_minus_a_quarter_and_zero() {
    let config = ScoringConfig::default();
    assert_eq!(config.default_correct, 1_000_000);
    assert_eq!(config.default_incorrect, -250_000);
    assert_eq!(config.default_unmarked, 0);
    assert_eq!(config.custom_variants.len(), 0);
}

#[test]
fn detected_b_against_expected_b_is_correct() {
    let key = key_of(&[("Q1", &["B"])]);
    let result = engine().evaluate_single_field(&response("Q1", &["B"], 250_000, false), &key);
    assert!(result.is_correct);
    assert_eq!(result.score, 1_000_000);
    assert_eq!(result.field_label, "Q1");
    assert_eq!(result.detected_values, texts(&["B"]));
    assert_eq!(result.correct_answers, texts(&["B"]));
    assert_eq!(result.confidence, 250_000);
    assert_eq!(result.feedback, "Correct: B");
}

#[test]
fn wrong_value_is_incorrect_and_costs_a_quarter() {
    let key = key_of(&[("Q1", &["B"])]);
    let result = engine().evaluate_single_field(&response("Q1", &["C"], 0, false), &key);
    assert!(!result.is_correct);
    assert_eq!(result.score, -250_000);
    assert_eq!(result.feedback, "Incorrect: C (Correct: B)");
}

#[test]
fn blank_against_nothing_expected_is_correctly_left_blank() {
    let key = key_of(&[]);
    let result = engine().evaluate_single_field(&response("Q9", &[], 0, false), &key);
    assert!(result.is_correct);
    assert_eq!(result.score, 0);
    assert_eq!(result.feedback, "Correctly left blank");
    assert!(result.correct_answers.is_empty());
}

#[test]
fn blank_against_an_expected_answer_is_incorrect_but_scores_unmarked() {
    let key = key_of(&[("Q1", &["B", "C"])]);
    let result = engine().evaluate_single_field(&response("Q1", &[], 0, false), &key);
    assert!(!result.is_correct);
    assert_eq!(result.score, 0);
    assert_eq!(result.feedback, "Left blank (Correct: B, C)");
}

#[test]
fn correctness_ignores_order_and_repetition() {
    let key = key_of(&[("Q1", &["C", "B", "C"])]);
    let result = engine().evaluate_single_field(&response("Q1", &["B", "C"], 0, false), &key);
    assert!(result.is_correct);
    assert_eq!(result.feedback, "Correct: B, C");
    let partial = engine().evaluate_single_field(&response("Q1", &["B"], 0, false), &key);
    assert!(!partial.is_correct);
    let surplus = engine().evaluate_single_field(&response("Q1", &["B", "C", "D"], 0, false), &key);
    assert!(!surplus.is_correct);
}

#[test]
fn multi_marked_is_incorrect_even_when_the_values_match() {
    let key = key_of(&[("Q1", &["A", "B"])]);
    let result = engine().evaluate_single_field(&response("Q1", &["A", "B"], 500_000, true), &key);
    assert!(!result.is_correct);
    assert_eq!(result.score, -250_000);
    assert_eq!(result.feedback, "Multi-marked: A, B (Correct: A, B)");
}

#[test]
fn multi_marked_blank_scores_as_incorrect() {
    let key = key_of(&[]);
    let result = engine().evaluate_single_field(&response("Q1", &[], 0, true), &key);
    assert!(!result.is_correct);
    assert_eq!(result.score, -250_000);
    assert_eq!(result.feedback, "Multi-marked:  (Correct: )");
}

#[test]
fn a_field_with_its_own_variant_is_scored_by_it() {
    let mut variants: LabelMap<ScoreVariant> = LabelMap::new();
    variants.insert(
        "Q2".to_string(),
        ScoreVariant { correct: 4_000_000, incorrect: -1_000_000, unmarked: -500_000 },
    );
    let engine = EvaluationEngine::new(ScoringConfig {
        default_correct: 1_000_000,
        default_incorrect: -250_000,
        default_unmarked: 0,
        custom_variants: variants,
    });
    let key = key_of(&[("Q1", &["A"]), ("Q2", &["A"])]);
    assert_eq!(engine.calculate_score("Q2", &texts(&["A"]), true, false), 4_000_000);
    assert_eq!(engine.calculate_score("Q2", &texts(&["B"]), false, false), -1_000_000);
    assert_eq!(engine.calculate_score("Q2", &texts(&[]), false, false), -500_000);
    assert_eq!(engine.calculate_score("Q2", &texts(&["A"]), true, true), -1_000_000);
    assert_eq!(engine.calculate_score("Q1", &texts(&["A"]), true, false), 1_000_000);
    let report = engine.evaluate_responses(
        &file("sheet.png", vec![response("Q1", &["A"], 0, false), response("Q2", &["A"], 0, false)]),
        &key,
    );
    assert_eq!(report.total_score, 5_000_000);
    // The maximum counts the default score of a correct answer for every response.
    assert_eq!(report.max_possible_score, 2_000_000);
    assert_eq!(report.percentage, 250_000_000);
}

#[test]
fn report_totals_scores_and_lists_multi_marked_fields() {
    let key = key_of(&[("Q1", &["B"]), ("Q2", &["A"]), ("Q3", &["D"])]);
    let report = engine().evaluate_responses(
        &file(
            "scans/one.png",
            vec![
                response("Q1", &["B"], 900_000, false),
                response("Q2", &["A", "C"], 800_000, true),
                response("Q3", &[], 100_000, false),
            ],
        ),
        &key,
    );
    assert_eq!(report.file_path, "scans/one.png");
    assert_eq!(report.field_results.len(), 3);
    assert_eq!(report.total_score, 750_000);
    assert_eq!(report.max_possible_score, 3_000_000);
    assert_eq!(report.percentage, 25_000_000);
    assert_eq!(report.multi_marked_fields, texts(&["Q2"]));
    assert!(report.field_results[0].is_correct);
    assert!(!report.field_results[1].is_correct);
    assert!(!report.field_results[2].is_correct);
}

#[test]
fn a_negative_total_gives_a_percentage_of_zero() {
    let key = key_of(&[("Q1", &["B"])]);
    let report = engine().evaluate_responses(&file("f", vec![response("Q1", &["A"], 0, false)]), &key);
    assert_eq!(report.total_score, -250_000);
    assert_eq!(report.percentage, 0);
}

#[test]
fn a_file_without_responses_has_a_percentage_of_zero() {
    let report = engine().evaluate_responses(&file("f", vec![]), &key_of(&[]));
    assert_eq!(report.total_score, 0);
    assert_eq!(report.max_possible_score, 0);
    assert_eq!(report.percentage, 0);
    assert!(report.field_results.is_empty());
}

#[test]
fn percentage_is_rounded_down() {
    let key = key_of(&[("Q1", &["A"]), ("Q2", &["A"]), ("Q3", &["A"])]);
    let report = engine().evaluate_responses(
        &file(
            "f",
            vec![
                response("Q1", &["A"], 0, false),
                response("Q2", &[], 0, false),
                response("Q3", &[], 0, false),
            ],
        ),
        &key,
    );
    // One point of three: 33.333333 percent.
    assert_eq!(report.percentage, 33_333_333);
}

#[test]
fn batch_of_a_full_score_and_a_zero_score_averages_fifty_percent() {
    let key = key_of(&[("Q1", &["B"])]);
    let files = vec![
        file("a.png", vec![response("Q1", &["B"], 0, false)]),
        file("b.png", vec![response("Q1", &[], 0, false)]),
    ];
    let batch = engine().evaluate_batch(&files, &key);
    assert_eq!(batch.total_files, 2);
    assert_eq!(batch.individual_reports[0].total_score, 1_000_000);
    assert_eq!(batch.individual_reports[0].max_possible_score, 1_000_000);
    assert_eq!(batch.individual_reports[1].total_score, 0);
    assert_eq!(batch.individual_reports[1].max_possible_score, 1_000_000);
    assert_eq!(batch.total_score, 1_000_000);
    assert_eq!(batch.max_possible_score, 2_000_000);
    assert_eq!(batch.average_percentage, 50_000_000);
    assert_eq!(batch.files_with_multi_marks, 0);
}

#[test]
fn batch_counts_files_with_multi_marks() {
    let key = key_of(&[("Q1", &["B"])]);
    let files = vec![
        file("a", vec![response("Q1", &["A", "B"], 0, true), response("Q2", &["A", "B"], 0, true)]),
        file("b", vec![response("Q1", &["B"], 0, false)]),
        file("c", vec![response("Q1", &["B", "C"], 0, true)]),
    ];
    let batch = engine().evaluate_batch(&files, &key);
    assert_eq!(batch.files_with_multi_marks, 2);
    assert_eq!(batch.total_files, 3);
    assert_eq!(batch.total_score, 1_000_000 - 4 * 250_000 + 250_000);
    assert_eq!(batch.max_possible_score, 4_000_000);
    assert_eq!(batch.average_percentage, 6_250_000);
}

#[test]
fn empty_batch_has_nothing_to_report() {
    let batch = engine().evaluate_batch(&vec![], &key_of(&[]));
    assert_eq!(batch.total_files, 0);
    assert_eq!(batch.average_percentage, 0);
    assert!(batch.individual_reports.is_empty());
}

#[test]
fn statistics_count_per_label_and_overall() {
    let reports = vec![
        report(vec![result("Q1", true, 900_000), result("Q2", false, 400_000)]),
        report(vec![result("Q1", false, 300_000), result("Q2", false, 100_000), result("Q3", true, 7)]),
        report(vec![result("Q1", true, 600_001)]),
    ];
    let stats = engine().generate_statistics(&reports);
    assert_eq!(stats.total_files, 3);
    assert_eq!(stats.total_fields, 6);
    assert_eq!(stats.overall_accuracy, 500_000);
    assert_eq!(stats.field_statistics.len(), 3);
    let q1 = stats.field_statistics.get("Q1").unwrap();
    assert_eq!(q1.total_responses, 3);
    assert_eq!(q1.correct_responses, 2);
    assert_eq!(q1.accuracy, 666_666);
    assert_eq!(q1.confidence_sum, 1_800_001);
    assert_eq!(q1.average_confidence, 600_000);
    let q2 = stats.field_statistics.get("Q2").unwrap();
    assert_eq!(q2.total_responses, 2);
    assert_eq!(q2.correct_responses, 0);
    assert_eq!(q2.accuracy, 0);
    assert_eq!(q2.average_confidence, 250_000);
    let q3 = stats.field_statistics.get("Q3").unwrap();
    assert_eq!(q3.total_responses, 1);
    assert_eq!(q3.accuracy, 1_000_000);
    assert_eq!(q3.average_confidence, 7);
    assert!(stats.field_statistics.get("Q4").is_none());
}

#[test]
fn statistics_of_no_report_are_zero() {
    let stats = engine().generate_statistics(&vec![]);
    assert_eq!(stats.total_files, 0);
    assert_eq!(stats.total_fields, 0);
    assert_eq!(stats.overall_accuracy, 0);
    assert_eq!(stats.field_statistics.len(), 0);
}

#[test]
fn csv_answer_key_takes_label_and_filled_columns() {
    let key = EvaluationEngine::parse_csv_answer_key("Q1,B,\nQ2,A,C\nQ3,,\n").unwrap();
    assert_eq!(key.len(), 3);
    assert_eq!(key.get("Q1").unwrap(), &texts(&["B"]));
    assert_eq!(key.get("Q2").unwrap(), &texts(&["A", "C"]));
    assert_eq!(key.get("Q3").unwrap(), &texts(&[]));
}

#[test]
fn csv_answer_key_reads_its_first_row_as_a_field() {
    let key = EvaluationEngine::parse_csv_answer_key("Q1,B\nQ2,A\n").unwrap();
    assert_eq!(key.len(), 2);
    assert_eq!(key.label_at(0), "Q1");
    assert_eq!(key.get("Q1").unwrap(), &texts(&["B"]));
    let titled = EvaluationEngine::parse_csv_answer_key("field,answer\nQ1,B\n").unwrap();
    assert_eq!(titled.get("field").unwrap(), &texts(&["answer"]));
    assert_eq!(titled.get("Q1").unwrap(), &texts(&["B"]));
}

#[test]
fn csv_answer_key_rows_may_differ_in_length() {
    let key = EvaluationEngine::parse_csv_answer_key("Q1,A,B,C\nQ2,D\nQ3\nQ4,,E\n").unwrap();
    assert_eq!(key.len(), 3);
    assert_eq!(key.get("Q1").unwrap(), &texts(&["A", "B", "C"]));
    assert_eq!(key.get("Q2").unwrap(), &texts(&["D"]));
    assert!(key.get("Q3").is_none());
    assert_eq!(key.get("Q4").unwrap(), &texts(&["E"]));
}

#[test]
fn csv_fields_may_be_quoted() {
    let key = EvaluationEngine::parse_csv_answer_key("Q1,\"a, b\",\"say \"\"c\"\"\"\n").unwrap();
    assert_eq!(key.get("Q1").unwrap(), &texts(&["a, b", "say \"c\""]));
    assert_eq!(EvaluationEngine::parse_csv_answer_key("").unwrap().len(), 0);
    assert_eq!(AnswerKeyError::Csv.message(), "Failed to read CSV record");
}

#[test]
fn csv_records_of_one_field_are_passed_over() {
    let key = EvaluationEngine::parse_csv_answer_key("field\nQ1\nQ2\n").unwrap();
    assert_eq!(key.len(), 0);
}

#[test]
fn json_answer_key_maps_labels_to_answers() {
    let key = EvaluationEngine::parse_json_answer_key(r#"{"Q2":["A","C"],"Q1":["B"]}"#).unwrap();
    assert_eq!(key.len(), 2);
    assert_eq!(key.get("Q1").unwrap(), &texts(&["B"]));
    assert_eq!(key.get("Q2").unwrap(), &texts(&["A", "C"]));
}

#[test]
fn json_answer_key_of_another_shape_is_refused() {
    assert_eq!(EvaluationEngine::parse_json_answer_key("[1, 2]").err(), Some(AnswerKeyError::Json));
    assert_eq!(EvaluationEngine::parse_json_answer_key("{\"Q1\":").err(), Some(AnswerKeyError::Json));
    assert_eq!(AnswerKeyError::Json.message(), "Failed to parse JSON answer key");
}

#[test]
fn load_answer_key_picks_the_format() {
    let json = EvaluationEngine::load_answer_key(r#"{"Q1":["B"]}"#, true).unwrap();
    assert_eq!(json.get("Q1").unwrap(), &texts(&["B"]));
    let csv = EvaluationEngine::load_answer_key("Q1,D\n", false).unwrap();
    assert_eq!(csv.get("Q1").unwrap(), &texts(&["D"]));
    assert_eq!(csv.len(), 1);
    assert!(EvaluationEngine::load_answer_key("Q1,D\n", true).is_err());
}

#[test]
fn a_later_entry_replaces_an_earlier_one() {
    let entries = vec![
        ("Q1".to_string(), texts(&["A"])),
        ("Q2".to_string(), texts(&["B"])),
        ("Q1".to_string(), texts(&["C", "D"])),
    ];
    let key = answer_key_from_entries(&entries);
    assert_eq!(key.len(), 2);
    assert_eq!(key.get("Q1").unwrap(), &texts(&["C", "D"]));
    let rows = vec![texts(&["Q1", "A"]), texts(&["Q1", "", "B"]), texts(&["alone"])];
    let from_rows = answer_key_from_rows(&rows);
    assert_eq!(from_rows.len(), 1);
    assert_eq!(from_rows.get("Q1").unwrap(), &texts(&["B"]));
}

#[test]
fn scenario_answer_key_b_scores_one() {
    let key = EvaluationEngine::parse_json_answer_key(r#"{"Q1":["B"]}"#).unwrap();
    let result = engine().evaluate_single_field(&response("Q1", &["B"], 250_000, false), &key);
    assert!(result.is_correct);
    assert_eq!(result.score, 1_000_000);
}

#[test]
fn responses_and_results_are_counted_over_all_files() {
    let files = vec![
        file("a", vec![response("Q1", &[], 0, false), response("Q2", &[], 0, false)]),
        file("b", vec![]),
        file("c", vec![response("Q1", &[], 0, false)]),
    ];
    assert_eq!(count_responses(&files), Some(3));
    assert_eq!(count_responses(&vec![]), Some(0));
    let reports = vec![report(vec![result("Q1", true, 0)]), report(vec![result("Q1", true, 0), result("Q2", true, 0)])];
    assert_eq!(count_results(&reports), Some(3));
}

#[test]
fn labels_keep_the_order_of_their_first_occurrence() {
    let reports = vec![
        report(vec![result("Q3", true, 0), result("Q1", false, 0)]),
        report(vec![result("Q1", true, 0), result("Q2", true, 0), result("Q3", true, 0)]),
    ];
    let stats = engine().generate_statistics(&reports);
    let labels: Vec<&str> = (0..stats.field_statistics.len())
        .map(|i| stats.field_statistics.label_at(i).as_str())
        .collect();
    assert_eq!(labels, vec!["Q3", "Q1", "Q2"]);
    let key = EvaluationEngine::parse_csv_answer_key("Q2,A\nQ1,B\nQ2,C\n").unwrap();
    assert_eq!(key.label_at(0), "Q2");
    assert_eq!(key.label_at(1), "Q1");
    let json = EvaluationEngine::parse_json_answer_key(r#"{"Q2":["A"],"Q1":["B"]}"#).unwrap();
    assert_eq!(json.label_at(0), "Q1");
    assert_eq!(json.label_at(1), "Q2");
}
