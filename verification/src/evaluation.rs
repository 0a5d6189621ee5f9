//! Scoring detected responses against an answer key.

use crate::bubble_detection::{bubble_confidences, field_response, lemma_two_selected};
use crate::labels::{
    clone_strings, contains_text, distinct_in_order, join_strings, joined, LabelMap,
};
use crate::raster::GrayImage;
use crate::template::{FieldBlock, FieldType, OmrTemplate, ScoreVariant};
use crate::{BubbleResponse, BubbleResponseView, ProcessedFile};
use vstd::prelude::*;
use vstd::string::*;

verus! {

/// The accepted answers of each field.
pub type AnswerKey = LabelMap<Vec<String>>;

/// Scores awarded when a field has no variant of its own, and the variants
/// of the fields that have one. All scores are in millionths of a point.
pub struct ScoringConfig {
    pub default_correct: i32,
    pub default_incorrect: i32,
    pub default_unmarked: i32,
    pub custom_variants: LabelMap<ScoreVariant>,
}

impl Default for ScoringConfig {
    /// One point for a correct answer, a quarter point off for a wrong one,
    /// nothing for a blank.
    fn default() -> (config: ScoringConfig)
        ensures
            config.default_correct == 1_000_000,
            config.default_incorrect == -250_000,
            config.default_unmarked == 0,
            config.custom_variants.wf(),
            config.custom_variants@ == Map::<Seq<char>, ScoreVariant>::empty(),
    {
        ScoringConfig {
            default_correct: 1_000_000,
            default_incorrect: -250_000,
            default_unmarked: 0,
            custom_variants: LabelMap::new(),
        }
    }
}

/// The judgement on one field.
#[derive(Debug)]
pub struct EvaluationResult {
    pub field_label: String,
    pub detected_values: Vec<String>,
    pub correct_answers: Vec<String>,
    pub is_correct: bool,
    /// In millionths of a point.
    pub score: i32,
    /// In millionths.
    pub confidence: u32,
    pub feedback: String,
}

/// The mathematical content of an `EvaluationResult`.
pub ghost struct EvaluationResultView {
    pub field_label: Seq<char>,
    pub detected_values: Seq<Seq<char>>,
    pub correct_answers: Seq<Seq<char>>,
    pub is_correct: bool,
    pub score: i32,
    pub confidence: u32,
    pub feedback: Seq<char>,
}

impl View for EvaluationResult {
    type V = EvaluationResultView;

    open spec fn view(&self) -> EvaluationResultView {
        EvaluationResultView {
            field_label: self.field_label@,
            detected_values: self.detected_values.deep_view(),
            correct_answers: self.correct_answers.deep_view(),
            is_correct: self.is_correct,
            score: self.score,
            confidence: self.confidence,
            feedback: self.feedback@,
        }
    }
}

/// The answers the key accepts for `label`: none when the key lacks it.
pub open spec fn expected_answers(key: Map<Seq<char>, Vec<String>>, label: Seq<char>) -> Seq<
    Seq<char>,
> {
    if key.contains_key(label) {
        key[label].deep_view()
    } else {
        Seq::empty()
    }
}

/// Every item of `items` occurs in `pool`.
pub open spec fn all_within(items: Seq<Seq<char>>, pool: Seq<Seq<char>>) -> bool {
    forall|i: int| 0 <= i < items.len() ==> pool.contains(#[trigger] items[i])
}

/// The two lists hold the same values, whatever their order and however
/// often each value is repeated.
pub open spec fn same_values(a: Seq<Seq<char>>, b: Seq<Seq<char>>) -> bool {
    all_within(a, b) && all_within(b, a)
}

/// Whether a response is correct: never when multi-marked; a blank exactly
/// when nothing was expected; otherwise when the detected and expected
/// values are the same set.
pub open spec fn response_is_correct(
    detected: Seq<Seq<char>>,
    expected: Seq<Seq<char>>,
    is_multi_marked: bool,
) -> bool {
    if is_multi_marked {
        false
    } else if detected.len() == 0 {
        expected.len() == 0
    } else {
        same_values(detected, expected)
    }
}

/// The scores in force for `label`: its own variant, else the defaults.
pub open spec fn variant_for(config: &ScoringConfig, label: Seq<char>) -> ScoreVariant {
    if config.custom_variants@.contains_key(label) {
        config.custom_variants@[label]
    } else {
        ScoreVariant {
            correct: config.default_correct,
            incorrect: config.default_incorrect,
            unmarked: config.default_unmarked,
        }
    }
}

/// The score of a response. A multi-marked response scores as incorrect
/// even when nothing was detected; a blank scores as unmarked.
pub open spec fn response_score(
    config: &ScoringConfig,
    label: Seq<char>,
    detected: Seq<Seq<char>>,
    is_correct: bool,
    is_multi_marked: bool,
) -> i32 {
    let variant = variant_for(config, label);
    if is_multi_marked {
        variant.incorrect
    } else if detected.len() == 0 {
        variant.unmarked
    } else if is_correct {
        variant.correct
    } else {
        variant.incorrect
    }
}

/// The sentence shown for a response.
pub open spec fn feedback_text(
    detected: Seq<Seq<char>>,
    expected: Seq<Seq<char>>,
    is_correct: bool,
    is_multi_marked: bool,
) -> Seq<char> {
    if is_multi_marked {
        "Multi-marked: "@ + joined(detected, ", "@) + " (Correct: "@ + joined(expected, ", "@)
            + ")"@
    } else if detected.len() == 0 {
        if expected.len() == 0 {
            "Correctly left blank"@
        } else {
            "Left blank (Correct: "@ + joined(expected, ", "@) + ")"@
        }
    } else if is_correct {
        "Correct: "@ + joined(detected, ", "@)
    } else {
        "Incorrect: "@ + joined(detected, ", "@) + " (Correct: "@ + joined(expected, ", "@)
            + ")"@
    }
}

/// The judgement on one response under a scoring scheme and an answer key.
pub open spec fn evaluate_field(
    config: &ScoringConfig,
    response: BubbleResponseView,
    key: Map<Seq<char>, Vec<String>>,
) -> EvaluationResultView {
    let expected = expected_answers(key, response.field_label);
    let is_correct = response_is_correct(
        response.detected_values,
        expected,
        response.is_multi_marked,
    );
    EvaluationResultView {
        field_label: response.field_label,
        detected_values: response.detected_values,
        correct_answers: expected,
        is_correct,
        score: response_score(
            config,
            response.field_label,
            response.detected_values,
            is_correct,
            response.is_multi_marked,
        ),
        confidence: response.confidence,
        feedback: feedback_text(
            response.detected_values,
            expected,
            is_correct,
            response.is_multi_marked,
        ),
    }
}

/// Whether every item of `items` occurs in `pool`.
fn every_item_within(items: &Vec<String>, pool: &Vec<String>) -> (r: bool)
    ensures
        r == all_within(items.deep_view(), pool.deep_view()),
{
    let mut i: usize = 0;
    while i < items.len()
        invariant
            i <= items.len(),
            forall|k: int|
                0 <= k < i ==> pool.deep_view().contains(#[trigger] items.deep_view()[k]),
        decreases items.len() - i,
    {
        if !contains_text(pool, &items[i]) {
            assert(items.deep_view()[i as int] == items@[i as int]@);
            return false;
        }
        assert(items.deep_view()[i as int] == items@[i as int]@);
        i += 1;
    }
    true
}

/// Scores responses against an answer key.
pub struct EvaluationEngine {
    pub(crate) scoring_config: ScoringConfig,
}

impl EvaluationEngine {
    /// The scheme the engine scores with.
    pub open(crate) spec fn config(&self) -> &ScoringConfig {
        &self.scoring_config
    }

    /// The engine's variants form a proper map.
    pub open(crate) spec fn wf(&self) -> bool {
        self.scoring_config.custom_variants.wf()
    }

    /// An engine that scores with `scoring_config`.
    pub fn new(scoring_config: ScoringConfig) -> (engine: EvaluationEngine)
        ensures
            *engine.config() == scoring_config,
            engine.wf() == scoring_config.custom_variants.wf(),
    {
        EvaluationEngine { scoring_config }
    }

    /// The score of one response.
    pub fn calculate_score(
        &self,
        field_label: &str,
        detected_values: &Vec<String>,
        is_correct: bool,
        is_multi_marked: bool,
    ) -> (score: i32)
        requires
            self.wf(),
        ensures
            score == response_score(
                self.config(),
                field_label@,
                detected_values.deep_view(),
                is_correct,
                is_multi_marked,
            ),
    {
        let variant: ScoreVariant = match self.scoring_config.custom_variants.get(field_label) {
            Some(v) => *v,
            None => ScoreVariant {
                correct: self.scoring_config.default_correct,
                incorrect: self.scoring_config.default_incorrect,
                unmarked: self.scoring_config.default_unmarked,
            },
        };
        if is_multi_marked {
            variant.incorrect
        } else if detected_values.len() == 0 {
            variant.unmarked
        } else if is_correct {
            variant.correct
        } else {
            variant.incorrect
        }
    }

    /// The sentence shown for one response.
    pub fn generate_feedback(
        &self,
        detected_values: &Vec<String>,
        correct_answers: &Vec<String>,
        is_correct: bool,
        is_multi_marked: bool,
    ) -> (feedback: String)
        ensures
            feedback@ == feedback_text(
                detected_values.deep_view(),
                correct_answers.deep_view(),
                is_correct,
                is_multi_marked,
            ),
    {
        if is_multi_marked {
            let mut out: String = String::from_str("Multi-marked: ");
            out.append(join_strings(detected_values, ", ").as_str());
            out.append(" (Correct: ");
            out.append(join_strings(correct_answers, ", ").as_str());
            out.append(")");
            out
        } else if detected_values.len() == 0 {
            if correct_answers.len() == 0 {
                String::from_str("Correctly left blank")
            } else {
                let mut out: String = String::from_str("Left blank (Correct: ");
                out.append(join_strings(correct_answers, ", ").as_str());
                out.append(")");
                out
            }
        } else if is_correct {
            let mut out: String = String::from_str("Correct: ");
            out.append(join_strings(detected_values, ", ").as_str());
            out
        } else {
            let mut out: String = String::from_str("Incorrect: ");
            out.append(join_strings(detected_values, ", ").as_str());
            out.append(" (Correct: ");
            out.append(join_strings(correct_answers, ", ").as_str());
            out.append(")");
            out
        }
    }

    /// Judges one response against the answer key.
    pub fn evaluate_single_field(&self, bubble_response: &BubbleResponse, answer_key: &AnswerKey) -> (result:
        EvaluationResult)
        requires
            self.wf(),
            answer_key.wf(),
        ensures
            result@ == evaluate_field(self.config(), bubble_response@, answer_key@),
    {
        let detected_values: &Vec<String> = &bubble_response.detected_values;
        let correct_answers: Vec<String> = match answer_key.get(
            bubble_response.field_label.as_str(),
        ) {
            Some(answers) => clone_strings(answers),
            None => Vec::new(),
        };
        assert(correct_answers.deep_view() =~= expected_answers(
            answer_key@,
            bubble_response.field_label@,
        ));
        let is_correct: bool = if bubble_response.is_multi_marked {
            false
        } else if detected_values.len() == 0 {
            correct_answers.len() == 0
        } else {
            every_item_within(detected_values, &correct_answers) && every_item_within(
                &correct_answers,
                detected_values,
            )
        };
        let score: i32 = self.calculate_score(
            bubble_response.field_label.as_str(),
            detected_values,
            is_correct,
            bubble_response.is_multi_marked,
        );
        let feedback: String = self.generate_feedback(
            detected_values,
            &correct_answers,
            is_correct,
            bubble_response.is_multi_marked,
        );
        EvaluationResult {
            field_label: bubble_response.field_label.clone(),
            detected_values: clone_strings(detected_values),
            correct_answers,
            is_correct,
            score,
            confidence: bubble_response.confidence,
            feedback,
        }
    }
}


/// The judgement on one file.
#[derive(Debug)]
pub struct EvaluationReport {
    pub file_path: String,
    /// Sum of the field scores, in millionths of a point.
    pub total_score: i128,
    /// The default score of a correct answer, once per response.
    pub max_possible_score: i128,
    /// `total_score` as a share of `max_possible_score`, in millionths of a
    /// percent and never negative.
    pub percentage: u64,
    pub field_results: Vec<EvaluationResult>,
    pub multi_marked_fields: Vec<String>,
}

/// The mathematical content of an `EvaluationReport`.
pub ghost struct EvaluationReportView {
    pub file_path: Seq<char>,
    pub total_score: int,
    pub max_possible_score: int,
    pub percentage: int,
    pub field_results: Seq<EvaluationResultView>,
    pub multi_marked_fields: Seq<Seq<char>>,
}

/// The views of a list of results.
pub open spec fn result_views(results: Seq<EvaluationResult>) -> Seq<EvaluationResultView> {
    Seq::new(results.len(), |i: int| results[i]@)
}

impl View for EvaluationReport {
    type V = EvaluationReportView;

    open spec fn view(&self) -> EvaluationReportView {
        EvaluationReportView {
            file_path: self.file_path@,
            total_score: self.total_score as int,
            max_possible_score: self.max_possible_score as int,
            percentage: self.percentage as int,
            field_results: result_views(self.field_results@),
            multi_marked_fields: self.multi_marked_fields.deep_view(),
        }
    }
}

/// The judgements on a list of responses, in order.
pub open spec fn evaluate_fields(
    config: &ScoringConfig,
    responses: Seq<BubbleResponseView>,
    key: Map<Seq<char>, Vec<String>>,
) -> Seq<EvaluationResultView> {
    Seq::new(responses.len(), |i: int| evaluate_field(config, responses[i], key))
}

/// The sum of the scores of `results`.
pub open spec fn score_total(results: Seq<EvaluationResultView>) -> int
    decreases results.len(),
{
    if results.len() == 0 {
        0
    } else {
        score_total(results.drop_last()) + results.last().score
    }
}

/// The labels of the multi-marked responses, in order.
pub open spec fn multi_marked_labels(responses: Seq<BubbleResponseView>) -> Seq<Seq<char>>
    decreases responses.len(),
{
    if responses.len() == 0 {
        Seq::empty()
    } else if responses.last().is_multi_marked {
        multi_marked_labels(responses.drop_last()).push(responses.last().field_label)
    } else {
        multi_marked_labels(responses.drop_last())
    }
}

/// `total` as a share of `max_possible` in millionths of a percent, rounded
/// down; zero when either is not positive.
pub open spec fn percentage_of(total: int, max_possible: int) -> int {
    if max_possible > 0 && total > 0 {
        total * 100_000_000 / max_possible
    } else {
        0
    }
}

/// The report on one file. The maximum counts the default score of a
/// correct answer once per response, whatever the field's own variant says.
pub open spec fn evaluate_file(
    config: &ScoringConfig,
    file_path: Seq<char>,
    responses: Seq<BubbleResponseView>,
    key: Map<Seq<char>, Vec<String>>,
) -> EvaluationReportView {
    let results = evaluate_fields(config, responses, key);
    let total = score_total(results);
    let max_possible = responses.len() * config.default_correct;
    EvaluationReportView {
        file_path,
        total_score: total,
        max_possible_score: max_possible,
        percentage: percentage_of(total, max_possible),
        field_results: results,
        multi_marked_fields: multi_marked_labels(responses),
    }
}

/// A sum of scores stays within the range of a single score times their number.
pub proof fn lemma_score_total_bounds(results: Seq<EvaluationResultView>)
    ensures
        -0x8000_0000 * results.len() <= score_total(results) <= 0x7fff_ffff * results.len(),
    decreases results.len(),
{
    if results.len() > 0 {
        lemma_score_total_bounds(results.drop_last());
    }
}

/// A percentage fits 64 bits whenever the maximum is a positive default
/// score counted once per response.
pub proof fn lemma_percentage_bound(total: int, count: int, default_correct: int)
    requires
        0 <= count,
        total <= 0x7fff_ffff * count,
    ensures
        0 <= percentage_of(total, count * default_correct) <= 0x7fff_ffff * 100_000_000,
{
    let max_possible = count * default_correct;
    if max_possible > 0 && total > 0 {
        assert(count <= max_possible) by (nonlinear_arith)
            requires
                max_possible == count * default_correct,
                max_possible > 0,
                0 <= count,
        ;
        assert(total * 100_000_000 <= max_possible * (0x7fff_ffff * 100_000_000))
            by (nonlinear_arith)
            requires
                total <= 0x7fff_ffff * count,
                count <= max_possible,
        ;
        assert(total * 100_000_000 / max_possible <= 0x7fff_ffff * 100_000_000)
            by (nonlinear_arith)
            requires
                total * 100_000_000 <= max_possible * (0x7fff_ffff * 100_000_000),
                max_possible > 0,
        ;
        assert(0 <= total * 100_000_000 / max_possible) by (nonlinear_arith)
            requires
                total > 0,
                max_possible > 0,
        ;
    }
}

/// The share of `total` in `max_possible`, in millionths of a percent.
fn percentage(total: i128, max_possible: i128, Ghost(count): Ghost<int>, Ghost(default_correct): Ghost<int>) -> (p: u64)
    requires
        0 <= count <= u64::MAX,
        total <= 0x7fff_ffff * count,
        max_possible == count * default_correct,
    ensures
        p == percentage_of(total as int, max_possible as int),
{
    proof {
        lemma_percentage_bound(total as int, count, default_correct);
    }
    if max_possible > 0 && total > 0 {
        assert(total * 100_000_000 <= 0x7fff_ffff * 0xffff_ffff_ffff_ffff * 100_000_000)
            by (nonlinear_arith)
            requires
                total <= 0x7fff_ffff * count,
                count <= 0xffff_ffff_ffff_ffff,
        ;
        let scaled: u128 = (total as u128) * 100_000_000u128;
        (scaled / (max_possible as u128)) as u64
    } else {
        0
    }
}

impl EvaluationEngine {
    /// Judges every response of a file and totals the scores.
    pub fn evaluate_responses(&self, processed_file: &ProcessedFile, answer_key: &AnswerKey) -> (report:
        EvaluationReport)
        requires
            self.wf(),
            answer_key.wf(),
        ensures
            report@ == evaluate_file(
                self.config(),
                processed_file.file_path@,
                crate::response_views(processed_file.detected_bubbles@),
                answer_key@,
            ),
    {
        let responses: &Vec<BubbleResponse> = &processed_file.detected_bubbles;
        let ghost views = crate::response_views(responses@);
        let default_correct: i128 = self.scoring_config.default_correct as i128;
        let mut field_results: Vec<EvaluationResult> = Vec::new();
        let mut total_score: i128 = 0;
        let mut max_possible_score: i128 = 0;
        let mut multi_marked_fields: Vec<String> = Vec::new();
        let mut i: usize = 0;
        while i < responses.len()
            invariant
                self.wf(),
                answer_key.wf(),
                views == crate::response_views(responses@),
                default_correct == self.scoring_config.default_correct,
                i <= responses.len(),
                result_views(field_results@) == evaluate_fields(
                    self.config(),
                    views.take(i as int),
                    answer_key@,
                ),
                total_score == score_total(result_views(field_results@)),
                max_possible_score == i * default_correct,
                multi_marked_fields.deep_view() == multi_marked_labels(views.take(i as int)),
            decreases responses.len() - i,
        {
            let response: &BubbleResponse = &responses[i];
            let result: EvaluationResult = self.evaluate_single_field(response, answer_key);
            let ghost old_results = result_views(field_results@);
            let ghost old_labels = multi_marked_fields.deep_view();
            proof {
                lemma_score_total_bounds(old_results);
                assert(old_results.len() == i);
                assert(i * default_correct + default_correct == (i + 1) * default_correct)
                    by (nonlinear_arith);
                assert(-0x8000_0000 * 0x1_0000_0000_0000_0000 <= i * default_correct
                    <= 0x8000_0000 * 0x1_0000_0000_0000_0000) by (nonlinear_arith)
                    requires
                        0 <= i <= 0xffff_ffff_ffff_ffff,
                        -0x8000_0000 <= default_correct <= 0x7fff_ffff,
                ;
            }
            total_score = total_score + result.score as i128;
            max_possible_score = max_possible_score + default_correct;
            if response.is_multi_marked {
                multi_marked_fields.push(response.field_label.clone());
            }
            field_results.push(result);
            proof {
                let new_results = result_views(field_results@);
                assert(views[i as int] == response@);
                assert(views.take(i as int + 1).drop_last() =~= views.take(i as int));
                assert(views.take(i as int + 1).last() == response@);
                assert(new_results.drop_last() =~= old_results);
                assert(new_results.last() == result@);
                assert forall|k: int| 0 <= k < new_results.len() implies new_results[k]
                    == evaluate_field(
                    self.config(),
                    views.take(i as int + 1)[k],
                    answer_key@,
                ) by {
                    if k < i {
                        assert(new_results[k] == old_results[k]);
                        assert(views.take(i as int + 1)[k] == views.take(i as int)[k]);
                    }
                }
                assert(new_results =~= evaluate_fields(
                    self.config(),
                    views.take(i as int + 1),
                    answer_key@,
                ));
                if response.is_multi_marked {
                    assert(multi_marked_fields.deep_view() =~= old_labels.push(
                        response.field_label@,
                    ));
                } else {
                    assert(multi_marked_fields.deep_view() =~= old_labels);
                }
            }
            i += 1;
        }
        proof {
            assert(views.take(i as int) =~= views);
            lemma_score_total_bounds(result_views(field_results@));
        }
        let percentage: u64 = percentage(
            total_score,
            max_possible_score,
            Ghost(i as int),
            Ghost(default_correct as int),
        );
        EvaluationReport {
            file_path: processed_file.file_path.clone(),
            total_score,
            max_possible_score,
            percentage,
            field_results,
            multi_marked_fields,
        }
    }
}


/// The judgement on a batch of files.
#[derive(Debug)]
pub struct BatchEvaluationReport {
    pub total_files: usize,
    /// The number of files with at least one multi-marked field.
    pub files_with_multi_marks: usize,
    /// The batch total as a share of the batch maximum, in millionths of a
    /// percent and never negative.
    pub average_percentage: u64,
    pub total_score: i128,
    pub max_possible_score: i128,
    pub individual_reports: Vec<EvaluationReport>,
}

/// The number of responses in all of `files`.
pub open spec fn total_responses(files: Seq<ProcessedFile>) -> nat
    decreases files.len(),
{
    if files.len() == 0 {
        0
    } else {
        total_responses(files.drop_last()) + files.last().detected_bubbles@.len()
    }
}

/// The reports on a list of files, in order.
pub open spec fn evaluate_files(
    config: &ScoringConfig,
    files: Seq<ProcessedFile>,
    key: Map<Seq<char>, Vec<String>>,
) -> Seq<EvaluationReportView> {
    Seq::new(
        files.len(),
        |i: int|
            evaluate_file(
                config,
                files[i].file_path@,
                crate::response_views(files[i].detected_bubbles@),
                key,
            ),
    )
}

/// The views of a list of reports.
pub open spec fn report_views(reports: Seq<EvaluationReport>) -> Seq<EvaluationReportView> {
    Seq::new(reports.len(), |i: int| reports[i]@)
}

/// The sum of the total scores of `reports`.
pub open spec fn batch_score(reports: Seq<EvaluationReportView>) -> int
    decreases reports.len(),
{
    if reports.len() == 0 {
        0
    } else {
        batch_score(reports.drop_last()) + reports.last().total_score
    }
}

/// The sum of the maximum scores of `reports`.
pub open spec fn batch_max_score(reports: Seq<EvaluationReportView>) -> int
    decreases reports.len(),
{
    if reports.len() == 0 {
        0
    } else {
        batch_max_score(reports.drop_last()) + reports.last().max_possible_score
    }
}

/// The number of reports that list a multi-marked field.
pub open spec fn multi_marked_file_count(reports: Seq<EvaluationReportView>) -> nat
    decreases reports.len(),
{
    if reports.len() == 0 {
        0
    } else if reports.last().multi_marked_fields.len() > 0 {
        multi_marked_file_count(reports.drop_last()) + 1
    } else {
        multi_marked_file_count(reports.drop_last())
    }
}

/// The first files hold no more responses than all.
proof fn lemma_total_responses_prefix(files: Seq<ProcessedFile>, n: int)
    requires
        0 <= n <= files.len(),
    ensures
        total_responses(files.take(n)) <= total_responses(files),
    decreases files.len() - n,
{
    if n < files.len() {
        lemma_total_responses_prefix(files, n + 1);
        assert(files.take(n + 1).drop_last() =~= files.take(n));
    } else {
        assert(files.take(n) =~= files);
    }
}

/// The number of responses in all of `processed_files`, when it fits 64
/// bits.
pub fn count_responses(processed_files: &Vec<ProcessedFile>) -> (count: Option<u64>)
    ensures
        match count {
            Some(n) => n == total_responses(processed_files@),
            None => total_responses(processed_files@) > u64::MAX,
        },
{
    let mut count: u64 = 0;
    let mut i: usize = 0;
    while i < processed_files.len()
        invariant
            i <= processed_files@.len(),
            count == total_responses(processed_files@.take(i as int)),
        decreases processed_files.len() - i,
    {
        proof {
            lemma_total_responses_prefix(processed_files@, i as int + 1);
            assert(processed_files@.take(i as int + 1).drop_last() =~= processed_files@.take(
                i as int,
            ));
        }
        match count.checked_add(processed_files[i].detected_bubbles.len() as u64) {
            Some(next) => {
                count = next;
            },
            None => {
                return None;
            },
        }
        i += 1;
    }
    assert(processed_files@.take(i as int) =~= processed_files@);
    Some(count)
}

impl EvaluationEngine {
    /// Judges every file of a batch and totals scores and maxima over the
    /// batch. The batch may hold at most `u64::MAX` responses in all.
    pub fn evaluate_batch(&self, processed_files: &Vec<ProcessedFile>, answer_key: &AnswerKey) -> (batch:
        BatchEvaluationReport)
        requires
            self.wf(),
            answer_key.wf(),
            total_responses(processed_files@) <= u64::MAX,
        ensures
            report_views(batch.individual_reports@) == evaluate_files(
                self.config(),
                processed_files@,
                answer_key@,
            ),
            batch.total_files == processed_files@.len(),
            batch.files_with_multi_marks == multi_marked_file_count(
                report_views(batch.individual_reports@),
            ),
            batch.total_score == batch_score(report_views(batch.individual_reports@)),
            batch.max_possible_score == batch_max_score(report_views(batch.individual_reports@)),
            batch.max_possible_score == total_responses(processed_files@)
                * self.config().default_correct,
            batch.average_percentage == percentage_of(
                batch.total_score as int,
                batch.max_possible_score as int,
            ),
    {
        let default_correct: i128 = self.scoring_config.default_correct as i128;
        let mut individual_reports: Vec<EvaluationReport> = Vec::new();
        let mut files_with_multi_marks: usize = 0;
        let mut overall_score_sum: i128 = 0;
        let mut overall_max_score_sum: i128 = 0;
        let ghost mut seen: int = 0;
        let mut i: usize = 0;
        while i < processed_files.len()
            invariant
                self.wf(),
                answer_key.wf(),
                total_responses(processed_files@) <= u64::MAX,
                default_correct == self.scoring_config.default_correct,
                i <= processed_files.len(),
                seen == total_responses(processed_files@.take(i as int)),
                report_views(individual_reports@) == evaluate_files(
                    self.config(),
                    processed_files@.take(i as int),
                    answer_key@,
                ),
                files_with_multi_marks == multi_marked_file_count(
                    report_views(individual_reports@),
                ),
                files_with_multi_marks <= i,
                overall_score_sum == batch_score(report_views(individual_reports@)),
                overall_max_score_sum == batch_max_score(report_views(individual_reports@)),
                overall_max_score_sum == seen * default_correct,
                -0x8000_0000 * seen <= overall_score_sum <= 0x7fff_ffff * seen,
            decreases processed_files.len() - i,
        {
            let file: &ProcessedFile = &processed_files[i];
            let report: EvaluationReport = self.evaluate_responses(file, answer_key);
            let ghost old_reports = report_views(individual_reports@);
            let ghost count = file.detected_bubbles@.len() as int;
            proof {
                lemma_total_responses_prefix(processed_files@, i as int + 1);
                assert(processed_files@.take(i as int + 1).drop_last() =~= processed_files@.take(
                    i as int,
                ));
                assert(processed_files@.take(i as int + 1).last() == *file);
                assert(seen + count <= u64::MAX);
                lemma_score_total_bounds(report@.field_results);
                assert(report@.field_results.len() == count);
                assert(report.max_possible_score == count * default_correct);
                assert(seen * default_correct + count * default_correct == (seen + count)
                    * default_correct) by (nonlinear_arith);
                assert(-0x8000_0000 * 0x1_0000_0000_0000_0000 <= (seen + count) * default_correct
                    <= 0x8000_0000 * 0x1_0000_0000_0000_0000) by (nonlinear_arith)
                    requires
                        0 <= seen + count <= 0xffff_ffff_ffff_ffff,
                        -0x8000_0000 <= default_correct <= 0x7fff_ffff,
                ;
            }
            if report.multi_marked_fields.len() > 0 {
                files_with_multi_marks = files_with_multi_marks + 1;
            }
            overall_score_sum = overall_score_sum + report.total_score;
            overall_max_score_sum = overall_max_score_sum + report.max_possible_score;
            individual_reports.push(report);
            proof {
                let new_reports = report_views(individual_reports@);
                assert(new_reports.drop_last() =~= old_reports);
                assert(new_reports.last() == report@);
                assert forall|k: int| 0 <= k < new_reports.len() implies new_reports[k]
                    == evaluate_files(
                    self.config(),
                    processed_files@.take(i as int + 1),
                    answer_key@,
                )[k] by {
                    if k < i {
                        assert(new_reports[k] == old_reports[k]);
                        assert(processed_files@.take(i as int + 1)[k] == processed_files@.take(
                            i as int,
                        )[k]);
                    }
                }
                assert(new_reports =~= evaluate_files(
                    self.config(),
                    processed_files@.take(i as int + 1),
                    answer_key@,
                ));
                seen = seen + count;
            }
            i += 1;
        }
        proof {
            assert(processed_files@.take(i as int) =~= processed_files@);
        }
        let average_percentage: u64 = percentage(
            overall_score_sum,
            overall_max_score_sum,
            Ghost(seen),
            Ghost(default_correct as int),
        );
        BatchEvaluationReport {
            total_files: processed_files.len(),
            files_with_multi_marks,
            average_percentage,
            total_score: overall_score_sum,
            max_possible_score: overall_max_score_sum,
            individual_reports,
        }
    }
}


/// What a batch of reports says of one field label.
#[derive(Debug, Clone, Copy)]
pub struct FieldStatistics {
    pub total_responses: usize,
    pub correct_responses: usize,
    /// `correct_responses` as a share of `total_responses`, in millionths.
    pub accuracy: u32,
    /// Sum of the confidences, each in millionths.
    pub confidence_sum: u128,
    /// `confidence_sum` divided by `total_responses`, in millionths.
    pub average_confidence: u32,
}

impl FieldStatistics {
    /// The statistics of a label that no result carries.
    pub fn new() -> (stats: FieldStatistics)
        ensures
            stats == (FieldStatistics {
                total_responses: 0,
                correct_responses: 0,
                accuracy: 0,
                confidence_sum: 0,
                average_confidence: 0,
            }),
    {
        FieldStatistics {
            total_responses: 0,
            correct_responses: 0,
            accuracy: 0,
            confidence_sum: 0,
            average_confidence: 0,
        }
    }
}

/// Statistics over a list of reports.
pub struct DetailedStatistics {
    /// Correct results as a share of all results, in millionths.
    pub overall_accuracy: u32,
    pub field_statistics: LabelMap<FieldStatistics>,
    pub total_files: usize,
    pub total_fields: usize,
}

/// The results of all `reports`, in order.
pub open spec fn all_results(reports: Seq<EvaluationReport>) -> Seq<EvaluationResultView>
    decreases reports.len(),
{
    if reports.len() == 0 {
        Seq::empty()
    } else {
        all_results(reports.drop_last()) + result_views(reports.last().field_results@)
    }
}

/// The number of results that carry `label`.
pub open spec fn label_count(results: Seq<EvaluationResultView>, label: Seq<char>) -> nat
    decreases results.len(),
{
    if results.len() == 0 {
        0
    } else if results.last().field_label == label {
        label_count(results.drop_last(), label) + 1
    } else {
        label_count(results.drop_last(), label)
    }
}

/// The number of correct results that carry `label`.
pub open spec fn label_correct(results: Seq<EvaluationResultView>, label: Seq<char>) -> nat
    decreases results.len(),
{
    if results.len() == 0 {
        0
    } else if results.last().field_label == label && results.last().is_correct {
        label_correct(results.drop_last(), label) + 1
    } else {
        label_correct(results.drop_last(), label)
    }
}

/// The sum of the confidences of the results that carry `label`.
pub open spec fn label_confidence(results: Seq<EvaluationResultView>, label: Seq<char>) -> nat
    decreases results.len(),
{
    if results.len() == 0 {
        0
    } else if results.last().field_label == label {
        label_confidence(results.drop_last(), label) + results.last().confidence as nat
    } else {
        label_confidence(results.drop_last(), label)
    }
}

/// The number of correct results.
pub open spec fn correct_count(results: Seq<EvaluationResultView>) -> nat
    decreases results.len(),
{
    if results.len() == 0 {
        0
    } else if results.last().is_correct {
        correct_count(results.drop_last()) + 1
    } else {
        correct_count(results.drop_last())
    }
}

/// `part` as a share of `whole` in millionths, rounded down; zero when
/// `whole` is zero.
pub open spec fn share_in_millionths(part: nat, whole: nat) -> int {
    if whole > 0 {
        (part as int) * 1_000_000 / (whole as int)
    } else {
        0
    }
}

/// `sum` divided by `count`, rounded down; zero when `count` is zero.
pub open spec fn mean_of(sum: nat, count: nat) -> int {
    if count > 0 {
        sum as int / count as int
    } else {
        0
    }
}

/// The statistics of `label` over `results`.
pub open spec fn field_statistics_of(results: Seq<EvaluationResultView>, label: Seq<char>) -> FieldStatistics {
    let total = label_count(results, label);
    let correct = label_correct(results, label);
    let confidence = label_confidence(results, label);
    FieldStatistics {
        total_responses: total as usize,
        correct_responses: correct as usize,
        accuracy: share_in_millionths(correct, total) as u32,
        confidence_sum: confidence as u128,
        average_confidence: mean_of(confidence, total) as u32,
    }
}

/// The labels of a list of results.
pub open spec fn result_labels(results: Seq<EvaluationResultView>) -> Seq<Seq<char>> {
    Seq::new(results.len(), |i: int| results[i].field_label)
}

/// The statistics of every label that some result carries.
pub open spec fn statistics_map(results: Seq<EvaluationResultView>) -> Map<Seq<char>, FieldStatistics> {
    Map::new(
        |label: Seq<char>| label_count(results, label) > 0,
        |label: Seq<char>| field_statistics_of(results, label),
    )
}

/// The first reports hold no more results than all.
proof fn lemma_all_results_prefix(reports: Seq<EvaluationReport>, n: int)
    requires
        0 <= n <= reports.len(),
    ensures
        all_results(reports.take(n)).len() <= all_results(reports).len(),
    decreases reports.len() - n,
{
    if n < reports.len() {
        lemma_all_results_prefix(reports, n + 1);
        assert(reports.take(n + 1).drop_last() =~= reports.take(n));
    } else {
        assert(reports.take(n) =~= reports);
    }
}

/// Counts per label stay within the number of results; confidences within
/// the range of one confidence times the count.
pub proof fn lemma_label_tallies(results: Seq<EvaluationResultView>, label: Seq<char>)
    ensures
        label_correct(results, label) <= label_count(results, label) <= results.len(),
        label_confidence(results, label) <= 0xffff_ffff * label_count(results, label),
        correct_count(results) <= results.len(),
    decreases results.len(),
{
    if results.len() > 0 {
        lemma_label_tallies(results.drop_last(), label);
    }
}

/// A share is at most one million; a mean is at most the largest summand.
pub proof fn lemma_share_and_mean(part: nat, whole: nat, sum: nat, bound: nat)
    requires
        part <= whole,
        sum <= bound * whole,
    ensures
        0 <= share_in_millionths(part, whole) <= 1_000_000,
        0 <= mean_of(sum, whole) <= bound,
{
    if whole > 0 {
        assert(0 <= (part as int) * 1_000_000 / (whole as int) <= 1_000_000) by (nonlinear_arith)
            requires
                0 <= part <= whole,
                whole > 0,
        ;
        assert(0 <= sum as int / whole as int <= bound) by (nonlinear_arith)
            requires
                0 <= sum <= bound * whole,
                whole > 0,
        ;
    }
}

/// `part` as a share of `whole`, in millionths.
fn share(part: usize, whole: usize) -> (r: u32)
    requires
        part <= whole,
    ensures
        r == share_in_millionths(part as nat, whole as nat),
{
    proof {
        lemma_share_and_mean(part as nat, whole as nat, 0, 0);
    }
    if whole > 0 {
        assert(part * 1_000_000 <= 0xffff_ffff_ffff_ffff * 1_000_000) by (nonlinear_arith)
            requires
                0 <= part <= 0xffff_ffff_ffff_ffff,
        ;
        ((part as u128) * 1_000_000u128 / (whole as u128)) as u32
    } else {
        0
    }
}

/// The number of results in all of `reports`, when it fits `usize`.
pub fn count_results(reports: &Vec<EvaluationReport>) -> (count: Option<usize>)
    ensures
        match count {
            Some(n) => n == all_results(reports@).len(),
            None => all_results(reports@).len() > usize::MAX,
        },
{
    let mut count: usize = 0;
    let mut i: usize = 0;
    while i < reports.len()
        invariant
            i <= reports@.len(),
            count == all_results(reports@.take(i as int)).len(),
        decreases reports.len() - i,
    {
        proof {
            lemma_all_results_prefix(reports@, i as int + 1);
            assert(reports@.take(i as int + 1).drop_last() =~= reports@.take(i as int));
        }
        match count.checked_add(reports[i].field_results.len()) {
            Some(next) => {
                count = next;
            },
            None => {
                return None;
            },
        }
        i += 1;
    }
    assert(reports@.take(i as int) =~= reports@);
    Some(count)
}

impl EvaluationEngine {
    /// Per-label and overall statistics of a list of reports. The reports
    /// may hold at most `usize::MAX` results in all.
    pub fn generate_statistics(&self, reports: &Vec<EvaluationReport>) -> (stats: DetailedStatistics)
        requires
            all_results(reports@).len() <= usize::MAX,
        ensures
            stats.total_files == reports@.len(),
            stats.total_fields == all_results(reports@).len(),
            stats.overall_accuracy == share_in_millionths(
                correct_count(all_results(reports@)),
                all_results(reports@).len(),
            ),
            stats.field_statistics.wf(),
            stats.field_statistics@ == statistics_map(all_results(reports@)),
            stats.field_statistics.labels() == distinct_in_order(
                result_labels(all_results(reports@)),
            ),
    {
        let mut field_stats: LabelMap<FieldStatistics> = LabelMap::new();
        let mut total_correct: usize = 0;
        let mut total_fields: usize = 0;
        let ghost mut seen: Seq<EvaluationResultView> = Seq::empty();
        assert(field_stats@ =~= statistics_map(seen));
        assert(result_labels(seen) =~= Seq::<Seq<char>>::empty());
        let mut r: usize = 0;
        while r < reports.len()
            invariant
                all_results(reports@).len() <= usize::MAX,
                r <= reports.len(),
                seen == all_results(reports@.take(r as int)),
                field_stats.wf(),
                field_stats@ == statistics_map(seen),
                field_stats.labels() == distinct_in_order(result_labels(seen)),
                total_fields == seen.len(),
                total_correct == correct_count(seen),
            decreases reports.len() - r,
        {
            let results: &Vec<EvaluationResult> = &reports[r].field_results;
            let ghost base = seen;
            proof {
                lemma_all_results_prefix(reports@, r as int + 1);
                assert(reports@.take(r as int + 1).drop_last() =~= reports@.take(r as int));
                assert(reports@.take(r as int + 1).last() == reports@[r as int]);
                assert(seen =~= base + result_views(results@).take(0));
            }
            let mut k: usize = 0;
            while k < results.len()
                invariant
                    all_results(reports@).len() <= usize::MAX,
                    r < reports.len(),
                    results == &reports@[r as int].field_results,
                    k <= results.len(),
                    base == all_results(reports@.take(r as int)),
                    base.len() + results@.len() == all_results(reports@.take(r as int + 1)).len(),
                    all_results(reports@.take(r as int + 1)).len() <= all_results(reports@).len(),
                    seen == base + result_views(results@).take(k as int),
                    field_stats.wf(),
                    field_stats@ == statistics_map(seen),
                    field_stats.labels() == distinct_in_order(result_labels(seen)),
                    total_fields == seen.len(),
                    total_correct == correct_count(seen),
                decreases results.len() - k,
            {
                let result: &EvaluationResult = &results[k];
                let ghost label = result.field_label@;
                let ghost next = seen.push(result@);
                proof {
                    assert(next.drop_last() =~= seen);
                    assert(next.last() == result@);
                    assert(next =~= base + result_views(results@).take(k as int + 1));
                    lemma_label_tallies(seen, label);
                    lemma_label_tallies(next, label);
                    field_stats.lemma_labels();
                    assert(result_labels(next).drop_last() =~= result_labels(seen));
                    assert(result_labels(next).last() == label);
                }
                let previous: FieldStatistics = match field_stats.get(result.field_label.as_str()) {
                    Some(stats) => *stats,
                    None => FieldStatistics::new(),
                };
                proof {
                    if !field_stats@.contains_key(label) {
                        assert(label_count(seen, label) == 0);
                        assert(label_correct(seen, label) == 0);
                        assert(label_confidence(seen, label) == 0);
                    }
                    lemma_share_and_mean(
                        label_correct(next, label),
                        label_count(next, label),
                        label_confidence(next, label),
                        0xffff_ffff,
                    );
                }
                let total_responses: usize = previous.total_responses + 1;
                let correct_responses: usize = if result.is_correct {
                    previous.correct_responses + 1
                } else {
                    previous.correct_responses
                };
                let confidence_sum: u128 = previous.confidence_sum + result.confidence as u128;
                let updated = FieldStatistics {
                    total_responses,
                    correct_responses,
                    accuracy: share(correct_responses, total_responses),
                    confidence_sum,
                    average_confidence: (confidence_sum / (total_responses as u128)) as u32,
                };
                assert(updated == field_statistics_of(next, label));
                field_stats.insert(result.field_label.clone(), updated);
                total_fields = total_fields + 1;
                if result.is_correct {
                    total_correct = total_correct + 1;
                }
                proof {
                    assert forall|other: Seq<char>| other != label implies label_count(next, other)
                        == label_count(seen, other) && field_statistics_of(next, other)
                        == field_statistics_of(seen, other) by {}
                    assert(field_stats@ =~= statistics_map(next));
                    seen = next;
                }
                k += 1;
            }
            proof {
                assert(result_views(results@).take(k as int) =~= result_views(results@));
            }
            r += 1;
        }
        proof {
            assert(reports@.take(r as int) =~= reports@);
            lemma_label_tallies(seen, Seq::empty());
        }
        DetailedStatistics {
            overall_accuracy: share(total_correct, total_fields),
            field_statistics: field_stats,
            total_files: reports.len(),
            total_fields,
        }
    }
}


/// The error of the `csv` crate.
#[verifier::external_type_specification]
#[verifier::external_body]
pub struct ExCsvError(csv::Error);

/// The error of the `serde_json` crate.
#[verifier::external_type_specification]
#[verifier::external_body]
pub struct ExJsonError(serde_json::Error);

/// The records that the `csv` crate reads from a comma-separated text,
/// each a list of fields. Every record is taken as data, the first too,
/// and records may differ in length. Nothing when the reader refuses the
/// text.
pub uninterp spec fn csv_records(content: Seq<char>) -> Option<Seq<Seq<Seq<char>>>>;

/// The entries, in the order of their labels, of the object that the
/// `serde_json` crate reads from a text as a map from strings to lists of
/// strings; nothing when it refuses the text.
pub uninterp spec fn json_entries(content: Seq<char>) -> Option<Seq<(Seq<char>, Seq<Seq<char>>)>>;

/// Builds a reader with `csv::ReaderBuilder` that takes no record as a
/// header and accepts records of any length, runs its `records` over a
/// text and gathers the fields of every record. The contract only names
/// what is read.
#[verifier::external_body]
pub(crate) fn read_csv_records(content: &str) -> (r: Result<Vec<Vec<String>>, csv::Error>)
    ensures
        match r {
            Ok(rows) => csv_records(content@) == Some(rows.deep_view()),
            Err(_) => csv_records(content@) is None,
        },
{
    let mut reader =
        csv::ReaderBuilder::new().has_headers(false).flexible(true).from_reader(content.as_bytes());
    let mut rows = Vec::new();
    for record in reader.records() {
        rows.push(record?.iter().map(|field| field.to_string()).collect());
    }
    Ok(rows)
}

/// Runs `serde_json::from_str` over a text, for a map from strings to
/// lists of strings, and lists the entries of the map. The contract only
/// names what is read.
#[verifier::external_body]
pub(crate) fn read_json_entries(content: &str) -> (r: Result<
    Vec<(String, Vec<String>)>,
    serde_json::Error,
>)
    ensures
        match r {
            Ok(entries) => json_entries(content@) == Some(entries.deep_view()),
            Err(_) => json_entries(content@) is None,
        },
{
    let map: std::collections::BTreeMap<String, Vec<String>> = serde_json::from_str(content)?;
    Ok(map.into_iter().collect())
}

/// Why an answer key is refused.
#[derive(Debug, Clone, Copy, PartialEq, Eq, Structural)]
pub enum AnswerKeyError {
    /// The text is no JSON object of lists of strings.
    Json,
    /// The reader of tables refused the text.
    Csv,
}

impl AnswerKeyError {
    /// The sentence that tells what is wrong.
    pub open spec fn spec_message(&self) -> Seq<char> {
        match self {
            AnswerKeyError::Json => "Failed to parse JSON answer key"@,
            AnswerKeyError::Csv => "Failed to read CSV record"@,
        }
    }

    /// The sentence that tells what is wrong.
    pub fn message(&self) -> (text: String)
        ensures
            text@ == self.spec_message(),
    {
        match self {
            AnswerKeyError::Json => String::from_str("Failed to parse JSON answer key"),
            AnswerKeyError::Csv => String::from_str("Failed to read CSV record"),
        }
    }
}

/// The accepted answers of each field, as plain values.
pub open spec fn answers_of(key: Map<Seq<char>, Vec<String>>) -> Map<Seq<char>, Seq<Seq<char>>> {
    Map::new(|label: Seq<char>| key.contains_key(label), |label: Seq<char>| key[label].deep_view())
}

/// The answer key that the first `n` entries give, a later entry taking
/// the place of an earlier one with the same label.
pub open spec fn key_of_entries(entries: Seq<(Seq<char>, Seq<Seq<char>>)>, n: int) -> Map<
    Seq<char>,
    Seq<Seq<char>>,
>
    decreases n,
{
    if n <= 0 {
        Map::empty()
    } else {
        key_of_entries(entries, n - 1).insert(entries[n - 1].0, entries[n - 1].1)
    }
}

/// The fields of a record that are not empty, in order.
pub open spec fn filled_fields(fields: Seq<Seq<char>>) -> Seq<Seq<char>>
    decreases fields.len(),
{
    if fields.len() == 0 {
        Seq::empty()
    } else if fields.last().len() == 0 {
        filled_fields(fields.drop_last())
    } else {
        filled_fields(fields.drop_last()).push(fields.last())
    }
}

/// The answer key that the first `n` records of a table give: the first
/// field of a record is the label, the other fields that are not empty are
/// the accepted answers; a record of fewer than two fields is passed over,
/// and a later record takes the place of an earlier one with the same
/// label.
pub open spec fn key_of_rows(rows: Seq<Seq<Seq<char>>>, n: int) -> Map<Seq<char>, Seq<Seq<char>>>
    decreases n,
{
    if n <= 0 {
        Map::empty()
    } else if rows[n - 1].len() >= 2 {
        key_of_rows(rows, n - 1).insert(rows[n - 1][0], filled_fields(rows[n - 1].skip(1)))
    } else {
        key_of_rows(rows, n - 1)
    }
}

/// The labels of the first `n` entries.
pub open spec fn entry_labels(entries: Seq<(Seq<char>, Seq<Seq<char>>)>, n: int) -> Seq<Seq<char>>
    decreases n,
{
    if n <= 0 {
        Seq::empty()
    } else {
        entry_labels(entries, n - 1).push(entries[n - 1].0)
    }
}

/// The labels of those of the first `n` records that hold at least two
/// fields.
pub open spec fn row_labels(rows: Seq<Seq<Seq<char>>>, n: int) -> Seq<Seq<char>>
    decreases n,
{
    if n <= 0 {
        Seq::empty()
    } else if rows[n - 1].len() >= 2 {
        row_labels(rows, n - 1).push(rows[n - 1][0])
    } else {
        row_labels(rows, n - 1)
    }
}

/// The answer key of a list of entries.
pub fn answer_key_from_entries(entries: &Vec<(String, Vec<String>)>) -> (key: AnswerKey)
    ensures
        key.wf(),
        answers_of(key@) == key_of_entries(entries.deep_view(), entries@.len() as int),
        key.labels() == distinct_in_order(
            entry_labels(entries.deep_view(), entries@.len() as int),
        ),
{
    let mut key: AnswerKey = LabelMap::new();
    let ghost plain = entries.deep_view();
    let mut i: usize = 0;
    assert(answers_of(key@) =~= key_of_entries(plain, 0));
    while i < entries.len()
        invariant
            i <= entries@.len(),
            plain == entries.deep_view(),
            key.wf(),
            answers_of(key@) == key_of_entries(plain, i as int),
            key.labels() == distinct_in_order(entry_labels(plain, i as int)),
        decreases entries.len() - i,
    {
        let ghost before = key@;
        let answers: Vec<String> = clone_strings(&entries[i].1);
        proof {
            key.lemma_labels();
            assert(entry_labels(plain, i as int + 1).drop_last() =~= entry_labels(plain, i as int));
        }
        key.insert(entries[i].0.clone(), answers);
        proof {
            assert(plain[i as int] == (entries@[i as int].0@, entries@[i as int].1.deep_view()));
            assert(answers_of(key@) =~= answers_of(before).insert(
                entries@[i as int].0@,
                answers.deep_view(),
            ));
        }
        i += 1;
    }
    key
}

/// The fields of a record from position 1 on that are not empty.
fn filled_after_first(record: &Vec<String>) -> (answers: Vec<String>)
    requires
        record@.len() >= 1,
    ensures
        answers.deep_view() == filled_fields(record.deep_view().skip(1)),
{
    let mut answers: Vec<String> = Vec::new();
    let ghost rest = record.deep_view().skip(1);
    let mut i: usize = 1;
    assert(rest.take(0) =~= Seq::empty());
    assert(answers.deep_view() =~= filled_fields(rest.take(0)));
    while i < record.len()
        invariant
            1 <= i <= record@.len(),
            rest == record.deep_view().skip(1),
            answers.deep_view() == filled_fields(rest.take(i as int - 1)),
        decreases record.len() - i,
    {
        let ghost before = answers.deep_view();
        proof {
            assert(rest.take(i as int).drop_last() =~= rest.take(i as int - 1));
            assert(rest.take(i as int).last() == record@[i as int]@);
        }
        if !record[i].as_str().is_empty() {
            answers.push(record[i].clone());
            proof {
                assert(answers.deep_view() =~= before.push(record@[i as int]@));
            }
        }
        i += 1;
    }
    assert(rest.take(i as int - 1) =~= rest);
    answers
}

/// The answer key of the records of a table.
pub fn answer_key_from_rows(rows: &Vec<Vec<String>>) -> (key: AnswerKey)
    ensures
        key.wf(),
        answers_of(key@) == key_of_rows(rows.deep_view(), rows@.len() as int),
        key.labels() == distinct_in_order(row_labels(rows.deep_view(), rows@.len() as int)),
{
    let mut key: AnswerKey = LabelMap::new();
    let ghost plain = rows.deep_view();
    let mut i: usize = 0;
    assert(answers_of(key@) =~= key_of_rows(plain, 0));
    while i < rows.len()
        invariant
            i <= rows@.len(),
            plain == rows.deep_view(),
            key.wf(),
            answers_of(key@) == key_of_rows(plain, i as int),
            key.labels() == distinct_in_order(row_labels(plain, i as int)),
        decreases rows.len() - i,
    {
        let record: &Vec<String> = &rows[i];
        let ghost before = key@;
        proof {
            assert(plain[i as int] == record.deep_view());
            key.lemma_labels();
            if record@.len() >= 2 {
                assert(row_labels(plain, i as int + 1).drop_last() =~= row_labels(plain, i as int));
            }
        }
        if record.len() >= 2 {
            let answers: Vec<String> = filled_after_first(record);
            key.insert(record[0].clone(), answers);
            proof {
                assert(record.deep_view()[0] == record@[0]@);
                assert(answers_of(key@) =~= answers_of(before).insert(
                    record@[0]@,
                    answers.deep_view(),
                ));
            }
        }
        i += 1;
    }
    key
}

/// What reading an answer key from a text must give: the key of what the
/// parser read, as the answers of each label and the labels in order, or
/// the error of the format when it refused the text.
pub open spec fn is_loaded_key(
    parsed: Option<(Map<Seq<char>, Seq<Seq<char>>>, Seq<Seq<char>>)>,
    error: AnswerKeyError,
    r: Result<AnswerKey, AnswerKeyError>,
) -> bool {
    match parsed {
        Some((answers, labels)) => r matches Ok(key) && key.wf() && answers_of(key@) == answers
            && key.labels() == labels,
        None => r == Err::<AnswerKey, AnswerKeyError>(error),
    }
}

/// The answers and the labels that a table text gives, when it can be
/// read.
pub open spec fn csv_answers(content: Seq<char>) -> Option<
    (Map<Seq<char>, Seq<Seq<char>>>, Seq<Seq<char>>),
> {
    match csv_records(content) {
        Some(rows) => Some(
            (
                key_of_rows(rows, rows.len() as int),
                distinct_in_order(row_labels(rows, rows.len() as int)),
            ),
        ),
        None => None,
    }
}

/// The answers and the labels that a JSON text gives, when it can be read.
pub open spec fn json_answers(content: Seq<char>) -> Option<
    (Map<Seq<char>, Seq<Seq<char>>>, Seq<Seq<char>>),
> {
    match json_entries(content) {
        Some(entries) => Some(
            (
                key_of_entries(entries, entries.len() as int),
                distinct_in_order(entry_labels(entries, entries.len() as int)),
            ),
        ),
        None => None,
    }
}

impl EvaluationEngine {
    /// Reads an answer key from a table: the first column holds the field
    /// labels, the other columns the accepted answers. Every row is read
    /// as a field, the first too, and rows may differ in length.
    pub fn parse_csv_answer_key(content: &str) -> (r: Result<AnswerKey, AnswerKeyError>)
        ensures
            is_loaded_key(csv_answers(content@), AnswerKeyError::Csv, r),
    {
        match read_csv_records(content) {
            Ok(rows) => Ok(answer_key_from_rows(&rows)),
            Err(_) => Err(AnswerKeyError::Csv),
        }
    }

    /// Reads an answer key from a JSON object that maps each field label
    /// to the list of its accepted answers.
    pub fn parse_json_answer_key(content: &str) -> (r: Result<AnswerKey, AnswerKeyError>)
        ensures
            is_loaded_key(json_answers(content@), AnswerKeyError::Json, r),
    {
        match read_json_entries(content) {
            Ok(entries) => Ok(answer_key_from_entries(&entries)),
            Err(_) => Err(AnswerKeyError::Json),
        }
    }

    /// Reads an answer key from the text of a file: as JSON when `json`
    /// says so, as a table otherwise.
    pub fn load_answer_key(content: &str, json: bool) -> (r: Result<AnswerKey, AnswerKeyError>)
        ensures
            json ==> is_loaded_key(json_answers(content@), AnswerKeyError::Json, r),
            !json ==> is_loaded_key(csv_answers(content@), AnswerKeyError::Csv, r),
    {
        if json {
            EvaluationEngine::parse_json_answer_key(content)
        } else {
            EvaluationEngine::parse_csv_answer_key(content)
        }
    }
}


/// A multi-marked response is incorrect and scores as incorrect, whatever
/// was detected and whatever the key expects.
pub proof fn lemma_multi_marked_is_incorrect(
    config: &ScoringConfig,
    response: BubbleResponseView,
    key: Map<Seq<char>, Vec<String>>,
)
    requires
        response.is_multi_marked,
    ensures
        !evaluate_field(config, response, key).is_correct,
        evaluate_field(config, response, key).score == variant_for(
            config,
            response.field_label,
        ).incorrect,
{
}

/// Multi-marking comes first: a field block with two selected bubbles
/// that is not of the multiple-choice kind is reported as
/// multi-marked, judged incorrect and given the score of an incorrect
/// answer, whatever the answer key holds.
pub proof fn lemma_multi_mark_precedence(
    image: &GrayImage,
    template: &OmrTemplate,
    block: &FieldBlock,
    config: &ScoringConfig,
    key: Map<Seq<char>, Vec<String>>,
    i: int,
    j: int,
)
    requires
        0 <= i < j < block.bubbles@.len(),
        bubble_confidences(image, template, block)[i].spec_is_selected(),
        bubble_confidences(image, template, block)[j].spec_is_selected(),
        block.field_type != FieldType::MultipleChoice,
    ensures
        field_response(image, template, block).is_multi_marked,
        !evaluate_field(config, field_response(image, template, block), key).is_correct,
        evaluate_field(config, field_response(image, template, block), key).score == variant_for(
            config,
            block.field_label@,
        ).incorrect,
{
    lemma_two_selected(
        bubble_confidences(image, template, block),
        block.bubbles@,
        block.bubbles@.len() as int,
        i,
        j,
    );
}

/// Correctness compares sets: two lists hold the same values exactly when
/// their sets of values are equal, whatever the order of the values and
/// however often each is repeated.
pub proof fn lemma_same_values_is_set_equality(a: Seq<Seq<char>>, b: Seq<Seq<char>>)
    ensures
        same_values(a, b) <==> a.to_set() == b.to_set(),
{
    if same_values(a, b) {
        assert forall|v: Seq<char>| a.to_set().contains(v) <==> b.to_set().contains(v) by {
            if a.contains(v) {
                let i = choose|i: int| 0 <= i < a.len() && a[i] == v;
                assert(b.contains(a[i]));
            }
            if b.contains(v) {
                let i = choose|i: int| 0 <= i < b.len() && b[i] == v;
                assert(a.contains(b[i]));
            }
        }
        assert(a.to_set() =~= b.to_set());
    }
    if a.to_set() == b.to_set() {
        assert forall|i: int| 0 <= i < a.len() implies b.contains(#[trigger] a[i]) by {
            assert(a.contains(a[i]));
            assert(a.to_set().contains(a[i]));
        }
        assert forall|i: int| 0 <= i < b.len() implies a.contains(#[trigger] b[i]) by {
            assert(b.contains(b[i]));
            assert(b.to_set().contains(b[i]));
        }
    }
}

/// A response that is not multi-marked is correct exactly when the set of
/// its detected values is the set of the expected values: a blank is
/// correct exactly when nothing is expected.
pub proof fn lemma_correct_is_set_equality(
    detected: Seq<Seq<char>>,
    expected: Seq<Seq<char>>,
)
    ensures
        response_is_correct(detected, expected, false) <==> detected.to_set() == expected.to_set(),
{
    lemma_same_values_is_set_equality(detected, expected);
    if detected.len() == 0 {
        assert(detected.to_set() =~= Set::<Seq<char>>::empty());
        if expected.len() > 0 {
            assert(expected.contains(expected[0]));
            assert(expected.to_set().contains(expected[0]));
        } else {
            assert(expected.to_set() =~= Set::<Seq<char>>::empty());
        }
    }
}

/// A field left blank of which nothing is expected is correct, scores as
/// unmarked and is told "Correctly left blank".
pub proof fn lemma_blank_is_correct(
    config: &ScoringConfig,
    response: BubbleResponseView,
    key: Map<Seq<char>, Vec<String>>,
)
    requires
        !response.is_multi_marked,
        response.detected_values.len() == 0,
        expected_answers(key, response.field_label).len() == 0,
    ensures
        evaluate_field(config, response, key).is_correct,
        evaluate_field(config, response, key).feedback == "Correctly left blank"@,
        evaluate_field(config, response, key).score == variant_for(
            config,
            response.field_label,
        ).unmarked,
{
}

} // verus!
