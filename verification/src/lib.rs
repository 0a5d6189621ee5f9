//! Optical mark recognition: turning a scanned answer sheet into scored
//! responses.
//!
//! Every fractional quantity of the library (confidences, scores,
//! accuracies, percentages) is carried as an integer count of millionths, so
//! that each decision is taken in exact arithmetic.

use crate::bubble_detection::{
    are_bubble_regions, auto_responses, field_response, region_views, BubbleDetector, BubbleRegion,
};
use crate::config::ProcessingConfig;
use crate::image_processing::ImageProcessor;
use crate::labels::{decimal, decimal_text, join_strings, joined, same_text};
use crate::raster::GrayImage;
use crate::template::OmrTemplate;
use vstd::prelude::*;
use vstd::string::*;

pub mod alignment;
pub mod bubble_detection;
pub mod config;
pub mod contours;
pub mod evaluation;
pub mod histogram;
pub mod image_processing;
pub mod labels;
pub mod raster;
pub mod template;
pub mod wide;

verus! {

/// The fixed-point representation of one whole: a confidence of `1.0`, a
/// score of one point, an accuracy of `1.0`, one percent.
pub const MILLION: u32 = 1_000_000;

/// What detection reports for one field of a sheet.
#[derive(Debug)]
pub struct BubbleResponse {
    pub field_label: String,
    /// The values of the bubbles judged to be marked, in template order.
    pub detected_values: Vec<String>,
    /// Mean mark confidence of the field's bubbles, in millionths.
    pub confidence: u32,
    pub is_multi_marked: bool,
}

/// The mathematical content of a `BubbleResponse`.
pub ghost struct BubbleResponseView {
    pub field_label: Seq<char>,
    pub detected_values: Seq<Seq<char>>,
    pub confidence: u32,
    pub is_multi_marked: bool,
}

impl View for BubbleResponse {
    type V = BubbleResponseView;

    open spec fn view(&self) -> BubbleResponseView {
        BubbleResponseView {
            field_label: self.field_label@,
            detected_values: self.detected_values.deep_view(),
            confidence: self.confidence,
            is_multi_marked: self.is_multi_marked,
        }
    }
}

/// The outcome of processing one image.
#[derive(Debug)]
pub struct ProcessedFile {
    pub file_path: String,
    pub detected_bubbles: Vec<BubbleResponse>,
    /// Mean of the field confidences, in millionths.
    pub confidence_score: u32,
    /// Wall-clock duration in microseconds, as measured by the caller.
    pub processing_time: u64,
    pub alignment_applied: bool,
}

/// The views of a list of responses.
pub open spec fn response_views(responses: Seq<BubbleResponse>) -> Seq<BubbleResponseView> {
    Seq::new(responses.len(), |i: int| responses[i]@)
}


/// The outcome of a run over a set of images.
#[derive(Debug)]
pub struct OmrResult {
    pub success: bool,
    pub message: String,
    pub processed_files: Vec<ProcessedFile>,
    /// Wall-clock duration in microseconds, as measured by the caller.
    pub total_processing_time: u64,
    pub errors: Vec<String>,
}

/// What a run is asked to do.
#[derive(Debug)]
pub struct OmrConfig {
    pub input_paths: Vec<String>,
    pub output_dir: String,
    pub template_path: Option<String>,
    pub debug: bool,
    pub auto_align: bool,
    pub set_layout: bool,
    pub processing_config: ProcessingConfig,
}

impl Default for OmrConfig {
    /// Reads from `inputs`, writes to `outputs`, uses no template and the
    /// default parameters.
    fn default() -> (config: OmrConfig)
        ensures
            config.input_paths.deep_view() == seq!["inputs"@],
            config.output_dir@ == "outputs"@,
            config.template_path is None,
            !config.debug,
            !config.auto_align,
            !config.set_layout,
            config.processing_config.is_default(),
    {
        let mut input_paths: Vec<String> = Vec::new();
        input_paths.push(String::from_str("inputs"));
        assert(input_paths.deep_view() =~= seq!["inputs"@]);
        OmrConfig {
            input_paths,
            output_dir: String::from_str("outputs"),
            template_path: None,
            debug: false,
            auto_align: false,
            set_layout: false,
            processing_config: ProcessingConfig::default(),
        }
    }
}

/// The sum of the confidences of the first `n` responses.
pub open spec fn confidence_total(responses: Seq<BubbleResponseView>, n: int) -> int
    decreases n,
{
    if n <= 0 {
        0
    } else {
        confidence_total(responses, n - 1) + responses[n - 1].confidence
    }
}

/// The mean of the confidences of the responses, rounded down; zero when
/// there is none.
pub open spec fn mean_confidence(responses: Seq<BubbleResponseView>) -> int {
    if responses.len() == 0 {
        0
    } else {
        confidence_total(responses, responses.len() as int) / (responses.len() as int)
    }
}

/// A sum of confidences is at most the greatest confidence, counted once
/// for each.
pub proof fn lemma_confidence_total(responses: Seq<BubbleResponseView>, n: int)
    requires
        0 <= n <= responses.len(),
    ensures
        0 <= confidence_total(responses, n) <= 0xffff_ffff * n,
    decreases n,
{
    if n > 0 {
        lemma_confidence_total(responses, n - 1);
    }
}

/// The mean of confidences between 0 and 1 lies between 0 and 1.
pub proof fn lemma_mean_confidence(responses: Seq<BubbleResponseView>)
    requires
        forall|i: int| 0 <= i < responses.len() ==> (#[trigger] responses[i]).confidence <= 1_000_000,
    ensures
        0 <= mean_confidence(responses) <= 1_000_000,
{
    let n = responses.len() as int;
    lemma_bounded_total(responses, n);
    if n > 0 {
        let t = confidence_total(responses, n);
        assert(0 <= t / n <= 1_000_000) by (nonlinear_arith)
            requires
                0 <= t <= 1_000_000 * n,
                n > 0,
        ;
    }
}

/// A sum of confidences between 0 and 1 is at most their number.
proof fn lemma_bounded_total(responses: Seq<BubbleResponseView>, n: int)
    requires
        0 <= n <= responses.len(),
        forall|i: int| 0 <= i < responses.len() ==> (#[trigger] responses[i]).confidence <= 1_000_000,
    ensures
        0 <= confidence_total(responses, n) <= 1_000_000 * n,
    decreases n,
{
    if n > 0 {
        lemma_bounded_total(responses, n - 1);
    }
}

/// The mean confidence of a list of responses.
pub fn average_confidence(responses: &Vec<BubbleResponse>) -> (mean: u32)
    ensures
        mean == mean_confidence(response_views(responses@)),
{
    let ghost views = response_views(responses@);
    let mut total: u128 = 0;
    let mut i: usize = 0;
    while i < responses.len()
        invariant
            i <= responses@.len(),
            views == response_views(responses@),
            total == confidence_total(views, i as int),
        decreases responses.len() - i,
    {
        proof {
            lemma_confidence_total(views, i as int);
            assert(views[i as int] == responses@[i as int]@);
            assert(0xffff_ffff * i <= 0xffff_ffff * 0xffff_ffff_ffff_ffff) by (nonlinear_arith)
                requires
                    i <= 0xffff_ffff_ffff_ffff,
            ;
        }
        total = total + responses[i].confidence as u128;
        i += 1;
    }
    if responses.len() == 0 {
        0
    } else {
        proof {
            lemma_confidence_total(views, i as int);
            let n = responses@.len() as int;
            assert(0 <= total as int / n <= 0xffff_ffff) by (nonlinear_arith)
                requires
                    0 <= total <= 0xffff_ffff * n,
                    n > 0,
            ;
        }
        (total / (responses.len() as u128)) as u32
    }
}

/// One line of the table of results: a field of a file.
#[derive(Debug)]
pub struct ResultRow {
    pub file_path: String,
    pub field_label: String,
    /// The detected values, joined by semicolons.
    pub detected_values: String,
    /// In millionths.
    pub confidence: u32,
    /// In microseconds.
    pub processing_time: u64,
}

/// The mathematical content of a `ResultRow`.
pub ghost struct ResultRowView {
    pub file_path: Seq<char>,
    pub field_label: Seq<char>,
    pub detected_values: Seq<char>,
    pub confidence: u32,
    pub processing_time: u64,
}

impl View for ResultRow {
    type V = ResultRowView;

    open spec fn view(&self) -> ResultRowView {
        ResultRowView {
            file_path: self.file_path@,
            field_label: self.field_label@,
            detected_values: self.detected_values@,
            confidence: self.confidence,
            processing_time: self.processing_time,
        }
    }
}

/// The views of a list of rows.
pub open spec fn row_views(rows: Seq<ResultRow>) -> Seq<ResultRowView> {
    Seq::new(rows.len(), |i: int| rows[i]@)
}

/// The rows of one file: one for each response, in order.
pub open spec fn file_rows(file: &ProcessedFile) -> Seq<ResultRowView> {
    Seq::new(
        file.detected_bubbles@.len(),
        |i: int|
            ResultRowView {
                file_path: file.file_path@,
                field_label: file.detected_bubbles@[i].field_label@,
                detected_values: joined(file.detected_bubbles@[i].detected_values.deep_view(), ";"@),
                confidence: file.detected_bubbles@[i].confidence,
                processing_time: file.processing_time,
            },
    )
}

/// The rows of the first `n` files, file after file.
pub open spec fn all_rows(files: Seq<ProcessedFile>, n: int) -> Seq<ResultRowView>
    decreases n,
{
    if n <= 0 {
        Seq::empty()
    } else {
        all_rows(files, n - 1) + file_rows(&files[n - 1])
    }
}

/// What a run tells of itself: how many files came through if any did,
/// else that no image was found or that none could be processed.
pub open spec fn run_message(found: usize, processed: nat) -> Seq<char> {
    if processed > 0 {
        "Successfully processed "@ + decimal(processed) + " files"@
    } else if found == 0 {
        "No image files found in input directories"@
    } else {
        "No image file could be processed"@
    }
}

/// The lower-case form that `str::to_lowercase` gives a text.
pub uninterp spec fn lowercase(text: Seq<char>) -> Seq<char>;

/// Calls `str::to_lowercase`. The contract only names what it returns.
#[verifier::external_body]
pub(crate) fn to_lowercase(text: &str) -> (lower: String)
    ensures
        lower@ == lowercase(text@),
{
    text.to_lowercase()
}

/// Whether a lower-case file extension is that of an image.
pub open spec fn is_image_extension(lower: Seq<char>) -> bool {
    lower == "jpg"@ || lower == "jpeg"@ || lower == "png"@ || lower == "bmp"@ || lower == "tiff"@
}

/// What detection must report for an image: with a template the response
/// of each field block, without one the responses for the regions that
/// look like bubbles.
pub open spec fn are_detected_responses(
    image: &GrayImage,
    template: &Option<OmrTemplate>,
    responses: Seq<BubbleResponseView>,
) -> bool {
    match template {
        Some(t) => responses == Seq::new(
            t.field_blocks@.len(),
            |i: int| field_response(image, t, &t.field_blocks@[i]),
        ),
        None => exists|regions: Seq<BubbleRegion>|
            #![trigger are_bubble_regions(image, regions)]
            are_bubble_regions(image, regions) && responses == auto_responses(
                image,
                region_views(regions),
                regions.len() as int,
            ),
    }
}

impl OmrConfig {
    /// Whether a file with the given extension is taken as an image: its
    /// lower-case form is `jpg`, `jpeg`, `png`, `bmp` or `tiff`.
    pub fn is_image_file(extension: &str) -> (r: bool)
        ensures
            r == is_image_extension(lowercase(extension@)),
    {
        let lower: String = to_lowercase(extension);
        let ext: &str = lower.as_str();
        same_text(ext, "jpg") || same_text(ext, "jpeg") || same_text(ext, "png") || same_text(
            ext,
            "bmp",
        ) || same_text(ext, "tiff")
    }

    /// Detects and reports what is marked on a preprocessed image. The
    /// image is aligned first when alignment is asked for and there is a
    /// template.
    pub fn process_image(
        &self,
        file_path: &str,
        image: GrayImage,
        template: &Option<OmrTemplate>,
        processing_time: u64,
    ) -> (file: ProcessedFile)
        requires
            image.wf(),
        ensures
            file.file_path@ == file_path@,
            file.processing_time == processing_time,
            file.alignment_applied == (self.auto_align && template is Some),
            are_detected_responses(&image, template, response_views(file.detected_bubbles@)),
            file.confidence_score == mean_confidence(response_views(file.detected_bubbles@)),
            file.confidence_score <= 1_000_000,
            forall|i: int|
                0 <= i < file.detected_bubbles@.len() ==> (
                #[trigger] file.detected_bubbles@[i]).confidence <= 1_000_000,
            template is None ==> forall|i: int|
                0 <= i < file.detected_bubbles@.len() ==> (
                #[trigger] file.detected_bubbles@[i]).confidence > 500_000,
    {
        let detector: BubbleDetector = BubbleDetector::new(&self.processing_config);
        let ghost sheet = image;
        let mut alignment_applied: bool = false;
        let detected_bubbles: Vec<BubbleResponse> = match template {
            Some(t) => {
                let aligned: GrayImage = if self.auto_align {
                    alignment_applied = true;
                    ImageProcessor::auto_align_image(image, t)
                } else {
                    image
                };
                let responses: Vec<BubbleResponse> = detector.detect_bubbles_with_template(
                    &aligned,
                    t,
                );
                assert(response_views(responses@) =~= Seq::new(
                    t.field_blocks@.len(),
                    |i: int| field_response(&sheet, t, &t.field_blocks@[i]),
                ));
                responses
            },
            None => detector.detect_bubbles_auto(&image),
        };
        let confidence_score: u32 = average_confidence(&detected_bubbles);
        proof {
            let views = response_views(detected_bubbles@);
            assert forall|i: int| 0 <= i < views.len() implies (#[trigger] views[i]).confidence
                <= 1_000_000 by {
                assert(views[i] == detected_bubbles@[i]@);
            }
            lemma_mean_confidence(views);
        }
        ProcessedFile {
            file_path: String::from_str(file_path),
            detected_bubbles,
            confidence_score,
            processing_time,
            alignment_applied,
        }
    }

    /// The table of results: one row for each field of each file.
    pub fn result_rows(processed_files: &Vec<ProcessedFile>) -> (rows: Vec<ResultRow>)
        ensures
            row_views(rows@) == all_rows(processed_files@, processed_files@.len() as int),
    {
        let mut rows: Vec<ResultRow> = Vec::new();
        let mut i: usize = 0;
        assert(row_views(rows@) =~= all_rows(processed_files@, 0));
        while i < processed_files.len()
            invariant
                i <= processed_files@.len(),
                row_views(rows@) == all_rows(processed_files@, i as int),
            decreases processed_files.len() - i,
        {
            let file: &ProcessedFile = &processed_files[i];
            let ghost base = row_views(rows@);
            let mut k: usize = 0;
            assert(row_views(rows@) =~= base + file_rows(file).take(0));
            while k < file.detected_bubbles.len()
                invariant
                    k <= file.detected_bubbles@.len(),
                    row_views(rows@) == base + file_rows(file).take(k as int),
                decreases file.detected_bubbles.len() - k,
            {
                let bubble: &BubbleResponse = &file.detected_bubbles[k];
                let ghost before = row_views(rows@);
                let row = ResultRow {
                    file_path: file.file_path.clone(),
                    field_label: bubble.field_label.clone(),
                    detected_values: join_strings(&bubble.detected_values, ";"),
                    confidence: bubble.confidence,
                    processing_time: file.processing_time,
                };
                rows.push(row);
                proof {
                    assert(row@ == file_rows(file)[k as int]);
                    assert(row_views(rows@) =~= before.push(row@));
                    assert(file_rows(file).take(k as int + 1) =~= file_rows(file).take(
                        k as int,
                    ).push(file_rows(file)[k as int]));
                }
                k += 1;
            }
            proof {
                assert(file_rows(file).take(k as int) =~= file_rows(file));
            }
            i += 1;
        }
        rows
    }

    /// The names of the columns of the table of results.
    pub fn result_header() -> (header: Vec<String>)
        ensures
            header.deep_view() == seq![
                "file_path"@,
                "field_label"@,
                "detected_values"@,
                "confidence"@,
                "processing_time"@,
            ],
    {
        let mut header: Vec<String> = Vec::new();
        header.push(String::from_str("file_path"));
        header.push(String::from_str("field_label"));
        header.push(String::from_str("detected_values"));
        header.push(String::from_str("confidence"));
        header.push(String::from_str("processing_time"));
        assert(header.deep_view() =~= seq![
            "file_path"@,
            "field_label"@,
            "detected_values"@,
            "confidence"@,
            "processing_time"@,
        ]);
        header
    }

    /// The outcome of a run in which `found` images were found, of which
    /// `processed_files` came through and the others left the `errors`.
    /// A file that fails does not fail the run: the run succeeds when at
    /// least one file came through, and lists the errors of the others.
    /// When no image was found the run fails with the one error that says
    /// so, and its time is counted as nothing.
    pub fn conclude_run(
        found: usize,
        processed_files: Vec<ProcessedFile>,
        errors: Vec<String>,
        total_processing_time: u64,
    ) -> (result: OmrResult)
        ensures
            result.processed_files == processed_files,
            result.success == (processed_files@.len() > 0),
            result.message@ == run_message(found, processed_files@.len()),
            found == 0 ==> result.errors.deep_view() == seq!["No input files found"@]
                && result.total_processing_time == 0,
            found > 0 ==> result.errors == errors && result.total_processing_time
                == total_processing_time,
    {
        let count: usize = processed_files.len();
        let message: String = if count > 0 {
            let mut text: String = String::from_str("Successfully processed ");
            text.append(decimal_text(count).as_str());
            text.append(" files");
            text
        } else if found == 0 {
            String::from_str("No image files found in input directories")
        } else {
            String::from_str("No image file could be processed")
        };
        if found == 0 {
            let mut none_found: Vec<String> = Vec::new();
            none_found.push(String::from_str("No input files found"));
            assert(none_found.deep_view() =~= seq!["No input files found"@]);
            OmrResult {
                success: count > 0,
                message,
                processed_files,
                total_processing_time: 0,
                errors: none_found,
            }
        } else {
            OmrResult {
                success: count > 0,
                message,
                processed_files,
                total_processing_time,
                errors,
            }
        }
    }
}

} // verus!
