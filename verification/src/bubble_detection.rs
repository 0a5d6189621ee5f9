//! Deciding which bubbles of a sheet are marked.

use crate::alignment::{lemma_sum_bounds, sum_upto};
use crate::config::ProcessingConfig;
use crate::contours::{max_x, max_y, min_x, min_y};
use crate::histogram::{
    count_below, count_equal, is_histogram_of, lemma_count_ends, lemma_count_step, window_histogram,
};
use crate::image_processing::{thresholded, ImageProcessor};
use crate::labels::{decimal, decimal_text};
use crate::raster::{lemma_index_join, lemma_window_area, GrayImage, MAX_PIXELS};
use crate::template::{BubbleLocation, FieldBlock, FieldType, OmrTemplate};
use crate::wide::product_less;
use crate::{BubbleResponse, BubbleResponseView};
use vstd::prelude::*;
use vstd::string::*;

verus! {

/// A pixel darker than this counts as dark.
pub const DARK_LEVEL: u8 = 128;

/// How confident one may be that a region was filled in, as the exact
/// fraction `numerator / denominator` between 0 and 1.
#[derive(Debug, Clone, Copy, PartialEq, Eq, Structural)]
pub struct MarkConfidence {
    pub numerator: u64,
    pub denominator: u64,
}

/// The numerator of the confidence of a region with the pixels `s` over
/// the denominator `2550 * s.len()`. With `d` dark pixels among `n` and
/// the pixels summing to `t`, the confidence
/// `0.7 * d / n + 0.3 * (1 - t / (255 * n))` is
/// `(1785 * d + 765 * n - 3 * t) / (2550 * n)`.
pub open spec fn confidence_numerator(s: Seq<u8>) -> int {
    1785 * count_below(s, DARK_LEVEL as int) + 765 * s.len() - 3 * sum_upto(s, s.len())
}

/// The confidence that a region with the pixels `s` was filled in; zero
/// for a region without pixels.
pub open spec fn mark_confidence(s: Seq<u8>) -> MarkConfidence {
    if s.len() == 0 {
        MarkConfidence { numerator: 0, denominator: 1 }
    } else {
        MarkConfidence {
            numerator: confidence_numerator(s) as u64,
            denominator: (2550 * s.len()) as u64,
        }
    }
}

/// The numerator of a confidence lies between zero and the denominator.
pub proof fn lemma_confidence_numerator_range(s: Seq<u8>)
    ensures
        0 <= confidence_numerator(s) <= 2550 * s.len(),
{
    lemma_count_step(s, DARK_LEVEL as int);
    lemma_sum_bounds(s, s, s.len());
}

impl MarkConfidence {
    /// The fraction is a confidence: between 0 and 1, over a denominator
    /// that a region of at most `MAX_PIXELS` pixels can give.
    pub open spec fn wf(&self) -> bool {
        &&& 0 < self.denominator <= 2550 * MAX_PIXELS
        &&& self.numerator <= self.denominator
    }

    /// The confidence exceeds `num / den`.
    pub open spec fn exceeds(&self, num: int, den: int) -> bool {
        self.numerator * den > num * self.denominator
    }

    /// The confidence exceeds 0.6: the bubble counts as selected.
    pub open spec fn spec_is_selected(&self) -> bool {
        self.exceeds(3, 5)
    }

    /// The confidence exceeds 0.5: a region found without a template counts
    /// as marked.
    pub open spec fn spec_is_marked(&self) -> bool {
        self.exceeds(1, 2)
    }

    /// The confidence in millionths, rounded up: the count exceeds a whole
    /// number of millionths exactly when the confidence does.
    pub open spec fn spec_millionths(&self) -> u32 {
        ((self.numerator * 1_000_000 + self.denominator - 1) / (self.denominator as int)) as u32
    }

    /// The confidence exceeds 0.6.
    #[verifier::when_used_as_spec(spec_is_selected)]
    pub fn is_selected(&self) -> (r: bool)
        requires
            self.wf(),
        ensures
            r == self.spec_is_selected(),
    {
        self.numerator * 5 > 3 * self.denominator
    }

    /// The confidence exceeds 0.5.
    #[verifier::when_used_as_spec(spec_is_marked)]
    pub fn is_marked(&self) -> (r: bool)
        requires
            self.wf(),
        ensures
            r == self.spec_is_marked(),
    {
        self.numerator * 2 > self.denominator
    }

    /// The confidence in millionths, rounded up.
    #[verifier::when_used_as_spec(spec_millionths)]
    pub fn millionths(&self) -> (m: u32)
        requires
            self.wf(),
        ensures
            m == self.spec_millionths(),
            m <= 1_000_000,
    {
        let n: u64 = self.numerator;
        let d: u64 = self.denominator;
        proof {
            lemma_rounded_up(n as int, d as int, 1_000_000);
        }
        assert(n * 1_000_000 <= 2550 * 16_777_216 * 1_000_000) by (nonlinear_arith)
            requires
                n <= 2550 * 16_777_216,
        ;
        ((n * 1_000_000 + d - 1) / d) as u32
    }
}

/// A fraction `n / d` of at most one, counted in `scale` parts and rounded
/// up, gives at most `scale` parts, and more than `t` parts exactly when
/// the fraction exceeds `t / scale`.
pub proof fn lemma_rounded_up(n: int, d: int, scale: int)
    requires
        0 <= n <= d,
        0 < d,
        0 <= scale,
    ensures
        0 <= (n * scale + d - 1) / d <= scale,
        forall|t: int| 0 <= t ==> (((n * scale + d - 1) / d > t) <==> (n * scale > #[trigger] (t * d))),
{
    let a = n * scale;
    let q = (a + d - 1) / d;
    let r = (a + d - 1) % d;
    assert(0 <= a <= d * scale) by (nonlinear_arith)
        requires
            a == n * scale,
            0 <= n <= d,
            0 <= scale,
    ;
    assert(a + d - 1 == q * d + r && 0 <= r < d) by (nonlinear_arith)
        requires
            q == (a + d - 1) / d,
            r == (a + d - 1) % d,
            d > 0,
    ;
    assert(0 <= q <= scale) by (nonlinear_arith)
        requires
            a + d - 1 == q * d + r,
            0 <= r < d,
            0 <= a <= d * scale,
            d > 0,
    ;
    assert forall|t: int| 0 <= t implies ((q > t) <==> (a > #[trigger] (t * d))) by {
        assert((q > t) <==> (a > t * d)) by (nonlinear_arith)
            requires
                a + d - 1 == q * d + r,
                0 <= r < d,
                d > 0,
        ;
    }
}

/// The confidence counted in millionths exceeds a whole number of
/// millionths exactly when the confidence itself does: it reads more than
/// 600000 exactly for a selected bubble, and more than 500000 exactly for
/// a marked region.
pub proof fn lemma_millionths_exceed(c: MarkConfidence, t: int)
    requires
        c.wf(),
        0 <= t,
    ensures
        c.spec_millionths() > t <==> c.exceeds(t, 1_000_000),
        c.spec_millionths() > 600_000 <==> c.spec_is_selected(),
        c.spec_millionths() > 500_000 <==> c.spec_is_marked(),
        c.spec_millionths() <= 1_000_000,
{
    let n = c.numerator as int;
    let d = c.denominator as int;
    lemma_rounded_up(n, d, 1_000_000);
    assert(t * d == t * d);
    assert(600_000 * d == 600_000 * d);
    assert(500_000 * d == 500_000 * d);
    assert((n * 1_000_000 > 600_000 * d) <==> (n * 5 > 3 * d)) by (nonlinear_arith);
    assert((n * 1_000_000 > 500_000 * d) <==> (n * 2 > 1 * d)) by (nonlinear_arith);
}

/// The confidence of a region of at most `MAX_PIXELS` pixels is a
/// confidence: it lies between 0 and 1.
pub proof fn lemma_confidence_bounds(s: Seq<u8>)
    requires
        s.len() <= MAX_PIXELS,
    ensures
        mark_confidence(s).wf(),
        0 <= mark_confidence(s).numerator <= mark_confidence(s).denominator,
        0 <= mark_confidence(s).spec_millionths() <= 1_000_000,
        s.len() > 0 ==> mark_confidence(s).numerator == confidence_numerator(s)
            && mark_confidence(s).denominator == 2550 * s.len(),
{
    lemma_confidence_numerator_range(s);
    let c = mark_confidence(s);
    lemma_rounded_up(c.numerator as int, c.denominator as int, 1_000_000);
}

/// Looks at the pixels of regions to decide what is marked.
pub struct BubbleDetector {
    pub config: ProcessingConfig,
}

impl BubbleDetector {
    /// A detector with its own copy of the parameters.
    pub fn new(config: &ProcessingConfig) -> (detector: BubbleDetector)
        ensures
            detector.config.same_as(config),
    {
        BubbleDetector { config: config.duplicate() }
    }

    /// The confidence that the bubble shown in `bubble_region` was filled
    /// in: 0.7 times the share of dark pixels plus 0.3 times the mean
    /// darkness, as an exact fraction.
    pub fn analyze_bubble_marking(&self, bubble_region: &GrayImage) -> (confidence: MarkConfidence)
        requires
            bubble_region.wf(),
        ensures
            confidence == mark_confidence(bubble_region@),
            confidence.wf(),
    {
        let n: usize = bubble_region.pixel_count();
        let ghost s = bubble_region@;
        proof {
            bubble_region.lemma_wf();
            lemma_confidence_bounds(s);
        }
        if n == 0 {
            return MarkConfidence { numerator: 0, denominator: 1 };
        }
        let mut dark_pixels: u64 = 0;
        let mut total_intensity: u64 = 0;
        let mut i: usize = 0;
        assert(s.take(0) =~= Seq::<u8>::empty());
        while i < n
            invariant
                s == bubble_region@,
                n == s.len(),
                n <= MAX_PIXELS,
                i <= n,
                dark_pixels == count_below(s.take(i as int), DARK_LEVEL as int),
                total_intensity == sum_upto(s, i as nat),
                dark_pixels <= i,
                total_intensity <= 255 * i,
            decreases n - i,
        {
            let intensity: u8 = bubble_region.get(i);
            proof {
                assert(s.take(i as int + 1).drop_last() =~= s.take(i as int));
                assert(s.take(i as int + 1).last() == intensity);
            }
            total_intensity = total_intensity + intensity as u64;
            if intensity < DARK_LEVEL {
                dark_pixels = dark_pixels + 1;
            }
            i += 1;
        }
        proof {
            assert(s.take(n as int) =~= s);
            lemma_confidence_numerator_range(s);
        }
        MarkConfidence {
            numerator: 1785 * dark_pixels + 765 * (n as u64) - 3 * total_intensity,
            denominator: 2550 * (n as u64),
        }
    }
}

/// A region without a bright pixel has a confidence of exactly one.
pub proof fn lemma_black_region_is_certain(s: Seq<u8>)
    requires
        0 < s.len() <= MAX_PIXELS,
        forall|i: int| 0 <= i < s.len() ==> s[i] == 0,
    ensures
        mark_confidence(s).numerator == mark_confidence(s).denominator,
        mark_confidence(s).spec_millionths() == 1_000_000,
        mark_confidence(s).spec_is_selected(),
{
    lemma_uniform_region(s, 0, s.len());
    assert(s.take(s.len() as int) =~= s);
    lemma_confidence_bounds(s);
    let d = 2550 * s.len() as int;
    assert((d * 1_000_000 + d - 1) / d == 1_000_000) by (nonlinear_arith)
        requires
            d > 0,
    ;
}

/// A region of pixels at full brightness has a confidence of exactly zero.
pub proof fn lemma_white_region_is_blank(s: Seq<u8>)
    requires
        0 < s.len() <= MAX_PIXELS,
        forall|i: int| 0 <= i < s.len() ==> s[i] == 255,
    ensures
        mark_confidence(s).numerator == 0,
        mark_confidence(s).spec_millionths() == 0,
        !mark_confidence(s).spec_is_selected(),
        !mark_confidence(s).spec_is_marked(),
{
    lemma_uniform_region(s, 255, s.len());
    assert(s.take(s.len() as int) =~= s);
    lemma_confidence_bounds(s);
    let d = 2550 * s.len() as int;
    assert((0int * 1_000_000 + d - 1) / d == 0) by (nonlinear_arith)
        requires
            d > 0,
    ;
}

/// The counts and sums of a region whose first `n` pixels all have the
/// intensity `v`.
proof fn lemma_uniform_region(s: Seq<u8>, v: u8, n: nat)
    requires
        n <= s.len(),
        forall|i: int| 0 <= i < n ==> s[i] == v,
    ensures
        sum_upto(s, n) == v * n,
        count_below(s.take(n as int), DARK_LEVEL as int) == if v < DARK_LEVEL {
            n
        } else {
            0
        },
    decreases n,
{
    if n > 0 {
        lemma_uniform_region(s, v, (n - 1) as nat);
        assert(s.take(n as int).drop_last() =~= s.take(n as int - 1));
        assert(s.take(n as int).last() == v);
        assert(v * (n - 1) + v == v * n) by (nonlinear_arith);
    } else {
        assert(s.take(0) =~= Seq::<u8>::empty());
    }
}


/// Where the extraction of a bubble starts along one axis: at the bubble's
/// place, pulled back so that a whole bubble fits before the image's edge.
pub open spec fn region_start(origin: u32, offset: u32, size: u32, extent: u32) -> int {
    let wanted = origin + offset;
    let last = if extent >= size {
        extent - size
    } else {
        0
    };
    if wanted <= last {
        wanted
    } else {
        last
    }
}

/// How many pixels the extraction of a bubble takes along one axis: the
/// bubble's size, cut off at the image's edge.
pub open spec fn region_extent(size: u32, extent: u32) -> int {
    if size <= extent {
        size as int
    } else {
        extent as int
    }
}

/// The pixels of the image under a bubble.
pub open spec fn bubble_pixels(
    image: &GrayImage,
    template: &OmrTemplate,
    block: &FieldBlock,
    bubble: &BubbleLocation,
) -> Seq<u8> {
    image.window(
        region_start(
            block.origin.0,
            bubble.position.0,
            template.bubble_dimensions.width,
            image.spec_width(),
        ),
        region_start(
            block.origin.1,
            bubble.position.1,
            template.bubble_dimensions.height,
            image.spec_height(),
        ),
        region_extent(template.bubble_dimensions.width, image.spec_width()),
        region_extent(template.bubble_dimensions.height, image.spec_height()),
    )
}

/// The confidence of each bubble of a field block.
pub open spec fn bubble_confidences(image: &GrayImage, template: &OmrTemplate, block: &FieldBlock) -> Seq<
    MarkConfidence,
> {
    Seq::new(
        block.bubbles@.len(),
        |i: int| mark_confidence(bubble_pixels(image, template, block, &block.bubbles@[i])),
    )
}

/// The values of the selected bubbles among the first `n`, in order.
pub open spec fn selected_values(confidences: Seq<MarkConfidence>, bubbles: Seq<BubbleLocation>, n: int) -> Seq<
    Seq<char>,
>
    decreases n,
{
    if n <= 0 {
        Seq::empty()
    } else if confidences[n - 1].spec_is_selected() {
        selected_values(confidences, bubbles, n - 1).push(bubbles[n - 1].value@)
    } else {
        selected_values(confidences, bubbles, n - 1)
    }
}

/// The sum of the first `n` confidences, each in millionths.
pub open spec fn millionths_total(confidences: Seq<MarkConfidence>, n: int) -> int
    decreases n,
{
    if n <= 0 {
        0
    } else {
        millionths_total(confidences, n - 1) + confidences[n - 1].spec_millionths()
    }
}

/// The mean of the confidences in millionths, rounded down; zero when
/// there is none.
pub open spec fn mean_millionths(confidences: Seq<MarkConfidence>) -> int {
    if confidences.len() == 0 {
        0
    } else {
        millionths_total(confidences, confidences.len() as int) / (confidences.len() as int)
    }
}

/// What detection reports for a field block: the values of the bubbles
/// whose confidence exceeds 0.6, the mean confidence, and whether more
/// than one bubble is selected in a block that is not of the
/// multiple-choice kind.
pub open spec fn field_response(image: &GrayImage, template: &OmrTemplate, block: &FieldBlock) -> BubbleResponseView {
    let confidences = bubble_confidences(image, template, block);
    let detected = selected_values(confidences, block.bubbles@, block.bubbles@.len() as int);
    BubbleResponseView {
        field_label: block.field_label@,
        detected_values: detected,
        confidence: mean_millionths(confidences) as u32,
        is_multi_marked: detected.len() > 1 && block.field_type != FieldType::MultipleChoice,
    }
}

/// A sum of confidences in millionths is at most a million each.
pub proof fn lemma_millionths_total(confidences: Seq<MarkConfidence>, n: int)
    requires
        0 <= n <= confidences.len(),
        forall|i: int| 0 <= i < confidences.len() ==> (#[trigger] confidences[i]).wf(),
    ensures
        0 <= millionths_total(confidences, n) <= 1_000_000 * n,
    decreases n,
{
    if n > 0 {
        lemma_millionths_total(confidences, n - 1);
        let c = confidences[n - 1];
        lemma_rounded_up(c.numerator as int, c.denominator as int, 1_000_000);
    }
}

/// A mean of confidences is a confidence.
pub proof fn lemma_mean_millionths(confidences: Seq<MarkConfidence>)
    requires
        forall|i: int| 0 <= i < confidences.len() ==> (#[trigger] confidences[i]).wf(),
    ensures
        0 <= mean_millionths(confidences) <= 1_000_000,
{
    let n = confidences.len() as int;
    lemma_millionths_total(confidences, n);
    if n > 0 {
        let t = millionths_total(confidences, n);
        assert(0 <= t / n <= 1_000_000) by (nonlinear_arith)
            requires
                0 <= t <= 1_000_000 * n,
                n > 0,
        ;
    }
}

impl BubbleDetector {
    /// Cuts the pixels under a bubble out of the image. A bubble that would
    /// reach past the image's edge is pulled back inside; on an image
    /// smaller than a bubble the region is what there is.
    pub fn extract_bubble_region(
        &self,
        image: &GrayImage,
        field_block: &FieldBlock,
        bubble: &BubbleLocation,
        template: &OmrTemplate,
    ) -> (region: GrayImage)
        requires
            image.wf(),
        ensures
            region.wf(),
            region.spec_width() == region_extent(
                template.bubble_dimensions.width,
                image.spec_width(),
            ),
            region.spec_height() == region_extent(
                template.bubble_dimensions.height,
                image.spec_height(),
            ),
            region@ == bubble_pixels(image, template, field_block, bubble),
    {
        let img_width: u32 = image.width();
        let img_height: u32 = image.height();
        let bubble_width: u32 = template.bubble_dimensions.width;
        let bubble_height: u32 = template.bubble_dimensions.height;
        let abs_x: u64 = field_block.origin.0 as u64 + bubble.position.0 as u64;
        let abs_y: u64 = field_block.origin.1 as u64 + bubble.position.1 as u64;
        let last_x: u32 = if img_width >= bubble_width {
            img_width - bubble_width
        } else {
            0
        };
        let last_y: u32 = if img_height >= bubble_height {
            img_height - bubble_height
        } else {
            0
        };
        let start_x: u32 = if abs_x <= last_x as u64 {
            abs_x as u32
        } else {
            last_x
        };
        let start_y: u32 = if abs_y <= last_y as u64 {
            abs_y as u32
        } else {
            last_y
        };
        let width: u32 = if bubble_width <= img_width {
            bubble_width
        } else {
            img_width
        };
        let height: u32 = if bubble_height <= img_height {
            bubble_height
        } else {
            img_height
        };
        image.crop(start_x, start_y, width, height)
    }

    /// Decides which bubbles of a field block are marked. The result holds
    /// one response.
    pub fn process_field_block(&self, image: &GrayImage, field_block: &FieldBlock, template: &OmrTemplate) -> (responses:
        Vec<BubbleResponse>)
        requires
            image.wf(),
        ensures
            responses@.len() == 1,
            responses@[0]@ == field_response(image, template, field_block),
            responses@[0].confidence <= 1_000_000,
    {
        let ghost confidences = bubble_confidences(image, template, field_block);
        let n: usize = field_block.bubbles.len();
        let mut detected_values: Vec<String> = Vec::new();
        let mut confidence_sum: u128 = 0;
        let mut i: usize = 0;
        proof {
            assert forall|k: int| 0 <= k < confidences.len() implies (#[trigger] confidences[k]).wf() by {
                let pixels = bubble_pixels(image, template, field_block, &field_block.bubbles@[k]);
                lemma_window_area(
                    region_extent(template.bubble_dimensions.width, image.spec_width()),
                    region_extent(template.bubble_dimensions.height, image.spec_height()),
                    image.spec_width() as int,
                    image.spec_height() as int,
                );
                image.lemma_wf();
                lemma_confidence_bounds(pixels);
            }
        }
        while i < n
            invariant
                image.wf(),
                n == field_block.bubbles@.len(),
                confidences == bubble_confidences(image, template, field_block),
                forall|k: int| 0 <= k < confidences.len() ==> (#[trigger] confidences[k]).wf(),
                i <= n,
                detected_values.deep_view() == selected_values(
                    confidences,
                    field_block.bubbles@,
                    i as int,
                ),
                confidence_sum == millionths_total(confidences, i as int),
            decreases n - i,
        {
            let bubble: &BubbleLocation = &field_block.bubbles[i];
            let region: GrayImage = self.extract_bubble_region(image, field_block, bubble, template);
            let confidence: MarkConfidence = self.analyze_bubble_marking(&region);
            let ghost before = detected_values.deep_view();
            proof {
                assert(confidence == confidences[i as int]);
                lemma_millionths_total(confidences, i as int);
            }
            confidence_sum = confidence_sum + confidence.millionths() as u128;
            if confidence.is_selected() {
                detected_values.push(bubble.value.clone());
                proof {
                    assert(detected_values.deep_view() =~= before.push(bubble.value@));
                }
            }
            i += 1;
        }
        proof {
            lemma_mean_millionths(confidences);
        }
        let avg_confidence: u32 = if n == 0 {
            0
        } else {
            (confidence_sum / (n as u128)) as u32
        };
        let is_multi_marked: bool = detected_values.len() > 1 && !(field_block.field_type
            == FieldType::MultipleChoice);
        let mut responses: Vec<BubbleResponse> = Vec::new();
        responses.push(
            BubbleResponse {
                field_label: field_block.field_label.clone(),
                detected_values,
                confidence: avg_confidence,
                is_multi_marked,
            },
        );
        responses
    }

    /// Decides what is marked in every field block of the template: one
    /// response for each, in the template's order.
    pub fn detect_bubbles_with_template(&self, image: &GrayImage, template: &OmrTemplate) -> (responses:
        Vec<BubbleResponse>)
        requires
            image.wf(),
        ensures
            responses@.len() == template.field_blocks@.len(),
            forall|i: int|
                0 <= i < responses@.len() ==> (#[trigger] responses@[i])@ == field_response(
                    image,
                    template,
                    &template.field_blocks@[i],
                ),
            forall|i: int|
                0 <= i < responses@.len() ==> (#[trigger] responses@[i]).confidence <= 1_000_000,
    {
        let mut responses: Vec<BubbleResponse> = Vec::new();
        let mut i: usize = 0;
        while i < template.field_blocks.len()
            invariant
                image.wf(),
                i <= template.field_blocks@.len(),
                responses@.len() == i,
                forall|k: int|
                    0 <= k < i ==> (#[trigger] responses@[k])@ == field_response(
                        image,
                        template,
                        &template.field_blocks@[k],
                    ),
                forall|k: int| 0 <= k < i ==> (#[trigger] responses@[k]).confidence <= 1_000_000,
            decreases template.field_blocks.len() - i,
        {
            let mut field_responses: Vec<BubbleResponse> = self.process_field_block(
                image,
                &template.field_blocks[i],
                template,
            );
            let ghost only = field_responses@[0];
            let response: BubbleResponse = field_responses.pop().unwrap();
            assert(response == only);
            responses.push(response);
            i += 1;
        }
        responses
    }
}


/// The number of pixels counted in the bins below `t` of a histogram.
pub open spec fn hist_weight(h: Seq<usize>, t: int) -> int
    decreases t,
{
    if t <= 0 {
        0
    } else {
        hist_weight(h, t - 1) + h[t - 1]
    }
}

/// The sum of the intensities of the pixels counted in the bins below `t`
/// of a histogram.
pub open spec fn hist_mass(h: Seq<usize>, t: int) -> int
    decreases t,
{
    if t <= 0 {
        0
    } else {
        hist_mass(h, t - 1) + (t - 1) * h[t - 1]
    }
}

/// The histogram of the pixels `s`.
pub open spec fn histogram_of(s: Seq<u8>) -> Seq<usize> {
    Seq::new(256, |v: int| count_equal(s, v) as usize)
}

/// The two classes that a threshold splits the pixels into: how many
/// pixels each holds, and the sum of their intensities.
#[derive(Debug, Clone, Copy, PartialEq, Eq, Structural)]
pub struct ClassStats {
    pub weight0: u64,
    pub weight1: u64,
    pub sum0: u64,
    pub sum1: u64,
}

/// The classes below and from `t` on of the pixels counted in `h`.
pub open spec fn class_stats(h: Seq<usize>, t: int) -> ClassStats {
    ClassStats {
        weight0: hist_weight(h, t) as u64,
        weight1: (hist_weight(h, 256) - hist_weight(h, t)) as u64,
        sum0: hist_mass(h, t) as u64,
        sum1: (hist_mass(h, 256) - hist_mass(h, t)) as u64,
    }
}

impl ClassStats {
    /// The classes are those of at most `MAX_PIXELS` pixels.
    pub open spec fn wf(&self) -> bool {
        &&& self.weight0 + self.weight1 <= MAX_PIXELS
        &&& self.sum0 <= 255 * self.weight0
        &&& self.sum1 <= 255 * self.weight1
    }

    /// `sum0 * weight1 - sum1 * weight0`: the difference of the class
    /// means, times both weights.
    pub open spec fn contrast(&self) -> int {
        self.sum0 * self.weight1 - self.sum1 * self.weight0
    }

    /// The between-class variance `w0 * w1 * (mu0 - mu1)^2` is
    /// `spread / (n * n * balance)`, where `n` is the number of pixels.
    pub open spec fn spread(&self) -> int {
        self.contrast() * self.contrast()
    }

    /// The product of the two weights.
    pub open spec fn balance(&self) -> int {
        self.weight0 * self.weight1
    }

    /// Both classes hold pixels and the between-class variance is positive.
    pub open spec fn spec_separates(&self) -> bool {
        self.weight0 > 0 && self.weight1 > 0 && self.spread() > 0
    }

    /// Between two splits of the same pixels into non-empty classes, `self`
    /// has the higher between-class variance.
    pub open spec fn spec_separates_better(&self, other: &ClassStats) -> bool {
        self.spread() * other.balance() > other.spread() * self.balance()
    }

    /// The ranges of the quantities compared between splits.
    proof fn lemma_ranges(&self)
        requires
            self.wf(),
        ensures
            0 <= self.sum0 * self.weight1 <= 0x100_0000_0000_0000,
            0 <= self.sum1 * self.weight0 <= 0x100_0000_0000_0000,
            -0x100_0000_0000_0000 <= self.contrast() <= 0x100_0000_0000_0000,
            0 <= self.spread() <= 0x1_0000_0000_0000_0000_0000_0000_0000,
            0 <= self.balance() <= 0x1_0000_0000_0000,
            self.weight0 > 0 && self.weight1 > 0 ==> self.balance() > 0,
    {
        let w0 = self.weight0 as int;
        let w1 = self.weight1 as int;
        let s0 = self.sum0 as int;
        let s1 = self.sum1 as int;
        assert(0 <= s0 * w1 <= 0x100_0000_0000_0000 && 0 <= s1 * w0 <= 0x100_0000_0000_0000 && 0
            <= w0 * w1 <= 0x1_0000_0000_0000) by (nonlinear_arith)
            requires
                0 <= w0 <= 16_777_216,
                0 <= w1 <= 16_777_216,
                0 <= s0 <= 255 * w0,
                0 <= s1 <= 255 * w1,
        ;
        let c = self.contrast();
        assert(0 <= c * c <= 0x100_0000_0000_0000 * 0x100_0000_0000_0000) by (nonlinear_arith)
            requires
                -0x100_0000_0000_0000 <= c <= 0x100_0000_0000_0000,
        ;
        assert(w0 > 0 && w1 > 0 ==> w0 * w1 > 0) by (nonlinear_arith);
    }

    /// Both classes hold pixels and the between-class variance is positive.
    #[verifier::when_used_as_spec(spec_separates)]
    pub fn separates(&self) -> (r: bool)
        requires
            self.wf(),
        ensures
            r == self.spec_separates(),
    {
        proof {
            self.lemma_ranges();
        }
        if self.weight0 == 0 || self.weight1 == 0 {
            return false;
        }
        let left: i128 = (self.sum0 as i128) * (self.weight1 as i128);
        let right: i128 = (self.sum1 as i128) * (self.weight0 as i128);
        assert((left - right) * (left - right) > 0 <==> left != right) by (nonlinear_arith);
        left != right
    }

    /// Whether `self` has the higher between-class variance.
    #[verifier::when_used_as_spec(spec_separates_better)]
    pub fn separates_better(&self, other: &ClassStats) -> (r: bool)
        requires
            self.wf(),
            other.wf(),
        ensures
            r == self.spec_separates_better(other),
    {
        proof {
            self.lemma_ranges();
            other.lemma_ranges();
        }
        let mine: i128 = (self.sum0 as i128) * (self.weight1 as i128) - (self.sum1 as i128) * (
        self.weight0 as i128);
        let theirs: i128 = (other.sum0 as i128) * (other.weight1 as i128) - (other.sum1 as i128)
            * (other.weight0 as i128);
        let my_spread: u128 = (mine * mine) as u128;
        let their_spread: u128 = (theirs * theirs) as u128;
        let my_balance: u64 = self.weight0 * self.weight1;
        let their_balance: u64 = other.weight0 * other.weight1;
        product_less(their_spread, my_balance, my_spread, their_balance)
    }
}

/// `t` is the Otsu threshold of the pixels counted in `h`: the lowest
/// threshold at which the between-class variance is greatest, and zero
/// when no threshold gives two classes with a positive variance.
pub open spec fn is_otsu_threshold(h: Seq<usize>, t: int) -> bool {
    &&& 0 <= t < 256
    &&& if class_stats(h, t).spec_separates() {
        forall|u: int|
            0 <= u < 256 && (#[trigger] class_stats(h, u)).spec_separates() ==> {
                &&& !class_stats(h, u).spec_separates_better(&class_stats(h, t))
                &&& u < t ==> class_stats(h, t).spec_separates_better(&class_stats(h, u))
            }
    } else {
        t == 0 && forall|u: int|
            0 <= u < 256 ==> !(#[trigger] class_stats(h, u)).spec_separates()
    }
}

/// The bins below `t` count the pixels below `t`, which sum to at most 255
/// each.
pub proof fn lemma_hist_weight(h: Seq<usize>, s: Seq<u8>, t: int)
    requires
        is_histogram_of(h, s),
        0 <= t <= 256,
    ensures
        hist_weight(h, t) == count_below(s, t),
        0 <= hist_mass(h, t) <= 255 * hist_weight(h, t),
        0 <= hist_weight(h, t) <= s.len(),
    decreases t,
{
    if t > 0 {
        lemma_hist_weight(h, s, t - 1);
        lemma_count_step(s, t - 1);
        lemma_count_step(s, t);
        let c = h[t - 1] as int;
        assert(0 <= (t - 1) * c <= 255 * c) by (nonlinear_arith)
            requires
                0 <= t - 1 <= 255,
                0 <= c,
        ;
    } else {
        lemma_count_ends(s);
    }
}

/// Weights and masses grow with the threshold.
pub proof fn lemma_hist_monotone(h: Seq<usize>, t: int, u: int)
    requires
        0 <= t <= u,
    ensures
        0 <= hist_weight(h, t) <= hist_weight(h, u),
        0 <= hist_mass(h, t) <= hist_mass(h, u),
        hist_mass(h, u) - hist_mass(h, t) <= 255 * (hist_weight(h, u) - hist_weight(h, t)) || u
            > 256,
    decreases u,
{
    if t < u {
        lemma_hist_monotone(h, t, u - 1);
        let c = h[u - 1] as int;
        assert(0 <= (u - 1) * c) by (nonlinear_arith)
            requires
                0 <= u - 1,
                0 <= c,
        ;
        if u <= 256 {
            assert((u - 1) * c <= 255 * c) by (nonlinear_arith)
                requires
                    0 <= u - 1 <= 255,
                    0 <= c,
            ;
        }
    } else if t > 0 {
        lemma_hist_monotone(h, t - 1, t - 1);
        let c = h[t - 1] as int;
        assert(0 <= (t - 1) * c) by (nonlinear_arith)
            requires
                0 <= t - 1,
                0 <= c,
        ;
    }
}

/// The classes of a histogram of at most `MAX_PIXELS` pixels are
/// well-formed and hold the weights and masses as they are.
pub proof fn lemma_class_stats(h: Seq<usize>, t: int)
    requires
        h.len() == 256,
        0 <= t <= 256,
        hist_weight(h, 256) <= MAX_PIXELS,
    ensures
        class_stats(h, t).wf(),
        class_stats(h, t).weight0 == hist_weight(h, t),
        class_stats(h, t).weight1 == hist_weight(h, 256) - hist_weight(h, t),
        class_stats(h, t).sum0 == hist_mass(h, t),
        class_stats(h, t).sum1 == hist_mass(h, 256) - hist_mass(h, t),
{
    lemma_hist_monotone(h, t, 256);
    lemma_hist_monotone(h, 0, t);
}

/// Among splits into non-empty classes, "not better" carries over: if `n`
/// beats `b` and `c` does not beat `b`, then `n` beats `c`.
pub proof fn lemma_better_transitive(n: &ClassStats, b: &ClassStats, c: &ClassStats)
    requires
        n.wf(),
        b.wf(),
        c.wf(),
        n.spec_separates(),
        b.spec_separates(),
        c.spec_separates(),
        n.spec_separates_better(b),
        !c.spec_separates_better(b),
    ensures
        n.spec_separates_better(c),
        !c.spec_separates_better(n),
{
    n.lemma_ranges();
    b.lemma_ranges();
    c.lemma_ranges();
    let an = n.spread();
    let ab = b.spread();
    let ac = c.spread();
    let wn = n.balance();
    let wb = b.balance();
    let wc = c.balance();
    assert(an * wc > ac * wn) by (nonlinear_arith)
        requires
            an * wb > ab * wn,
            ac * wb <= ab * wc,
            wn > 0,
            wb > 0,
            wc > 0,
    {
        assert((an * wb) * wc > (ab * wn) * wc);
        assert((ab * wc) * wn >= (ac * wb) * wn);
        assert((an * wc) * wb > (ac * wn) * wb);
    }
}

impl BubbleDetector {
    /// The two classes that `threshold` splits the pixels counted in
    /// `histogram` into. The histogram has 256 bins and counts at most
    /// `MAX_PIXELS` pixels.
    pub fn calculate_class_stats(&self, histogram: &Vec<usize>, threshold: usize) -> (stats:
        ClassStats)
        requires
            histogram@.len() == 256,
            threshold <= 256,
            hist_weight(histogram@, 256) <= MAX_PIXELS,
        ensures
            stats == class_stats(histogram@, threshold as int),
            stats.wf(),
    {
        let ghost h = histogram@;
        let mut weight0: u64 = 0;
        let mut sum0: u64 = 0;
        let mut weight: u64 = 0;
        let mut sum: u64 = 0;
        let mut i: usize = 0;
        while i < 256
            invariant
                h == histogram@,
                h.len() == 256,
                threshold <= 256,
                hist_weight(h, 256) <= MAX_PIXELS,
                i <= 256,
                weight == hist_weight(h, i as int),
                sum == hist_mass(h, i as int),
                weight0 == hist_weight(h, if i <= threshold {
                    i as int
                } else {
                    threshold as int
                }),
                sum0 == hist_mass(h, if i <= threshold {
                    i as int
                } else {
                    threshold as int
                }),
            decreases 256 - i,
        {
            proof {
                lemma_hist_monotone(h, i as int + 1, 256);
                lemma_hist_monotone(h, 0, i as int + 1);
                lemma_hist_monotone(h, 0, i as int);
                let c = h[i as int] as int;
                assert(0 <= i * c <= 255 * c) by (nonlinear_arith)
                    requires
                        0 <= i <= 255,
                        0 <= c,
                ;
            }
            let count: u64 = histogram[i] as u64;
            if i < threshold {
                weight0 = weight0 + count;
                sum0 = sum0 + (i as u64) * count;
            }
            weight = weight + count;
            sum = sum + (i as u64) * count;
            i += 1;
        }
        proof {
            lemma_class_stats(h, threshold as int);
        }
        ClassStats { weight0, weight1: weight - weight0, sum0, sum1: sum - sum0 }
    }

    /// The Otsu threshold of an image: the lowest threshold at which the
    /// variance between the pixels below it and the others is greatest.
    pub fn calculate_otsu_threshold(&self, image: &GrayImage) -> (threshold: u8)
        requires
            image.wf(),
        ensures
            is_otsu_threshold(histogram_of(image@), threshold as int),
    {
        let histogram: Vec<usize> = window_histogram(image, 0, 0, image.width(), image.height());
        let ghost h = histogram@;
        proof {
            image.lemma_wf();
            assert(image.window(0, 0, image.spec_width() as int, image.spec_height() as int)
                =~= image@) by {
                lemma_full_window(image);
            }
            assert(h =~= histogram_of(image@));
            lemma_hist_weight(h, image@, 256);
            lemma_count_ends(image@);
        }
        let mut best_threshold: u8 = 0;
        let mut best: Option<ClassStats> = None;
        let mut t: usize = 0;
        while t < 256
            invariant
                h == histogram@,
                h.len() == 256,
                hist_weight(h, 256) <= MAX_PIXELS,
                t <= 256,
                best is None ==> best_threshold == 0 && forall|u: int|
                    0 <= u < t ==> !(#[trigger] class_stats(h, u)).spec_separates(),
                best matches Some(b) ==> {
                    &&& b == class_stats(h, best_threshold as int)
                    &&& b.wf()
                    &&& b.spec_separates()
                    &&& best_threshold < t
                    &&& forall|u: int|
                        0 <= u < t && (#[trigger] class_stats(h, u)).spec_separates() ==> {
                            &&& !class_stats(h, u).spec_separates_better(&b)
                            &&& u < best_threshold ==> b.spec_separates_better(&class_stats(h, u))
                        }
                },
            decreases 256 - t,
        {
            let stats: ClassStats = self.calculate_class_stats(&histogram, t);
            if stats.separates() {
                let better: bool = match best {
                    None => true,
                    Some(b) => stats.separates_better(&b),
                };
                if better {
                    proof {
                        if let Some(b) = best {
                            assert forall|u: int|
                                0 <= u < t && (#[trigger] class_stats(h, u)).spec_separates() implies !class_stats(
                                h,
                                u,
                            ).spec_separates_better(&stats) && stats.spec_separates_better(
                                &class_stats(h, u),
                            ) by {
                                lemma_class_stats(h, u);
                                lemma_better_transitive(&stats, &b, &class_stats(h, u));
                            }
                        }
                        stats.lemma_ranges();
                        assert(!stats.spec_separates_better(&stats));
                    }
                    best = Some(stats);
                    best_threshold = t as u8;
                }
            }
            t += 1;
        }
        best_threshold
    }

    /// The binary image of `image` under its Otsu threshold.
    pub fn apply_adaptive_threshold(&self, image: &GrayImage) -> (binary: GrayImage)
        requires
            image.wf(),
        ensures
            binary.wf(),
            binary.spec_width() == image.spec_width(),
            binary.spec_height() == image.spec_height(),
            exists|t: u8|
                #![trigger is_otsu_threshold(histogram_of(image@), t as int)]
                is_otsu_threshold(histogram_of(image@), t as int) && forall|i: int|
                    0 <= i < image@.len() ==> #[trigger] binary@[i] == thresholded(image@[i], t),
    {
        let threshold: u8 = self.calculate_otsu_threshold(image);
        let binary: GrayImage = ImageProcessor::apply_threshold(image, threshold);
        assert(is_otsu_threshold(histogram_of(image@), threshold as int));
        binary
    }
}

/// The window that covers an image holds the image's pixels.
pub proof fn lemma_full_window(image: &GrayImage)
    requires
        image.wf(),
    ensures
        image.window(0, 0, image.spec_width() as int, image.spec_height() as int) == image@,
{
    let w = image.spec_width() as int;
    let h = image.spec_height() as int;
    image.lemma_wf();
    let full = image.window(0, 0, w, h);
    assert forall|k: int| 0 <= k < full.len() implies full[k] == image@[k] by {
        assert(w > 0) by (nonlinear_arith)
            requires
                0 <= k < w * h,
                w >= 0,
        ;
        crate::raster::lemma_index_split(k, w);
    }
    assert(full =~= image@);
}


/// A connected region that may be a bubble: its pixels and their bounding
/// box.
#[derive(Debug)]
pub struct BubbleRegion {
    pub(crate) pixels: Vec<(u32, u32)>,
    pub(crate) min_x: u32,
    pub(crate) max_x: u32,
    pub(crate) min_y: u32,
    pub(crate) max_y: u32,
}

/// The least number of pixels of a region that looks like a bubble.
pub const MIN_BUBBLE_PIXELS: usize = 20;

/// The greatest number of pixels of a region that looks like a bubble.
pub const MAX_BUBBLE_PIXELS: usize = 2000;

/// The extreme pixels of a region that looks like a bubble lie further
/// apart than this in each direction.
pub const MIN_BUBBLE_SPAN: u32 = 5;

/// The extreme pixels of a region that looks like a bubble lie less far
/// apart than this in each direction.
pub const MAX_BUBBLE_SPAN: u32 = 100;

/// How far apart the least and the greatest of the coordinates lie; zero
/// when there is no point.
pub open spec fn span(low: u32, high: u32) -> int {
    if high >= low {
        high - low
    } else {
        0
    }
}

/// Whether a region with the pixels `pixels` looks like a bubble by its
/// size: between 20 and 2000 pixels, and in each direction more than 5 and
/// less than 100 between its extreme pixels.
pub open spec fn looks_like_bubble(pixels: Seq<(u32, u32)>) -> bool {
    &&& MIN_BUBBLE_PIXELS <= pixels.len() <= MAX_BUBBLE_PIXELS
    &&& MIN_BUBBLE_SPAN < span(min_x(pixels), max_x(pixels)) < MAX_BUBBLE_SPAN
    &&& MIN_BUBBLE_SPAN < span(min_y(pixels), max_y(pixels)) < MAX_BUBBLE_SPAN
}

impl BubbleRegion {
    /// The pixels of the region, in the order in which they were added.
    pub open(crate) spec fn view(&self) -> Seq<(u32, u32)> {
        self.pixels@
    }

    /// The bounding box is that of the pixels.
    pub open(crate) spec fn wf(&self) -> bool {
        &&& self.min_x == min_x(self.pixels@)
        &&& self.max_x == max_x(self.pixels@)
        &&& self.min_y == min_y(self.pixels@)
        &&& self.max_y == max_y(self.pixels@)
    }

    /// A region without pixels.
    pub fn new() -> (region: BubbleRegion)
        ensures
            region.wf(),
            region@ == Seq::<(u32, u32)>::empty(),
    {
        BubbleRegion { pixels: Vec::new(), min_x: 0xffff_ffff, max_x: 0, min_y: 0xffff_ffff, max_y: 0 }
    }

    /// Adds a pixel to the region.
    pub fn add_pixel(&mut self, x: u32, y: u32)
        requires
            old(self).wf(),
        ensures
            final(self).wf(),
            final(self)@ == old(self)@.push((x, y)),
    {
        let ghost before = self.pixels@;
        self.pixels.push((x, y));
        proof {
            assert(self.pixels@.drop_last() =~= before);
        }
        if x < self.min_x {
            self.min_x = x;
        }
        if x > self.max_x {
            self.max_x = x;
        }
        if y < self.min_y {
            self.min_y = y;
        }
        if y > self.max_y {
            self.max_y = y;
        }
    }

    /// The number of pixels.
    pub fn pixel_count(&self) -> (n: usize)
        ensures
            n == self@.len(),
    {
        self.pixels.len()
    }

    /// Whether the region looks like a bubble by its size.
    pub fn is_likely_bubble(&self) -> (r: bool)
        requires
            self.wf(),
        ensures
            r == looks_like_bubble(self@),
    {
        let width: u32 = if self.max_x >= self.min_x {
            self.max_x - self.min_x
        } else {
            0
        };
        let height: u32 = if self.max_y >= self.min_y {
            self.max_y - self.min_y
        } else {
            0
        };
        let area: usize = self.pixels.len();
        area >= MIN_BUBBLE_PIXELS && area <= MAX_BUBBLE_PIXELS && width > MIN_BUBBLE_SPAN && height
            > MIN_BUBBLE_SPAN && width < MAX_BUBBLE_SPAN && height < MAX_BUBBLE_SPAN
    }

    /// The bounding box as `(left, top, right, bottom)`, the last two
    /// exclusive. The greatest coordinates must be below `u32::MAX`.
    pub fn get_bounds(&self) -> (bounds: (u32, u32, u32, u32))
        requires
            self.wf(),
            max_x(self@) < u32::MAX,
            max_y(self@) < u32::MAX,
        ensures
            bounds == (min_x(self@), min_y(self@), (max_x(self@) + 1) as u32, (max_y(self@) + 1) as u32),
    {
        (self.min_x, self.min_y, self.max_x + 1, self.max_y + 1)
    }

    /// A copy of the region.
    pub fn duplicate(&self) -> (copy: BubbleRegion)
        ensures
            copy@ == self@,
            self.wf() ==> copy.wf(),
    {
        let mut pixels: Vec<(u32, u32)> = Vec::new();
        let mut i: usize = 0;
        while i < self.pixels.len()
            invariant
                i <= self.pixels@.len(),
                pixels@ == self.pixels@.take(i as int),
            decreases self.pixels.len() - i,
        {
            pixels.push(self.pixels[i]);
            assert(pixels@ =~= self.pixels@.take(i as int + 1));
            i += 1;
        }
        assert(pixels@ =~= self.pixels@);
        BubbleRegion {
            pixels,
            min_x: self.min_x,
            max_x: self.max_x,
            min_y: self.min_y,
            max_y: self.max_y,
        }
    }
}

/// The pixels of the regions of a list.
pub open spec fn region_views(regions: Seq<BubbleRegion>) -> Seq<Seq<(u32, u32)>> {
    Seq::new(regions.len(), |k: int| regions[k]@)
}

/// The labels other than zero among the first `n` entries of `labels`,
/// each once, in the order in which they first occur.
pub open spec fn first_labels(labels: Seq<u32>, n: int) -> Seq<u32>
    decreases n,
{
    if n <= 0 {
        Seq::empty()
    } else {
        let earlier = first_labels(labels, n - 1);
        let label = labels[n - 1];
        if label != 0 && !earlier.contains(label) {
            earlier.push(label)
        } else {
            earlier
        }
    }
}

/// The places among the first `n` of a row-major map of width `width`
/// that carry `label`, in order.
pub open spec fn labelled_pixels(labels: Seq<u32>, width: int, label: u32, n: int) -> Seq<(u32, u32)>
    decreases n,
{
    if n <= 0 {
        Seq::empty()
    } else if labels[n - 1] == label {
        labelled_pixels(labels, width, label, n - 1).push(
            (((n - 1) % width) as u32, ((n - 1) / width) as u32),
        )
    } else {
        labelled_pixels(labels, width, label, n - 1)
    }
}

/// The pixels of each labelled region among the first `n` places of a
/// label map, the regions in the order in which their labels first occur.
pub open spec fn labelled_regions(labels: Seq<u32>, width: int, n: int) -> Seq<Seq<(u32, u32)>> {
    Seq::new(
        first_labels(labels, n).len(),
        |k: int| labelled_pixels(labels, width, first_labels(labels, n)[k], n),
    )
}

/// The regions of a list that look like bubbles, in order.
pub open spec fn likely_bubbles(regions: Seq<Seq<(u32, u32)>>) -> Seq<Seq<(u32, u32)>>
    decreases regions.len(),
{
    if regions.len() == 0 {
        Seq::empty()
    } else if looks_like_bubble(regions.last()) {
        likely_bubbles(regions.drop_last()).push(regions.last())
    } else {
        likely_bubbles(regions.drop_last())
    }
}

/// No label occurs twice among the first labels, none is zero, and each
/// occurs in the map.
pub proof fn lemma_first_labels(labels: Seq<u32>, n: int)
    requires
        0 <= n <= labels.len(),
    ensures
        first_labels(labels, n).no_duplicates(),
        forall|k: int|
            0 <= k < first_labels(labels, n).len() ==> #[trigger] first_labels(labels, n)[k] != 0,
        forall|i: int|
            0 <= i < n && labels[i] != 0 ==> first_labels(labels, n).contains(#[trigger] labels[i]),
        first_labels(labels, n).len() <= n,
    decreases n,
{
    if n > 0 {
        lemma_first_labels(labels, n - 1);
        let earlier = first_labels(labels, n - 1);
        let now = first_labels(labels, n);
        let label = labels[n - 1];
        assert forall|i: int| 0 <= i < n && labels[i] != 0 implies now.contains(
            #[trigger] labels[i],
        ) by {
            if i < n - 1 {
                let k = choose|k: int| 0 <= k < earlier.len() && earlier[k] == labels[i];
                assert(now[k] == labels[i]);
            } else if earlier.contains(label) {
                let k = choose|k: int| 0 <= k < earlier.len() && earlier[k] == label;
                assert(now[k] == label);
            } else {
                assert(now[earlier.len() as int] == label);
            }
        }
    }
}

/// Gathers the pixels of each labelled region of a label map, whose
/// entries stand row by row for the pixels of an image `width` wide, zero
/// marking the background. The regions come in the order in which their
/// labels first occur, the pixels of each in scan order.
pub fn collect_regions(labels: &Vec<u32>, width: u32, height: u32) -> (regions: Vec<BubbleRegion>)
    requires
        labels@.len() == width * height,
    ensures
        region_views(regions@) == labelled_regions(labels@, width as int, labels@.len() as int),
        forall|k: int| 0 <= k < regions@.len() ==> (#[trigger] regions@[k]).wf(),
{
    let mut regions: Vec<BubbleRegion> = Vec::new();
    let mut keys: Vec<u32> = Vec::new();
    let ghost map = labels@;
    let ghost w = width as int;
    let mut i: usize = 0;
    let mut x: u32 = 0;
    let mut y: u32 = 0;
    assert(region_views(regions@) =~= labelled_regions(map, w, 0));
    while i < labels.len()
        invariant
            map == labels@,
            w == width,
            map.len() == width * height,
            i <= map.len(),
            i < map.len() ==> x < width && y < height && i == y * width + x,
            keys@ == first_labels(map, i as int),
            regions@.len() == keys@.len(),
            region_views(regions@) == labelled_regions(map, w, i as int),
            forall|k: int| 0 <= k < regions@.len() ==> (#[trigger] regions@[k]).wf(),
        decreases labels.len() - i,
    {
        let label: u32 = labels[i];
        let ghost earlier = keys@;
        let ghost before = region_views(regions@);
        proof {
            lemma_index_join(x as int, y as int, w);
            lemma_first_labels(map, i as int);
        }
        if label != 0 {
            let guess: usize = (label - 1) as usize;
            let mut position: usize = if guess < keys.len() && keys[guess] == label {
                guess
            } else {
                let mut k: usize = 0;
                while k < keys.len() && keys[k] != label
                    invariant
                        k <= keys@.len(),
                        forall|j: int| 0 <= j < k ==> keys@[j] != label,
                    decreases keys@.len() - k,
                {
                    k += 1;
                }
                k
            };
            if position == keys.len() {
                assert(!earlier.contains(label));
                keys.push(label);
                regions.push(BubbleRegion::new());
            } else {
                assert(earlier.contains(label));
            }
            let ghost grown = regions@;
            regions[position].add_pixel(x, y);
            proof {
                let now = first_labels(map, i as int + 1);
                assert(keys@ == now);
                lemma_first_labels(map, i as int + 1);
                assert(now[position as int] == label);
                assert forall|k: int| 0 <= k < regions@.len() implies (#[trigger] region_views(
                    regions@,
                )[k]) == labelled_regions(map, w, i as int + 1)[k] by {
                    if k == position {
                        if position < earlier.len() {
                            assert(before[k] == labelled_pixels(map, w, label, i as int));
                        } else {
                            lemma_unseen_label(map, w, label, i as int);
                        }
                    } else {
                        assert(now[k] != label);
                        assert(regions@[k] == grown[k]);
                        if k < earlier.len() {
                            assert(before[k] == labelled_pixels(map, w, earlier[k], i as int));
                            assert(now[k] == earlier[k]);
                        }
                    }
                }
                assert(region_views(regions@) =~= labelled_regions(map, w, i as int + 1));
            }
        } else {
            proof {
                assert forall|k: int| 0 <= k < regions@.len() implies (#[trigger] region_views(
                    regions@,
                )[k]) == labelled_regions(map, w, i as int + 1)[k] by {
                    assert(before[k] == labelled_pixels(map, w, earlier[k], i as int));
                    assert(earlier[k] != 0);
                }
                assert(region_views(regions@) =~= labelled_regions(map, w, i as int + 1));
            }
        }
        i += 1;
        proof {
            if i < map.len() {
                lemma_next_place(x as int, y as int, w, height as int, i as int);
            }
        }
        if x + 1 < width {
            x += 1;
        } else if y + 1 < height {
            x = 0;
            y += 1;
        }
    }
    regions
}

/// A label that has not occurred marks no pixel yet.
proof fn lemma_unseen_label(labels: Seq<u32>, width: int, label: u32, n: int)
    requires
        0 <= n <= labels.len(),
        label != 0,
        !first_labels(labels, n).contains(label),
    ensures
        labelled_pixels(labels, width, label, n) == Seq::<(u32, u32)>::empty(),
    decreases n,
{
    if n > 0 {
        lemma_first_labels(labels, n);
        let earlier = first_labels(labels, n - 1);
        if earlier.contains(label) {
            let k = choose|k: int| 0 <= k < earlier.len() && earlier[k] == label;
            assert(first_labels(labels, n)[k] == label);
        }
        assert(labels[n - 1] != label);
        lemma_unseen_label(labels, width, label, n - 1);
    }
}

/// The place after `(x, y)` in scan order.
proof fn lemma_next_place(x: int, y: int, w: int, h: int, next: int)
    requires
        0 <= x < w,
        0 <= y < h,
        next == y * w + x + 1,
        next < w * h,
    ensures
        x + 1 < w ==> next == y * w + (x + 1),
        x + 1 >= w ==> y + 1 < h && next == (y + 1) * w + 0,
{
    if x + 1 >= w {
        assert(y * w + w == (y + 1) * w) by (nonlinear_arith);
        if y + 1 >= h {
            assert((y + 1) * w >= h * w) by (nonlinear_arith)
                requires
                    y + 1 >= h,
                    w >= 0,
            ;
            assert(h * w == w * h) by (nonlinear_arith);
        }
    }
}


/// The label that the `imageproc` crate gives each pixel of a `width` by
/// `height` image when it numbers the 8-connected regions of equal pixels
/// other than zero, zero standing for the background.
pub uninterp spec fn component_labels(width: u32, height: u32, pixels: Seq<u8>) -> Seq<u32>;

/// Calls `imageproc::region_labelling::connected_components` with
/// 8-connectivity and the background 0. The contract names the labels it
/// returns and claims that there is one for each pixel: the function
/// builds its result with the dimensions of its argument. It refuses
/// images of `2^32` pixels or more, which `GrayImage` cannot hold. It
/// numbers labels from 1 and keeps them in a forest of one slot for each
/// pixel, so it also fails on an image in which every pixel opens a label
/// of its own. That cannot happen in an image of two or more pixels that
/// are all 0 or 255: a pixel that is not background and comes after
/// another that is not background in its row, or under one in a single
/// column, takes its neighbour's label.
#[verifier::external_body]
pub(crate) fn label_components(binary: &GrayImage) -> (labels: Vec<u32>)
    requires
        binary.wf(),
        binary@.len() >= 2,
        forall|i: int| 0 <= i < binary@.len() ==> binary@[i] == 0 || binary@[i] == 255,
    ensures
        labels@ == component_labels(binary.spec_width(), binary.spec_height(), binary@),
        labels@.len() == binary@.len(),
{
    let buffer = image::GrayImage::from_raw(binary.width, binary.height, binary.data.clone()).unwrap();
    imageproc::region_labelling::connected_components(
        &buffer,
        imageproc::region_labelling::Connectivity::Eight,
        image::Luma([0u8]),
    ).into_raw()
}

/// The left or top edge of a bounding box inside the image, and the right
/// or bottom edge (exclusive) inside the image.
pub open spec fn box_end(high: u32, extent: u32) -> int {
    if high + 1 <= extent {
        high + 1
    } else {
        extent as int
    }
}

/// The confidence that the region with the pixels `pixels` is marked: that
/// of the part of its bounding box that lies inside the image, and zero
/// when no part does.
pub open spec fn region_confidence(image: &GrayImage, pixels: Seq<(u32, u32)>) -> MarkConfidence {
    let start_x = min_x(pixels) as int;
    let start_y = min_y(pixels) as int;
    let end_x = box_end(max_x(pixels), image.spec_width());
    let end_y = box_end(max_y(pixels), image.spec_height());
    if start_x >= end_x || start_y >= end_y {
        MarkConfidence { numerator: 0, denominator: 1 }
    } else {
        mark_confidence(image.window(start_x, start_y, end_x - start_x, end_y - start_y))
    }
}

/// The label of the field made up for the region at position `index`.
pub open spec fn auto_field_label(index: nat) -> Seq<char> {
    "Auto_Field_"@ + decimal(index)
}

/// The responses for the first `n` of `regions`: one for each region whose
/// confidence exceeds 0.5, labelled by the region's position and carrying
/// the confidence in millionths, rounded up and so above 500000.
pub open spec fn auto_responses(image: &GrayImage, regions: Seq<Seq<(u32, u32)>>, n: int) -> Seq<
    BubbleResponseView,
>
    decreases n,
{
    if n <= 0 {
        Seq::empty()
    } else {
        let earlier = auto_responses(image, regions, n - 1);
        let confidence = region_confidence(image, regions[n - 1]);
        if confidence.spec_is_marked() {
            earlier.push(
                BubbleResponseView {
                    field_label: auto_field_label((n - 1) as nat),
                    detected_values: seq!["MARKED"@],
                    confidence: confidence.spec_millionths(),
                    is_multi_marked: false,
                },
            )
        } else {
            earlier
        }
    }
}

/// `regions` are the regions that look like bubbles among the labelled
/// regions of the binary image that the Otsu threshold makes of `image`.
/// An image of fewer than two pixels is too small to hold a region of a
/// bubble's size, and has none.
pub open spec fn are_bubble_regions(image: &GrayImage, regions: Seq<BubbleRegion>) -> bool {
    if image@.len() < 2 {
        regions.len() == 0
    } else {
        &&& forall|k: int| 0 <= k < regions.len() ==> (#[trigger] regions[k]).wf()
        &&& exists|t: u8, binary: Seq<u8>|
            {
                &&& #[trigger] is_binary_of(image, t, binary)
                &&& region_views(regions) == likely_bubbles(
                    labelled_regions(
                        component_labels(image.spec_width(), image.spec_height(), binary),
                        image.spec_width() as int,
                        binary.len() as int,
                    ),
                )
            }
    }
}

/// `binary` holds the pixels of `image` under its Otsu threshold `t`.
pub open spec fn is_binary_of(image: &GrayImage, t: u8, binary: Seq<u8>) -> bool {
    &&& is_otsu_threshold(histogram_of(image@), t as int)
    &&& binary.len() == image@.len()
    &&& forall|i: int| 0 <= i < image@.len() ==> #[trigger] binary[i] == thresholded(image@[i], t)
}

impl BubbleDetector {
    /// The regions of `all` that look like bubbles, in order.
    pub fn keep_likely_bubbles(&self, all: &Vec<BubbleRegion>) -> (kept: Vec<BubbleRegion>)
        requires
            forall|k: int| 0 <= k < all@.len() ==> (#[trigger] all@[k]).wf(),
        ensures
            region_views(kept@) == likely_bubbles(region_views(all@)),
            forall|k: int| 0 <= k < kept@.len() ==> (#[trigger] kept@[k]).wf(),
    {
        let mut kept: Vec<BubbleRegion> = Vec::new();
        let ghost views = region_views(all@);
        let mut i: usize = 0;
        assert(views.take(0) =~= Seq::empty());
        assert(region_views(kept@) =~= likely_bubbles(views.take(0)));
        while i < all.len()
            invariant
                i <= all@.len(),
                views == region_views(all@),
                forall|k: int| 0 <= k < all@.len() ==> (#[trigger] all@[k]).wf(),
                region_views(kept@) == likely_bubbles(views.take(i as int)),
                forall|k: int| 0 <= k < kept@.len() ==> (#[trigger] kept@[k]).wf(),
            decreases all.len() - i,
        {
            let ghost before = region_views(kept@);
            proof {
                assert(views.take(i as int + 1).drop_last() =~= views.take(i as int));
                assert(views.take(i as int + 1).last() == all@[i as int]@);
            }
            if all[i].is_likely_bubble() {
                kept.push(all[i].duplicate());
                proof {
                    assert(region_views(kept@) =~= before.push(all@[i as int]@));
                }
            } else {
                proof {
                    assert(region_views(kept@) =~= before);
                }
            }
            i += 1;
        }
        assert(views.take(i as int) =~= views);
        kept
    }

    /// The regions of an image that look like bubbles: the image is
    /// binarized at its Otsu threshold, its 8-connected regions are
    /// labelled, and those of a bubble's size are kept. An image of fewer
    /// than two pixels has none.
    pub fn find_bubble_regions(&self, image: &GrayImage) -> (regions: Vec<BubbleRegion>)
        requires
            image.wf(),
        ensures
            are_bubble_regions(image, regions@),
            forall|k: int| 0 <= k < regions@.len() ==> (#[trigger] regions@[k]).wf(),
    {
        if image.pixel_count() < 2 {
            return Vec::new();
        }
        let threshold: u8 = self.calculate_otsu_threshold(image);
        let binary: GrayImage = ImageProcessor::apply_threshold(image, threshold);
        let labels: Vec<u32> = label_components(&binary);
        proof {
            binary.lemma_wf();
            image.lemma_wf();
        }
        let all: Vec<BubbleRegion> = collect_regions(&labels, binary.width(), binary.height());
        let regions: Vec<BubbleRegion> = self.keep_likely_bubbles(&all);
        proof {
            assert(is_binary_of(image, threshold, binary@));
        }
        regions
    }

    /// The confidence that a region found without a template is marked:
    /// that of the pixels of its bounding box.
    pub fn calculate_bubble_confidence(&self, image: &GrayImage, region: &BubbleRegion) -> (confidence:
        MarkConfidence)
        requires
            image.wf(),
            region.wf(),
        ensures
            confidence == region_confidence(image, region@),
            confidence.wf(),
    {
        let start_x: u32 = region.min_x;
        let start_y: u32 = region.min_y;
        let end_x: u32 = if region.max_x < image.width() {
            region.max_x + 1
        } else {
            image.width()
        };
        let end_y: u32 = if region.max_y < image.height() {
            region.max_y + 1
        } else {
            image.height()
        };
        if start_x >= end_x || start_y >= end_y {
            return MarkConfidence { numerator: 0, denominator: 1 };
        }
        let extracted: GrayImage = image.crop(start_x, start_y, end_x - start_x, end_y - start_y);
        self.analyze_bubble_marking(&extracted)
    }

    /// One response for each of `regions` whose confidence exceeds 0.5,
    /// labelled `Auto_Field_` and the region's position, with the single
    /// value `MARKED`.
    pub fn responses_for_regions(&self, image: &GrayImage, regions: &Vec<BubbleRegion>) -> (responses:
        Vec<BubbleResponse>)
        requires
            image.wf(),
            forall|k: int| 0 <= k < regions@.len() ==> (#[trigger] regions@[k]).wf(),
        ensures
            crate::response_views(responses@) == auto_responses(
                image,
                region_views(regions@),
                regions@.len() as int,
            ),
            forall|i: int|
                0 <= i < responses@.len() ==> 500_000 < (#[trigger] responses@[i]).confidence
                    <= 1_000_000,
    {
        let mut responses: Vec<BubbleResponse> = Vec::new();
        let ghost views = region_views(regions@);
        let mut idx: usize = 0;
        assert(crate::response_views(responses@) =~= auto_responses(image, views, 0));
        while idx < regions.len()
            invariant
                image.wf(),
                forall|k: int| 0 <= k < regions@.len() ==> (#[trigger] regions@[k]).wf(),
                views == region_views(regions@),
                idx <= regions@.len(),
                crate::response_views(responses@) == auto_responses(image, views, idx as int),
                forall|i: int|
                    0 <= i < responses@.len() ==> 500_000 < (#[trigger] responses@[i]).confidence
                        <= 1_000_000,
            decreases regions.len() - idx,
        {
            let confidence: MarkConfidence = self.calculate_bubble_confidence(image, &regions[idx]);
            let ghost before = crate::response_views(responses@);
            proof {
                assert(views[idx as int] == regions@[idx as int]@);
            }
            if confidence.is_marked() {
                proof {
                    lemma_millionths_exceed(confidence, 500_000);
                }
                let mut field_label: String = String::from_str("Auto_Field_");
                field_label.append(decimal_text(idx).as_str());
                let mut detected_values: Vec<String> = Vec::new();
                detected_values.push(String::from_str("MARKED"));
                assert(detected_values.deep_view() =~= seq!["MARKED"@]);
                let response = BubbleResponse {
                    field_label,
                    detected_values,
                    confidence: confidence.millionths(),
                    is_multi_marked: false,
                };
                responses.push(response);
                proof {
                    assert(crate::response_views(responses@) =~= before.push(response@));
                }
            } else {
                proof {
                    assert(crate::response_views(responses@) =~= before);
                }
            }
            idx += 1;
        }
        responses
    }

    /// Finds what is marked on a sheet without a template: the regions that
    /// look like bubbles, and a response for each that is dark enough.
    pub fn detect_bubbles_auto(&self, image: &GrayImage) -> (responses: Vec<BubbleResponse>)
        requires
            image.wf(),
        ensures
            exists|regions: Seq<BubbleRegion>|
                #![trigger are_bubble_regions(image, regions)]
                are_bubble_regions(image, regions) && crate::response_views(responses@)
                    == auto_responses(image, region_views(regions), regions.len() as int),
            forall|i: int|
                0 <= i < responses@.len() ==> 500_000 < (#[trigger] responses@[i]).confidence
                    <= 1_000_000,
    {
        let bubble_regions: Vec<BubbleRegion> = self.find_bubble_regions(image);
        let responses: Vec<BubbleResponse> = self.responses_for_regions(image, &bubble_regions);
        assert(are_bubble_regions(image, bubble_regions@));
        responses
    }
}


/// The pixels below a threshold sum to less than the threshold each, the
/// others to at least the threshold each.
pub proof fn lemma_class_means(h: Seq<usize>, t: int, u: int)
    requires
        0 <= t <= u,
    ensures
        hist_mass(h, t) <= (t - 1) * hist_weight(h, t) || t == 0,
        hist_mass(h, u) - hist_mass(h, t) >= t * (hist_weight(h, u) - hist_weight(h, t)),
    decreases u,
{
    if t < u {
        lemma_class_means(h, t, u - 1);
        let c = h[u - 1] as int;
        assert((u - 1) * c >= t * c) by (nonlinear_arith)
            requires
                u - 1 >= t,
                c >= 0,
        ;
        assert(t * (hist_weight(h, u - 1) - hist_weight(h, t)) + t * c == t * (hist_weight(h, u)
            - hist_weight(h, t))) by (nonlinear_arith)
            requires
                hist_weight(h, u) == hist_weight(h, u - 1) + c,
        ;
    } else {
        assert(t * (hist_weight(h, u) - hist_weight(h, t)) == 0) by (nonlinear_arith)
            requires
                hist_weight(h, u) == hist_weight(h, t),
        ;
        if t > 0 {
            lemma_class_means(h, t - 1, t - 1);
            let c = h[t - 1] as int;
            lemma_hist_monotone(h, 0, t - 1);
            if t > 1 {
                assert(hist_mass(h, t - 1) <= (t - 2) * hist_weight(h, t - 1));
            }
            assert(hist_mass(h, t - 1) <= (t - 1) * hist_weight(h, t - 1)) by (nonlinear_arith)
                requires
                    t > 1 ==> hist_mass(h, t - 1) <= (t - 2) * hist_weight(h, t - 1),
                    t == 1 ==> hist_mass(h, t - 1) == 0,
                    hist_weight(h, t - 1) >= 0,
                    t >= 1,
            ;
            assert((t - 1) * hist_weight(h, t - 1) + (t - 1) * c == (t - 1) * hist_weight(h, t))
                by (nonlinear_arith)
                requires
                    hist_weight(h, t) == hist_weight(h, t - 1) + c,
            ;
        }
    }
}

/// Whenever a threshold leaves pixels on both sides, the variance between
/// the two sides is positive.
pub proof fn lemma_split_separates(h: Seq<usize>, t: int)
    requires
        h.len() == 256,
        0 <= t <= 256,
        hist_weight(h, 256) <= MAX_PIXELS,
        hist_weight(h, t) > 0,
        hist_weight(h, 256) - hist_weight(h, t) > 0,
    ensures
        class_stats(h, t).spec_separates(),
        class_stats(h, t).sum0 < t * class_stats(h, t).weight0,
        class_stats(h, t).sum1 >= t * class_stats(h, t).weight1,
{
    lemma_class_stats(h, t);
    lemma_class_means(h, t, 256);
    let stats = class_stats(h, t);
    let w0 = stats.weight0 as int;
    let w1 = stats.weight1 as int;
    let s0 = stats.sum0 as int;
    let s1 = stats.sum1 as int;
    assert(t > 0);
    assert(s0 < t * w0) by (nonlinear_arith)
        requires
            s0 <= (t - 1) * w0,
            w0 > 0,
    ;
    assert(s0 * w1 < s1 * w0) by (nonlinear_arith)
        requires
            s0 <= (t - 1) * w0,
            s1 >= t * w1,
            w0 > 0,
            w1 > 0,
            s0 >= 0,
    {
        assert(s0 * w1 <= ((t - 1) * w0) * w1);
        assert(s1 * w0 >= (t * w1) * w0);
        assert(((t - 1) * w0) * w1 < (t * w1) * w0) by (nonlinear_arith)
            requires
                w0 > 0,
                w1 > 0,
        ;
    }
    let c = stats.contrast();
    assert(c * c > 0) by (nonlinear_arith)
        requires
            c < 0,
    ;
}

/// The Otsu threshold of pixels of at least two intensities splits them:
/// pixels lie on both sides of it, the mean of those below it is less than
/// the threshold, and the mean of the others is at least the threshold.
pub proof fn lemma_otsu_lies_between_class_means(h: Seq<usize>, a: int, b: int, t: int)
    requires
        h.len() == 256,
        hist_weight(h, 256) <= MAX_PIXELS,
        0 <= a < b < 256,
        h[a] > 0,
        h[b] > 0,
        is_otsu_threshold(h, t),
    ensures
        class_stats(h, t).weight0 > 0,
        class_stats(h, t).weight1 > 0,
        class_stats(h, t).sum0 < t * class_stats(h, t).weight0,
        class_stats(h, t).sum1 >= t * class_stats(h, t).weight1,
{
    lemma_hist_monotone(h, 0, a);
    lemma_hist_monotone(h, a + 1, b);
    lemma_hist_monotone(h, b + 1, 256);
    assert(hist_weight(h, a + 1) == hist_weight(h, a) + h[a]);
    assert(hist_weight(h, b + 1) == hist_weight(h, b) + h[b]);
    lemma_split_separates(h, a + 1);
    assert(class_stats(h, t).spec_separates());
    lemma_class_stats(h, t);
    lemma_split_separates(h, t);
}

/// The histogram counts pixels of two intensities only, `a` below `b`.
pub open spec fn is_two_level(h: Seq<usize>, a: int, b: int) -> bool {
    &&& h.len() == 256
    &&& 0 <= a < b < 256
    &&& h[a] > 0
    &&& h[b] > 0
    &&& forall|v: int| 0 <= v < 256 && v != a && v != b ==> #[trigger] h[v] == 0
}

/// The weight and the mass below a threshold when two intensities occur.
proof fn lemma_two_level_classes(h: Seq<usize>, a: int, b: int, t: int)
    requires
        is_two_level(h, a, b),
        0 <= t <= 256,
    ensures
        hist_weight(h, t) == (if t > a {
            h[a] as int
        } else {
            0
        }) + (if t > b {
            h[b] as int
        } else {
            0
        }),
        hist_mass(h, t) == (if t > a {
            a * h[a]
        } else {
            0
        }) + (if t > b {
            b * h[b]
        } else {
            0
        }),
    decreases t,
{
    if t > 0 {
        lemma_two_level_classes(h, a, b, t - 1);
        if t - 1 != a && t - 1 != b {
            assert(h[t - 1] == 0);
            assert((t - 1) * h[t - 1] == 0) by (nonlinear_arith)
                requires
                    h[t - 1] == 0,
            ;
        }
    }
}

/// The Otsu threshold of pixels of two intensities is the first threshold
/// above the lower intensity: it lies above the lower and not above the
/// higher, and so strictly between the two wherever they are more than
/// one apart.
pub proof fn lemma_otsu_separates_two_levels(h: Seq<usize>, a: int, b: int, t: int)
    requires
        is_two_level(h, a, b),
        hist_weight(h, 256) <= MAX_PIXELS,
        is_otsu_threshold(h, t),
    ensures
        t == a + 1,
        a < t <= b,
        b > a + 1 ==> a < t < b,
{
    let ca = h[a] as int;
    let cb = h[b] as int;
    lemma_two_level_classes(h, a, b, 256);
    lemma_two_level_classes(h, a, b, a + 1);
    lemma_two_level_classes(h, a, b, t);
    lemma_class_stats(h, a + 1);
    lemma_class_stats(h, t);
    let first = class_stats(h, a + 1);
    assert(first.contrast() == (a - b) * (ca * cb)) by (nonlinear_arith)
        requires
            first.contrast() == (a * ca) * cb - (b * cb) * ca,
    ;
    assert(ca * cb > 0) by (nonlinear_arith)
        requires
            ca > 0,
            cb > 0,
    ;
    let c = first.contrast();
    assert(c != 0) by (nonlinear_arith)
        requires
            c == (a - b) * (ca * cb),
            a < b,
            ca * cb > 0,
    ;
    assert(c * c > 0) by (nonlinear_arith)
        requires
            c != 0,
    ;
    assert(first.spec_separates());
    let chosen = class_stats(h, t);
    assert(chosen.spec_separates());
    assert(a < t <= b);
    assert(chosen == first);
    if t > a + 1 {
        assert(chosen.spec_separates_better(&first));
    }
}

/// The histogram of pixels that are all `a` or `b`, with both present, is
/// two-level.
pub proof fn lemma_two_tone_histogram(s: Seq<u8>, a: u8, b: u8)
    requires
        a < b,
        s.len() <= MAX_PIXELS,
        forall|i: int| 0 <= i < s.len() ==> s[i] == a || s[i] == b,
        exists|i: int| 0 <= i < s.len() && s[i] == a,
        exists|i: int| 0 <= i < s.len() && s[i] == b,
    ensures
        is_two_level(histogram_of(s), a as int, b as int),
        hist_weight(histogram_of(s), 256) <= MAX_PIXELS,
{
    let h = histogram_of(s);
    let i = choose|i: int| 0 <= i < s.len() && s[i] == a;
    let j = choose|j: int| 0 <= j < s.len() && s[j] == b;
    lemma_count_present(s, a as int, i);
    lemma_count_present(s, b as int, j);
    assert forall|v: int| 0 <= v < 256 && v != a && v != b implies #[trigger] h[v] == 0 by {
        lemma_count_absent(s, v);
    }
    assert forall|v: int| 0 <= v < 256 implies #[trigger] h[v] == count_equal(s, v) by {
        lemma_count_step(s, v);
    }
    lemma_hist_weight(h, s, 256);
}

/// The Otsu threshold of an image of two tones is the first threshold
/// above the darker tone.
pub proof fn lemma_otsu_of_two_tones(s: Seq<u8>, a: u8, b: u8, t: int)
    requires
        a < b,
        s.len() <= MAX_PIXELS,
        forall|i: int| 0 <= i < s.len() ==> s[i] == a || s[i] == b,
        exists|i: int| 0 <= i < s.len() && s[i] == a,
        exists|i: int| 0 <= i < s.len() && s[i] == b,
        is_otsu_threshold(histogram_of(s), t),
    ensures
        t == a + 1,
        b > a + 1 ==> a < t < b,
{
    lemma_two_tone_histogram(s, a, b);
    lemma_otsu_separates_two_levels(histogram_of(s), a as int, b as int, t);
}

/// An intensity that occurs is counted.
proof fn lemma_count_present(s: Seq<u8>, v: int, i: int)
    requires
        0 <= i < s.len(),
        s[i] == v,
    ensures
        count_equal(s, v) > 0,
    decreases s.len(),
{
    if i < s.len() - 1 {
        lemma_count_present(s.drop_last(), v, i);
    }
}

/// An intensity that does not occur is not counted.
proof fn lemma_count_absent(s: Seq<u8>, v: int)
    requires
        forall|i: int| 0 <= i < s.len() ==> s[i] != v,
    ensures
        count_equal(s, v) == 0,
    decreases s.len(),
{
    if s.len() > 0 {
        lemma_count_absent(s.drop_last(), v);
    }
}

/// Two selected bubbles give two detected values.
pub proof fn lemma_two_selected(
    confidences: Seq<MarkConfidence>,
    bubbles: Seq<BubbleLocation>,
    n: int,
    i: int,
    j: int,
)
    requires
        0 <= i < j < n,
        confidences[i].spec_is_selected(),
        confidences[j].spec_is_selected(),
    ensures
        selected_values(confidences, bubbles, n).len() >= 2,
    decreases n,
{
    lemma_selected_count(confidences, bubbles, j, i);
    lemma_selected_grows(confidences, bubbles, j + 1, n);
}

/// A selected bubble gives a detected value.
proof fn lemma_selected_count(confidences: Seq<MarkConfidence>, bubbles: Seq<BubbleLocation>, n: int, i: int)
    requires
        0 <= i < n,
        confidences[i].spec_is_selected(),
    ensures
        selected_values(confidences, bubbles, n).len() >= 1,
    decreases n,
{
    if i < n - 1 {
        lemma_selected_count(confidences, bubbles, n - 1, i);
    }
}

/// More bubbles give no fewer detected values.
proof fn lemma_selected_grows(confidences: Seq<MarkConfidence>, bubbles: Seq<BubbleLocation>, m: int, n: int)
    requires
        0 <= m <= n,
    ensures
        selected_values(confidences, bubbles, m).len() <= selected_values(
            confidences,
            bubbles,
            n,
        ).len(),
    decreases n,
{
    if m < n {
        lemma_selected_grows(confidences, bubbles, m, n - 1);
    }
}

} // verus!
