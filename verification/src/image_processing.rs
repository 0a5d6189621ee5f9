//! Normalisation, thresholding, morphology and filtering of grayscale
//! images.

use crate::histogram::{
    count_below, is_histogram_of, lemma_count_ends, lemma_count_step, window_histogram,
};
use crate::labels::same_text;
use crate::raster::{
    lemma_index_in_range, lemma_index_join, lemma_window_area, GrayImage, MAX_PIXELS,
};
use crate::template::OmrTemplate;
use vstd::prelude::*;

verus! {

/// The image operations of the pipeline.
pub struct ImageProcessor;

/// What a pixel becomes under a threshold: 0 below it, 255 from it on.
pub open spec fn thresholded(value: u8, threshold: u8) -> u8 {
    if value < threshold {
        0
    } else {
        255
    }
}

/// The least pixel of `s`, and 255 when `s` is empty.
pub open spec fn min_pixel(s: Seq<u8>) -> int
    decreases s.len(),
{
    if s.len() == 0 {
        255
    } else if s.last() < min_pixel(s.drop_last()) {
        s.last() as int
    } else {
        min_pixel(s.drop_last())
    }
}

/// The greatest pixel of `s`, and 0 when `s` is empty.
pub open spec fn max_pixel(s: Seq<u8>) -> int
    decreases s.len(),
{
    if s.len() == 0 {
        0
    } else if s.last() > max_pixel(s.drop_last()) {
        s.last() as int
    } else {
        max_pixel(s.drop_last())
    }
}

/// Every pixel lies between the least and the greatest.
pub proof fn lemma_min_max(s: Seq<u8>, i: int)
    requires
        0 <= i < s.len(),
    ensures
        0 <= min_pixel(s) <= s[i] <= max_pixel(s) <= 255,
    decreases s.len(),
{
    lemma_min_max_range(s);
    lemma_min_max_range(s.drop_last());
    if i < s.len() - 1 {
        lemma_min_max(s.drop_last(), i);
    }
}

/// The least and the greatest pixel are pixels.
pub proof fn lemma_min_max_range(s: Seq<u8>)
    ensures
        0 <= min_pixel(s) <= 255,
        0 <= max_pixel(s) <= 255,
    decreases s.len(),
{
    if s.len() > 0 {
        lemma_min_max_range(s.drop_last());
    }
}

/// What a pixel becomes when the range `[low, high]` is stretched to
/// `[0, 255]`, rounded down; unchanged when the range is a single value.
pub open spec fn stretched(value: u8, low: int, high: int) -> int {
    if high > low {
        (value - low) * 255 / (high - low)
    } else {
        value as int
    }
}

/// A stretched pixel is a pixel.
pub proof fn lemma_stretched_range(value: u8, low: int, high: int)
    requires
        0 <= low <= value <= high <= 255,
    ensures
        0 <= stretched(value, low, high) <= 255,
{
    if high > low {
        assert(0 <= (value - low) * 255 / (high - low) <= 255) by (nonlinear_arith)
            requires
                0 <= value - low <= high - low,
                high - low > 0,
        ;
    }
}

impl ImageProcessor {
    /// The binary image of `img` under `threshold`: 0 where the pixel is
    /// below it, 255 elsewhere.
    pub fn apply_threshold(img: &GrayImage, threshold: u8) -> (out: GrayImage)
        requires
            img.wf(),
        ensures
            out.wf(),
            out.spec_width() == img.spec_width(),
            out.spec_height() == img.spec_height(),
            forall|i: int|
                0 <= i < img@.len() ==> #[trigger] out@[i] == thresholded(img@[i], threshold),
    {
        let n: usize = img.pixel_count();
        let mut data: Vec<u8> = Vec::new();
        let mut i: usize = 0;
        while i < n
            invariant
                n == img@.len(),
                i <= n,
                data@.len() == i,
                forall|k: int| 0 <= k < i ==> #[trigger] data@[k] == thresholded(img@[k], threshold),
            decreases n - i,
        {
            let value: u8 = img.get(i);
            data.push(if value < threshold { 0 } else { 255 });
            i += 1;
        }
        GrayImage { width: img.width, height: img.height, data }
    }

    /// Replaces every pixel by its entry in `gamma_table`, a table of 256
    /// entries.
    pub fn apply_gamma_correction(img: &GrayImage, gamma_table: &Vec<u8>) -> (out: GrayImage)
        requires
            img.wf(),
            gamma_table@.len() == 256,
        ensures
            out.wf(),
            out.spec_width() == img.spec_width(),
            out.spec_height() == img.spec_height(),
            forall|i: int| 0 <= i < img@.len() ==> #[trigger] out@[i] == gamma_table@[img@[i] as int],
    {
        let n: usize = img.pixel_count();
        let mut data: Vec<u8> = Vec::new();
        let mut i: usize = 0;
        while i < n
            invariant
                n == img@.len(),
                gamma_table@.len() == 256,
                i <= n,
                data@.len() == i,
                forall|k: int| 0 <= k < i ==> #[trigger] data@[k] == gamma_table@[img@[k] as int],
            decreases n - i,
        {
            data.push(gamma_table[img.get(i) as usize]);
            i += 1;
        }
        GrayImage { width: img.width, height: img.height, data }
    }

    /// Stretches the intensities of `img` so that its least pixel becomes 0
    /// and its greatest 255; an image of a single intensity is left as it
    /// is.
    pub fn normalize_image(img: &GrayImage) -> (out: GrayImage)
        requires
            img.wf(),
        ensures
            out.wf(),
            out.spec_width() == img.spec_width(),
            out.spec_height() == img.spec_height(),
            forall|i: int|
                0 <= i < img@.len() ==> #[trigger] out@[i] == stretched(
                    img@[i],
                    min_pixel(img@),
                    max_pixel(img@),
                ),
    {
        let n: usize = img.pixel_count();
        let mut min_val: u8 = 255;
        let mut max_val: u8 = 0;
        let mut i: usize = 0;
        assert(img@.take(0) =~= Seq::<u8>::empty());
        while i < n
            invariant
                n == img@.len(),
                i <= n,
                min_val == min_pixel(img@.take(i as int)),
                max_val == max_pixel(img@.take(i as int)),
            decreases n - i,
        {
            let value: u8 = img.get(i);
            proof {
                assert(img@.take(i as int + 1).drop_last() =~= img@.take(i as int));
                assert(img@.take(i as int + 1).last() == value);
            }
            if value < min_val {
                min_val = value;
            }
            if value > max_val {
                max_val = value;
            }
            i += 1;
        }
        assert(img@.take(n as int) =~= img@);
        let mut data: Vec<u8> = Vec::new();
        let mut k: usize = 0;
        while k < n
            invariant
                n == img@.len(),
                k <= n,
                min_val == min_pixel(img@),
                max_val == max_pixel(img@),
                data@.len() == k,
                forall|j: int|
                    0 <= j < k ==> #[trigger] data@[j] == stretched(
                        img@[j],
                        min_val as int,
                        max_val as int,
                    ),
            decreases n - k,
        {
            let value: u8 = img.get(k);
            proof {
                lemma_min_max(img@, k as int);
                lemma_stretched_range(value, min_val as int, max_val as int);
            }
            if max_val > min_val {
                let range: u32 = (max_val - min_val) as u32;
                let scaled: u32 = (value - min_val) as u32 * 255 / range;
                data.push(scaled as u8);
            } else {
                data.push(value);
            }
            k += 1;
        }
        GrayImage { width: img.width, height: img.height, data }
    }

    /// Prepares a resized, grayscale, blurred image for detection: stretches
    /// its intensities, then maps them through `gamma_table`.
    pub fn preprocess_image(blurred: &GrayImage, gamma_table: &Vec<u8>) -> (out: GrayImage)
        requires
            blurred.wf(),
            gamma_table@.len() == 256,
        ensures
            out.wf(),
            out.spec_width() == blurred.spec_width(),
            out.spec_height() == blurred.spec_height(),
            forall|i: int|
                0 <= i < blurred@.len() ==> #[trigger] out@[i] == gamma_table@[stretched(
                    blurred@[i],
                    min_pixel(blurred@),
                    max_pixel(blurred@),
                )],
    {
        let normalized: GrayImage = ImageProcessor::normalize_image(blurred);
        let out: GrayImage = ImageProcessor::apply_gamma_correction(&normalized, gamma_table);
        proof {
            assert forall|i: int| 0 <= i < blurred@.len() implies #[trigger] out@[i]
                == gamma_table@[stretched(blurred@[i], min_pixel(blurred@), max_pixel(blurred@))] by {
                assert(normalized@[i] == stretched(
                    blurred@[i],
                    min_pixel(blurred@),
                    max_pixel(blurred@),
                ));
                assert(out@[i] == gamma_table@[normalized@[i] as int]);
            }
        }
        out
    }
}


/// The first row or column of the neighbourhood of radius `radius` around
/// coordinate `c`, cut off at the image's edge.
pub open spec fn low_edge(c: int, radius: int) -> int {
    if c >= radius {
        c - radius
    } else {
        0
    }
}

/// The last row or column of the neighbourhood of radius `radius` around
/// coordinate `c`, cut off at the image's edge.
pub open spec fn high_edge(c: int, radius: int, extent: int) -> int {
    if c + radius <= extent - 1 {
        c + radius
    } else {
        extent - 1
    }
}

/// `(i, j)` is a pixel of the image no further than `radius` from `(x, y)`
/// in either direction.
pub open spec fn in_neighbourhood(img: &GrayImage, x: int, y: int, radius: int, i: int, j: int) -> bool {
    &&& low_edge(x, radius) <= i <= high_edge(x, radius, img.spec_width() as int)
    &&& low_edge(y, radius) <= j <= high_edge(y, radius, img.spec_height() as int)
}

/// `v` is the least pixel of the neighbourhood of `(x, y)`.
pub open spec fn is_neighbourhood_min(img: &GrayImage, x: int, y: int, radius: int, v: u8) -> bool {
    &&& forall|i: int, j: int|
        in_neighbourhood(img, x, y, radius, i, j) ==> v <= #[trigger] img.at(i, j)
    &&& exists|i: int, j: int|
        in_neighbourhood(img, x, y, radius, i, j) && #[trigger] img.at(i, j) == v
}

/// `v` is the greatest pixel of the neighbourhood of `(x, y)`.
pub open spec fn is_neighbourhood_max(img: &GrayImage, x: int, y: int, radius: int, v: u8) -> bool {
    &&& forall|i: int, j: int|
        in_neighbourhood(img, x, y, radius, i, j) ==> v >= #[trigger] img.at(i, j)
    &&& exists|i: int, j: int|
        in_neighbourhood(img, x, y, radius, i, j) && #[trigger] img.at(i, j) == v
}

/// `out` is `img` eroded: each pixel the least of its neighbourhood.
pub open spec fn is_eroded(img: &GrayImage, out: &GrayImage, radius: int) -> bool {
    &&& out.wf()
    &&& out.spec_width() == img.spec_width()
    &&& out.spec_height() == img.spec_height()
    &&& forall|x: int, y: int|
        img.in_bounds(x, y) ==> is_neighbourhood_min(img, x, y, radius, #[trigger] out.at(x, y))
}

/// `out` is `img` dilated: each pixel the greatest of its neighbourhood.
pub open spec fn is_dilated(img: &GrayImage, out: &GrayImage, radius: int) -> bool {
    &&& out.wf()
    &&& out.spec_width() == img.spec_width()
    &&& out.spec_height() == img.spec_height()
    &&& forall|x: int, y: int|
        img.in_bounds(x, y) ==> is_neighbourhood_max(img, x, y, radius, #[trigger] out.at(x, y))
}

/// The least (`darkest`) or greatest pixel of the neighbourhood of `(x, y)`.
fn neighbourhood_extreme(img: &GrayImage, x: u32, y: u32, radius: u32, darkest: bool) -> (v: u8)
    requires
        img.wf(),
        img.in_bounds(x as int, y as int),
    ensures
        darkest ==> is_neighbourhood_min(img, x as int, y as int, radius as int, v),
        !darkest ==> is_neighbourhood_max(img, x as int, y as int, radius as int, v),
{
    let width: u32 = img.width();
    let height: u32 = img.height();
    let x0: u32 = if x >= radius {
        x - radius
    } else {
        0
    };
    let y0: u32 = if y >= radius {
        y - radius
    } else {
        0
    };
    let x1: u32 = if x as u64 + radius as u64 <= (width - 1) as u64 {
        x + radius
    } else {
        width - 1
    };
    let y1: u32 = if y as u64 + radius as u64 <= (height - 1) as u64 {
        y + radius
    } else {
        height - 1
    };
    let mut best: u8 = img.get_pixel(x, y);
    let ghost mut wi: int = x as int;
    let ghost mut wj: int = y as int;
    let mut ky: u32 = y0;
    while ky <= y1
        invariant
            img.wf(),
            width == img.spec_width(),
            height == img.spec_height(),
            img.in_bounds(x as int, y as int),
            x0 == low_edge(x as int, radius as int),
            y0 == low_edge(y as int, radius as int),
            x1 == high_edge(x as int, radius as int, width as int),
            y1 == high_edge(y as int, radius as int, height as int),
            y0 <= ky <= y1 + 1,
            in_neighbourhood(img, x as int, y as int, radius as int, wi, wj),
            img.at(wi, wj) == best,
            forall|i: int, j: int|
                x0 <= i <= x1 && y0 <= j < ky ==> (if darkest {
                    best <= #[trigger] img.at(i, j)
                } else {
                    best >= img.at(i, j)
                }),
        decreases y1 + 1 - ky,
    {
        let mut kx: u32 = x0;
        while kx <= x1
            invariant
                img.wf(),
                width == img.spec_width(),
                height == img.spec_height(),
                img.in_bounds(x as int, y as int),
                x0 == low_edge(x as int, radius as int),
                y0 == low_edge(y as int, radius as int),
                x1 == high_edge(x as int, radius as int, width as int),
                y1 == high_edge(y as int, radius as int, height as int),
                y0 <= ky <= y1,
                x0 <= kx <= x1 + 1,
                in_neighbourhood(img, x as int, y as int, radius as int, wi, wj),
                img.at(wi, wj) == best,
                forall|i: int, j: int|
                    x0 <= i <= x1 && y0 <= j < ky ==> (if darkest {
                        best <= #[trigger] img.at(i, j)
                    } else {
                        best >= img.at(i, j)
                    }),
                forall|i: int|
                    x0 <= i < kx ==> (if darkest {
                        best <= #[trigger] img.at(i, ky as int)
                    } else {
                        best >= img.at(i, ky as int)
                    }),
            decreases x1 + 1 - kx,
        {
            let value: u8 = img.get_pixel(kx, ky);
            if (darkest && value < best) || (!darkest && value > best) {
                best = value;
                proof {
                    wi = kx as int;
                    wj = ky as int;
                }
            }
            kx += 1;
        }
        ky += 1;
    }
    best
}

impl ImageProcessor {
    /// Erodes `img` with a square of side `kernel_size`: each pixel becomes
    /// the least of its neighbourhood of radius `kernel_size / 2`.
    pub fn morphological_erode(img: &GrayImage, kernel_size: u32) -> (out: GrayImage)
        requires
            img.wf(),
        ensures
            is_eroded(img, &out, (kernel_size / 2) as int),
    {
        ImageProcessor::morphological_pass(img, kernel_size / 2, true)
    }

    /// Dilates `img` with a square of side `kernel_size`: each pixel becomes
    /// the greatest of its neighbourhood of radius `kernel_size / 2`.
    pub fn morphological_dilate(img: &GrayImage, kernel_size: u32) -> (out: GrayImage)
        requires
            img.wf(),
        ensures
            is_dilated(img, &out, (kernel_size / 2) as int),
    {
        ImageProcessor::morphological_pass(img, kernel_size / 2, false)
    }

    /// Replaces each pixel by the least (`darkest`) or the greatest of its
    /// neighbourhood.
    fn morphological_pass(img: &GrayImage, radius: u32, darkest: bool) -> (out: GrayImage)
        requires
            img.wf(),
        ensures
            darkest ==> is_eroded(img, &out, radius as int),
            !darkest ==> is_dilated(img, &out, radius as int),
    {
        let width: u32 = img.width();
        let height: u32 = img.height();
        let mut data: Vec<u8> = Vec::new();
        let mut y: u32 = 0;
        while y < height
            invariant
                img.wf(),
                width == img.spec_width(),
                height == img.spec_height(),
                y <= height,
                data@.len() == y * width,
                forall|k: int|
                    0 <= k < data@.len() ==> (if darkest {
                        is_neighbourhood_min(
                            img,
                            k % (width as int),
                            k / (width as int),
                            radius as int,
                            #[trigger] data@[k],
                        )
                    } else {
                        is_neighbourhood_max(
                            img,
                            k % (width as int),
                            k / (width as int),
                            radius as int,
                            data@[k],
                        )
                    }),
            decreases height - y,
        {
            let mut x: u32 = 0;
            while x < width
                invariant
                    img.wf(),
                    width == img.spec_width(),
                    height == img.spec_height(),
                    y < height,
                    x <= width,
                    data@.len() == y * width + x,
                    forall|k: int|
                        0 <= k < data@.len() ==> (if darkest {
                            is_neighbourhood_min(
                                img,
                                k % (width as int),
                                k / (width as int),
                                radius as int,
                                #[trigger] data@[k],
                            )
                        } else {
                            is_neighbourhood_max(
                                img,
                                k % (width as int),
                                k / (width as int),
                                radius as int,
                                data@[k],
                            )
                        }),
                decreases width - x,
            {
                proof {
                    lemma_index_join(x as int, y as int, width as int);
                }
                let value: u8 = neighbourhood_extreme(img, x, y, radius, darkest);
                data.push(value);
                x += 1;
            }
            proof {
                assert(y * width + width == (y + 1) * width) by (nonlinear_arith);
            }
            y += 1;
        }
        proof {
            assert(height * width == width * height) by (nonlinear_arith);
        }
        let out = GrayImage { width, height, data };
        proof {
            assert forall|x: int, y: int| img.in_bounds(x, y) implies (if darkest {
                is_neighbourhood_min(img, x, y, radius as int, #[trigger] out.at(x, y))
            } else {
                is_neighbourhood_max(img, x, y, radius as int, out.at(x, y))
            }) by {
                lemma_index_join(x, y, width as int);
                lemma_index_in_range(x, y, width as int, height as int);
            }
        }
        out
    }
}

/// The morphological operations.
pub enum MorphologyKind {
    Erode,
    Dilate,
    /// Erosion, then dilation.
    Open,
    /// Dilation, then erosion.
    Close,
    /// Any other name: the image is left as it is.
    Identity,
}

/// The operation that a name stands for.
pub open spec fn morphology_kind(operation: Seq<char>) -> MorphologyKind {
    if operation == "erode"@ {
        MorphologyKind::Erode
    } else if operation == "dilate"@ {
        MorphologyKind::Dilate
    } else if operation == "open"@ {
        MorphologyKind::Open
    } else if operation == "close"@ {
        MorphologyKind::Close
    } else {
        MorphologyKind::Identity
    }
}

/// `out` is what a morphological operation with a three by three square
/// makes of `img`.
pub open spec fn is_morphology_result(img: &GrayImage, kind: MorphologyKind, out: &GrayImage) -> bool {
    match kind {
        MorphologyKind::Erode => is_eroded(img, out, 1),
        MorphologyKind::Dilate => is_dilated(img, out, 1),
        MorphologyKind::Open => exists|mid: GrayImage|
            #[trigger] is_eroded(img, &mid, 1) && is_dilated(&mid, out, 1),
        MorphologyKind::Close => exists|mid: GrayImage|
            #[trigger] is_dilated(img, &mid, 1) && is_eroded(&mid, out, 1),
        MorphologyKind::Identity => out.wf() && out.same_as(img),
    }
}

impl ImageProcessor {
    /// Applies the morphological operation named `operation` ("erode",
    /// "dilate", "open" or "close") with a three by three square; under any
    /// other name the image is copied.
    pub fn apply_morphology(img: &GrayImage, operation: &str) -> (out: GrayImage)
        requires
            img.wf(),
        ensures
            is_morphology_result(img, morphology_kind(operation@), &out),
    {
        if same_text(operation, "erode") {
            ImageProcessor::morphological_erode(img, 3)
        } else if same_text(operation, "dilate") {
            ImageProcessor::morphological_dilate(img, 3)
        } else if same_text(operation, "open") {
            let eroded: GrayImage = ImageProcessor::morphological_erode(img, 3);
            ImageProcessor::morphological_dilate(&eroded, 3)
        } else if same_text(operation, "close") {
            let dilated: GrayImage = ImageProcessor::morphological_dilate(img, 3);
            ImageProcessor::morphological_erode(&dilated, 3)
        } else {
            img.duplicate()
        }
    }
}


/// The pixels of the neighbourhood of radius `radius` around `(x, y)`, row
/// by row.
pub open spec fn neighbourhood(img: &GrayImage, x: int, y: int, radius: int) -> Seq<u8> {
    let x0 = low_edge(x, radius);
    let y0 = low_edge(y, radius);
    img.window(
        x0,
        y0,
        high_edge(x, radius, img.spec_width() as int) - x0 + 1,
        high_edge(y, radius, img.spec_height() as int) - y0 + 1,
    )
}

/// `v` is the median of `s`: the pixel at position `s.len() / 2` when `s`
/// is sorted. At most that many pixels are below it, and more than that
/// many are below or equal.
pub open spec fn is_median(s: Seq<u8>, v: int) -> bool {
    count_below(s, v) <= s.len() / 2 < count_below(s, v + 1)
}

/// The median of the pixels counted in `hist`.
fn median_of(hist: &Vec<usize>, count: usize, Ghost(s): Ghost<Seq<u8>>) -> (v: u8)
    requires
        is_histogram_of(hist@, s),
        s.len() == count,
        0 < count <= MAX_PIXELS,
    ensures
        is_median(s, v as int),
{
    let rank: usize = count / 2;
    let mut below: usize = 0;
    let mut v: usize = 0;
    proof {
        lemma_count_ends(s);
    }
    loop
        invariant
            is_histogram_of(hist@, s),
            s.len() == count,
            0 < count <= MAX_PIXELS,
            rank == count / 2,
            rank < count,
            v < 256,
            below == count_below(s, v as int),
            below <= rank,
        decreases 256 - v,
    {
        proof {
            lemma_count_step(s, v as int);
            lemma_count_step(s, v as int + 1);
        }
        let upto: usize = below + hist[v];
        if upto > rank {
            return v as u8;
        }
        proof {
            if v == 255 {
                lemma_count_ends(s);
            }
        }
        below = upto;
        v += 1;
    }
}

impl ImageProcessor {
    /// Replaces each pixel by the median of its neighbourhood of radius
    /// `radius`.
    pub fn apply_median_filter(img: &GrayImage, radius: u32) -> (out: GrayImage)
        requires
            img.wf(),
        ensures
            out.wf(),
            out.spec_width() == img.spec_width(),
            out.spec_height() == img.spec_height(),
            forall|x: int, y: int|
                img.in_bounds(x, y) ==> is_median(
                    neighbourhood(img, x, y, radius as int),
                    #[trigger] out.at(x, y) as int,
                ),
    {
        let width: u32 = img.width();
        let height: u32 = img.height();
        let mut data: Vec<u8> = Vec::new();
        let mut y: u32 = 0;
        while y < height
            invariant
                img.wf(),
                width == img.spec_width(),
                height == img.spec_height(),
                y <= height,
                data@.len() == y * width,
                forall|k: int|
                    0 <= k < data@.len() ==> is_median(
                        neighbourhood(img, k % (width as int), k / (width as int), radius as int),
                        #[trigger] data@[k] as int,
                    ),
            decreases height - y,
        {
            let mut x: u32 = 0;
            while x < width
                invariant
                    img.wf(),
                    width == img.spec_width(),
                    height == img.spec_height(),
                    y < height,
                    x <= width,
                    data@.len() == y * width + x,
                    forall|k: int|
                        0 <= k < data@.len() ==> is_median(
                            neighbourhood(
                                img,
                                k % (width as int),
                                k / (width as int),
                                radius as int,
                            ),
                            #[trigger] data@[k] as int,
                        ),
                decreases width - x,
            {
                let x0: u32 = if x >= radius {
                    x - radius
                } else {
                    0
                };
                let y0: u32 = if y >= radius {
                    y - radius
                } else {
                    0
                };
                let x1: u32 = if x as u64 + radius as u64 <= (width - 1) as u64 {
                    x + radius
                } else {
                    width - 1
                };
                let y1: u32 = if y as u64 + radius as u64 <= (height - 1) as u64 {
                    y + radius
                } else {
                    height - 1
                };
                let w: u32 = x1 - x0 + 1;
                let h: u32 = y1 - y0 + 1;
                proof {
                    lemma_index_join(x as int, y as int, width as int);
                    lemma_window_area(w as int, h as int, width as int, height as int);
                    img.lemma_wf();
                    assert(0 < w * h) by (nonlinear_arith)
                        requires
                            w > 0,
                            h > 0,
                    ;
                }
                let hist: Vec<usize> = window_histogram(img, x0, y0, w, h);
                let ghost s = img.window(x0 as int, y0 as int, w as int, h as int);
                let count: usize = (w as usize) * (h as usize);
                let value: u8 = median_of(&hist, count, Ghost(s));
                data.push(value);
                x += 1;
            }
            proof {
                assert(y * width + width == (y + 1) * width) by (nonlinear_arith);
            }
            y += 1;
        }
        proof {
            assert(height * width == width * height) by (nonlinear_arith);
        }
        let out = GrayImage { width, height, data };
        proof {
            assert forall|x: int, y: int| img.in_bounds(x, y) implies is_median(
                neighbourhood(img, x, y, radius as int),
                #[trigger] out.at(x, y) as int,
            ) by {
                lemma_index_join(x, y, width as int);
                lemma_index_in_range(x, y, width as int, height as int);
            }
        }
        out
    }
}


/// The side of the square tiles that are equalized one by one.
pub const TILE_SIZE: u32 = 8;

/// What a pixel of intensity `value` becomes when the histogram of `tile`
/// is equalized: the share of the tile's pixels that are no brighter,
/// stretched to `[0, 255]` and rounded down.
pub open spec fn equalized(tile: Seq<u8>, value: u8) -> int {
    (count_below(tile, value + 1) as int) * 255 / (tile.len() as int)
}

/// An equalized pixel is a pixel.
pub proof fn lemma_equalized_range(tile: Seq<u8>, value: u8)
    requires
        tile.len() > 0,
    ensures
        0 <= equalized(tile, value) <= 255,
{
    lemma_count_step(tile, value as int + 1);
    let c = count_below(tile, value + 1) as int;
    let n = tile.len() as int;
    assert(0 <= c * 255 / n <= 255) by (nonlinear_arith)
        requires
            0 <= c <= n,
            n > 0,
    ;
}

/// The lesser of a bound and an extent.
pub open spec fn clipped(bound: u32, extent: u32) -> int {
    if bound <= extent {
        bound as int
    } else {
        extent as int
    }
}

/// The pixel at `(x, y)` after the part of the region from
/// `(start_x, start_y)` to `(end_x, end_y)` (exclusive) that lies inside
/// the image has been equalized.
pub open spec fn region_equalized(
    img: &GrayImage,
    start_x: u32,
    start_y: u32,
    end_x: u32,
    end_y: u32,
    x: int,
    y: int,
) -> int {
    let cx = clipped(end_x, img.spec_width());
    let cy = clipped(end_y, img.spec_height());
    if start_x <= x < cx && start_y <= y < cy {
        equalized(
            img.window(start_x as int, start_y as int, cx - start_x, cy - start_y),
            img.at(x, y),
        )
    } else {
        img.at(x, y) as int
    }
}

impl ImageProcessor {
    /// Equalizes the histogram of the part of the region from
    /// `(start_x, start_y)` to `(end_x, end_y)` (exclusive) that lies inside
    /// the image, and leaves the other pixels as they are.
    pub fn apply_histogram_equalization_to_region(
        img: &mut GrayImage,
        start_x: u32,
        start_y: u32,
        end_x: u32,
        end_y: u32,
    )
        requires
            old(img).wf(),
        ensures
            final(img).wf(),
            final(img).spec_width() == old(img).spec_width(),
            final(img).spec_height() == old(img).spec_height(),
            forall|x: int, y: int|
                old(img).in_bounds(x, y) ==> #[trigger] final(img).at(x, y) == region_equalized(
                    old(img),
                    start_x,
                    start_y,
                    end_x,
                    end_y,
                    x,
                    y,
                ),
    {
        let ghost initial = *img;
        let width: u32 = img.width;
        let height: u32 = img.height;
        let cx: u32 = if end_x <= width {
            end_x
        } else {
            width
        };
        let cy: u32 = if end_y <= height {
            end_y
        } else {
            height
        };
        if start_x >= cx || start_y >= cy {
            return ;
        }
        let rw: u32 = cx - start_x;
        let rh: u32 = cy - start_y;
        let ghost tile = initial.window(start_x as int, start_y as int, rw as int, rh as int);
        proof {
            lemma_window_area(rw as int, rh as int, width as int, height as int);
            assert(0 < rw * rh) by (nonlinear_arith)
                requires
                    rw > 0,
                    rh > 0,
            ;
        }
        let hist: Vec<usize> = window_histogram(img, start_x, start_y, rw, rh);
        let count: usize = (rw as usize) * (rh as usize);
        let mut cdf: Vec<u8> = Vec::new();
        let mut running: usize = 0;
        let mut v: usize = 0;
        proof {
            lemma_count_ends(tile);
        }
        while v < 256
            invariant
                is_histogram_of(hist@, tile),
                tile.len() == count,
                0 < count <= MAX_PIXELS,
                v <= 256,
                running == count_below(tile, v as int),
                cdf@.len() == v,
                forall|b: int| 0 <= b < v ==> #[trigger] cdf@[b] == equalized(tile, b as u8),
            decreases 256 - v,
        {
            proof {
                lemma_count_step(tile, v as int);
                lemma_count_step(tile, v as int + 1);
                lemma_equalized_range(tile, v as u8);
            }
            running = running + hist[v];
            cdf.push((running * 255 / count) as u8);
            v += 1;
        }
        let mut y: u32 = start_y;
        while y < cy
            invariant
                initial.wf(),
                img.width == initial.width,
                img.height == initial.height,
                img.data@.len() == initial.data@.len(),
                width == initial.width,
                height == initial.height,
                start_x < cx <= width,
                start_y <= y <= cy <= height,
                cdf@.len() == 256,
                forall|b: int| 0 <= b < 256 ==> #[trigger] cdf@[b] == equalized(tile, b as u8),
                tile.len() > 0,
                forall|k: int|
                    0 <= k < img.data@.len() ==> (#[trigger] img.data@[k]) as int == (if start_x
                        <= k % (width as int) < cx && start_y <= k / (width as int) < y {
                        equalized(tile, initial.data@[k])
                    } else {
                        initial.data@[k] as int
                    }),
            decreases cy - y,
        {
            let mut x: u32 = start_x;
            while x < cx
                invariant
                    initial.wf(),
                    img.width == initial.width,
                    img.height == initial.height,
                    img.data@.len() == initial.data@.len(),
                    width == initial.width,
                    height == initial.height,
                    start_x <= x <= cx <= width,
                    start_y <= y < cy <= height,
                    cdf@.len() == 256,
                    forall|b: int| 0 <= b < 256 ==> #[trigger] cdf@[b] == equalized(tile, b as u8),
                    tile.len() > 0,
                    forall|k: int|
                        0 <= k < img.data@.len() ==> (#[trigger] img.data@[k]) as int == (
                        if start_x <= k % (width as int) < cx && (start_y <= k / (width as int) < y
                            || (k / (width as int) == y && k % (width as int) < x)) {
                            equalized(tile, initial.data@[k])
                        } else {
                            initial.data@[k] as int
                        }),
                decreases cx - x,
            {
                proof {
                    lemma_index_join(x as int, y as int, width as int);
                    lemma_index_in_range(x as int, y as int, width as int, height as int);
                }
                let idx: usize = (y as usize) * (width as usize) + (x as usize);
                let old_val: u8 = img.data[idx];
                let new_val: u8 = cdf[old_val as usize];
                let ghost before = img.data@;
                img.data.set(idx, new_val);
                proof {
                    assert(old_val == initial.data@[idx as int]);
                    lemma_equalized_range(tile, old_val);
                    assert forall|k: int| 0 <= k < img.data@.len() implies (
                    #[trigger] img.data@[k]) as int == (if start_x <= k % (width as int) < cx && (
                    start_y <= k / (width as int) < y || (k / (width as int) == y && k % (
                    width as int) < x + 1)) {
                        equalized(tile, initial.data@[k])
                    } else {
                        initial.data@[k] as int
                    }) by {
                        crate::raster::lemma_index_split(k, width as int);
                        if k != idx {
                            assert(img.data@[k] == before[k]);
                        }
                    }
                }
                x += 1;
            }
            y += 1;
        }
        proof {
            assert forall|x: int, y: int| initial.in_bounds(x, y) implies #[trigger] img.at(x, y)
                == region_equalized(&initial, start_x, start_y, end_x, end_y, x, y) by {
                lemma_index_join(x, y, width as int);
                lemma_index_in_range(x, y, width as int, height as int);
                assert(img.at(x, y) == img.data@[y * width + x]);
            }
        }
    }
}

/// The first row or column of the tile that coordinate `c` falls in.
pub open spec fn tile_origin(c: int) -> int {
    (c / (TILE_SIZE as int)) * TILE_SIZE
}

/// The number of rows or columns of the tile that starts at `origin`, cut
/// off at the image's edge.
pub open spec fn tile_extent(origin: int, extent: int) -> int {
    if origin + TILE_SIZE <= extent {
        TILE_SIZE as int
    } else {
        extent - origin
    }
}

/// The pixel at `(x, y)` after the histogram of its tile has been equalized.
pub open spec fn tile_equalized(img: &GrayImage, x: int, y: int) -> int {
    equalized(
        img.window(
            tile_origin(x),
            tile_origin(y),
            tile_extent(tile_origin(x), img.spec_width() as int),
            tile_extent(tile_origin(y), img.spec_height() as int),
        ),
        img.at(x, y),
    )
}

/// Two images that agree on a window have the same pixels there.
pub proof fn lemma_windows_agree(a: &GrayImage, b: &GrayImage, x: int, y: int, w: int, h: int)
    requires
        0 <= w,
        0 <= h,
        forall|i: int, j: int|
            x <= i < x + w && y <= j < y + h ==> #[trigger] a.at(i, j) == b.at(i, j),
    ensures
        a.window(x, y, w, h) == b.window(x, y, w, h),
{
    assert forall|k: int| 0 <= k < w * h implies a.window(x, y, w, h)[k] == b.window(
        x,
        y,
        w,
        h,
    )[k] by {
        assert(0 < w) by (nonlinear_arith)
            requires
                0 <= k < w * h,
                0 <= w,
                0 <= h,
        ;
        crate::raster::lemma_index_split(k, w);
        assert(k / w < h) by (nonlinear_arith)
            requires
                0 <= k < w * h,
                w > 0,
                k == (k / w) * w + k % w,
                0 <= k % w,
        ;
        assert(a.at(x + k % w, y + k / w) == b.at(x + k % w, y + k / w));
    }
    assert(a.window(x, y, w, h) =~= b.window(x, y, w, h));
}

/// Whether the tile of `(x, y)` comes before the tile at
/// `(tile_x, tile_y)` when tiles are taken row by row.
pub open spec fn tile_done(x: int, y: int, tile_x: int, tile_y: int) -> bool {
    tile_origin(y) < tile_y || (tile_origin(y) == tile_y && tile_origin(x) < tile_x)
}

/// Equalizing the tile at `(tile_x, tile_y)` of an image whose earlier
/// tiles are equalized leaves the tiles up to and including it equalized.
proof fn lemma_tile_step(
    img: &GrayImage,
    before: &GrayImage,
    after: &GrayImage,
    tile_x: u32,
    tile_y: u32,
    end_x: u32,
    end_y: u32,
)
    requires
        img.wf(),
        before.spec_width() == img.spec_width(),
        before.spec_height() == img.spec_height(),
        tile_x % TILE_SIZE == 0,
        tile_y % TILE_SIZE == 0,
        tile_x < img.spec_width(),
        tile_y < img.spec_height(),
        end_x == tile_x + tile_extent(tile_x as int, img.spec_width() as int),
        end_y == tile_y + tile_extent(tile_y as int, img.spec_height() as int),
        forall|x: int, y: int|
            img.in_bounds(x, y) ==> #[trigger] before.at(x, y) == (if tile_done(
                x,
                y,
                tile_x as int,
                tile_y as int,
            ) {
                tile_equalized(img, x, y)
            } else {
                img.at(x, y) as int
            }),
        forall|x: int, y: int|
            img.in_bounds(x, y) ==> #[trigger] after.at(x, y) == region_equalized(
                before,
                tile_x,
                tile_y,
                end_x,
                end_y,
                x,
                y,
            ),
    ensures
        forall|x: int, y: int|
            img.in_bounds(x, y) ==> #[trigger] after.at(x, y) == (if tile_done(
                x,
                y,
                tile_x + TILE_SIZE,
                tile_y as int,
            ) {
                tile_equalized(img, x, y)
            } else {
                img.at(x, y) as int
            }),
{
    let rw = end_x - tile_x;
    let rh = end_y - tile_y;
    assert forall|i: int, j: int|
        tile_x <= i < tile_x + rw && tile_y <= j < tile_y + rh implies #[trigger] before.at(i, j)
        == img.at(i, j) by {
        assert(img.in_bounds(i, j));
        lemma_in_tile(i, tile_x as int);
        lemma_in_tile(j, tile_y as int);
    }
    lemma_windows_agree(before, img, tile_x as int, tile_y as int, rw, rh);
    assert forall|x: int, y: int| img.in_bounds(x, y) implies #[trigger] after.at(x, y) == (
    if tile_done(x, y, tile_x + TILE_SIZE, tile_y as int) {
        tile_equalized(img, x, y)
    } else {
        img.at(x, y) as int
    }) by {
        lemma_in_tile(x, tile_x as int);
        lemma_in_tile(y, tile_y as int);
        assert(after.at(x, y) == region_equalized(before, tile_x, tile_y, end_x, end_y, x, y));
        assert(clipped(end_x, before.spec_width()) == end_x);
        assert(clipped(end_y, before.spec_height()) == end_y);
        if tile_x <= x < end_x && tile_y <= y < end_y {
            assert(before.at(x, y) == img.at(x, y));
        } else {
            assert(after.at(x, y) == before.at(x, y));
        }
    }
}

/// A coordinate lies in the tile that starts at `origin` exactly when it
/// is one of the `TILE_SIZE` coordinates from `origin` on.
proof fn lemma_in_tile(c: int, origin: int)
    requires
        0 <= c,
        0 <= origin,
        origin % (TILE_SIZE as int) == 0,
    ensures
        (tile_origin(c) == origin) == (origin <= c < origin + TILE_SIZE),
        (tile_origin(c) < origin) == (c < origin),
        (tile_origin(c) < origin + TILE_SIZE) == (c < origin + TILE_SIZE),
        tile_origin(c) <= c < tile_origin(c) + TILE_SIZE,
{
}

impl ImageProcessor {
    /// Equalizes the histogram of each tile of `TILE_SIZE` by `TILE_SIZE`
    /// pixels on its own.
    pub fn apply_clahe(img: &GrayImage) -> (out: GrayImage)
        requires
            img.wf(),
        ensures
            out.wf(),
            out.spec_width() == img.spec_width(),
            out.spec_height() == img.spec_height(),
            forall|x: int, y: int|
                img.in_bounds(x, y) ==> #[trigger] out.at(x, y) == tile_equalized(img, x, y),
    {
        let width: u32 = img.width();
        let height: u32 = img.height();
        let mut result: GrayImage = img.duplicate();
        if width == 0 || height == 0 {
            return result;
        }
        proof {
            img.lemma_sides_bounded();
        }
        let mut tile_y: u32 = 0;
        while tile_y < height
            invariant
                img.wf(),
                result.wf(),
                width == img.spec_width(),
                height == img.spec_height(),
                width <= MAX_PIXELS,
                height <= MAX_PIXELS,
                result.spec_width() == width,
                result.spec_height() == height,
                tile_y % TILE_SIZE == 0,
                tile_y <= height + TILE_SIZE,
                forall|x: int, y: int|
                    img.in_bounds(x, y) ==> #[trigger] result.at(x, y) == (if tile_done(
                        x,
                        y,
                        0,
                        tile_y as int,
                    ) {
                        tile_equalized(img, x, y)
                    } else {
                        img.at(x, y) as int
                    }),
            decreases height + TILE_SIZE - tile_y,
        {
            let end_y: u32 = if tile_y + TILE_SIZE <= height {
                tile_y + TILE_SIZE
            } else {
                height
            };
            let mut tile_x: u32 = 0;
            while tile_x < width
                invariant
                    img.wf(),
                    result.wf(),
                    width == img.spec_width(),
                    height == img.spec_height(),
                    width <= MAX_PIXELS,
                    height <= MAX_PIXELS,
                    result.spec_width() == width,
                    result.spec_height() == height,
                    tile_y % TILE_SIZE == 0,
                    tile_y < height,
                    end_y == tile_y + tile_extent(tile_y as int, height as int),
                    tile_x % TILE_SIZE == 0,
                    tile_x <= width + TILE_SIZE,
                    forall|x: int, y: int|
                        img.in_bounds(x, y) ==> #[trigger] result.at(x, y) == (if tile_done(
                            x,
                            y,
                            tile_x as int,
                            tile_y as int,
                        ) {
                            tile_equalized(img, x, y)
                        } else {
                            img.at(x, y) as int
                        }),
                decreases width + TILE_SIZE - tile_x,
            {
                let end_x: u32 = if tile_x + TILE_SIZE <= width {
                    tile_x + TILE_SIZE
                } else {
                    width
                };
                let ghost before = result;
                ImageProcessor::apply_histogram_equalization_to_region(
                    &mut result,
                    tile_x,
                    tile_y,
                    end_x,
                    end_y,
                );
                proof {
                    lemma_tile_step(img, &before, &result, tile_x, tile_y, end_x, end_y);
                }
                tile_x += TILE_SIZE;
            }
            proof {
                assert forall|x: int, y: int| img.in_bounds(x, y) implies tile_done(
                    x,
                    y,
                    tile_x as int,
                    tile_y as int,
                ) == tile_done(x, y, 0, tile_y + TILE_SIZE) by {
                    lemma_in_tile(x, tile_x as int);
                    lemma_in_tile(y, tile_y as int);
                }
            }
            tile_y += TILE_SIZE;
        }
        proof {
            assert forall|x: int, y: int| img.in_bounds(x, y) implies tile_done(
                x,
                y,
                0,
                tile_y as int,
            ) by {
                lemma_in_tile(y, tile_y as int);
            }
        }
        result
    }
}


/// The gradient magnitude that the Sobel filters of the `imageproc` crate
/// give at each pixel of a `width` by `height` image, row by row.
pub uninterp spec fn sobel_magnitudes(width: u32, height: u32, pixels: Seq<u8>) -> Seq<u16>;

/// Calls `imageproc::gradients::sobel_gradients`. The contract names the
/// magnitudes it returns and claims that there is one for each pixel: the
/// function builds its result with the dimensions of its argument.
#[verifier::external_body]
pub(crate) fn sobel_gradient_magnitudes(img: &GrayImage) -> (magnitudes: Vec<u16>)
    requires
        img.wf(),
    ensures
        magnitudes@ == sobel_magnitudes(img.spec_width(), img.spec_height(), img@),
        magnitudes@.len() == img@.len(),
{
    let buffer = image::GrayImage::from_raw(img.width, img.height, img.data.clone()).unwrap();
    imageproc::gradients::sobel_gradients(&buffer).into_raw()
}

/// What a gradient magnitude becomes in an edge mask: 255 above the
/// threshold, 0 elsewhere.
pub open spec fn edge_value(magnitude: u16, threshold: u32) -> u8 {
    if magnitude > threshold {
        255
    } else {
        0
    }
}

impl ImageProcessor {
    /// The edge mask of an image from the gradient magnitudes of its
    /// pixels: 255 where the magnitude exceeds `threshold`, 0 elsewhere.
    pub fn threshold_magnitudes(img: &GrayImage, magnitudes: &Vec<u16>, threshold: u32) -> (out:
        GrayImage)
        requires
            img.wf(),
            magnitudes@.len() == img@.len(),
        ensures
            out.wf(),
            out.spec_width() == img.spec_width(),
            out.spec_height() == img.spec_height(),
            forall|i: int|
                0 <= i < img@.len() ==> #[trigger] out@[i] == edge_value(magnitudes@[i], threshold),
    {
        let n: usize = magnitudes.len();
        let mut data: Vec<u8> = Vec::new();
        let mut i: usize = 0;
        while i < n
            invariant
                n == magnitudes@.len(),
                i <= n,
                data@.len() == i,
                forall|k: int|
                    0 <= k < i ==> #[trigger] data@[k] == edge_value(magnitudes@[k], threshold),
            decreases n - i,
        {
            data.push(if magnitudes[i] as u32 > threshold { 255 } else { 0 });
            i += 1;
        }
        GrayImage { width: img.width, height: img.height, data }
    }

    /// The edge mask of `img`: 255 where the Sobel gradient magnitude
    /// exceeds `threshold`, 0 elsewhere.
    pub fn detect_edges(img: &GrayImage, threshold: u32) -> (out: GrayImage)
        requires
            img.wf(),
        ensures
            out.wf(),
            out.spec_width() == img.spec_width(),
            out.spec_height() == img.spec_height(),
            forall|i: int|
                0 <= i < img@.len() ==> #[trigger] out@[i] == edge_value(
                    sobel_magnitudes(img.spec_width(), img.spec_height(), img@)[i],
                    threshold,
                ),
    {
        let magnitudes: Vec<u16> = sobel_gradient_magnitudes(img);
        ImageProcessor::threshold_magnitudes(img, &magnitudes, threshold)
    }

    /// Aligns an image to the page layout of a template. Alignment by
    /// matched features is not part of this library: the image is handed
    /// back as it is.
    pub fn auto_align_image(img: GrayImage, template: &OmrTemplate) -> (out: GrayImage)
        ensures
            out == img,
    {
        img
    }
}

} // verus!
