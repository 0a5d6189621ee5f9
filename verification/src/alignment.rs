//! Alignment primitives: gradients, corner scores, contours, page corners
//! and correlation search.

use crate::raster::{
    lemma_index_in_range, lemma_index_join, lemma_window_area, GradientImage, GrayImage, MAX_PIXELS,
};
use crate::wide::product_less;
use vstd::prelude::*;

verus! {

/// The sum of the first `n` pixels of `p`.
pub open spec fn sum_upto(p: Seq<u8>, n: nat) -> int
    decreases n,
{
    if n == 0 {
        0
    } else {
        sum_upto(p, (n - 1) as nat) + p[n - 1]
    }
}

/// The sum of the squares of the first `n` pixels of `p`.
pub open spec fn square_sum_upto(p: Seq<u8>, n: nat) -> int
    decreases n,
{
    if n == 0 {
        0
    } else {
        square_sum_upto(p, (n - 1) as nat) + p[n - 1] * p[n - 1]
    }
}

/// The sum of the products of the first `n` pixels of `p` and `q`, taken
/// position by position.
pub open spec fn product_sum_upto(p: Seq<u8>, q: Seq<u8>, n: nat) -> int
    decreases n,
{
    if n == 0 {
        0
    } else {
        product_sum_upto(p, q, (n - 1) as nat) + p[n - 1] * q[n - 1]
    }
}

/// `n * sum(p*q) - sum(p) * sum(q)` over two patches of `n` pixels: their
/// covariance, times `n * n`.
pub open spec fn covariance_of(p: Seq<u8>, q: Seq<u8>) -> int {
    p.len() * product_sum_upto(p, q, p.len()) - sum_upto(p, p.len()) * sum_upto(q, p.len())
}

/// `n * sum(p*p) - sum(p)^2` over a patch of `n` pixels: its variance, times
/// `n * n`.
pub open spec fn variance_of(p: Seq<u8>) -> int {
    p.len() * square_sum_upto(p, p.len()) - sum_upto(p, p.len()) * sum_upto(p, p.len())
}

/// The statistics from which the normalized cross-correlation of a template
/// patch and an image window is read:
/// `covariance / sqrt(template_variance * window_variance)`, and zero when
/// either variance is not positive.
#[derive(Debug, Clone, Copy)]
pub struct Correlation {
    pub covariance: i128,
    pub template_variance: i128,
    pub window_variance: i128,
}

impl Correlation {
    /// Every statistic is below `2^64` in magnitude.
    pub open spec fn wf(&self) -> bool {
        &&& -0x1_0000_0000_0000_0000 < self.covariance < 0x1_0000_0000_0000_0000
        &&& -0x1_0000_0000_0000_0000 < self.template_variance < 0x1_0000_0000_0000_0000
        &&& -0x1_0000_0000_0000_0000 < self.window_variance < 0x1_0000_0000_0000_0000
    }

    /// The correlation is zero because a patch is flat.
    pub open spec fn is_degenerate(&self) -> bool {
        self.template_variance <= 0 || self.window_variance <= 0
    }

    /// The correlation exceeds 0.8: it is positive, and its square exceeds
    /// 16/25.
    pub open spec fn is_strong(&self) -> bool {
        &&& !self.is_degenerate()
        &&& self.covariance > 0
        &&& 25 * (self.covariance * self.covariance) > 16 * (self.template_variance
            * self.window_variance)
    }

    /// The correlation is exactly one.
    pub open spec fn is_perfect(&self) -> bool {
        &&& !self.is_degenerate()
        &&& self.covariance > 0
        &&& self.covariance * self.covariance == self.template_variance * self.window_variance
    }

    /// Between two positive correlations, `self` is the higher: the squares
    /// are compared, cleared of their denominators.
    pub open spec fn stronger_than(&self, other: &Correlation) -> bool {
        (self.covariance * self.covariance) * (other.template_variance * other.window_variance)
            > (other.covariance * other.covariance) * (self.template_variance
            * self.window_variance)
    }

    /// The statistics of a correlation of zero.
    pub open spec fn spec_zero() -> Correlation {
        Correlation { covariance: 0, template_variance: 0, window_variance: 0 }
    }

    /// The statistics of a correlation of zero.
    #[verifier::when_used_as_spec(spec_zero)]
    pub fn zero() -> (c: Correlation)
        ensures
            c == Correlation::spec_zero(),
            c.wf(),
            !c.is_strong(),
    {
        Correlation { covariance: 0, template_variance: 0, window_variance: 0 }
    }

    /// Whether the correlation exceeds 0.8.
    pub fn exceeds_threshold(&self) -> (r: bool)
        requires
            self.wf(),
        ensures
            r == self.is_strong(),
    {
        if self.template_variance <= 0 || self.window_variance <= 0 || self.covariance <= 0 {
            return false;
        }
        let c: u128 = self.covariance as u128;
        let tv: u128 = self.template_variance as u128;
        let wv: u128 = self.window_variance as u128;
        assert(c * c < 0x1_0000_0000_0000_0000 * 0x1_0000_0000_0000_0000) by (nonlinear_arith)
            requires
                0 <= c < 0x1_0000_0000_0000_0000,
        ;
        assert(tv * wv < 0x1_0000_0000_0000_0000 * 0x1_0000_0000_0000_0000) by (nonlinear_arith)
            requires
                0 <= tv < 0x1_0000_0000_0000_0000,
                0 <= wv < 0x1_0000_0000_0000_0000,
        ;
        product_less(tv * wv, 16, c * c, 25)
    }

    /// Whether `self` is the higher of two correlations that both exceed
    /// 0.8 and were taken against the same template.
    pub(crate) fn exceeds(&self, other: &Correlation) -> (r: bool)
        requires
            self.wf(),
            other.wf(),
            self.is_strong(),
            other.is_strong(),
            self.template_variance == other.template_variance,
        ensures
            r == self.stronger_than(other),
    {
        let a: u128 = self.covariance as u128;
        let b: u128 = other.covariance as u128;
        assert(a * a < 0x1_0000_0000_0000_0000 * 0x1_0000_0000_0000_0000) by (nonlinear_arith)
            requires
                0 <= a < 0x1_0000_0000_0000_0000,
        ;
        assert(b * b < 0x1_0000_0000_0000_0000 * 0x1_0000_0000_0000_0000) by (nonlinear_arith)
            requires
                0 <= b < 0x1_0000_0000_0000_0000,
        ;
        proof {
            lemma_shared_template(
                a * a,
                self.window_variance as int,
                b * b,
                other.window_variance as int,
                self.template_variance as int,
            );
        }
        product_less(b * b, self.window_variance as u64, a * a, other.window_variance as u64)
    }
}

/// With a shared positive factor `t`, comparing `a / (t * wa)` with
/// `b / (t * wb)` is comparing `a * wb` with `b * wa`.
pub proof fn lemma_shared_template(a: int, wa: int, b: int, wb: int, t: int)
    requires
        t > 0,
    ensures
        (a * (t * wb) > b * (t * wa)) == (a * wb > b * wa),
{
    assert(a * (t * wb) == t * (a * wb)) by (nonlinear_arith);
    assert(b * (t * wa) == t * (b * wa)) by (nonlinear_arith);
    assert((t * (a * wb) > t * (b * wa)) == (a * wb > b * wa)) by (nonlinear_arith)
        requires
            t > 0,
    ;
}

/// Bounds of the running sums over a patch.
pub proof fn lemma_sum_bounds(p: Seq<u8>, q: Seq<u8>, n: nat)
    requires
        n <= p.len(),
        n <= q.len(),
    ensures
        0 <= sum_upto(p, n) <= 255 * n,
        0 <= square_sum_upto(p, n) <= 65025 * n,
        0 <= product_sum_upto(p, q, n) <= 65025 * n,
    decreases n,
{
    if n > 0 {
        lemma_sum_bounds(p, q, (n - 1) as nat);
        let a = p[n - 1] as int;
        let b = q[n - 1] as int;
        assert(0 <= a * a <= 65025 && 0 <= a * b <= 65025) by (nonlinear_arith)
            requires
                0 <= a <= 255,
                0 <= b <= 255,
        ;
    }
}

/// The statistics of a template patch against a window of the same size.
pub open spec fn correlation_of(template: Seq<u8>, window: Seq<u8>) -> Correlation {
    Correlation {
        covariance: covariance_of(template, window) as i128,
        template_variance: variance_of(template) as i128,
        window_variance: variance_of(window) as i128,
    }
}

/// A patch correlates perfectly with itself unless it is flat: the three
/// statistics coincide, so the correlation is one where the variance is
/// positive and zero where it is not.
pub proof fn lemma_correlation_identity(p: Seq<u8>)
    requires
        p.len() <= MAX_PIXELS,
    ensures
        covariance_of(p, p) == variance_of(p),
        correlation_of(p, p).covariance == correlation_of(p, p).template_variance,
        correlation_of(p, p).window_variance == correlation_of(p, p).template_variance,
        variance_of(p) > 0 ==> correlation_of(p, p).is_perfect() && correlation_of(
            p,
            p,
        ).is_strong(),
        variance_of(p) <= 0 ==> correlation_of(p, p).is_degenerate(),
{
    lemma_products_are_squares(p, p.len());
    lemma_statistics_fit(p, p);
    let v = variance_of(p);
    if v > 0 {
        assert(25 * (v * v) > 16 * (v * v)) by (nonlinear_arith)
            requires
                v > 0,
        ;
    }
}

/// The square of the difference of two numbers.
pub open spec fn squared_difference(a: int, b: int) -> int {
    (a - b) * (a - b)
}

/// A squared difference is zero between equal numbers and positive between
/// others.
pub proof fn lemma_squared_difference(a: int, b: int)
    ensures
        squared_difference(a, b) >= 0,
        a == b ==> squared_difference(a, b) == 0,
        a != b ==> squared_difference(a, b) > 0,
        squared_difference(a, b) == a * a - 2 * b * a + b * b,
{
    assert((a - b) * (a - b) >= 0 && (a != b ==> (a - b) * (a - b) > 0) && (a == b ==> (a - b) * (a
        - b) == 0) && (a - b) * (a - b) == a * a - 2 * b * a + b * b) by (nonlinear_arith);
}

/// The sum of the squared differences between `x` and each of the first
/// `n` pixels of `p`.
pub open spec fn deviation_sum(p: Seq<u8>, x: int, n: nat) -> int
    decreases n,
{
    if n == 0 {
        0
    } else {
        deviation_sum(p, x, (n - 1) as nat) + squared_difference(p[n - 1] as int, x)
    }
}

/// `n * sum(p*p) - sum(p)^2` over the first `n` pixels of `p`.
pub open spec fn variance_upto(p: Seq<u8>, n: nat) -> int {
    n * square_sum_upto(p, n) - sum_upto(p, n) * sum_upto(p, n)
}

/// A sum of squared differences is not negative, and is
/// `sum(p*p) - 2 * x * sum(p) + n * x * x`.
pub proof fn lemma_deviation_sum(p: Seq<u8>, x: int, n: nat)
    requires
        n <= p.len(),
    ensures
        deviation_sum(p, x, n) >= 0,
        deviation_sum(p, x, n) == square_sum_upto(p, n) - 2 * x * sum_upto(p, n) + n * x * x,
    decreases n,
{
    if n > 0 {
        let last = p[n - 1] as int;
        let before = (n - 1) as nat;
        lemma_deviation_sum(p, x, before);
        lemma_squared_difference(last, x);
        let s1 = sum_upto(p, before);
        let s2 = square_sum_upto(p, before);
        let d = deviation_sum(p, x, before);
        let t = squared_difference(last, x);
        assert(d + t == (s2 + last * last) - 2 * x * (s1 + last) + n * x * x) by (nonlinear_arith)
            requires
                d == s2 - 2 * x * s1 + before * x * x,
                t == last * last - 2 * x * last + x * x,
                before + 1 == n,
        ;
    } else {
        assert(0 - 2 * x * 0 + 0 * x * x == 0) by (nonlinear_arith);
    }
}

/// A sum of squared differences is at least each of its terms.
pub proof fn lemma_deviation_term(p: Seq<u8>, x: int, n: nat, i: int)
    requires
        0 <= i < n <= p.len(),
    ensures
        deviation_sum(p, x, n) >= squared_difference(p[i] as int, x),
    decreases n,
{
    let before = (n - 1) as nat;
    lemma_squared_difference(p[n - 1] as int, x);
    if i < n - 1 {
        lemma_deviation_term(p, x, before, i);
    } else {
        lemma_deviation_sum(p, x, before);
    }
}

/// One more pixel adds to the variance the squared differences between it
/// and the pixels before it.
pub proof fn lemma_variance_step(p: Seq<u8>, n: nat)
    requires
        n < p.len(),
    ensures
        variance_upto(p, n + 1) == variance_upto(p, n) + deviation_sum(p, p[n as int] as int, n),
{
    let x = p[n as int] as int;
    let s1 = sum_upto(p, n);
    let s2 = square_sum_upto(p, n);
    lemma_deviation_sum(p, x, n);
    assert((n + 1) * (s2 + x * x) - (s1 + x) * (s1 + x) == (n * s2 - s1 * s1) + (s2 - 2 * x * s1 + n
        * x * x)) by (nonlinear_arith);
}

/// The variance grows with the number of pixels, from zero.
pub proof fn lemma_variance_grows(p: Seq<u8>, m: nat, n: nat)
    requires
        m <= n <= p.len(),
    ensures
        0 <= variance_upto(p, m) <= variance_upto(p, n),
    decreases n,
{
    if n > 0 {
        let before = (n - 1) as nat;
        lemma_variance_step(p, before);
        lemma_deviation_sum(p, p[before as int] as int, before);
        if m < n {
            lemma_variance_grows(p, m, before);
        } else {
            lemma_variance_grows(p, before, before);
        }
    }
}

/// A patch with two different pixels has a positive variance.
pub proof fn lemma_variance_positive(p: Seq<u8>, i: int, j: int)
    requires
        0 <= i < j < p.len(),
        p[i] != p[j],
    ensures
        variance_of(p) > 0,
{
    let x = p[j] as int;
    lemma_variance_step(p, j as nat);
    lemma_deviation_term(p, x, j as nat, i);
    lemma_squared_difference(p[i] as int, x);
    lemma_variance_grows(p, 0, j as nat);
    lemma_variance_grows(p, (j + 1) as nat, p.len());
}

/// A flat patch, one whose pixels are all the same, has no variance.
pub proof fn lemma_variance_of_flat(p: Seq<u8>, n: nat)
    requires
        n <= p.len(),
        forall|i: int, j: int| 0 <= i < p.len() && 0 <= j < p.len() ==> p[i] == p[j],
    ensures
        variance_upto(p, n) == 0,
    decreases n,
{
    if n > 0 {
        let before = (n - 1) as nat;
        lemma_variance_of_flat(p, before);
        lemma_variance_step(p, before);
        lemma_flat_deviation(p, p[before as int] as int, before);
    }
}

/// The pixels of a flat patch do not differ from its intensity.
proof fn lemma_flat_deviation(p: Seq<u8>, x: int, n: nat)
    requires
        n <= p.len(),
        forall|i: int| 0 <= i < p.len() ==> p[i] == x,
    ensures
        deviation_sum(p, x, n) == 0,
    decreases n,
{
    if n > 0 {
        lemma_flat_deviation(p, x, (n - 1) as nat);
        lemma_squared_difference(p[n - 1] as int, x);
    }
}

/// A patch correlates with itself perfectly if two of its pixels differ,
/// and not at all if it is flat.
pub proof fn lemma_self_correlation(p: Seq<u8>)
    requires
        p.len() <= MAX_PIXELS,
    ensures
        (exists|i: int, j: int| 0 <= i < j < p.len() && p[i] != p[j]) ==> correlation_of(
            p,
            p,
        ).is_perfect() && correlation_of(p, p).is_strong(),
        (forall|i: int, j: int| 0 <= i < p.len() && 0 <= j < p.len() ==> p[i] == p[j])
            ==> correlation_of(p, p).is_degenerate() && !correlation_of(p, p).is_strong(),
{
    lemma_correlation_identity(p);
    if exists|i: int, j: int| 0 <= i < j < p.len() && p[i] != p[j] {
        let (i, j) = choose|i: int, j: int| 0 <= i < j < p.len() && p[i] != p[j];
        lemma_variance_positive(p, i, j);
    }
    if forall|i: int, j: int| 0 <= i < p.len() && 0 <= j < p.len() ==> p[i] == p[j] {
        lemma_variance_of_flat(p, p.len());
    }
}

/// The products of a patch with itself are its squares.
proof fn lemma_products_are_squares(p: Seq<u8>, n: nat)
    requires
        n <= p.len(),
    ensures
        product_sum_upto(p, p, n) == square_sum_upto(p, n),
    decreases n,
{
    if n > 0 {
        lemma_products_are_squares(p, (n - 1) as nat);
    }
}

/// The statistics of patches of at most `MAX_PIXELS` pixels stay below
/// `2^64` in magnitude.
pub proof fn lemma_statistics_fit(p: Seq<u8>, q: Seq<u8>)
    requires
        p.len() == q.len(),
        p.len() <= MAX_PIXELS,
    ensures
        -0x1_0000_0000_0000_0000 < covariance_of(p, q) < 0x1_0000_0000_0000_0000,
        -0x1_0000_0000_0000_0000 < variance_of(p) < 0x1_0000_0000_0000_0000,
        -0x1_0000_0000_0000_0000 < variance_of(q) < 0x1_0000_0000_0000_0000,
        correlation_of(p, q).wf(),
        correlation_of(p, q).covariance == covariance_of(p, q),
        correlation_of(p, q).template_variance == variance_of(p),
        correlation_of(p, q).window_variance == variance_of(q),
{
    let n = p.len();
    lemma_sum_bounds(p, q, n);
    lemma_sum_bounds(q, p, n);
    lemma_statistics_range(
        n as int,
        product_sum_upto(p, q, n),
        sum_upto(p, n),
        sum_upto(q, n),
    );
    lemma_statistics_range(n as int, square_sum_upto(p, n), sum_upto(p, n), sum_upto(p, n));
    lemma_statistics_range(n as int, square_sum_upto(q, n), sum_upto(q, n), sum_upto(q, n));
}

/// The range of `n * dot - s * t` for the sums of at most `MAX_PIXELS` pixels.
proof fn lemma_statistics_range(n: int, dot: int, s: int, t: int)
    requires
        0 <= n <= 16_777_216,
        0 <= dot <= 65025 * n,
        0 <= s <= 255 * n,
        0 <= t <= 255 * n,
    ensures
        0 <= n * dot <= 65025 * 16_777_216 * 16_777_216,
        0 <= s * t <= 65025 * 16_777_216 * 16_777_216,
        -0x1_0000_0000_0000_0000 < n * dot - s * t < 0x1_0000_0000_0000_0000,
{
    assert(0 <= n * dot <= 65025 * 16_777_216 * 16_777_216) by (nonlinear_arith)
        requires
            0 <= n <= 16_777_216,
            0 <= dot <= 65025 * n,
    ;
    assert(0 <= s * t <= 65025 * 16_777_216 * 16_777_216) by (nonlinear_arith)
        requires
            0 <= n <= 16_777_216,
            0 <= s <= 255 * n,
            0 <= t <= 255 * n,
    ;
}


/// How far, in pixels, a template is searched for around its expected place
/// unless the engine is told otherwise.
pub const DEFAULT_SEARCH_RADIUS: u32 = 50;

/// Where the search for a patch expected at `expected` starts along one axis.
pub open spec fn search_start(expected: u32, radius: u32) -> int {
    if expected >= radius {
        expected - radius
    } else {
        0
    }
}

/// Where the search ends along one axis (exclusive): `radius` past the
/// expected place, but no further than the last place at which a window
/// still lies inside the image.
pub open spec fn search_end(expected: u32, radius: u32, extent: u32, image_extent: u32) -> int {
    if expected + radius <= image_extent - extent + 1 {
        expected + radius
    } else {
        image_extent - extent + 1
    }
}

/// A patch of `w` by `h` at `(x, y)` lies inside the image; it may touch
/// the image's edges.
pub open spec fn patch_fits(image: &GrayImage, x: u32, y: u32, w: u32, h: u32) -> bool {
    x + w <= image.spec_width() && y + h <= image.spec_height()
}

/// `(ax, ay)` comes before `(bx, by)` when rows are scanned top to bottom
/// and each row left to right.
pub open spec fn scanned_before(ax: int, ay: int, bx: int, by: int) -> bool {
    ay < by || (ay == by && ax < bx)
}

/// The place `(sx, sy)` is searched for a `w` by `h` template expected at
/// `(tx, ty)`.
pub open spec fn is_candidate(
    image: &GrayImage,
    radius: u32,
    tx: u32,
    ty: u32,
    w: u32,
    h: u32,
    sx: int,
    sy: int,
) -> bool {
    &&& search_start(tx, radius) <= sx < search_end(tx, radius, w, image.spec_width())
    &&& search_start(ty, radius) <= sy < search_end(ty, radius, h, image.spec_height())
}

/// The statistics of the template cut at `(tx, ty)` against the window at
/// `(sx, sy)`.
pub open spec fn candidate_correlation(
    image: &GrayImage,
    tx: u32,
    ty: u32,
    w: u32,
    h: u32,
    sx: int,
    sy: int,
) -> Correlation {
    correlation_of(
        image.window(tx as int, ty as int, w as int, h as int),
        image.window(sx, sy, w as int, h as int),
    )
}

/// `(sx, sy)` is the best match of the template cut at `(tx, ty)`: its
/// correlation exceeds 0.8, no candidate correlates more strongly, and
/// every strong candidate scanned before it correlates less strongly.
pub open spec fn is_best_match(
    image: &GrayImage,
    radius: u32,
    tx: u32,
    ty: u32,
    w: u32,
    h: u32,
    sx: int,
    sy: int,
) -> bool {
    let best = candidate_correlation(image, tx, ty, w, h, sx, sy);
    &&& is_candidate(image, radius, tx, ty, w, h, sx, sy)
    &&& best.is_strong()
    &&& forall|cx: int, cy: int|
        #![trigger candidate_correlation(image, tx, ty, w, h, cx, cy)]
        is_candidate(image, radius, tx, ty, w, h, cx, cy) && candidate_correlation(
            image,
            tx,
            ty,
            w,
            h,
            cx,
            cy,
        ).is_strong() ==> {
            let other = candidate_correlation(image, tx, ty, w, h, cx, cy);
            &&& !other.stronger_than(&best)
            &&& scanned_before(cx, cy, sx, sy) ==> best.stronger_than(&other)
        }
}

/// No place searched for the template cut at `(tx, ty)` correlates above 0.8.
pub open spec fn no_strong_candidate(image: &GrayImage, radius: u32, tx: u32, ty: u32, w: u32, h: u32) -> bool {
    forall|cx: int, cy: int|
        #![trigger candidate_correlation(image, tx, ty, w, h, cx, cy)]
        is_candidate(image, radius, tx, ty, w, h, cx, cy) ==> !candidate_correlation(
            image,
            tx,
            ty,
            w,
            h,
            cx,
            cy,
        ).is_strong()
}

/// What the search for the template cut at `(tx, ty)` must return: the
/// offset of the best match, or nothing when the template does not fit or
/// nothing correlates above 0.8.
pub open spec fn is_match_result(
    image: &GrayImage,
    radius: u32,
    tx: u32,
    ty: u32,
    w: u32,
    h: u32,
    r: Option<(i32, i32)>,
) -> bool {
    match r {
        Some((dx, dy)) => patch_fits(image, tx, ty, w, h) && is_best_match(
            image,
            radius,
            tx,
            ty,
            w,
            h,
            tx + dx,
            ty + dy,
        ),
        None => !patch_fits(image, tx, ty, w, h) || no_strong_candidate(image, radius, tx, ty, w, h),
    }
}

/// A patch without pixels correlates with nothing: no place at which it is
/// searched gives a correlation above 0.8.
pub proof fn lemma_empty_patch_matches_nothing(
    image: &GrayImage,
    radius: u32,
    tx: u32,
    ty: u32,
    w: u32,
    h: u32,
)
    requires
        w == 0 || h == 0,
    ensures
        no_strong_candidate(image, radius, tx, ty, w, h),
{
    assert(w * h == 0) by (nonlinear_arith)
        requires
            w == 0 || h == 0,
    ;
    assert forall|cx: int, cy: int|
        #![trigger candidate_correlation(image, tx, ty, w, h, cx, cy)]
        is_candidate(image, radius, tx, ty, w, h, cx, cy) implies !candidate_correlation(
        image,
        tx,
        ty,
        w,
        h,
        cx,
        cy,
    ).is_strong() by {
        let p = image.window(tx as int, ty as int, w as int, h as int);
        let q = image.window(cx, cy, w as int, h as int);
        assert(p.len() == 0);
        assert(covariance_of(p, q) == 0) by {
            assert(sum_upto(p, 0) == 0);
            assert(product_sum_upto(p, q, 0) == 0);
        }
    }
}

/// Among correlations against one template, "not weaker" carries over: if
/// `n` beats `b` and `c` does not beat `b`, then `n` beats `c`.
pub proof fn lemma_stronger_transitive(n: &Correlation, b: &Correlation, c: &Correlation)
    requires
        n.is_strong(),
        b.is_strong(),
        c.is_strong(),
        n.template_variance == b.template_variance,
        c.template_variance == b.template_variance,
        n.stronger_than(b),
        !c.stronger_than(b),
    ensures
        n.stronger_than(c),
        !c.stronger_than(n),
{
    let t = b.template_variance as int;
    let an = n.covariance * n.covariance;
    let ab = b.covariance * b.covariance;
    let ac = c.covariance * c.covariance;
    let wn = n.window_variance as int;
    let wb = b.window_variance as int;
    let wc = c.window_variance as int;
    lemma_shared_template(an, wn, ab, wb, t);
    lemma_shared_template(ac, wc, ab, wb, t);
    lemma_shared_template(an, wn, ac, wc, t);
    lemma_shared_template(ac, wc, an, wn, t);
    assert(an * wb > ab * wn);
    assert(ac * wb <= ab * wc);
    assert(an * wc > ac * wn) by (nonlinear_arith)
        requires
            an * wb > ab * wn,
            ac * wb <= ab * wc,
            wn > 0,
            wb > 0,
            wc > 0,
    {
        assert((an * wb) * wc > (ab * wn) * wc);
        assert((ab * wc) * wn >= (ac * wb) * wn);
        assert((an * wc) * wb > (ac * wn) * wb);
    }
}

/// Finds where the contents of an image have moved.
#[derive(Debug)]
pub struct AlignmentEngine {
    /// A corner is kept when a hundred times its response exceeds this.
    pub feature_threshold: i64,
    /// The largest number of corners reported.
    pub max_features: usize,
    /// How far, in pixels, a template is searched for around its expected
    /// place.
    pub search_radius: u32,
}

impl AlignmentEngine {
    /// The statistics of `template` against the window of `image` whose
    /// top-left corner is `(x, y)`; those of a correlation of zero when the
    /// window would leave the image.
    pub fn calculate_normalized_correlation(
        &self,
        image: &GrayImage,
        template: &GrayImage,
        x: u32,
        y: u32,
    ) -> (c: Correlation)
        requires
            image.wf(),
            template.wf(),
        ensures
            c.wf(),
            patch_fits(image, x, y, template.spec_width(), template.spec_height()) ==> c
                == correlation_of(
                template@,
                image.window(
                    x as int,
                    y as int,
                    template.spec_width() as int,
                    template.spec_height() as int,
                ),
            ),
            !patch_fits(image, x, y, template.spec_width(), template.spec_height()) ==> c
                == Correlation::zero(),
    {
        let tw: u32 = template.width();
        let th: u32 = template.height();
        if x as u64 + tw as u64 > image.width() as u64 || y as u64 + th as u64
            > image.height() as u64 {
            return Correlation::zero();
        }
        let ghost win = image.window(x as int, y as int, tw as int, th as int);
        let ghost tpl = template@;
        let mut sum_template: u64 = 0;
        let mut sum_image: u64 = 0;
        let mut sum_template_sq: u64 = 0;
        let mut sum_image_sq: u64 = 0;
        let mut sum_product: u64 = 0;
        let mut ty: u32 = 0;
        while ty < th
            invariant
                image.wf(),
                template.wf(),
                tw == template.spec_width(),
                th == template.spec_height(),
                x + tw <= image.spec_width(),
                y + th <= image.spec_height(),
                win == image.window(x as int, y as int, tw as int, th as int),
                tpl == template@,
                tpl.len() == tw * th,
                tpl.len() <= MAX_PIXELS,
                ty <= th,
                sum_template == sum_upto(tpl, (ty * tw) as nat),
                sum_image == sum_upto(win, (ty * tw) as nat),
                sum_template_sq == square_sum_upto(tpl, (ty * tw) as nat),
                sum_image_sq == square_sum_upto(win, (ty * tw) as nat),
                sum_product == product_sum_upto(tpl, win, (ty * tw) as nat),
            decreases th - ty,
        {
            let mut tx: u32 = 0;
            while tx < tw
                invariant
                    image.wf(),
                    template.wf(),
                    tw == template.spec_width(),
                    th == template.spec_height(),
                    x + tw <= image.spec_width(),
                    y + th <= image.spec_height(),
                    win == image.window(x as int, y as int, tw as int, th as int),
                    tpl == template@,
                    tpl.len() == tw * th,
                    tpl.len() <= MAX_PIXELS,
                    ty < th,
                    tx <= tw,
                    sum_template == sum_upto(tpl, (ty * tw + tx) as nat),
                    sum_image == sum_upto(win, (ty * tw + tx) as nat),
                    sum_template_sq == square_sum_upto(tpl, (ty * tw + tx) as nat),
                    sum_image_sq == square_sum_upto(win, (ty * tw + tx) as nat),
                    sum_product == product_sum_upto(tpl, win, (ty * tw + tx) as nat),
                decreases tw - tx,
            {
                let ghost k = (ty * tw + tx) as nat;
                proof {
                    lemma_index_join(tx as int, ty as int, tw as int);
                    lemma_index_in_range(tx as int, ty as int, tw as int, th as int);
                    assert(win.len() == tw * th);
                    lemma_sum_bounds(tpl, win, k);
                    lemma_sum_bounds(win, tpl, k);
                }
                let template_val: u64 = template.get_pixel(tx, ty) as u64;
                let image_val: u64 = image.get_pixel(x + tx, y + ty) as u64;
                proof {
                    assert(template_val == tpl[k as int]);
                    assert(image_val == win[k as int]);
                    assert(template_val * template_val <= 65025 && image_val * image_val <= 65025
                        && template_val * image_val <= 65025) by (nonlinear_arith)
                        requires
                            template_val <= 255,
                            image_val <= 255,
                    ;
                }
                sum_template = sum_template + template_val;
                sum_image = sum_image + image_val;
                sum_template_sq = sum_template_sq + template_val * template_val;
                sum_image_sq = sum_image_sq + image_val * image_val;
                sum_product = sum_product + template_val * image_val;
                tx += 1;
            }
            proof {
                assert(ty * tw + tw == (ty + 1) * tw) by (nonlinear_arith);
            }
            ty += 1;
        }
        proof {
            assert(th * tw == tw * th) by (nonlinear_arith);
            lemma_statistics_fit(tpl, win);
            lemma_sum_bounds(tpl, win, tpl.len());
            lemma_sum_bounds(win, tpl, tpl.len());
        }
        let n: i128 = template.pixel_count() as i128;
        let st: i128 = sum_template as i128;
        let si: i128 = sum_image as i128;
        proof {
            lemma_statistics_range(n as int, sum_product as int, st as int, si as int);
            lemma_statistics_range(n as int, sum_template_sq as int, st as int, st as int);
            lemma_statistics_range(n as int, sum_image_sq as int, si as int, si as int);
        }
        Correlation {
            covariance: n * (sum_product as i128) - st * si,
            template_variance: n * (sum_template_sq as i128) - st * st,
            window_variance: n * (sum_image_sq as i128) - si * si,
        }
    }
}


/// The first region whose template is found again gives the offset; with
/// none, the offset is zero.
pub open spec fn is_alignment_result(
    image: &GrayImage,
    radius: u32,
    regions: Seq<(u32, u32, u32, u32)>,
    offset: (i32, i32),
) -> bool {
    ||| exists|i: int|
        {
            &&& 0 <= i < regions.len()
            &&& #[trigger] is_match_result(
                image,
                radius,
                regions[i].0,
                regions[i].1,
                regions[i].2,
                regions[i].3,
                Some(offset),
            )
            &&& forall|j: int|
                0 <= j < i ==> #[trigger] is_match_result(
                    image,
                    radius,
                    regions[j].0,
                    regions[j].1,
                    regions[j].2,
                    regions[j].3,
                    None,
                )
        }
    ||| {
        &&& offset == (0i32, 0i32)
        &&& forall|j: int|
            0 <= j < regions.len() ==> #[trigger] is_match_result(
                image,
                radius,
                regions[j].0,
                regions[j].1,
                regions[j].2,
                regions[j].3,
                None,
            )
    }
}

impl AlignmentEngine {
    /// Searches around `(template_x, template_y)` for the window that
    /// correlates best, above 0.8, with the patch of `template_w` by
    /// `template_h` cut from the image at that place. Every window that
    /// lies inside the image and starts less than the search radius past
    /// the place, or no more than the radius before it, is looked at.
    pub fn find_template_match(
        &self,
        image: &GrayImage,
        template_x: u32,
        template_y: u32,
        template_w: u32,
        template_h: u32,
    ) -> (r: Option<(i32, i32)>)
        requires
            image.wf(),
        ensures
            is_match_result(
                image,
                self.search_radius,
                template_x,
                template_y,
                template_w,
                template_h,
                r,
            ),
    {
        let img_width: u32 = image.width();
        let img_height: u32 = image.height();
        if template_x as u64 + template_w as u64 > img_width as u64 || template_y as u64
            + template_h as u64 > img_height as u64 {
            return None;
        }
        if template_w == 0 || template_h == 0 {
            proof {
                lemma_empty_patch_matches_nothing(
                    image,
                    self.search_radius,
                    template_x,
                    template_y,
                    template_w,
                    template_h,
                );
            }
            return None;
        }
        proof {
            image.lemma_sides_bounded();
        }
        let template: GrayImage = image.crop(template_x, template_y, template_w, template_h);
        let radius: u32 = self.search_radius;
        let start_x: u32 = if template_x >= radius {
            template_x - radius
        } else {
            0
        };
        let start_y: u32 = if template_y >= radius {
            template_y - radius
        } else {
            0
        };
        let end_x: u32 = if template_x as u64 + radius as u64 <= (img_width - template_w) as u64
            + 1 {
            template_x + radius
        } else {
            img_width - template_w + 1
        };
        let end_y: u32 = if template_y as u64 + radius as u64 <= (img_height - template_h) as u64
            + 1 {
            template_y + radius
        } else {
            img_height - template_h + 1
        };
        let mut best: Option<Correlation> = None;
        let mut best_x: u32 = start_x;
        let mut best_y: u32 = start_y;
        let mut sy: u32 = start_y;
        while sy < end_y
            invariant
                image.wf(),
                template.wf(),
                img_width == image.spec_width(),
                img_height == image.spec_height(),
                img_width <= MAX_PIXELS,
                img_height <= MAX_PIXELS,
                patch_fits(image, template_x, template_y, template_w, template_h),
                template.spec_width() == template_w,
                template.spec_height() == template_h,
                template@ == image.window(
                    template_x as int,
                    template_y as int,
                    template_w as int,
                    template_h as int,
                ),
                start_x == search_start(template_x, radius),
                start_y == search_start(template_y, radius),
                end_x == search_end(template_x, radius, template_w, img_width),
                end_y == search_end(template_y, radius, template_h, img_height),
                start_y <= sy,
                sy <= end_y || start_y >= end_y,
                best is None ==> forall|cx: int, cy: int|
                    #![trigger candidate_correlation(image, template_x, template_y, template_w, template_h, cx, cy)]
                    is_candidate(image, radius, template_x, template_y, template_w, template_h, cx, cy)
                        && cy < sy ==> !candidate_correlation(
                        image,
                        template_x,
                        template_y,
                        template_w,
                        template_h,
                        cx,
                        cy,
                    ).is_strong(),
                best matches Some(b) ==> {
                    &&& b == candidate_correlation(
                        image,
                        template_x,
                        template_y,
                        template_w,
                        template_h,
                        best_x as int,
                        best_y as int,
                    )
                    &&& b.wf()
                    &&& b.is_strong()
                    &&& is_candidate(
                        image,
                        radius,
                        template_x,
                        template_y,
                        template_w,
                        template_h,
                        best_x as int,
                        best_y as int,
                    )
                    &&& best_y < sy
                    &&& forall|cx: int, cy: int|
                        #![trigger candidate_correlation(image, template_x, template_y, template_w, template_h, cx, cy)]
                        is_candidate(
                            image,
                            radius,
                            template_x,
                            template_y,
                            template_w,
                            template_h,
                            cx,
                            cy,
                        ) && cy < sy && candidate_correlation(
                            image,
                            template_x,
                            template_y,
                            template_w,
                            template_h,
                            cx,
                            cy,
                        ).is_strong() ==> {
                            let other = candidate_correlation(
                                image,
                                template_x,
                                template_y,
                                template_w,
                                template_h,
                                cx,
                                cy,
                            );
                            &&& !other.stronger_than(&b)
                            &&& scanned_before(cx, cy, best_x as int, best_y as int)
                                ==> b.stronger_than(&other)
                        }
                },
            decreases end_y - sy,
        {
            let mut sx: u32 = start_x;
            while sx < end_x
                invariant
                    image.wf(),
                    template.wf(),
                    img_width == image.spec_width(),
                    img_height == image.spec_height(),
                    img_width <= MAX_PIXELS,
                    img_height <= MAX_PIXELS,
                    patch_fits(image, template_x, template_y, template_w, template_h),
                    template.spec_width() == template_w,
                    template.spec_height() == template_h,
                    template@ == image.window(
                        template_x as int,
                        template_y as int,
                        template_w as int,
                        template_h as int,
                    ),
                    start_x == search_start(template_x, radius),
                    start_y == search_start(template_y, radius),
                    end_x == search_end(template_x, radius, template_w, img_width),
                    end_y == search_end(template_y, radius, template_h, img_height),
                    start_y <= sy < end_y,
                    start_x <= sx,
                    sx <= end_x || start_x >= end_x,
                    best is None ==> forall|cx: int, cy: int|
                        #![trigger candidate_correlation(image, template_x, template_y, template_w, template_h, cx, cy)]
                        is_candidate(
                            image,
                            radius,
                            template_x,
                            template_y,
                            template_w,
                            template_h,
                            cx,
                            cy,
                        ) && scanned_before(cx, cy, sx as int, sy as int)
                            ==> !candidate_correlation(
                            image,
                            template_x,
                            template_y,
                            template_w,
                            template_h,
                            cx,
                            cy,
                        ).is_strong(),
                    best matches Some(b) ==> {
                        &&& b == candidate_correlation(
                            image,
                            template_x,
                            template_y,
                            template_w,
                            template_h,
                            best_x as int,
                            best_y as int,
                        )
                        &&& b.wf()
                        &&& b.is_strong()
                        &&& is_candidate(
                            image,
                            radius,
                            template_x,
                            template_y,
                            template_w,
                            template_h,
                            best_x as int,
                            best_y as int,
                        )
                        &&& scanned_before(best_x as int, best_y as int, sx as int, sy as int)
                        &&& forall|cx: int, cy: int|
                            #![trigger candidate_correlation(image, template_x, template_y, template_w, template_h, cx, cy)]
                            is_candidate(
                                image,
                                radius,
                                template_x,
                                template_y,
                                template_w,
                                template_h,
                                cx,
                                cy,
                            ) && scanned_before(cx, cy, sx as int, sy as int)
                                && candidate_correlation(
                                image,
                                template_x,
                                template_y,
                                template_w,
                                template_h,
                                cx,
                                cy,
                            ).is_strong() ==> {
                                let other = candidate_correlation(
                                    image,
                                    template_x,
                                    template_y,
                                    template_w,
                                    template_h,
                                    cx,
                                    cy,
                                );
                                &&& !other.stronger_than(&b)
                                &&& scanned_before(cx, cy, best_x as int, best_y as int)
                                    ==> b.stronger_than(&other)
                            }
                    },
                decreases end_x - sx,
            {
                let correlation: Correlation = self.calculate_normalized_correlation(
                    image,
                    &template,
                    sx,
                    sy,
                );
                assert(correlation == candidate_correlation(
                    image,
                    template_x,
                    template_y,
                    template_w,
                    template_h,
                    sx as int,
                    sy as int,
                ));
                let ghost previous = best;
                let ghost previous_x = best_x;
                let ghost previous_y = best_y;
                if correlation.exceeds_threshold() {
                    let better: bool = match best {
                        None => true,
                        Some(b) => correlation.exceeds(&b),
                    };
                    if better {
                        proof {
                            if let Some(b) = previous {
                                assert forall|cx: int, cy: int|
                                    #![trigger candidate_correlation(image, template_x, template_y, template_w, template_h, cx, cy)]
                                    is_candidate(
                                        image,
                                        radius,
                                        template_x,
                                        template_y,
                                        template_w,
                                        template_h,
                                        cx,
                                        cy,
                                    ) && scanned_before(cx, cy, sx as int, sy as int)
                                        && candidate_correlation(
                                        image,
                                        template_x,
                                        template_y,
                                        template_w,
                                        template_h,
                                        cx,
                                        cy,
                                    ).is_strong() implies {
                                    let other = candidate_correlation(
                                        image,
                                        template_x,
                                        template_y,
                                        template_w,
                                        template_h,
                                        cx,
                                        cy,
                                    );
                                    &&& !other.stronger_than(&correlation)
                                    &&& correlation.stronger_than(&other)
                                } by {
                                    let other = candidate_correlation(
                                        image,
                                        template_x,
                                        template_y,
                                        template_w,
                                        template_h,
                                        cx,
                                        cy,
                                    );
                                    lemma_stronger_transitive(&correlation, &b, &other);
                                }
                            }
                        }
                        best = Some(correlation);
                        best_x = sx;
                        best_y = sy;
                    }
                }
                sx += 1;
            }
            sy += 1;
        }
        match best {
            None => None,
            Some(b) => {
                let dx: i32 = (best_x as i64 - template_x as i64) as i32;
                let dy: i32 = (best_y as i64 - template_y as i64) as i32;
                assert(template_x + dx == best_x && template_y + dy == best_y);
                Some((dx, dy))
            },
        }
    }

    /// The offset at which the first of `template_regions` (each `x`, `y`,
    /// width, height) is found again in the image; zero when none is.
    pub fn template_alignment(&self, image: &GrayImage, template_regions: &Vec<(u32, u32, u32, u32)>) -> (offset:
        (i32, i32))
        requires
            image.wf(),
        ensures
            is_alignment_result(image, self.search_radius, template_regions@, offset),
    {
        let mut i: usize = 0;
        while i < template_regions.len()
            invariant
                image.wf(),
                i <= template_regions.len(),
                forall|j: int|
                    0 <= j < i ==> #[trigger] is_match_result(
                        image,
                        self.search_radius,
                        template_regions@[j].0,
                        template_regions@[j].1,
                        template_regions@[j].2,
                        template_regions@[j].3,
                        None,
                    ),
            decreases template_regions.len() - i,
        {
            let region: (u32, u32, u32, u32) = template_regions[i];
            match self.find_template_match(image, region.0, region.1, region.2, region.3) {
                Some(offset) => {
                    assert(is_match_result(
                        image,
                        self.search_radius,
                        template_regions@[i as int].0,
                        template_regions@[i as int].1,
                        template_regions@[i as int].2,
                        template_regions@[i as int].3,
                        Some(offset),
                    ));
                    return offset;
                },
                None => {},
            }
            i += 1;
        }
        (0, 0)
    }
}


/// `(x, y)` has all eight neighbours inside the image.
pub open spec fn is_interior(image: &GrayImage, x: int, y: int) -> bool {
    1 <= x < image.spec_width() - 1 && 1 <= y < image.spec_height() - 1
}

/// The horizontal Sobel gradient at `(x, y)`; zero on the one-pixel border.
pub open spec fn gradient_x(image: &GrayImage, x: int, y: int) -> int {
    if is_interior(image, x, y) {
        -image.at(x - 1, y - 1) - 2 * image.at(x - 1, y) - image.at(x - 1, y + 1) + image.at(
            x + 1,
            y - 1,
        ) + 2 * image.at(x + 1, y) + image.at(x + 1, y + 1)
    } else {
        0
    }
}

/// The vertical Sobel gradient at `(x, y)`; zero on the one-pixel border.
pub open spec fn gradient_y(image: &GrayImage, x: int, y: int) -> int {
    if is_interior(image, x, y) {
        -image.at(x - 1, y - 1) - 2 * image.at(x, y - 1) - image.at(x + 1, y - 1) + image.at(
            x - 1,
            y + 1,
        ) + 2 * image.at(x, y + 1) + image.at(x + 1, y + 1)
    } else {
        0
    }
}

/// `grad_x` and `grad_y` hold the Sobel gradients of `image`.
pub open spec fn are_gradients_of(grad_x: &GradientImage, grad_y: &GradientImage, image: &GrayImage) -> bool {
    &&& grad_x.wf()
    &&& grad_y.wf()
    &&& grad_x.spec_width() == image.spec_width()
    &&& grad_x.spec_height() == image.spec_height()
    &&& grad_y.spec_width() == image.spec_width()
    &&& grad_y.spec_height() == image.spec_height()
    &&& forall|x: int, y: int|
        image.in_bounds(x, y) ==> #[trigger] grad_x.at(x, y) == gradient_x(image, x, y)
    &&& forall|x: int, y: int|
        image.in_bounds(x, y) ==> #[trigger] grad_y.at(x, y) == gradient_y(image, x, y)
}

impl AlignmentEngine {
    /// The Sobel gradients of `image`, horizontal then vertical.
    pub fn calculate_gradients(&self, image: &GrayImage) -> (grads: (GradientImage, GradientImage))
        requires
            image.wf(),
        ensures
            are_gradients_of(&grads.0, &grads.1, image),
    {
        let width: u32 = image.width();
        let height: u32 = image.height();
        let mut data_x: Vec<i16> = Vec::new();
        let mut data_y: Vec<i16> = Vec::new();
        let mut y: u32 = 0;
        while y < height
            invariant
                image.wf(),
                width == image.spec_width(),
                height == image.spec_height(),
                y <= height,
                data_x@.len() == y * width,
                data_y@.len() == y * width,
                forall|k: int|
                    0 <= k < data_x@.len() ==> data_x@[k] == gradient_x(
                        image,
                        k % (width as int),
                        k / (width as int),
                    ),
                forall|k: int|
                    0 <= k < data_y@.len() ==> data_y@[k] == gradient_y(
                        image,
                        k % (width as int),
                        k / (width as int),
                    ),
            decreases height - y,
        {
            let mut x: u32 = 0;
            while x < width
                invariant
                    image.wf(),
                    width == image.spec_width(),
                    height == image.spec_height(),
                    y < height,
                    x <= width,
                    data_x@.len() == y * width + x,
                    data_y@.len() == y * width + x,
                    forall|k: int|
                        0 <= k < data_x@.len() ==> data_x@[k] == gradient_x(
                            image,
                            k % (width as int),
                            k / (width as int),
                        ),
                    forall|k: int|
                        0 <= k < data_y@.len() ==> data_y@[k] == gradient_y(
                            image,
                            k % (width as int),
                            k / (width as int),
                        ),
                decreases width - x,
            {
                proof {
                    lemma_index_join(x as int, y as int, width as int);
                }
                let mut gx: i16 = 0;
                let mut gy: i16 = 0;
                if x >= 1 && x < width - 1 && y >= 1 && y < height - 1 {
                    let nw: i16 = image.get_pixel(x - 1, y - 1) as i16;
                    let n: i16 = image.get_pixel(x, y - 1) as i16;
                    let ne: i16 = image.get_pixel(x + 1, y - 1) as i16;
                    let w: i16 = image.get_pixel(x - 1, y) as i16;
                    let e: i16 = image.get_pixel(x + 1, y) as i16;
                    let sw: i16 = image.get_pixel(x - 1, y + 1) as i16;
                    let s: i16 = image.get_pixel(x, y + 1) as i16;
                    let se: i16 = image.get_pixel(x + 1, y + 1) as i16;
                    gx = ne + 2 * e + se - nw - 2 * w - sw;
                    gy = sw + 2 * s + se - nw - 2 * n - ne;
                }
                data_x.push(gx);
                data_y.push(gy);
                x += 1;
            }
            proof {
                assert(y * width + width == (y + 1) * width) by (nonlinear_arith);
            }
            y += 1;
        }
        proof {
            assert(height * width == width * height) by (nonlinear_arith);
        }
        let grad_x = GradientImage { width, height, data: data_x };
        let grad_y = GradientImage { width, height, data: data_y };
        proof {
            assert forall|x: int, y: int| image.in_bounds(x, y) implies #[trigger] grad_x.at(x, y)
                == gradient_x(image, x, y) by {
                lemma_index_join(x, y, width as int);
                lemma_index_in_range(x, y, width as int, height as int);
            }
            assert forall|x: int, y: int| image.in_bounds(x, y) implies #[trigger] grad_y.at(x, y)
                == gradient_y(image, x, y) by {
                lemma_index_join(x, y, width as int);
                lemma_index_in_range(x, y, width as int, height as int);
            }
        }
        (grad_x, grad_y)
    }
}


/// The sum of `f` over the first `n` places, row by row, of the square
/// window that reaches `half` pixels from `(x, y)` in each direction.
pub open spec fn window_sum(f: spec_fn(int, int) -> int, x: int, y: int, half: int, n: nat) -> int
    decreases n,
{
    if n == 0 {
        0
    } else {
        let side = 2 * half + 1;
        let k = n - 1;
        window_sum(f, x, y, half, k as nat) + f(x - half + k % side, y - half + k / side)
    }
}

/// Twenty-five times the Harris response `det(M) - 0.04 * trace(M)^2` of
/// the structure matrix `M = [[ixx, ixy], [ixy, iyy]]`.
pub open spec fn harris_from(ixx: int, iyy: int, ixy: int) -> int {
    25 * (ixx * iyy - ixy * ixy) - (ixx + iyy) * (ixx + iyy)
}

/// Twenty-five times the Harris response at `(x, y)`, the structure matrix
/// summed over the window that reaches `half` pixels in each direction.
pub open spec fn harris_score(
    grad_x: &GradientImage,
    grad_y: &GradientImage,
    x: int,
    y: int,
    half: int,
) -> int {
    let n = ((2 * half + 1) * (2 * half + 1)) as nat;
    harris_from(
        window_sum(|i: int, j: int| grad_x.at(i, j) * grad_x.at(i, j), x, y, half, n),
        window_sum(|i: int, j: int| grad_y.at(i, j) * grad_y.at(i, j), x, y, half, n),
        window_sum(|i: int, j: int| grad_x.at(i, j) * grad_y.at(i, j), x, y, half, n),
    )
}

/// Twenty-five times the Harris response of `image` at `(x, y)`, over the
/// three by three window of its Sobel gradients.
pub open spec fn corner_score(image: &GrayImage, x: int, y: int) -> int {
    harris_from(
        window_sum(
            |i: int, j: int| gradient_x(image, i, j) * gradient_x(image, i, j),
            x,
            y,
            1,
            9,
        ),
        window_sum(
            |i: int, j: int| gradient_y(image, i, j) * gradient_y(image, i, j),
            x,
            y,
            1,
            9,
        ),
        window_sum(
            |i: int, j: int| gradient_x(image, i, j) * gradient_y(image, i, j),
            x,
            y,
            1,
            9,
        ),
    )
}

/// Two functions that agree on a window have the same sum over it.
pub proof fn lemma_window_sum_agrees(
    f: spec_fn(int, int) -> int,
    g: spec_fn(int, int) -> int,
    x: int,
    y: int,
    half: int,
    n: nat,
)
    requires
        0 <= half,
        n <= (2 * half + 1) * (2 * half + 1),
        forall|i: int, j: int|
            x - half <= i <= x + half && y - half <= j <= y + half ==> #[trigger] f(i, j) == g(
                i,
                j,
            ),
    ensures
        window_sum(f, x, y, half, n) == window_sum(g, x, y, half, n),
    decreases n,
{
    if n > 0 {
        lemma_window_sum_agrees(f, g, x, y, half, (n - 1) as nat);
        let side = 2 * half + 1;
        let k = n - 1;
        lemma_window_place(k, side);
    }
}

/// The `k`-th place of a window of side `side` lies inside the window.
pub proof fn lemma_window_place(k: int, side: int)
    requires
        0 <= k < side * side,
        0 < side,
    ensures
        0 <= k % side < side,
        0 <= k / side < side,
{
    assert(0 <= k % side < side && 0 <= k / side < side) by (nonlinear_arith)
        requires
            0 <= k < side * side,
            0 < side,
    ;
}

/// A sum of `n` products of 16-bit samples stays within `n * 2^30`.
pub proof fn lemma_window_sum_bounds(
    a: &GradientImage,
    b: &GradientImage,
    x: int,
    y: int,
    half: int,
    n: nat,
)
    ensures
        -0x4000_0000 * n <= window_sum(|i: int, j: int| a.at(i, j) * b.at(i, j), x, y, half, n)
            <= 0x4000_0000 * n,
    decreases n,
{
    if n > 0 {
        lemma_window_sum_bounds(a, b, x, y, half, (n - 1) as nat);
        let side = 2 * half + 1;
        let k = n - 1;
        let p = a.at(x - half + k % side, y - half + k / side) as int;
        let q = b.at(x - half + k % side, y - half + k / side) as int;
        assert(-0x4000_0000 <= p * q <= 0x4000_0000) by (nonlinear_arith)
            requires
                -0x8000 <= p <= 0x7fff,
                -0x8000 <= q <= 0x7fff,
        ;
    }
}

impl AlignmentEngine {
    /// Twenty-five times the Harris corner response at `(x, y)`, over the
    /// window that reaches `window_size / 2` pixels in each direction. The
    /// window must lie inside the gradient images.
    pub fn calculate_harris_response(
        &self,
        grad_x: &GradientImage,
        grad_y: &GradientImage,
        x: u32,
        y: u32,
        window_size: u32,
    ) -> (score: i128)
        requires
            grad_x.wf(),
            grad_y.wf(),
            grad_x.spec_width() == grad_y.spec_width(),
            grad_x.spec_height() == grad_y.spec_height(),
            window_size / 2 <= x,
            window_size / 2 <= y,
            x + window_size / 2 < grad_x.spec_width(),
            y + window_size / 2 < grad_x.spec_height(),
        ensures
            score == harris_score(grad_x, grad_y, x as int, y as int, (window_size / 2) as int),
    {
        let half: u32 = window_size / 2;
        let side: u32 = 2 * half + 1;
        let ghost fxx = |i: int, j: int| grad_x.at(i, j) * grad_x.at(i, j);
        let ghost fyy = |i: int, j: int| grad_y.at(i, j) * grad_y.at(i, j);
        let ghost fxy = |i: int, j: int| grad_x.at(i, j) * grad_y.at(i, j);
        proof {
            lemma_window_area(
                side as int,
                side as int,
                grad_x.spec_width() as int,
                grad_x.spec_height() as int,
            );
        }
        let mut ixx: i64 = 0;
        let mut iyy: i64 = 0;
        let mut ixy: i64 = 0;
        let mut dy: u32 = 0;
        while dy < side
            invariant
                grad_x.wf(),
                grad_y.wf(),
                grad_x.spec_width() == grad_y.spec_width(),
                grad_x.spec_height() == grad_y.spec_height(),
                half <= x,
                half <= y,
                x + half < grad_x.spec_width(),
                y + half < grad_x.spec_height(),
                side == 2 * half + 1,
                side * side <= MAX_PIXELS,
                dy <= side,
                fxx == |i: int, j: int| grad_x.at(i, j) * grad_x.at(i, j),
                fyy == |i: int, j: int| grad_y.at(i, j) * grad_y.at(i, j),
                fxy == |i: int, j: int| grad_x.at(i, j) * grad_y.at(i, j),
                ixx == window_sum(fxx, x as int, y as int, half as int, (dy * side) as nat),
                iyy == window_sum(fyy, x as int, y as int, half as int, (dy * side) as nat),
                ixy == window_sum(fxy, x as int, y as int, half as int, (dy * side) as nat),
            decreases side - dy,
        {
            let mut dx: u32 = 0;
            while dx < side
                invariant
                    grad_x.wf(),
                    grad_y.wf(),
                    grad_x.spec_width() == grad_y.spec_width(),
                    grad_x.spec_height() == grad_y.spec_height(),
                    half <= x,
                    half <= y,
                    x + half < grad_x.spec_width(),
                    y + half < grad_x.spec_height(),
                    side == 2 * half + 1,
                    side * side <= MAX_PIXELS,
                    dy < side,
                    dx <= side,
                    fxx == |i: int, j: int| grad_x.at(i, j) * grad_x.at(i, j),
                    fyy == |i: int, j: int| grad_y.at(i, j) * grad_y.at(i, j),
                    fxy == |i: int, j: int| grad_x.at(i, j) * grad_y.at(i, j),
                    ixx == window_sum(
                        fxx,
                        x as int,
                        y as int,
                        half as int,
                        (dy * side + dx) as nat,
                    ),
                    iyy == window_sum(
                        fyy,
                        x as int,
                        y as int,
                        half as int,
                        (dy * side + dx) as nat,
                    ),
                    ixy == window_sum(
                        fxy,
                        x as int,
                        y as int,
                        half as int,
                        (dy * side + dx) as nat,
                    ),
                decreases side - dx,
            {
                let ghost k = (dy * side + dx) as nat;
                proof {
                    lemma_index_join(dx as int, dy as int, side as int);
                    lemma_index_in_range(dx as int, dy as int, side as int, side as int);
                    lemma_window_sum_bounds(grad_x, grad_x, x as int, y as int, half as int, k);
                    lemma_window_sum_bounds(grad_y, grad_y, x as int, y as int, half as int, k);
                    lemma_window_sum_bounds(grad_x, grad_y, x as int, y as int, half as int, k);
                    assert(0x4000_0000 * k <= 0x4000_0000 * 16_777_216) by (nonlinear_arith)
                        requires
                            k <= 16_777_216,
                    ;
                }
                let gx: i64 = grad_x.get_pixel(x - half + dx, y - half + dy) as i64;
                let gy: i64 = grad_y.get_pixel(x - half + dx, y - half + dy) as i64;
                proof {
                    assert(-0x4000_0000 <= gx * gx <= 0x4000_0000 && -0x4000_0000 <= gy * gy
                        <= 0x4000_0000 && -0x4000_0000 <= gx * gy <= 0x4000_0000)
                        by (nonlinear_arith)
                        requires
                            -0x8000 <= gx <= 0x7fff,
                            -0x8000 <= gy <= 0x7fff,
                    ;
                }
                ixx = ixx + gx * gx;
                iyy = iyy + gy * gy;
                ixy = ixy + gx * gy;
                dx += 1;
            }
            proof {
                assert(dy * side + side == (dy + 1) * side) by (nonlinear_arith);
            }
            dy += 1;
        }
        proof {
            let n = (side * side) as nat;
            lemma_window_sum_bounds(grad_x, grad_x, x as int, y as int, half as int, n);
            lemma_window_sum_bounds(grad_y, grad_y, x as int, y as int, half as int, n);
            lemma_window_sum_bounds(grad_x, grad_y, x as int, y as int, half as int, n);
            assert(0x4000_0000 * n <= 0x4000_0000 * 16_777_216) by (nonlinear_arith)
                requires
                    n <= 16_777_216,
            ;
        }
        let a: i128 = ixx as i128;
        let b: i128 = iyy as i128;
        let c: i128 = ixy as i128;
        proof {
            let bound: int = 0x40_0000_0000_0000int;
            assert(-bound * bound <= a * b <= bound * bound && -bound * bound <= c * c <= bound
                * bound && 0 <= (a + b) * (a + b) <= 4 * (bound * bound)) by (nonlinear_arith)
                requires
                    -bound <= a <= bound,
                    -bound <= b <= bound,
                    -bound <= c <= bound,
                    bound >= 0,
            ;
            assert(bound * bound == 0x1000_0000_0000_0000_0000_0000_0000) by (nonlinear_arith)
                requires
                    bound == 0x40_0000_0000_0000,
            ;
        }
        25 * (a * b - c * c) - (a + b) * (a + b)
    }
}


/// A corner candidate: a place and twenty-five times its Harris response.
#[derive(Debug, Clone, Copy)]
pub struct Corner {
    pub x: u32,
    pub y: u32,
    pub score: i128,
}

/// The side of the window over which the structure matrix of a corner is
/// summed.
pub const CORNER_WINDOW: u32 = 3;

/// How far from the image's edge a corner must lie: half a window.
pub const CORNER_MARGIN: u32 = 1;

/// `a` comes before `b` among the corners: by higher score, and between
/// equal scores by earlier place in scan order.
pub open spec fn ranks_before(a: Corner, b: Corner) -> bool {
    a.score > b.score || (a.score == b.score && scanned_before(
        a.x as int,
        a.y as int,
        b.x as int,
        b.y as int,
    ))
}

/// `(x, y)` lies inside the margin and its response exceeds the threshold,
/// given in hundredths.
pub open spec fn is_corner_place(image: &GrayImage, threshold: i64, x: int, y: int) -> bool {
    &&& CORNER_MARGIN <= x < image.spec_width() - CORNER_MARGIN
    &&& CORNER_MARGIN <= y < image.spec_height() - CORNER_MARGIN
    &&& 4 * corner_score(image, x, y) > threshold
}

/// The corner candidate at `(x, y)`.
pub open spec fn corner_at(image: &GrayImage, x: int, y: int) -> Corner {
    Corner { x: x as u32, y: y as u32, score: corner_score(image, x, y) as i128 }
}

/// Each corner ranks before those that follow it.
pub open spec fn is_ranked(corners: Seq<Corner>) -> bool {
    forall|i: int, j: int|
        0 <= i < j < corners.len() ==> ranks_before(#[trigger] corners[i], #[trigger] corners[j])
}

/// Every corner of `corners` ranks before `c`.
pub open spec fn all_rank_before(corners: Seq<Corner>, c: Corner) -> bool {
    forall|i: int| 0 <= i < corners.len() ==> ranks_before(#[trigger] corners[i], c)
}

/// `corners` are the `limit` best-ranked corner places scanned before
/// `(lx, ly)`, or all of them when there are fewer, best first.
pub open spec fn are_best_corners(
    image: &GrayImage,
    threshold: i64,
    limit: int,
    corners: Seq<Corner>,
    lx: int,
    ly: int,
) -> bool {
    &&& corners.len() <= limit
    &&& is_ranked(corners)
    &&& forall|i: int|
        0 <= i < corners.len() ==> {
            let c = #[trigger] corners[i];
            &&& is_corner_place(image, threshold, c.x as int, c.y as int)
            &&& scanned_before(c.x as int, c.y as int, lx, ly)
            &&& c == corner_at(image, c.x as int, c.y as int)
        }
    &&& forall|x: int, y: int|
        is_corner_place(image, threshold, x, y) && scanned_before(x, y, lx, ly) ==> {
            let c = #[trigger] corner_at(image, x, y);
            corners.contains(c) || (corners.len() == limit && all_rank_before(corners, c))
        }
}

/// Adds `c` to a ranked list of at most `limit` corners and drops the
/// worst-ranked if the list outgrows `limit`.
fn keep_best(list: &mut Vec<Corner>, c: Corner, limit: usize)
    requires
        is_ranked(old(list)@),
        old(list)@.len() <= limit,
        forall|i: int|
            0 <= i < old(list)@.len() ==> scanned_before(
                (#[trigger] old(list)@[i]).x as int,
                old(list)@[i].y as int,
                c.x as int,
                c.y as int,
            ),
    ensures
        is_ranked(final(list)@),
        final(list)@.len() <= limit,
        forall|i: int|
            0 <= i < final(list)@.len() ==> (#[trigger] final(list)@[i]) == c || old(list)@.contains(final(list)@[i]),
        forall|e: Corner|
            (#[trigger] old(list)@.contains(e)) ==> final(list)@.contains(e) || (final(list)@.len() == limit && all_rank_before(final(list)@, e)),
        final(list)@.contains(c) || (final(list)@.len() == limit && all_rank_before(
            final(list)@,
            c,
        )),
        forall|e: Corner|
            old(list)@.len() == limit && #[trigger] all_rank_before(old(list)@, e) ==> final(list)@.len() == limit && all_rank_before(final(list)@, e),
{
    let ghost before = list@;
    let mut p: usize = 0;
    while p < list.len() && list[p].score >= c.score
        invariant
            list@ == before,
            p <= list@.len(),
            forall|i: int| 0 <= i < p ==> (#[trigger] list@[i]).score >= c.score,
        decreases list@.len() - p,
    {
        p += 1;
    }
    assert forall|i: int| p <= i < before.len() implies ranks_before(c, #[trigger] before[i]) by {
        if i > p {
            assert(ranks_before(before[p as int], before[i]));
        }
    }
    assert forall|i: int| 0 <= i < p implies ranks_before(#[trigger] before[i], c) by {}
    if p < limit {
        list.insert(p, c);
        let ghost grown = list@;
        assert(grown[p as int] == c);
        assert forall|i: int, j: int| 0 <= i < j < grown.len() implies ranks_before(
            #[trigger] grown[i],
            #[trigger] grown[j],
        ) by {
            if i < p && j > p {
                assert(grown[i] == before[i]);
                assert(grown[j] == before[j - 1]);
                if i < j - 1 {
                    assert(ranks_before(before[i], before[j - 1]));
                } else {
                }
            } else if i < p && j == p {
                assert(grown[i] == before[i]);
            } else if i < p && j < p {
                assert(grown[i] == before[i]);
                assert(grown[j] == before[j]);
            } else if i == p {
                assert(grown[j] == before[j - 1]);
            } else {
                assert(grown[i] == before[i - 1]);
                assert(grown[j] == before[j - 1]);
            }
        }
        assert forall|e: Corner| #[trigger] before.contains(e) implies grown.contains(e) by {
            let i = choose|i: int| 0 <= i < before.len() && before[i] == e;
            if i < p {
                assert(grown[i] == e);
            } else {
                assert(grown[i + 1] == e);
            }
        }
        assert forall|i: int| 0 <= i < grown.len() implies (#[trigger] grown[i]) == c
            || before.contains(grown[i]) by {
            if i < p {
                assert(grown[i] == before[i]);
            } else if i > p {
                assert(grown[i] == before[i - 1]);
            }
        }
        if list.len() > limit {
            let dropped = list.pop();
            let ghost last = grown[grown.len() - 1];
            assert(list@ =~= grown.drop_last());
            assert forall|i: int| 0 <= i < list@.len() implies ranks_before(
                #[trigger] list@[i],
                last,
            ) by {
                assert(list@[i] == grown[i]);
            }
            assert forall|e: Corner| #[trigger] before.contains(e) implies list@.contains(e) || (
            list@.len() == limit && all_rank_before(list@, e)) by {
                let i = choose|i: int| 0 <= i < grown.len() && grown[i] == e;
                if i < grown.len() - 1 {
                    assert(list@[i] == e);
                } else {
                    assert(e == last);
                }
            }
            assert(list@[p as int] == c);
            assert forall|e: Corner|
                before.len() == limit && #[trigger] all_rank_before(before, e) implies list@.len()
                == limit && all_rank_before(list@, e) by {
                assert forall|i: int| 0 <= i < list@.len() implies ranks_before(
                    #[trigger] list@[i],
                    e,
                ) by {
                    assert(list@[i] == grown[i]);
                    if i < p {
                        assert(grown[i] == before[i]);
                    } else if i == p {
                        assert(ranks_before(c, before[p as int]));
                        assert(ranks_before(before[p as int], e));
                    } else {
                        assert(grown[i] == before[i - 1]);
                    }
                }
            }
            assert forall|i: int| 0 <= i < list@.len() implies (#[trigger] list@[i]) == c
                || before.contains(list@[i]) by {
                assert(list@[i] == grown[i]);
            }
        } else {
            assert(grown.len() == before.len() + 1);
        }
    } else {
        assert(p == before.len());
    }
}

/// The gradient images give the same corner score as the image they were
/// taken from.
proof fn lemma_corner_score(grad_x: &GradientImage, grad_y: &GradientImage, image: &GrayImage, x: int, y: int)
    requires
        are_gradients_of(grad_x, grad_y, image),
        1 <= x < image.spec_width() - 1,
        1 <= y < image.spec_height() - 1,
    ensures
        harris_score(grad_x, grad_y, x, y, 1) == corner_score(image, x, y),
{
    let fxx = |i: int, j: int| grad_x.at(i, j) * grad_x.at(i, j);
    let fyy = |i: int, j: int| grad_y.at(i, j) * grad_y.at(i, j);
    let fxy = |i: int, j: int| grad_x.at(i, j) * grad_y.at(i, j);
    let gxx = |i: int, j: int| gradient_x(image, i, j) * gradient_x(image, i, j);
    let gyy = |i: int, j: int| gradient_y(image, i, j) * gradient_y(image, i, j);
    let gxy = |i: int, j: int| gradient_x(image, i, j) * gradient_y(image, i, j);
    assert forall|i: int, j: int| x - 1 <= i <= x + 1 && y - 1 <= j <= y + 1 implies #[trigger] fxx(
        i,
        j,
    ) == gxx(i, j) && #[trigger] fyy(i, j) == gyy(i, j) && #[trigger] fxy(i, j) == gxy(i, j) by {
        assert(image.in_bounds(i, j));
        assert(grad_x.at(i, j) == gradient_x(image, i, j));
        assert(grad_y.at(i, j) == gradient_y(image, i, j));
    }
    assert((2 * 1 + 1) * (2 * 1 + 1) == 9int) by (nonlinear_arith);
    lemma_window_sum_agrees(fxx, gxx, x, y, 1, 9);
    lemma_window_sum_agrees(fyy, gyy, x, y, 1, 9);
    lemma_window_sum_agrees(fxy, gxy, x, y, 1, 9);
}

impl AlignmentEngine {
    /// An engine that keeps at most 500 corners whose response exceeds 0.01
    /// and searches 50 pixels around the expected place of a template.
    pub fn new() -> (engine: AlignmentEngine)
        ensures
            engine.feature_threshold == 1,
            engine.max_features == 500,
            engine.search_radius == DEFAULT_SEARCH_RADIUS,
    {
        AlignmentEngine {
            feature_threshold: 1,
            max_features: 500,
            search_radius: DEFAULT_SEARCH_RADIUS,
        }
    }

    /// The corner places of `image` with the highest Harris responses, at
    /// most `max_features` of them, best first.
    pub fn detect_harris_corners(&self, image: &GrayImage) -> (corners: Vec<Corner>)
        requires
            image.wf(),
        ensures
            are_best_corners(
                image,
                self.feature_threshold,
                self.max_features as int,
                corners@,
                0,
                image.spec_height() as int,
            ),
    {
        let width: u32 = image.width();
        let height: u32 = image.height();
        let mut corners: Vec<Corner> = Vec::new();
        if width < 2 * CORNER_MARGIN + 1 || height < 2 * CORNER_MARGIN + 1 {
            return corners;
        }
        let (grad_x, grad_y) = self.calculate_gradients(image);
        let mut y: u32 = CORNER_MARGIN;
        assert(are_best_corners(
            image,
            self.feature_threshold,
            self.max_features as int,
            corners@,
            0,
            y as int,
        ));
        while y < height - CORNER_MARGIN
            invariant
                image.wf(),
                width == image.spec_width(),
                height == image.spec_height(),
                width >= 2 * CORNER_MARGIN + 1,
                height >= 2 * CORNER_MARGIN + 1,
                are_gradients_of(&grad_x, &grad_y, image),
                CORNER_MARGIN <= y <= height - CORNER_MARGIN,
                are_best_corners(
                    image,
                    self.feature_threshold,
                    self.max_features as int,
                    corners@,
                    0,
                    y as int,
                ),
            decreases height - y,
        {
            let mut x: u32 = CORNER_MARGIN;
            assert(are_best_corners(
                image,
                self.feature_threshold,
                self.max_features as int,
                corners@,
                x as int,
                y as int,
            ));
            while x < width - CORNER_MARGIN
                invariant
                    image.wf(),
                    width == image.spec_width(),
                    height == image.spec_height(),
                    width >= 2 * CORNER_MARGIN + 1,
                    height >= 2 * CORNER_MARGIN + 1,
                    are_gradients_of(&grad_x, &grad_y, image),
                    CORNER_MARGIN <= y < height - CORNER_MARGIN,
                    CORNER_MARGIN <= x <= width - CORNER_MARGIN,
                    are_best_corners(
                        image,
                        self.feature_threshold,
                        self.max_features as int,
                        corners@,
                        x as int,
                        y as int,
                    ),
                decreases width - x,
            {
                let score: i128 = self.calculate_harris_response(
                    &grad_x,
                    &grad_y,
                    x,
                    y,
                    CORNER_WINDOW,
                );
                proof {
                    lemma_corner_score(&grad_x, &grad_y, image, x as int, y as int);
                }
                let ghost before = corners@;
                let exceeds: bool = if score >= 0x2000_0000_0000_0000 {
                    true
                } else if score <= -0x2000_0000_0000_0000 {
                    false
                } else {
                    4 * score > self.feature_threshold as i128
                };
                if exceeds {
                    let corner = Corner { x, y, score };
                    assert(corner == corner_at(image, x as int, y as int));
                    keep_best(&mut corners, corner, self.max_features);
                }
                proof {
                    let after = corners@;
                    assert forall|px: int, py: int|
                        is_corner_place(image, self.feature_threshold, px, py) && scanned_before(
                            px,
                            py,
                            x as int + 1,
                            y as int,
                        ) implies {
                        let c = #[trigger] corner_at(image, px, py);
                        after.contains(c) || (after.len() == self.max_features as int
                            && all_rank_before(after, c))
                    } by {
                        let c = corner_at(image, px, py);
                        if px == x && py == y {
                        } else {
                            assert(scanned_before(px, py, x as int, y as int));
                            if before.contains(c) {
                            } else {
                                assert(all_rank_before(before, c));
                            }
                        }
                    }
                }
                x += 1;
            }
            y += 1;
        }
        corners
    }
}

} // verus!
