//! Single-channel raster images held as plain row-major buffers.

use vstd::arithmetic::div_mod::lemma_fundamental_div_mod_converse;
use vstd::prelude::*;

verus! {

/// Largest number of pixels an image may hold: 4096 by 4096. Sheets are
/// analysed at the processing resolution (666 by 820 unless configured
/// otherwise), to which every scan is resized first, so the bound is one
/// on the processing resolution and not on the scans themselves; a larger
/// image has to be resized before it is handed to the library. The bound
/// keeps the sums that are taken over a whole image or patch (a
/// covariance of up to `65025 * n * n` for `n` pixels, and the products
/// in which two of them are compared) inside the 64 and 128 bits in which
/// they are computed.
pub const MAX_PIXELS: usize = 16_777_216;

/// An 8-bit grayscale image of at most `MAX_PIXELS` pixels, stored row by
/// row.
#[derive(Debug)]
pub struct GrayImage {
    pub(crate) width: u32,
    pub(crate) height: u32,
    pub(crate) data: Vec<u8>,
}

/// A raster of at most `MAX_PIXELS` signed 16-bit samples, stored row by
/// row.
#[derive(Debug)]
pub struct GradientImage {
    pub(crate) width: u32,
    pub(crate) height: u32,
    pub(crate) data: Vec<i16>,
}

/// The row-major position of `(x, y)` lies inside a `w` by `h` buffer.
pub proof fn lemma_index_in_range(x: int, y: int, w: int, h: int)
    requires
        0 <= x < w,
        0 <= y < h,
    ensures
        0 <= y * w + x < w * h,
        y * w + x < (y + 1) * w,
        (y + 1) * w <= w * h,
{
    assert(y * w + x < (y + 1) * w) by (nonlinear_arith)
        requires
            0 <= x < w,
    ;
    assert((y + 1) * w <= w * h) by (nonlinear_arith)
        requires
            0 <= y < h,
            0 < w,
    ;
    assert(0 <= y * w) by (nonlinear_arith)
        requires
            0 <= y,
            0 <= w,
    ;
}

/// A row-major position determines its column and row.
pub proof fn lemma_index_split(i: int, w: int)
    requires
        0 <= i,
        0 < w,
    ensures
        i == (i / w) * w + i % w,
        0 <= i % w < w,
        0 <= i / w,
{
    assert(i == (i / w) * w + i % w && 0 <= i % w < w && 0 <= i / w) by (nonlinear_arith)
        requires
            0 <= i,
            0 < w,
    ;
}

/// Column `x` of row `y` is where the row-major position `y * w + x` splits.
pub proof fn lemma_index_join(x: int, y: int, w: int)
    requires
        0 <= x < w,
        0 <= y,
    ensures
        (y * w + x) % w == x,
        (y * w + x) / w == y,
{
    lemma_fundamental_div_mod_converse(y * w + x, w, y, x);
}

/// A window inside an image holds no more pixels than the image.
pub proof fn lemma_window_area(w: int, h: int, width: int, height: int)
    requires
        0 <= w <= width,
        0 <= h <= height,
    ensures
        0 <= w * h <= width * height,
{
    assert(0 <= w * h <= width * height) by (nonlinear_arith)
        requires
            0 <= w <= width,
            0 <= h <= height,
    ;
}

/// The product of two 32-bit dimensions fits 64 bits.
pub proof fn lemma_area_fits(width: u32, height: u32)
    ensures
        0 <= width * height <= u64::MAX,
{
    assert(0 <= width * height <= 0xffff_ffff * 0xffff_ffff) by (nonlinear_arith)
        requires
            0 <= width <= 0xffff_ffff,
            0 <= height <= 0xffff_ffff,
    ;
}

impl GrayImage {
    /// The pixels in row-major order.
    pub open(crate) spec fn view(&self) -> Seq<u8> {
        self.data@
    }

    /// The number of columns.
    pub open(crate) spec fn spec_width(&self) -> u32 {
        self.width
    }

    /// The number of rows.
    pub open(crate) spec fn spec_height(&self) -> u32 {
        self.height
    }

    /// The buffer holds exactly `width * height` pixels, at most `MAX_PIXELS`.
    pub open(crate) spec fn wf(&self) -> bool {
        &&& self.data@.len() == self.width * self.height
        &&& self.data@.len() <= MAX_PIXELS
    }

    /// `(x, y)` is a place of the raster.
    pub open spec fn in_bounds(&self, x: int, y: int) -> bool {
        0 <= x < self.spec_width() && 0 <= y < self.spec_height()
    }

    /// The pixel in column `x` of row `y`.
    pub open spec fn at(&self, x: int, y: int) -> u8 {
        self@[y * self.spec_width() + x]
    }

    /// Two images with the same dimensions and pixels.
    pub open spec fn same_as(&self, other: &GrayImage) -> bool {
        &&& self.spec_width() == other.spec_width()
        &&& self.spec_height() == other.spec_height()
        &&& self@ == other@
    }

    /// The pixels of the `w` by `h` window whose top-left corner is
    /// `(x, y)`, row by row.
    pub open spec fn window(&self, x: int, y: int, w: int, h: int) -> Seq<u8> {
        Seq::new((w * h) as nat, |i: int| self.at(x + i % w, y + i / w))
    }

    /// What well-formedness says of the view.
    pub proof fn lemma_wf(&self)
        requires
            self.wf(),
        ensures
            self@.len() == self.spec_width() * self.spec_height(),
            self@.len() <= MAX_PIXELS,
    {
    }

    /// An image with a pixel in it is no wider and no taller than
    /// `MAX_PIXELS`.
    pub proof fn lemma_sides_bounded(&self)
        requires
            self.wf(),
            self.spec_width() > 0,
            self.spec_height() > 0,
        ensures
            self.spec_width() <= MAX_PIXELS,
            self.spec_height() <= MAX_PIXELS,
    {
        let w = self.spec_width() as int;
        let h = self.spec_height() as int;
        assert(w <= w * h && h <= w * h) by (nonlinear_arith)
            requires
                w > 0,
                h > 0,
        ;
    }

    /// Wraps a row-major buffer; `None` when the buffer does not hold
    /// `width * height` pixels or holds more than `MAX_PIXELS`.
    pub fn from_raw(width: u32, height: u32, data: Vec<u8>) -> (r: Option<GrayImage>)
        ensures
            r is Some <==> (data@.len() == width * height && data@.len() <= MAX_PIXELS),
            r matches Some(img) ==> img.wf() && img.spec_width() == width && img.spec_height()
                == height && img@ == data@,
    {
        proof {
            lemma_area_fits(width, height);
        }
        let area: u64 = (width as u64) * (height as u64);
        if area <= MAX_PIXELS as u64 && data.len() as u64 == area {
            Some(GrayImage { width, height, data })
        } else {
            None
        }
    }

    /// An image with every pixel set to `value`; `None` when it would hold
    /// more than `MAX_PIXELS`.
    pub fn filled(width: u32, height: u32, value: u8) -> (r: Option<GrayImage>)
        ensures
            r is Some <==> width * height <= MAX_PIXELS,
            r matches Some(img) ==> img.wf() && img.spec_width() == width && img.spec_height()
                == height && forall|i: int| 0 <= i < img@.len() ==> img@[i] == value,
    {
        proof {
            lemma_area_fits(width, height);
        }
        let area: u64 = (width as u64) * (height as u64);
        if area > MAX_PIXELS as u64 {
            return None;
        }
        let n: usize = area as usize;
        let mut data: Vec<u8> = Vec::new();
        let mut i: usize = 0;
        while i < n
            invariant
                i <= n,
                data@.len() == i,
                forall|k: int| 0 <= k < i ==> data@[k] == value,
            decreases n - i,
        {
            data.push(value);
            i += 1;
        }
        Some(GrayImage { width, height, data })
    }

    /// The number of columns.
    #[verifier::when_used_as_spec(spec_width)]
    pub fn width(&self) -> (w: u32)
        ensures
            w == self.spec_width(),
    {
        self.width
    }

    /// The number of rows.
    #[verifier::when_used_as_spec(spec_height)]
    pub fn height(&self) -> (h: u32)
        ensures
            h == self.spec_height(),
    {
        self.height
    }

    /// The number of pixels.
    pub fn pixel_count(&self) -> (n: usize)
        ensures
            n == self@.len(),
    {
        self.data.len()
    }

    /// The pixel in column `x` of row `y`.
    pub fn get_pixel(&self, x: u32, y: u32) -> (p: u8)
        requires
            self.wf(),
            self.in_bounds(x as int, y as int),
        ensures
            p == self.at(x as int, y as int),
    {
        proof {
            lemma_index_in_range(x as int, y as int, self.width as int, self.height as int);
        }
        let idx: usize = (y as usize) * (self.width as usize) + (x as usize);
        self.data[idx]
    }

    /// The pixel in column `x` of row `y`, or `None` outside the image.
    pub fn get_pixel_checked(&self, x: u32, y: u32) -> (p: Option<u8>)
        requires
            self.wf(),
        ensures
            p == if self.in_bounds(x as int, y as int) {
                Some(self.at(x as int, y as int))
            } else {
                None
            },
    {
        if x < self.width && y < self.height {
            Some(self.get_pixel(x, y))
        } else {
            None
        }
    }

    /// The pixel at row-major position `i`.
    pub fn get(&self, i: usize) -> (p: u8)
        requires
            i < self@.len(),
        ensures
            p == self@[i as int],
    {
        self.data[i]
    }

    /// A copy of the image.
    pub fn duplicate(&self) -> (out: GrayImage)
        ensures
            out.same_as(self),
            self.wf() ==> out.wf(),
    {
        let mut data: Vec<u8> = Vec::new();
        let n: usize = self.data.len();
        let mut i: usize = 0;
        while i < n
            invariant
                n == self.data@.len(),
                i <= n,
                data@ == self.data@.subrange(0, i as int),
            decreases n - i,
        {
            data.push(self.data[i]);
            i += 1;
        }
        assert(data@ == self.data@);
        GrayImage { width: self.width, height: self.height, data }
    }

    /// A copy of the `w` by `h` window whose top-left corner is `(x, y)`.
    pub fn crop(&self, x: u32, y: u32, w: u32, h: u32) -> (out: GrayImage)
        requires
            self.wf(),
            x + w <= self.spec_width(),
            y + h <= self.spec_height(),
        ensures
            out.wf(),
            out.spec_width() == w,
            out.spec_height() == h,
            out@ == self.window(x as int, y as int, w as int, h as int),
    {
        proof {
            lemma_window_area(w as int, h as int, self.width as int, self.height as int);
        }
        let mut data: Vec<u8> = Vec::new();
        let mut cy: u32 = 0;
        while cy < h
            invariant
                self.wf(),
                x + w <= self.width,
                y + h <= self.height,
                w * h <= MAX_PIXELS,
                cy <= h,
                data@.len() == cy * w,
                forall|k: int|
                    0 <= k < data@.len() ==> data@[k] == self.at(x + k % (w as int), y + k / (w as int)),
            decreases h - cy,
        {
            let mut cx: u32 = 0;
            while cx < w
                invariant
                    self.wf(),
                    x + w <= self.width,
                    y + h <= self.height,
                    w * h <= MAX_PIXELS,
                    cy < h,
                    cx <= w,
                    data@.len() == cy * w + cx,
                    forall|k: int|
                        0 <= k < data@.len() ==> data@[k] == self.at(
                            x + k % (w as int),
                            y + k / (w as int),
                        ),
                decreases w - cx,
            {
                proof {
                    lemma_index_join(cx as int, cy as int, w as int);
                    lemma_index_in_range(cx as int, cy as int, w as int, h as int);
                }
                data.push(self.get_pixel(x + cx, y + cy));
                cx += 1;
            }
            proof {
                assert(cy * w + w == (cy + 1) * w) by (nonlinear_arith);
            }
            cy += 1;
        }
        assert(h * w == w * h) by (nonlinear_arith);
        assert(data@ =~= self.window(x as int, y as int, w as int, h as int));
        GrayImage { width: w, height: h, data }
    }

    /// Gives up the image for its row-major buffer.
    pub fn into_raw(self) -> (data: Vec<u8>)
        ensures
            data@ == self@,
    {
        self.data
    }
}

impl GradientImage {
    /// Wraps a row-major buffer; `None` when the buffer does not hold
    /// `width * height` samples or holds more than `MAX_PIXELS`.
    pub fn from_raw(width: u32, height: u32, data: Vec<i16>) -> (r: Option<GradientImage>)
        ensures
            r is Some <==> (data@.len() == width * height && data@.len() <= MAX_PIXELS),
            r matches Some(img) ==> img.wf() && img.spec_width() == width && img.spec_height()
                == height && img@ == data@,
    {
        proof {
            lemma_area_fits(width, height);
        }
        let area: u64 = (width as u64) * (height as u64);
        if area <= MAX_PIXELS as u64 && data.len() as u64 == area {
            Some(GradientImage { width, height, data })
        } else {
            None
        }
    }

    /// The samples in row-major order.
    pub open(crate) spec fn view(&self) -> Seq<i16> {
        self.data@
    }

    /// The number of columns.
    pub open(crate) spec fn spec_width(&self) -> u32 {
        self.width
    }

    /// The number of rows.
    pub open(crate) spec fn spec_height(&self) -> u32 {
        self.height
    }

    /// The buffer holds exactly `width * height` samples, at most `MAX_PIXELS`.
    pub open(crate) spec fn wf(&self) -> bool {
        &&& self.data@.len() == self.width * self.height
        &&& self.data@.len() <= MAX_PIXELS
    }

    /// `(x, y)` is a place of the raster.
    pub open spec fn in_bounds(&self, x: int, y: int) -> bool {
        0 <= x < self.spec_width() && 0 <= y < self.spec_height()
    }

    /// The sample in column `x` of row `y`.
    pub open spec fn at(&self, x: int, y: int) -> i16 {
        self@[y * self.spec_width() + x]
    }

    /// The number of columns.
    #[verifier::when_used_as_spec(spec_width)]
    pub fn width(&self) -> (w: u32)
        ensures
            w == self.spec_width(),
    {
        self.width
    }

    /// The number of rows.
    #[verifier::when_used_as_spec(spec_height)]
    pub fn height(&self) -> (h: u32)
        ensures
            h == self.spec_height(),
    {
        self.height
    }

    /// The sample in column `x` of row `y`.
    pub fn get_pixel(&self, x: u32, y: u32) -> (p: i16)
        requires
            self.wf(),
            self.in_bounds(x as int, y as int),
        ensures
            p == self.at(x as int, y as int),
    {
        proof {
            lemma_index_in_range(x as int, y as int, self.width as int, self.height as int);
        }
        let idx: usize = (y as usize) * (self.width as usize) + (x as usize);
        self.data[idx]
    }
}

} // verus!
