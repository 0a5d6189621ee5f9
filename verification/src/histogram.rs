//! Intensity histograms of image windows.

use crate::raster::{lemma_index_in_range, lemma_index_join, lemma_window_area, GrayImage, MAX_PIXELS};
use vstd::prelude::*;

verus! {

/// The number of pixels of `s` equal to `v`.
pub open spec fn count_equal(s: Seq<u8>, v: int) -> nat
    decreases s.len(),
{
    if s.len() == 0 {
        0
    } else if s.last() == v {
        count_equal(s.drop_last(), v) + 1
    } else {
        count_equal(s.drop_last(), v)
    }
}

/// The number of pixels of `s` less than `v`.
pub open spec fn count_below(s: Seq<u8>, v: int) -> nat
    decreases s.len(),
{
    if s.len() == 0 {
        0
    } else if s.last() < v {
        count_below(s.drop_last(), v) + 1
    } else {
        count_below(s.drop_last(), v)
    }
}

/// Counting below `v + 1` adds the pixels equal to `v`; no count exceeds
/// the number of pixels.
pub proof fn lemma_count_step(s: Seq<u8>, v: int)
    ensures
        count_below(s, v + 1) == count_below(s, v) + count_equal(s, v),
        count_below(s, v) <= s.len(),
        count_equal(s, v) <= s.len(),
    decreases s.len(),
{
    if s.len() > 0 {
        lemma_count_step(s.drop_last(), v);
    }
}

/// No pixel is below 0 and every pixel is below 256.
pub proof fn lemma_count_ends(s: Seq<u8>)
    ensures
        count_below(s, 0) == 0,
        count_below(s, 256) == s.len(),
    decreases s.len(),
{
    if s.len() > 0 {
        lemma_count_ends(s.drop_last());
    }
}

/// `hist` counts, for each intensity, the pixels of `s` that have it.
pub open spec fn is_histogram_of(hist: Seq<usize>, s: Seq<u8>) -> bool {
    &&& hist.len() == 256
    &&& forall|v: int| 0 <= v < 256 ==> #[trigger] hist[v] == count_equal(s, v)
}

/// A histogram of zeros.
pub fn empty_histogram() -> (hist: Vec<usize>)
    ensures
        is_histogram_of(hist@, Seq::empty()),
{
    let mut hist: Vec<usize> = Vec::new();
    let mut i: usize = 0;
    while i < 256
        invariant
            i <= 256,
            hist@.len() == i,
            forall|v: int| 0 <= v < i ==> hist@[v] == 0,
        decreases 256 - i,
    {
        hist.push(0);
        i += 1;
    }
    hist
}

/// The histogram of the `w` by `h` window of `image` at `(x, y)`.
pub fn window_histogram(image: &GrayImage, x: u32, y: u32, w: u32, h: u32) -> (hist: Vec<usize>)
    requires
        image.wf(),
        x + w <= image.spec_width(),
        y + h <= image.spec_height(),
    ensures
        is_histogram_of(hist@, image.window(x as int, y as int, w as int, h as int)),
{
    let ghost win = image.window(x as int, y as int, w as int, h as int);
    proof {
        lemma_window_area(
            w as int,
            h as int,
            image.spec_width() as int,
            image.spec_height() as int,
        );
        image.lemma_wf();
    }
    let mut hist: Vec<usize> = empty_histogram();
    assert(win.take(0) =~= Seq::<u8>::empty());
    let mut cy: u32 = 0;
    while cy < h
        invariant
            image.wf(),
            x + w <= image.spec_width(),
            y + h <= image.spec_height(),
            win == image.window(x as int, y as int, w as int, h as int),
            win.len() == w * h,
            win.len() <= MAX_PIXELS,
            cy <= h,
            is_histogram_of(hist@, win.take(cy * w)),
        decreases h - cy,
    {
        let mut cx: u32 = 0;
        while cx < w
            invariant
                image.wf(),
                x + w <= image.spec_width(),
                y + h <= image.spec_height(),
                win == image.window(x as int, y as int, w as int, h as int),
                win.len() == w * h,
                win.len() <= MAX_PIXELS,
                cy < h,
                cx <= w,
                is_histogram_of(hist@, win.take(cy * w + cx)),
            decreases w - cx,
        {
            let ghost k = cy * w + cx;
            proof {
                lemma_index_join(cx as int, cy as int, w as int);
                lemma_index_in_range(cx as int, cy as int, w as int, h as int);
                lemma_count_step(win.take(k), 0);
            }
            let value: u8 = image.get_pixel(x + cx, y + cy);
            let ghost before = hist@;
            proof {
                assert(value == win[k]);
                lemma_count_step(win.take(k), value as int);
            }
            let count: usize = hist[value as usize];
            hist.set(value as usize, count + 1);
            proof {
                assert(win.take(k + 1).drop_last() =~= win.take(k));
                assert(win.take(k + 1).last() == value);
                assert forall|v: int| 0 <= v < 256 implies #[trigger] hist@[v] == count_equal(
                    win.take(k + 1),
                    v,
                ) by {
                    assert(before[v] == count_equal(win.take(k), v));
                }
            }
            cx += 1;
        }
        proof {
            assert(cy * w + w == (cy + 1) * w) by (nonlinear_arith);
        }
        cy += 1;
    }
    proof {
        assert(h * w == w * h) by (nonlinear_arith);
        assert(win.take(h * w) =~= win);
    }
    hist
}

} // verus!
