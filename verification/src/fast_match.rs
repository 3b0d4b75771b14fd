use vstd::prelude::*;
use vstd::arithmetic::div_mod::{lemma_div_is_ordered, lemma_fundamental_div_mod, lemma_mod_bound};

use crate::frame::GrayFrame;

verus! {

/// A detected feature point: its pixel position and its detector score, the latter
/// kept as the bit pattern of the `f32` it stands for.
#[derive(Clone, Copy, Debug, PartialEq, Eq, Structural)]
pub struct Corner {
    pub x: u32,
    pub y: u32,
    pub score_bits: u32,
}

/// Stride used to thin out `len` corners to at most `max_corners`.
pub open spec fn downsample_step(len: int, max_corners: int) -> int {
    len / max_corners + 1
}

/// Every `step`-th corner, starting with the first.
pub open spec fn every_nth(corners: Seq<Corner>, step: int) -> Seq<Corner> {
    Seq::new(((corners.len() - 1) / step + 1) as nat, |k: int| corners[k * step])
}

/// Keeping every `len / max + 1`-th of `len > max` items keeps at most `max` of them.
pub proof fn lemma_every_nth_len(len: int, max: int)
    requires
        0 < max < len,
    ensures
        (len - 1) / downsample_step(len, max) + 1 <= max,
        downsample_step(len, max) >= 1,
{
    let step = downsample_step(len, max);
    let q = len / max;
    lemma_fundamental_div_mod(len, max);
    lemma_mod_bound(len, max);
    lemma_div_is_ordered(0, len, max);
    assert(0int / max == 0);
    assert(len - 1 < max * step) by (nonlinear_arith)
        requires len == max * q + len % max, 0 <= len % max < max, step == q + 1;
    let r = (len - 1) / step;
    lemma_fundamental_div_mod(len - 1, step);
    lemma_mod_bound(len - 1, step);
    assert(r <= max - 1) by (nonlinear_arith)
        requires
            len - 1 == step * r + (len - 1) % step,
            0 <= (len - 1) % step,
            len - 1 < max * step,
            step >= 1,
    ;
}

/// Thins `corners` to at most `max_corners` by keeping every `len / max_corners + 1`-th
/// one, first included; a list that already fits is returned as it is, and a limit of
/// zero keeps none.
pub fn downsample_corners(corners: Vec<Corner>, max_corners: usize) -> (res: Vec<Corner>)
    requires
        corners.len() < usize::MAX,
    ensures
        corners.len() <= max_corners ==> res@ == corners@,
        max_corners == 0 ==> res@.len() == 0,
        corners.len() > max_corners > 0 ==> {
            let step = corners.len() / max_corners + 1;
            &&& res.len() == (corners.len() - 1) / step + 1
            &&& forall|k: int| 0 <= k < res.len() ==> #[trigger] res[k] == corners[k * step]
            &&& res[0] == corners[0]
        },
        corners.len() > max_corners > 0 ==> res@ == every_nth(
            corners@,
            downsample_step(corners.len() as int, max_corners as int),
        ),
        res.len() <= max_corners,
{
    let len = corners.len();
    if len <= max_corners {
        return corners;
    }
    if max_corners == 0 {
        return Vec::new();
    }
    let step: usize = len / max_corners + 1;
    proof {
        lemma_every_nth_len(len as int, max_corners as int);
    }
    let count: usize = (len - 1) / step + 1;
    let mut res: Vec<Corner> = Vec::new();
    let mut k: usize = 0;
    while k < count
        invariant
            step >= 1,
            len == corners.len(),
            len >= 1,
            count as int == (len as int - 1) / (step as int) + 1,
            k <= count,
            res.len() == k,
            forall|j: int| 0 <= j < k ==> #[trigger] res@[j] == corners@[j * step],
        decreases count - k,
    {
        proof {
            let gl = len as int;
            let gs = step as int;
            let gk = k as int;
            let gc = count as int;
            lemma_fundamental_div_mod(gl - 1, gs);
            lemma_mod_bound(gl - 1, gs);
            assert(gk * gs <= gl - 1) by (nonlinear_arith)
                requires
                    gk < gc,
                    gc == (gl - 1) / gs + 1,
                    gl - 1 == gs * ((gl - 1) / gs) + (gl - 1) % gs,
                    0 <= (gl - 1) % gs,
                    gs >= 1,
                    gk >= 0,
            ;
        }
        let idx: usize = k * step;
        res.push(corners[idx]);
        k = k + 1;
    }
    assert(res@ =~= every_nth(corners@, step as int));
    res
}

/// Whether `corner` lies on the current frame and its pixel changed by at least
/// `threshold` since the previous frame.
pub open spec fn corner_moved(corner: Corner, gray: GrayFrame, prev_gray: GrayFrame, threshold: u8) -> bool {
    &&& corner.x < gray.width
    &&& corner.y < gray.height
    &&& {
        let curr = gray.spec_pixel(corner.x as int, corner.y as int) as int;
        let prev = prev_gray.spec_pixel(corner.x as int, corner.y as int) as int;
        (if curr >= prev { curr - prev } else { prev - curr }) >= threshold
    }
}

/// The absolute difference of two pixel values.
pub open spec fn pixel_gap(a: u8, b: u8) -> int {
    if a >= b { a - b } else { b - a }
}

/// Filtering keeps every corner that lies on the current frame and whose pixel changed
/// by at least `threshold`, however large the change, and keeps nothing else: every kept
/// corner is an input corner on the frame whose pixel changed by at least `threshold`.
pub proof fn lemma_filter_keeps_exactly_moved_corners(
    corners: Seq<Corner>,
    gray: GrayFrame,
    prev_gray: GrayFrame,
    threshold: u8,
)
    ensures
        ({
            let kept = corners.filter(|c: Corner| corner_moved(c, gray, prev_gray, threshold));
            &&& forall|k: int|
                0 <= k < corners.len() && (#[trigger] corners[k]).x < gray.width && corners[k].y
                    < gray.height && pixel_gap(
                    gray.spec_pixel(corners[k].x as int, corners[k].y as int),
                    prev_gray.spec_pixel(corners[k].x as int, corners[k].y as int),
                ) >= threshold ==> kept.contains(corners[k])
            &&& forall|k: int|
                0 <= k < kept.len() ==> {
                    &&& (#[trigger] kept[k]).x < gray.width
                    &&& kept[k].y < gray.height
                    &&& pixel_gap(
                        gray.spec_pixel(kept[k].x as int, kept[k].y as int),
                        prev_gray.spec_pixel(kept[k].x as int, kept[k].y as int),
                    ) >= threshold
                    &&& corners.contains(kept[k])
                }
        }),
{
    let pred = |c: Corner| corner_moved(c, gray, prev_gray, threshold);
    let kept = corners.filter(pred);
    assert forall|k: int|
        0 <= k < corners.len() && (#[trigger] corners[k]).x < gray.width && corners[k].y
            < gray.height && pixel_gap(
            gray.spec_pixel(corners[k].x as int, corners[k].y as int),
            prev_gray.spec_pixel(corners[k].x as int, corners[k].y as int),
        ) >= threshold implies kept.contains(corners[k]) by {
        assert(pred(corners[k]));
        corners.lemma_filter_contains(pred, k);
    }
    assert forall|k: int| 0 <= k < kept.len() implies {
        &&& (#[trigger] kept[k]).x < gray.width
        &&& kept[k].y < gray.height
        &&& pixel_gap(
            gray.spec_pixel(kept[k].x as int, kept[k].y as int),
            prev_gray.spec_pixel(kept[k].x as int, kept[k].y as int),
        ) >= threshold
        &&& corners.contains(kept[k])
    } by {
        corners.lemma_filter_pred(pred, k);
        assert(kept.contains(kept[k]));
        corners.lemma_filter_contains_rev(pred, kept[k]);
    }
}

/// Keeps, in order, the corners that lie on `gray` and whose pixel differs from the
/// same pixel of `prev_gray` by at least `threshold`; static screen parts drop out.
pub fn filter_corners_by_diff(
    corners: &[Corner],
    gray: &GrayFrame,
    prev_gray: &GrayFrame,
    threshold: u8,
) -> (res: Vec<Corner>)
    requires
        gray.wf(),
        prev_gray.wf(),
        forall|k: int|
            0 <= k < corners@.len() && #[trigger] corners@[k].x < gray.width && corners@[k].y
                < gray.height ==> corners@[k].x < prev_gray.width && corners@[k].y < prev_gray.height,
    ensures
        res@ == corners@.filter(|c: Corner| corner_moved(c, *gray, *prev_gray, threshold)),
        forall|k: int|
            0 <= k < corners@.len() && (#[trigger] corners@[k]).x < gray.width && corners@[k].y
                < gray.height && pixel_gap(
                gray.spec_pixel(corners@[k].x as int, corners@[k].y as int),
                prev_gray.spec_pixel(corners@[k].x as int, corners@[k].y as int),
            ) >= threshold ==> res@.contains(corners@[k]),
        forall|k: int|
            0 <= k < res@.len() ==> {
                &&& (#[trigger] res@[k]).x < gray.width
                &&& res@[k].y < gray.height
                &&& pixel_gap(
                    gray.spec_pixel(res@[k].x as int, res@[k].y as int),
                    prev_gray.spec_pixel(res@[k].x as int, res@[k].y as int),
                ) >= threshold
                &&& corners@.contains(res@[k])
            },
{
    proof {
        lemma_filter_keeps_exactly_moved_corners(corners@, *gray, *prev_gray, threshold);
    }
    let ghost pred = |c: Corner| corner_moved(c, *gray, *prev_gray, threshold);
    let mut res: Vec<Corner> = Vec::new();
    let n = corners.len();
    let mut i: usize = 0;
    while i < n
        invariant
            n == corners@.len(),
            i <= n,
            gray.wf(),
            prev_gray.wf(),
            pred == (|c: Corner| corner_moved(c, *gray, *prev_gray, threshold)),
            forall|k: int|
                0 <= k < corners@.len() && #[trigger] corners@[k].x < gray.width && corners@[k].y
                    < gray.height ==> corners@[k].x < prev_gray.width && corners@[k].y
                    < prev_gray.height,
            res@ == corners@.take(i as int).filter(pred),
        decreases n - i,
    {
        let c = corners[i];
        let mut keep = false;
        if c.x < gray.width && c.y < gray.height {
            let curr = gray.pixel(c.x, c.y);
            let prev = prev_gray.pixel(c.x, c.y);
            let diff: u8 = if curr >= prev { curr - prev } else { prev - curr };
            keep = diff >= threshold;
        }
        assert(keep == pred(c));
        if keep {
            res.push(c);
        }
        proof {
            reveal_with_fuel(Seq::<_>::filter, 1);
            assert(corners@.take(i + 1).drop_last() =~= corners@.take(i as int));
        }
        i = i + 1;
    }
    assert(corners@.take(n as int) =~= corners@);
    res
}

/// Every pixel of the `new_width`-wide image `out` (rows kept) is a copy of a pixel of
/// the same row of the `width`-wide image `src`.
pub open spec fn copies_source_rows(out: Seq<u8>, src: Seq<u8>, width: u32, new_width: u32, height: u32) -> bool {
    forall|x: int, y: int|
        #![trigger raster_at(out, new_width as int, x, y)]
        0 <= x < new_width && 0 <= y < height ==> exists|sx: int|
            #![trigger raster_at(src, width as int, sx, y)]
            0 <= sx < width && raster_at(out, new_width as int, x, y) == raster_at(
                src,
                width as int,
                sx,
                y,
            )
}

/// The byte at column `x`, row `y` of a row-major raster `width` bytes wide.
pub open spec fn raster_at(img: Seq<u8>, width: int, x: int, y: int) -> u8 {
    img[y * width + x]
}

/// The bytes of the gray image `pixels` (`width` by `height`, row-major) after
/// nearest-neighbour resampling to `new_width` by `new_height`.
pub uninterp spec fn nearest_resize_gray(
    pixels: Seq<u8>,
    width: u32,
    height: u32,
    new_width: u32,
    new_height: u32,
) -> Seq<u8>;

/// Resamples a gray image with `image::imageops::resize` and `FilterType::Nearest`.
/// Trusted: the result is the named resampling of the arguments and holds one byte
/// per pixel of the new size; when the height is kept, at most 8388610 rows (where
/// every single-precision row centre, clamped to the last row, still selects its own
/// row), each output pixel is a copy of a source pixel of the same row. Which source
/// column each pixel takes is not stated.
#[verifier::external_body]
fn resize_gray_nearest(
    pixels: Vec<u8>,
    width: u32,
    height: u32,
    new_width: u32,
    new_height: u32,
) -> (res: Vec<u8>)
    requires
        pixels@.len() == width as int * height as int,
        4 * (width as int) * (new_height as int) <= usize::MAX,
        new_width as int * height as int <= usize::MAX,
        new_width as int * new_height as int <= usize::MAX,
    ensures
        res@ == nearest_resize_gray(pixels@, width, height, new_width, new_height),
        res@.len() == new_width as int * new_height as int,
        copies_source_rows(res@, pixels@, width, new_width, height) || !(width >= 1 && new_height
            == height && height <= 8388610),
{
    let img = image::GrayImage::from_raw(width, height, pixels).unwrap();
    image::imageops::resize(&img, new_width, new_height, image::imageops::FilterType::Nearest)
        .into_raw()
}

/// Narrows a gray screenshot to `target_width` columns by nearest-neighbour
/// resampling, keeping its height and rows: each pixel of the result copies a pixel of
/// the same row (for frames of at most 8388610 rows). A zero target, or a frame already
/// no wider than the target, is returned unchanged.
pub fn prepare_fast_gray(gray: GrayFrame, target_width: u32) -> (res: GrayFrame)
    requires
        gray.wf(),
        target_width > 0 && gray.width > target_width ==> 4 * (gray.width as int) * (
        gray.height as int) <= usize::MAX,
    ensures
        res.wf(),
        res.height == gray.height,
        target_width == 0 || gray.width <= target_width ==> res == gray,
        target_width > 0 && gray.width > target_width ==> {
            &&& res.width == target_width
            &&& gray.height <= 8388610 ==> copies_source_rows(
                res.pixels@,
                gray.pixels@,
                gray.width,
                target_width,
                gray.height,
            )
            &&& res.pixels@ == nearest_resize_gray(
                gray.pixels@,
                gray.width,
                gray.height,
                target_width,
                gray.height,
            )
        },
{
    let width = gray.width;
    if target_width == 0 || width <= target_width {
        return gray;
    }
    let at_least_one: u32 = if target_width >= 1 { target_width } else { 1 };
    let new_width: u32 = if at_least_one <= width { at_least_one } else { width };
    let height = gray.height;
    proof {
        assert(new_width as int * height as int <= width as int * height as int) by (nonlinear_arith)
            requires new_width <= width, height >= 0;
        assert(width as int * height as int <= 4 * (width as int) * (height as int)) by (nonlinear_arith)
            requires width >= 0, height >= 0;
    }
    let pixels = resize_gray_nearest(gray.pixels, width, height, new_width, height);
    GrayFrame { width: new_width, height, pixels }
}

} // verus!
