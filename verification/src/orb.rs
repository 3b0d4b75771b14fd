use vstd::prelude::*;

verus! {

/// `a - b`, or 0 when `b` exceeds `a`.
pub open spec fn sat_sub(a: int, b: int) -> int {
    if a >= b { a - b } else { 0 }
}

pub open spec fn max_int(a: int, b: int) -> int {
    if a >= b { a } else { b }
}

pub open spec fn min_int(a: int, b: int) -> int {
    if a <= b { a } else { b }
}

/// The content rectangle `(x, y, width, height)` of a `width` by `height` screenshot once
/// side, top and bottom bands are ignored; each band is at least `min_ignore` pixels.
pub open spec fn content_roi_spec(
    width: u32,
    height: u32,
    side_band: u32,
    top_band: u32,
    bottom_band: u32,
    min_ignore: u32,
) -> (int, int, int, int) {
    let side = max_int(side_band as int, min_ignore as int);
    let top = max_int(top_band as int, min_ignore as int);
    let bottom = max_int(bottom_band as int, min_ignore as int);
    let x = min_int(side, sat_sub(width as int, 1));
    let y = min_int(top, sat_sub(height as int, 1));
    let roi_w = max_int(sat_sub(width as int, 2 * x), 1);
    let roi_h = max_int(sat_sub(sat_sub(height as int, y), bottom), 1);
    (x, y, roi_w, roi_h)
}

/// When the bands fit, the content rectangle is what they leave: it starts after the
/// side band and the top band, is the width less both side bands, and the height less
/// the top and the bottom band (each band raised to `min_ignore`).
pub proof fn lemma_content_roi_leaves_the_bands(
    width: u32,
    height: u32,
    side_band: u32,
    top_band: u32,
    bottom_band: u32,
    min_ignore: u32,
)
    ensures
        ({
            let side: int = if side_band >= min_ignore { side_band as int } else { min_ignore as int };
            let top: int = if top_band >= min_ignore { top_band as int } else { min_ignore as int };
            let bottom: int = if bottom_band >= min_ignore { bottom_band as int } else { min_ignore as int };
            let roi = content_roi_spec(width, height, side_band, top_band, bottom_band, min_ignore);
            &&& 2 * side < width ==> roi.0 == side && roi.2 == width - 2 * side
            &&& top + bottom < height ==> roi.1 == top && roi.3 == height - top - bottom
            &&& 2 * side >= width ==> roi.2 == 1 && roi.0 == (if side < width { side } else if width
                >= 1 { width - 1 } else { 0 })
            &&& top + bottom >= height ==> roi.3 == 1 && roi.1 == (if top < height { top } else if height
                >= 1 { height - 1 } else { 0 })
            &&& roi.2 >= 1
            &&& roi.3 >= 1
        }),
{
}

/// The rectangle of a screenshot that excludes fixed bars: `side_band` columns on
/// each side, `top_band` rows at the top and `bottom_band` rows at the bottom, each band
/// at least `min_ignore` pixels. The rectangle is never empty and, for a non-empty
/// screenshot, lies inside it.
pub fn content_roi(
    width: u32,
    height: u32,
    side_band: u32,
    top_band: u32,
    bottom_band: u32,
    min_ignore: u32,
) -> (res: (u32, u32, u32, u32))
    ensures
        (res.0 as int, res.1 as int, res.2 as int, res.3 as int) == content_roi_spec(
            width,
            height,
            side_band,
            top_band,
            bottom_band,
            min_ignore,
        ),
        res.2 >= 1,
        res.3 >= 1,
        width >= 1 ==> res.0 + res.2 <= width,
        height >= 1 ==> res.1 + res.3 <= height,
        ({
            let side: int = if side_band >= min_ignore { side_band as int } else { min_ignore as int };
            let top: int = if top_band >= min_ignore { top_band as int } else { min_ignore as int };
            let bottom: int = if bottom_band >= min_ignore { bottom_band as int } else { min_ignore as int };
            &&& 2 * side < width ==> res.0 == side && res.2 == width - 2 * side
            &&& top + bottom < height ==> res.1 == top && res.3 == height - top - bottom
            &&& 2 * side >= width ==> res.2 == 1 && res.0 == (if side < width { side } else if width
                >= 1 { width - 1 } else { 0 })
            &&& top + bottom >= height ==> res.3 == 1 && res.1 == (if top < height { top } else if height
                >= 1 { height - 1 } else { 0 })
        }),
{
    proof {
        lemma_content_roi_leaves_the_bands(width, height, side_band, top_band, bottom_band, min_ignore);
    }
    let side: u32 = if side_band >= min_ignore { side_band } else { min_ignore };
    let top: u32 = if top_band >= min_ignore { top_band } else { min_ignore };
    let bottom: u32 = if bottom_band >= min_ignore { bottom_band } else { min_ignore };
    let last_col: u32 = width.saturating_sub(1);
    let last_row: u32 = height.saturating_sub(1);
    let x: u32 = if side <= last_col { side } else { last_col };
    let y: u32 = if top <= last_row { top } else { last_row };
    let both_sides: u32 = if x <= u32::MAX / 2 { x * 2 } else { u32::MAX };
    let roi_w_raw: u32 = width.saturating_sub(both_sides);
    let roi_w: u32 = if roi_w_raw >= 1 { roi_w_raw } else { 1 };
    let roi_h_raw: u32 = height.saturating_sub(y).saturating_sub(bottom);
    let roi_h: u32 = if roi_h_raw >= 1 { roi_h_raw } else { 1 };
    (x, y, roi_w, roi_h)
}

/// Whether two frames can be matched by feature points: same size, at least 80
/// columns and 120 rows.
pub fn orb_frames_usable(prev_width: u32, prev_height: u32, frame_width: u32, frame_height: u32) -> (res: bool)
    ensures
        res == (prev_width == frame_width && prev_height == frame_height && prev_width >= 80
            && prev_height >= 120),
{
    if prev_width != frame_width || prev_height != frame_height {
        return false;
    }
    if prev_width < 80 || prev_height < 120 {
        return false;
    }
    true
}

/// Whether both frames yielded enough feature points, and descriptors, to be matched.
pub fn enough_keypoints(
    prev_keypoints: usize,
    curr_keypoints: usize,
    prev_descriptors_empty: bool,
    curr_descriptors_empty: bool,
    min_keypoints: usize,
) -> (res: bool)
    ensures
        res == (prev_keypoints >= min_keypoints && curr_keypoints >= min_keypoints
            && !prev_descriptors_empty && !curr_descriptors_empty),
{
    !(prev_keypoints < min_keypoints || curr_keypoints < min_keypoints || prev_descriptors_empty
        || curr_descriptors_empty)
}

/// Number of nonzero entries in `mask`.
pub open spec fn nonzero_count(mask: Seq<u8>) -> nat
    decreases mask.len(),
{
    if mask.len() == 0 {
        0
    } else {
        nonzero_count(mask.drop_last()) + (if mask.last() != 0 { 1nat } else { 0nat })
    }
}

/// The recursive count of nonzero entries is the number of entries left after removing
/// the zero ones.
pub proof fn lemma_nonzero_count_is_filter_len(mask: Seq<u8>)
    ensures
        nonzero_count(mask) == mask.filter(|b: u8| b != 0).len(),
    decreases mask.len(),
{
    reveal_with_fuel(Seq::<_>::filter, 1);
    if mask.len() > 0 {
        lemma_nonzero_count_is_filter_len(mask.drop_last());
    }
}

/// Counts the matches that a robust fit marked as inliers (nonzero mask entries).
pub fn count_inliers(mask: &[u8]) -> (res: usize)
    ensures
        res == nonzero_count(mask@),
        res == mask@.filter(|b: u8| b != 0).len(),
        res <= mask@.len(),
        (forall|i: int| 0 <= i < mask@.len() ==> #[trigger] mask@[i] != 0) ==> res == mask@.len(),
        (forall|i: int| 0 <= i < mask@.len() ==> #[trigger] mask@[i] == 0) ==> res == 0,
{
    proof {
        lemma_nonzero_count_is_filter_len(mask@);
    }
    let mut count: usize = 0;
    let mut i: usize = 0;
    while i < mask.len()
        invariant
            i <= mask@.len(),
            count == nonzero_count(mask@.take(i as int)),
            count <= i,
            (forall|j: int| 0 <= j < mask@.len() ==> #[trigger] mask@[j] != 0) ==> count == i,
            (forall|j: int| 0 <= j < mask@.len() ==> #[trigger] mask@[j] == 0) ==> count == 0,
        decreases mask@.len() - i,
    {
        assert(mask@.take(i + 1).drop_last() =~= mask@.take(i as int));
        if mask[i] != 0 {
            count = count + 1;
        }
        i = i + 1;
    }
    assert(mask@.take(mask@.len() as int) =~= mask@);
    count
}

} // verus!
