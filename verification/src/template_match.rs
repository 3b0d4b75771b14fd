use vstd::prelude::*;

use crate::frame::lemma_region_index_in_image;
use crate::orb::content_roi_spec;
use crate::search::{predict_offset_iter, search_center, search_rank};

verus! {

/// Height of the template strip cut from a content area `roi_h` rows tall: a third of
/// it, at least `min_height`, but leaving at least one row to slide over.
pub open spec fn template_height(roi_h: int, min_height: int) -> int {
    let third = roi_h / 3;
    let at_least = if third >= min_height { third } else { min_height };
    if at_least <= roi_h - 1 { at_least } else { roi_h - 1 }
}

/// Largest offset the template search tries: the smaller of the search range and the
/// largest offset that still leaves `min_overlap` rows of a `height`-row frame overlapping
/// (0 when the frame has fewer rows than that).
pub open spec fn template_offset_limit(height: int, min_overlap: int, range: int) -> int {
    let max_offset = if height - min_overlap >= 0 { height - min_overlap } else { 0 };
    if max_offset <= range { max_offset } else { range }
}

/// Where the template search starts: the prediction pulled into `0..=limit`.
pub open spec fn template_start_offset(predict: int, limit: int) -> int {
    if predict < 0 { 0 } else if predict > limit { limit } else { predict }
}

/// The template is a third of the content height, at least the minimum height, but
/// shorter than the content area; the offsets tried run from 0 up to the smaller of the
/// room the strip has below it in the content area and the largest offset that keeps
/// `min_overlap` rows overlapping; the search starts at the prediction clamped into them.
pub proof fn lemma_template_search_extent(
    height: int,
    min_overlap: int,
    roi_h: int,
    min_height: int,
    predict: int,
)
    requires
        roi_h >= 1,
        min_height >= 0,
    ensures
        ({
            let third = roi_h / 3;
            let grown = if third >= min_height { third } else { min_height };
            let th = if grown <= roi_h - 1 { grown } else { roi_h - 1 };
            let keep = if height >= min_overlap { height - min_overlap } else { 0 };
            let last = if keep <= roi_h - th { keep } else { roi_h - th };
            &&& template_height(roi_h, min_height) == th
            &&& 0 <= th < roi_h
            &&& template_offset_limit(height, min_overlap, roi_h - th) == last
            &&& template_start_offset(predict, last) == (if predict < 0 {
                0
            } else if predict > last {
                last
            } else {
                predict
            })
        }),
{
}

/// Whether some candidate compares at offset `v`.
pub open spec fn has_offset(candidates: Seq<(i32, u32)>, v: int) -> bool {
    exists|k: int| 0 <= k < candidates.len() && #[trigger] candidates[k].0 == v
}

/// The integer side of a template search: the strip of the current frame used as
/// template and the rows of the previous frame it is compared against, in search order.
pub struct TemplatePlan {
    pub roi_x: u32,
    pub roi_w: u32,
    pub template_y: u32,
    pub template_h: u32,
    pub search_start: i32,
    /// `(offset, row)` pairs: the template is compared with the previous frame's strip
    /// starting at `row == search_start + offset`.
    pub candidates: Vec<(i32, u32)>,
}

/// Whether a template `th` rows tall placed at row `roi_y + offset` still ends inside
/// a frame `height` rows tall.
pub open spec fn template_fits(roi_y: int, offset: int, th: int, height: int) -> bool {
    roi_y + offset + th <= height
}

/// Plans the template-matching fallback between two frames.
///
/// The template is a strip at the top of the content area `roi` of the current frame;
/// it is slid down the previous frame's content area, nearest to `predict` first, over
/// the offsets that leave at least `min_overlap` rows of the frames overlapping (only
/// offset 0 when the frames are shorter than that), skipping placements that would run
/// past the bottom of the frame.
/// `None` when the frames differ in size or the content area is too small (fewer than
/// `2 * template_min_height` rows or fewer than 40 columns).
/// `roi` is the content area of the frames: inside them, or the single row `(.., 0, .., 1)`
/// of a frame without rows.
pub fn template_search_plan(
    prev_width: u32,
    prev_height: u32,
    frame_width: u32,
    frame_height: u32,
    roi: (u32, u32, u32, u32),
    predict: i32,
    min_overlap: u32,
    template_min_height: u32,
) -> (res: Option<TemplatePlan>)
    requires
        roi.1 + roi.3 <= prev_height || (prev_height == 0 && roi.1 == 0 && roi.3 == 1),
        roi.3 >= 1,
        prev_width == frame_width && prev_height == frame_height ==> 2 * template_min_height
            <= u32::MAX,
        prev_width == frame_width && prev_height == frame_height && roi.3 >= 2
            * template_min_height && roi.2 >= 40 ==> {
            &&& prev_height <= i32::MAX
        },
    ensures
        res.is_none() <==> (prev_width != frame_width || prev_height != frame_height || roi.3 < 2
            * template_min_height || roi.2 < 40),
        res matches Some(plan) ==> {
            let th = template_height(roi.3 as int, template_min_height as int);
            let range = roi.3 - th;
            let limit = template_offset_limit(prev_height as int, min_overlap as int, range);
            let start = template_start_offset(predict as int, limit);
            &&& plan.roi_x == roi.0
            &&& plan.roi_w == roi.2
            &&& plan.template_y == roi.1
            &&& plan.template_h == th
            &&& th < roi.3
            &&& plan.search_start == roi.1
            &&& plan.candidates.len() >= 1
            &&& template_fits(roi.1 as int, start, th, prev_height as int) ==> plan.candidates[0].0
                == start
            &&& forall|k: int|
                0 <= k < plan.candidates.len() ==> {
                    &&& 0 <= (#[trigger] plan.candidates[k]).0 <= limit
                    &&& plan.candidates[k].1 == roi.1 + plan.candidates[k].0
                    &&& plan.candidates[k].1 + th <= prev_height
                    &&& plan.candidates[k].0 == 0 || prev_height - plan.candidates[k].0
                        >= min_overlap
                }
            &&& forall|a: int, b: int|
                0 <= a < b < plan.candidates.len() ==> search_rank(
                    plan.candidates[a].0 as int,
                    start,
                ) < search_rank(plan.candidates[b].0 as int, start)
            &&& forall|v: int|
                #[trigger] has_offset(plan.candidates@, v) <==> (0 <= v <= limit && template_fits(
                    roi.1 as int,
                    v,
                    th,
                    prev_height as int,
                ))
            &&& roi.1 + roi.3 <= prev_height ==> plan.candidates.len() == limit + 1
        },
        res matches Some(plan) ==> ({
            let rh = roi.3 as int;
            let third = rh / 3;
            let grown = if third >= template_min_height { third } else { template_min_height as int };
            let th = if grown <= rh - 1 { grown } else { rh - 1 };
            let keep = if prev_height >= min_overlap { prev_height - min_overlap } else { 0 };
            let last = if keep <= rh - th { keep } else { rh - th };
            &&& plan.template_h == th
            &&& forall|v: int|
                #[trigger] has_offset(plan.candidates@, v) <==> (0 <= v <= last && roi.1 + v + th
                    <= prev_height)
            &&& roi.1 + roi.3 <= prev_height ==> plan.candidates.len() == last + 1
            &&& roi.1 + roi.3 <= prev_height ==> plan.candidates[0].0 == (if predict < 0 {
                0
            } else if predict > last {
                last
            } else {
                predict as int
            })
        }),
{
    proof {
        lemma_template_search_extent(
            prev_height as int,
            min_overlap as int,
            roi.3 as int,
            template_min_height as int,
            predict as int,
        );
    }
    if prev_width != frame_width || prev_height != frame_height {
        return None;
    }
    let (roi_x, roi_y, roi_w, roi_h) = roi;
    if roi_h < template_min_height * 2 || roi_w < 40 {
        return None;
    }
    let third: u32 = roi_h / 3;
    let at_least: u32 = if third >= template_min_height { third } else { template_min_height };
    let template_h: u32 = if at_least <= roi_h - 1 { at_least } else { roi_h - 1 };
    let search_start: i32 = roi_y as i32;
    let search_end: i32 = (roi_y + roi_h - template_h) as i32;
    if search_end <= search_start {
        return None;
    }
    let height: i32 = prev_height as i32;
    let gap: i64 = prev_height as i64 - min_overlap as i64;
    let max_offset: i64 = if gap >= 0 { gap } else { 0 };
    let range: i32 = search_end - search_start;
    let limit: i32 = if max_offset <= range as i64 { max_offset as i32 } else { range };
    let start: i32 = if predict < 0 { 0 } else if predict > limit { limit } else { predict };
    let order = predict_offset_iter(limit, start);
    assert(limit == template_offset_limit(prev_height as int, min_overlap as int, range as int));
    let ghost th = template_h as int;
    let ghost gh = prev_height as int;
    let ghost gy = roi_y as int;
    assert(search_center(limit, start) == start);
    let mut candidates: Vec<(i32, u32)> = Vec::new();
    let mut i: usize = 0;
    while i < order.len()
        invariant
            0 <= search_start <= i32::MAX,
            search_start == roi_y,
            range == roi_h - template_h,
            template_h < roi_h,
            th == template_h,
            gh == prev_height,
            gy == roi_y,
            roi_y + roi_h <= i32::MAX,
            height == prev_height,
            limit == template_offset_limit(gh, min_overlap as int, range as int),
            0 <= limit <= range,
            order.len() == limit + 1,
            order[0] == start,
            forall|k: int| 0 <= k < order.len() ==> 0 <= #[trigger] order[k] <= limit,
            forall|a: int, b: int|
                0 <= a < b < order.len() ==> search_rank(order[a] as int, start as int)
                    < search_rank(order[b] as int, start as int),
            i <= order.len(),
            candidates.len() <= i,
            i >= 1 && template_fits(gy, start as int, th, gh) ==> candidates.len() >= 1
                && candidates[0].0 == start,
            forall|k: int|
                0 <= k < candidates.len() ==> exists|j: int|
                    0 <= j < i && order[j] == (#[trigger] candidates[k]).0,
            forall|k: int|
                0 <= k < candidates.len() ==> {
                    &&& 0 <= (#[trigger] candidates[k]).0 <= limit
                    &&& candidates[k].1 == roi_y + candidates[k].0
                    &&& candidates[k].1 + template_h <= prev_height
                },
            forall|a: int, b: int|
                0 <= a < b < candidates.len() ==> search_rank(candidates[a].0 as int, start as int)
                    < search_rank(candidates[b].0 as int, start as int),
            forall|j: int|
                0 <= j < i && template_fits(gy, order[j] as int, th, gh) ==> #[trigger] has_offset(
                    candidates@,
                    order[j] as int,
                ),
            roi_y + roi_h <= prev_height ==> candidates.len() == i,
        decreases order.len() - i,
    {
        let offset = order[i];
        let search_y: i32 = search_start + offset;
        let ghost before = candidates@;
        if search_y >= 0 && search_y + template_h as i32 <= height {
            candidates.push((offset, search_y as u32));
            proof {
                assert forall|k: int| 0 <= k < candidates.len() implies exists|j: int|
                    0 <= j < i + 1 && order[j] == (#[trigger] candidates[k]).0 by {
                    if k == before.len() {
                        assert(order[i as int] == candidates[k].0);
                    } else {
                        assert(candidates[k] == before[k]);
                    }
                }
                assert forall|a: int, b: int|
                    0 <= a < b < candidates.len() implies search_rank(
                    candidates[a].0 as int,
                    start as int,
                ) < search_rank(candidates[b].0 as int, start as int) by {
                    if b == before.len() {
                        assert(candidates[a] == before[a]);
                        let j = choose|j: int| 0 <= j < i && order[j] == before[a].0;
                        assert(search_rank(order[j] as int, start as int) < search_rank(
                            order[i as int] as int,
                            start as int,
                        ));
                    } else {
                        assert(candidates[a] == before[a]);
                        assert(candidates[b] == before[b]);
                    }
                }
                assert forall|j: int|
                    0 <= j < i + 1 && template_fits(gy, order[j] as int, th, gh) implies #[trigger] has_offset(
                    candidates@,
                    order[j] as int,
                ) by {
                    if j == i {
                        assert(candidates@[before.len() as int].0 == order[j]);
                    } else {
                        assert(has_offset(before, order[j] as int));
                        let k = choose|k: int| 0 <= k < before.len() && #[trigger] before[k].0 == order[j] as int;
                        assert(candidates@[k].0 == order[j]);
                    }
                }
            }
        }
        i = i + 1;
    }
    proof {
        assert(template_fits(gy, 0, th, gh));
        assert(order@.contains(0i32));
        let j0 = choose|j: int| 0 <= j < order@.len() && order@[j] == 0i32;
        assert(has_offset(candidates@, order[j0] as int));
        assert forall|v: int|
            #[trigger] has_offset(candidates@, v) <==> (0 <= v <= limit && template_fits(
                gy,
                v,
                th,
                gh,
            )) by {
            if has_offset(candidates@, v) {
                let k = choose|k: int| 0 <= k < candidates.len() && #[trigger] candidates@[k].0 == v;
                assert(candidates[k].0 == v);
            }
            if 0 <= v <= limit && template_fits(gy, v, th, gh) {
                assert(order@.contains(v as i32));
                let j = choose|j: int| 0 <= j < order@.len() && order@[j] == v as i32;
                assert(order[j] == v);
            }
        }
    }
    Some(
        TemplatePlan { roi_x, roi_w, template_y: roi_y, template_h, search_start, candidates },
    )
}

/// Reads of the template comparison stay inside the frames: for a non-empty frame, the
/// content rectangle lies inside it, and any strip of `th` rows starting at a row
/// `strip_y` with `strip_y + th <= height`, restricted to the content columns, indexes
/// the row-major gray values below `width * height`.
pub proof fn lemma_template_reads_inside(
    width: u32,
    height: u32,
    side_band: u32,
    top_band: u32,
    bottom_band: u32,
    min_ignore: u32,
    strip_y: int,
    th: int,
    row: int,
    col: int,
)
    requires
        width >= 1,
        height >= 1,
        0 <= strip_y,
        strip_y + th <= height,
        0 <= row < th,
        0 <= col < content_roi_spec(width, height, side_band, top_band, bottom_band, min_ignore).2,
    ensures
        ({
            let roi = content_roi_spec(width, height, side_band, top_band, bottom_band, min_ignore);
            &&& 0 <= roi.0
            &&& 0 <= roi.1
            &&& roi.0 + roi.2 <= width
            &&& roi.1 + roi.3 <= height
            &&& roi.2 >= 1
            &&& roi.3 >= 1
            &&& 0 <= (strip_y + row) * width + roi.0 + col < width * height
        }),
{
    let roi = content_roi_spec(width, height, side_band, top_band, bottom_band, min_ignore);
    lemma_region_index_in_image(
        width as int,
        height as int,
        roi.0,
        roi.2,
        strip_y,
        th,
        row,
        col,
    );
}

/// Rows sampled to verify a match at `offset`: the last (at most 160) rows of the
/// `overlap_h`-row overlap. Returns `(sample_h, prev_row, frame_row)`: rows
/// `prev_row..prev_row + sample_h` of the previous frame are compared with rows
/// `frame_row..frame_row + sample_h` of the current one. `None` when the content width
/// or the overlap is empty.
pub fn overlap_sample_rows(roi_w: u32, offset: u32, overlap_h: u32) -> (res: Option<(u32, u32, u32)>)
    requires
        roi_w > 0 && overlap_h > 0 ==> offset + overlap_h - (if overlap_h <= 160 {
            overlap_h
        } else {
            160
        }) <= u32::MAX,
    ensures
        res.is_none() <==> (roi_w == 0 || overlap_h == 0),
        res matches Some((sample_h, prev_row, frame_row)) ==> {
            &&& sample_h == (if overlap_h <= 160 { overlap_h } else { 160 })
            &&& frame_row == overlap_h - sample_h
            &&& prev_row == offset + frame_row
            &&& prev_row + sample_h == offset + overlap_h
            &&& frame_row + sample_h == overlap_h
            &&& sample_h >= 1
        },
{
    if roi_w == 0 || overlap_h == 0 {
        return None;
    }
    let sample_h: u32 = if overlap_h <= 160 { overlap_h } else { 160 };
    let frame_row: u32 = overlap_h - sample_h;
    let prev_row: u32 = offset + frame_row;
    Some((sample_h, prev_row, frame_row))
}

/// Start of the stretch of a row-major image (`image_len` values, `width` per row)
/// that a `tmpl_len`-value template is compared with when placed at row `y_offset`;
/// `None` when the template would run past the end of the image.
pub fn ncc_image_window(image_len: usize, tmpl_len: usize, y_offset: u32, width: u32) -> (res: Option<usize>)
    requires
        y_offset as int * width as int + tmpl_len <= usize::MAX,
    ensures
        res.is_some() <==> y_offset as int * width as int + tmpl_len <= image_len,
        res matches Some(start) ==> start == y_offset as int * width as int,
{
    let start: usize = (y_offset as usize) * (width as usize);
    let end: usize = start + tmpl_len;
    if end > image_len {
        None
    } else {
        Some(start)
    }
}

} // verus!
