use scrollstitch::column_match::{
    col_diff_window, diff_overlap_offsets, diff_overlap_step, linspace, sampling_groups,
};
use scrollstitch::fast_match::{downsample_corners, filter_corners_by_diff, prepare_fast_gray, Corner};
use scrollstitch::frame::GrayFrame;
use scrollstitch::orb::{content_roi, count_inliers, enough_keypoints, orb_frames_usable};
use scrollstitch::search::predict_offset_iter;
use scrollstitch::template_match::{ncc_image_window, overlap_sample_rows, template_search_plan};

fn corner(x: u32, y: u32) -> Corner {
    Corner { x, y, score_bits: (x * 7 + y).to_le() }
}

#[test]
fn linspace_spreads_and_rounds_half_up() {
    assert_eq!(linspace(0, 9, 3), vec![0, 5, 9]);
    assert_eq!(linspace(0, 10, 3), vec![0, 5, 10]);
    assert_eq!(linspace(20, 25, 3), vec![20, 23, 25]);
    assert_eq!(linspace(8388600, 8388607, 3), vec![8388600, 8388604, 8388607]);
}

#[test]
fn linspace_edge_counts() {
    assert_eq!(linspace(4, 9, 0), Vec::<usize>::new());
    assert_eq!(linspace(4, 9, 1), vec![4]);
    assert_eq!(linspace(4, 9, 2), vec![4, 9]);
}

#[test]
fn linspace_reversed_range_collapses_to_start() {
    assert_eq!(linspace(20, 5, 3), vec![20, 20, 20]);
}

fn linspace_f32(start: usize, end: usize, n: usize) -> Vec<usize> {
    let step = (end.saturating_sub(start)) as f32 / (n - 1) as f32;
    (0..n).map(|i| (start as f32 + i as f32 * step).round() as usize).collect()
}

#[test]
fn linspace_matches_single_precision_grid_below_limit() {
    let mut x: u64 = 0x9e37_79b9_7f4a_7c15;
    for _ in 0..200_000 {
        x ^= x << 13;
        x ^= x >> 7;
        x ^= x << 17;
        let start = (x % 8_388_608) as usize;
        let end = ((x >> 23) % 8_388_608) as usize;
        for n in 2usize..=3 {
            assert_eq!(linspace(start, end, n), linspace_f32(start, end, n), "{start} {end} {n}");
        }
    }
    for start in 8_388_500usize..8_388_608 {
        for end in [0usize, start, 8_388_607] {
            for n in 2usize..=3 {
                assert_eq!(linspace(start, end, n), linspace_f32(start, end, n));
            }
        }
    }
}

#[test]
fn linspace_matches_float_rounding_on_small_values() {
    for start in 0usize..40 {
        for end in 0usize..60 {
            for n in 2usize..=3 {
                let step = (end.saturating_sub(start)) as f32 / (n - 1) as f32;
                let expected: Vec<usize> = (0..n)
                    .map(|i| (start as f32 + i as f32 * step).round() as usize)
                    .collect();
                assert_eq!(linspace(start, end, n), expected, "{start} {end} {n}");
            }
        }
    }
}

#[test]
fn linspace_is_monotone_and_bounded() {
    let v = linspace(7, 1000, 3);
    assert_eq!(v[0], 7);
    assert_eq!(v[2], 1000);
    for w in v.windows(2) {
        assert!(w[0] <= w[1]);
    }
}

#[test]
fn sampling_groups_cover_left_middle_right() {
    assert_eq!(
        sampling_groups(100),
        vec![vec![20, 23, 25], vec![50, 56, 62], vec![75, 81, 87]]
    );
}

#[test]
fn sampling_groups_stay_inside_narrow_images() {
    for width in (1usize..200).chain([8_388_607]) {
        let groups = sampling_groups(width);
        assert_eq!(groups.len(), 3);
        for g in &groups {
            assert_eq!(g.len(), 3);
            for &x in g {
                assert!(x < width);
            }
        }
    }
    assert_eq!(sampling_groups(1), vec![vec![0, 0, 0], vec![0, 0, 0], vec![0, 0, 0]]);
}

#[test]
fn search_order_widens_around_prediction() {
    assert_eq!(predict_offset_iter(3, 1), vec![1, 2, 0, 3]);
    assert_eq!(predict_offset_iter(6, 2), vec![2, 3, 1, 4, 0, 5, 6]);
    assert_eq!(predict_offset_iter(0, 7), vec![0]);
}

#[test]
fn search_order_clamps_prediction() {
    assert_eq!(predict_offset_iter(4, 10), vec![4, 3, 2, 1, 0]);
    assert_eq!(predict_offset_iter(4, -5), vec![0, 1, 2, 3, 4]);
}

#[test]
fn search_order_visits_each_offset_once() {
    for max in 0i32..30 {
        for predict in -3i32..35 {
            let mut v = predict_offset_iter(max, predict);
            v.sort();
            assert_eq!(v, (0..=max).collect::<Vec<i32>>());
        }
    }
}

#[test]
fn col_diff_window_aligns_rows() {
    assert_eq!(col_diff_window(10, 8, 3, 0), Some((0, 0, 8)));
    assert_eq!(col_diff_window(10, 8, 3, 2), Some((2, 0, 8)));
    assert_eq!(col_diff_window(10, 8, 3, -3), Some((0, 3, 5)));
    assert_eq!(col_diff_window(3, 2, 1, 1), Some((1, 0, 2)));
}

#[test]
fn col_diff_window_covers_every_shared_row() {
    for h1 in 1usize..12 {
        for h2 in 1usize..12 {
            for offset in -14i32..14 {
                let shared: Vec<(usize, usize)> = (0..h1)
                    .filter_map(|y1| {
                        let y2 = y1 as i64 - offset as i64;
                        (0 <= y2 && (y2 as usize) < h2).then_some((y1, y2 as usize))
                    })
                    .collect();
                let pairs: Vec<(usize, usize)> = match col_diff_window(h1, h2, 2, offset) {
                    None => vec![],
                    Some((s1, s2, len)) => (0..len).map(|i| (s1 + i, s2 + i)).collect(),
                };
                assert_eq!(pairs, shared, "{h1} {h2} {offset}");
            }
        }
    }
}

#[test]
fn col_diff_window_is_symmetric() {
    for h1 in 0usize..9 {
        for h2 in 0usize..9 {
            for offset in -10i32..10 {
                let swapped = col_diff_window(h2, h1, 1, -offset);
                let direct = col_diff_window(h1, h2, 1, offset).map(|(a, b, l)| (b, a, l));
                assert_eq!(swapped, direct);
            }
        }
    }
}

#[test]
fn col_diff_window_far_offsets_share_nothing() {
    assert_eq!(col_diff_window(5, 5, 1, 7), None);
    assert_eq!(col_diff_window(5, 5, 1, -5), None);
    assert_eq!(col_diff_window(5, 5, 1, i32::MIN), None);
    assert_eq!(col_diff_window(5, 5, 1, i32::MAX), None);
}

#[test]
fn col_diff_window_rejects_empty() {
    assert_eq!(col_diff_window(0, 8, 3, 0), None);
    assert_eq!(col_diff_window(8, 0, 3, 0), None);
    assert_eq!(col_diff_window(8, 8, 0, 0), None);
    assert_eq!(col_diff_window(5, 5, 1, 5), None);
}

#[test]
fn diff_overlap_offsets_keep_min_overlap() {
    assert_eq!(diff_overlap_offsets(10, 5, 3, 4), vec![3, 4, 2, 5, 1, 6, 0]);
    assert_eq!(diff_overlap_offsets(10, 5, 3, 20), vec![0]);
    assert_eq!(diff_overlap_offsets(10, 0, 3, 4), Vec::<i32>::new());
    assert_eq!(diff_overlap_offsets(0, 5, 3, 4), Vec::<i32>::new());
}

#[test]
fn diff_overlap_step_counts_and_stops() {
    assert_eq!(diff_overlap_step(3, false, true), (3, false));
    assert_eq!(diff_overlap_step(3, true, false), (4, false));
    assert_eq!(diff_overlap_step(3, true, true), (4, true));
    assert_eq!(diff_overlap_step(10, true, false), (11, true));
}

#[test]
fn diff_overlap_step_stops_after_eleven_close_steps() {
    let mut count = 0;
    let mut steps = 0;
    loop {
        let (c, stop) = diff_overlap_step(count, true, false);
        steps += 1;
        count = c;
        if stop {
            break;
        }
    }
    assert_eq!(steps, 11);
}

#[test]
fn downsample_keeps_short_lists() {
    let corners: Vec<Corner> = (0..3).map(|i| corner(i, i)).collect();
    assert_eq!(downsample_corners(corners.clone(), 3), corners);
    assert_eq!(downsample_corners(Vec::new(), 0), Vec::<Corner>::new());
}

#[test]
fn downsample_with_zero_limit_keeps_nothing() {
    let corners: Vec<Corner> = (0..3).map(|i| corner(i, i)).collect();
    assert_eq!(downsample_corners(corners, 0), Vec::<Corner>::new());
}

#[test]
fn downsample_takes_every_nth() {
    let corners: Vec<Corner> = (0..10).map(|i| corner(i, 2 * i)).collect();
    let kept = downsample_corners(corners.clone(), 3);
    assert_eq!(kept, vec![corners[0], corners[4], corners[8]]);
    let kept = downsample_corners(corners.clone(), 4);
    assert_eq!(kept, vec![corners[0], corners[3], corners[6], corners[9]]);
}

#[test]
fn downsample_never_exceeds_limit() {
    for len in 0u32..60 {
        for max in 0usize..25 {
            let corners: Vec<Corner> = (0..len).map(|i| corner(i, i)).collect();
            assert!(downsample_corners(corners, max).len() <= max);
        }
    }
}

#[test]
fn gray_frame_checks_length() {
    assert!(GrayFrame::new(2, 2, vec![1, 2, 3, 4]).is_some());
    assert!(GrayFrame::new(2, 2, vec![1, 2, 3]).is_none());
    let f = GrayFrame::new(3, 2, vec![1, 2, 3, 4, 5, 6]).unwrap();
    assert_eq!(f.pixel(2, 1), 6);
    assert_eq!(f.pixel(0, 1), 4);
}

#[test]
fn filter_keeps_changed_corners_in_order() {
    let gray = GrayFrame::new(3, 2, vec![10, 50, 10, 200, 0, 7]).unwrap();
    let prev = GrayFrame::new(3, 2, vec![10, 10, 10, 100, 5, 7]).unwrap();
    let corners = vec![corner(0, 0), corner(1, 0), corner(0, 1), corner(1, 1), corner(5, 0), corner(2, 1)];
    let kept = filter_corners_by_diff(&corners, &gray, &prev, 6);
    assert_eq!(kept, vec![corner(1, 0), corner(0, 1)]);
    let kept = filter_corners_by_diff(&corners, &gray, &prev, 5);
    assert_eq!(kept, vec![corner(1, 0), corner(0, 1), corner(1, 1)]);
    let kept = filter_corners_by_diff(&corners, &gray, &prev, 0);
    assert_eq!(kept, vec![corners[0], corners[1], corners[2], corners[3], corners[5]]);
}

#[test]
fn prepare_fast_gray_leaves_small_frames() {
    let g = GrayFrame::new(4, 2, vec![0, 1, 2, 3, 4, 5, 6, 7]).unwrap();
    let out = prepare_fast_gray(g, 0);
    assert_eq!((out.width, out.height, out.pixels.clone()), (4, 2, vec![0, 1, 2, 3, 4, 5, 6, 7]));
    let out = prepare_fast_gray(out, 4);
    assert_eq!(out.width, 4);
    let out = prepare_fast_gray(out, 9);
    assert_eq!(out.pixels, vec![0, 1, 2, 3, 4, 5, 6, 7]);
}

#[test]
fn prepare_fast_gray_copies_pixels_of_the_same_row() {
    let (w, h) = (37u32, 5u32);
    let pixels: Vec<u8> = (0..w * h).map(|i| (i * 7 % 251) as u8).collect();
    let g = GrayFrame::new(w, h, pixels.clone()).unwrap();
    let out = prepare_fast_gray(g, 11);
    assert_eq!((out.width, out.height), (11, 5));
    for y in 0..h as usize {
        let row = &pixels[y * w as usize..(y + 1) * w as usize];
        for x in 0..11usize {
            assert!(row.contains(&out.pixels[y * 11 + x]));
        }
    }
}

#[test]
fn prepare_fast_gray_narrows_by_nearest_column() {
    let g = GrayFrame::new(4, 2, vec![0, 1, 2, 3, 4, 5, 6, 7]).unwrap();
    let out = prepare_fast_gray(g, 2);
    assert_eq!(out.width, 2);
    assert_eq!(out.height, 2);
    assert_eq!(out.pixels, vec![1, 3, 5, 7]);
}

#[test]
fn content_roi_removes_bands() {
    assert_eq!(content_roi(100, 200, 5, 10, 20, 8), (8, 10, 84, 170));
    assert_eq!(content_roi(100, 200, 12, 3, 3, 8), (12, 8, 76, 184));
}

#[test]
fn content_roi_never_empty() {
    assert_eq!(content_roi(10, 10, 8, 9, 9, 0), (8, 9, 1, 1));
    assert_eq!(content_roi(0, 0, 8, 9, 9, 0), (0, 0, 1, 1));
}

#[test]
fn content_roi_stays_inside() {
    for w in 1u32..40 {
        for h in 1u32..40 {
            let (x, y, rw, rh) = content_roi(w, h, w / 5, h / 7, h / 9, 3);
            assert!(x + rw <= w && y + rh <= h && rw >= 1 && rh >= 1);
        }
    }
}

#[test]
fn orb_frame_size_rule() {
    assert!(orb_frames_usable(80, 120, 80, 120));
    assert!(!orb_frames_usable(79, 120, 79, 120));
    assert!(!orb_frames_usable(80, 119, 80, 119));
    assert!(!orb_frames_usable(80, 120, 81, 120));
}

#[test]
fn keypoint_rule() {
    assert!(enough_keypoints(10, 10, false, false, 10));
    assert!(!enough_keypoints(9, 10, false, false, 10));
    assert!(!enough_keypoints(10, 10, true, false, 10));
    assert!(!enough_keypoints(10, 10, false, true, 10));
}

#[test]
fn inliers_are_nonzero_entries() {
    assert_eq!(count_inliers(&[0, 1, 255, 0, 3]), 3);
    assert_eq!(count_inliers(&[]), 0);
}

#[test]
fn template_plan_geometry() {
    let plan = template_search_plan(100, 300, 100, 300, (10, 20, 80, 240), 50, 100, 30).unwrap();
    assert_eq!((plan.roi_x, plan.roi_w, plan.template_y, plan.template_h), (10, 80, 20, 80));
    assert_eq!(plan.search_start, 20);
    assert_eq!(plan.candidates.len(), 161);
    assert_eq!(&plan.candidates[..3], &[(50, 70), (51, 71), (49, 69)]);
    for &(offset, row) in &plan.candidates {
        assert_eq!(row as i32, 20 + offset);
        assert!(row + plan.template_h <= 260);
    }
}

#[test]
fn template_plan_keeps_min_overlap() {
    let plan = template_search_plan(100, 300, 100, 300, (10, 20, 80, 240), 50, 200, 30).unwrap();
    assert_eq!(plan.candidates.len(), 101);
    for &(offset, _) in &plan.candidates {
        assert!(offset <= 100 && 300 - offset >= 200);
    }
    let plan = template_search_plan(100, 300, 100, 300, (10, 20, 80, 240), 50, 400, 30).unwrap();
    assert_eq!(plan.candidates, vec![(0, 20)]);
}

#[test]
fn template_plan_clamps_prediction_to_overlap() {
    let plan = template_search_plan(100, 300, 100, 300, (10, 20, 80, 240), 250, 200, 30).unwrap();
    assert_eq!(plan.candidates[0], (100, 120));
    let plan = template_search_plan(100, 300, 100, 300, (10, 20, 80, 240), -4, 200, 30).unwrap();
    assert_eq!(plan.candidates[0], (0, 20));
}

#[test]
fn template_plan_rejections() {
    assert!(template_search_plan(100, 300, 101, 300, (10, 20, 80, 240), 0, 100, 30).is_none());
    assert!(template_search_plan(100, 300, 100, 301, (10, 20, 80, 240), 0, 100, 30).is_none());
    assert!(template_search_plan(100, 300, 100, 300, (10, 20, 80, 59), 0, 100, 30).is_none());
    assert!(template_search_plan(100, 300, 100, 300, (10, 20, 39, 240), 0, 100, 30).is_none());
    assert!(template_search_plan(100, 300, 100, 300, (10, 20, 40, 60), 0, 100, 30).is_some());
}

#[test]
fn overlap_rows_take_bottom_of_overlap() {
    assert_eq!(overlap_sample_rows(10, 30, 200), Some((160, 70, 40)));
    assert_eq!(overlap_sample_rows(10, 5, 100), Some((100, 5, 0)));
    assert_eq!(overlap_sample_rows(0, 5, 100), None);
    assert_eq!(overlap_sample_rows(10, 5, 0), None);
    assert_eq!(overlap_sample_rows(0, u32::MAX, u32::MAX), None);
}

#[test]
fn ncc_window_bounds() {
    assert_eq!(ncc_image_window(100, 20, 3, 10), Some(30));
    assert_eq!(ncc_image_window(100, 70, 3, 10), Some(30));
    assert_eq!(ncc_image_window(100, 71, 3, 10), None);
}

#[test]
fn template_reads_stay_inside_frame() {
    let (width, height) = (120u32, 400u32);
    let roi = content_roi(width, height, 12, 40, 30, 8);
    let plan = template_search_plan(width, height, width, height, roi, 17, 150, 40).unwrap();
    let len = (width * height) as usize;
    for &(_, row0) in &plan.candidates {
        for row in [0, plan.template_h - 1] {
            for col in [0, plan.roi_w - 1] {
                let img = ((row0 + row) * width + plan.roi_x + col) as usize;
                let tmpl = ((plan.template_y + row) * width + plan.roi_x + col) as usize;
                assert!(img < len && tmpl < len);
            }
        }
    }
}

#[test]
fn template_plan_skips_rows_past_an_empty_frame() {
    let plan = template_search_plan(50, 0, 50, 0, (8, 0, 40, 1), 5, 0, 0).unwrap();
    assert_eq!(plan.template_h, 0);
    assert_eq!(plan.candidates, vec![(0, 0)]);
}

