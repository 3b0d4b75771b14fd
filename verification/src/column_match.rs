use vstd::prelude::*;
use crate::orb::{min_int, sat_sub};
use vstd::arithmetic::div_mod::{
    lemma_div_is_ordered, lemma_fundamental_div_mod, lemma_fundamental_div_mod_converse,
    lemma_mod_bound,
};

verus! {

/// `i * d / m` rounded to the nearest integer, halves rounded up.
pub open spec fn rounded_share(i: int, d: int, m: int) -> int {
    (2 * i * d + m) / (2 * m)
}

/// `n` column indices spread evenly from `start` towards `end`, each rounded to the
/// nearest integer; an `end` below `start` collapses the range onto `start`.
pub open spec fn linspace_seq(start: usize, end: usize, n: usize) -> Seq<usize> {
    if n == 0 {
        Seq::empty()
    } else if n == 1 {
        seq![start]
    } else {
        let d: int = if end >= start { end - start } else { 0 };
        Seq::new(n as nat, |i: int| (start + rounded_share(i, d, n - 1)) as usize)
    }
}

/// The rounded share of `d` never exceeds `d`, grows with `i`, starts at 0 and
/// reaches `d` at `i == m`.
pub proof fn lemma_rounded_share_bounds(i: int, j: int, d: int, m: int)
    requires
        m > 0,
        d >= 0,
        0 <= i <= j <= m,
    ensures
        0 <= rounded_share(i, d, m) <= rounded_share(j, d, m) <= d,
        rounded_share(0, d, m) == 0,
        rounded_share(m, d, m) == d,
{
    assert(0 <= 2 * i * d + m <= 2 * j * d + m <= 2 * m * d + m) by (nonlinear_arith)
        requires m > 0, d >= 0, 0 <= i <= j <= m;
    lemma_div_is_ordered(2 * i * d + m, 2 * j * d + m, 2 * m);
    lemma_div_is_ordered(2 * j * d + m, 2 * m * d + m, 2 * m);
    lemma_div_is_ordered(0, 2 * i * d + m, 2 * m);
    assert(0int / (2 * m) == 0);
    assert(2 * m * d + m == d * (2 * m) + m) by (nonlinear_arith);
    lemma_fundamental_div_mod_converse(2 * m * d + m, 2 * m, d, m);
    assert(2 * 0 * d + m == 0 * (2 * m) + m) by (nonlinear_arith);
    lemma_fundamental_div_mod_converse(2 * 0 * d + m, 2 * m, 0, m);
}

/// Splitting `d = q * m + r` lets the rounded share be computed without forming
/// `i * d`: it is `i * q` plus the rounded share of `i * r`.
proof fn lemma_rounded_share_split(i: int, d: int, m: int)
    requires
        m > 0,
        d >= 0,
        i >= 0,
    ensures
        rounded_share(i, d, m) == i * (d / m) + (i * (d % m)) / m + (if 2 * ((i * (d % m)) % m)
            >= m {
            1int
        } else {
            0int
        }),
{
    let q = d / m;
    let r = d % m;
    lemma_fundamental_div_mod(d, m);
    lemma_mod_bound(d, m);
    let t = i * r;
    assert(t >= 0) by (nonlinear_arith) requires i >= 0, r >= 0, t == i * r;
    let tq = t / m;
    let tr = t % m;
    lemma_fundamental_div_mod(t, m);
    lemma_mod_bound(t, m);
    let bump: int = if 2 * tr >= m { 1 } else { 0 };
    let x = 2 * i * d + m;
    let quot = i * q + tq + bump;
    let rem = 2 * tr + m - 2 * m * bump;
    assert(x == quot * (2 * m) + rem) by (nonlinear_arith)
        requires
            d == m * q + r,
            t == i * r,
            t == m * tq + tr,
            x == 2 * i * d + m,
            quot == i * q + tq + bump,
            rem == 2 * tr + m - 2 * m * bump,
    ;
    lemma_fundamental_div_mod_converse(x, 2 * m, quot, rem);
}

/// Three evenly spaced points are the start, the end (the start again when the end lies
/// below it) and their midpoint rounded half up; two points are the start and the end.
pub proof fn lemma_linspace_endpoints_and_midpoint(start: usize, end: usize)
    ensures
        ({
            let last: int = if end >= start { end as int } else { start as int };
            &&& linspace_seq(start, end, 3).len() == 3
            &&& linspace_seq(start, end, 3)[0] == start
            &&& linspace_seq(start, end, 3)[1] == (start + last + 1) / 2
            &&& linspace_seq(start, end, 3)[2] == last
            &&& linspace_seq(start, end, 2).len() == 2
            &&& linspace_seq(start, end, 2)[0] == start
            &&& linspace_seq(start, end, 2)[1] == last
        }),
{
    let d: int = if end >= start { end - start } else { 0 };
    lemma_rounded_share_bounds(0, 2, d, 2);
    lemma_rounded_share_bounds(0, 1, d, 1);
    lemma_fundamental_div_mod(d + 1, 2);
    lemma_mod_bound(d + 1, 2);
    let q = (d + 1) / 2;
    let r = (d + 1) % 2;
    assert(2 * 1 * d + 2 == q * 4int + 2 * r) by (nonlinear_arith)
        requires d + 1 == 2 * q + r;
    lemma_fundamental_div_mod_converse(2 * 1 * d + 2, 4int, (d + 1) / 2, 2 * ((d + 1) % 2));
    assert(rounded_share(1, d, 2) == (d + 1) / 2);
    assert(start + (d + 1) / 2 == (start + (start + d) + 1) / 2) by {
        lemma_fundamental_div_mod(d + 1, 2);
        lemma_fundamental_div_mod(2 * start + d + 1, 2);
        lemma_mod_bound(2 * start + d + 1, 2);
        lemma_fundamental_div_mod_converse(2 * start + d + 1, 2, start + (d + 1) / 2, (d + 1) % 2);
    }
}

/// Largest column index (exclusive) for which the evenly spaced points of up to three
/// columns are exact in single precision: every point is a multiple of one half below it.
pub const EXACT_GRID_LIMIT: usize = 8388608;

/// Evenly spaced column indices between `start` and `end`, `n` of them, each rounded
/// to the nearest integer (halves up).
///
/// Defined for at most three points on columns below `EXACT_GRID_LIMIT`, where the
/// spacing and every point are exact in single precision, so rounding the exact point
/// is rounding the single-precision point.
pub fn linspace(start: usize, end: usize, n: usize) -> (res: Vec<usize>)
    requires
        n <= 3,
        n >= 2 ==> start < EXACT_GRID_LIMIT && end < EXACT_GRID_LIMIT,
    ensures
        res@ == linspace_seq(start, end, n),
        res.len() == n,
        n >= 1 ==> res[0] == start,
        n >= 2 && end >= start ==> res[n - 1] == end,
        forall|k: int|
            0 <= k < n ==> start <= #[trigger] res[k] && (res[k] <= end || res[k] == start),
        forall|a: int, b: int| 0 <= a <= b < n ==> res[a] <= res[b],
        n == 3 ==> res[1] == (start + (if end >= start { end as int } else { start as int }) + 1)
            / 2,
        n >= 2 ==> res[n - 1] == (if end >= start { end } else { start }),
{
    proof {
        lemma_linspace_endpoints_and_midpoint(start, end);
    }
    if n == 0 {
        return Vec::new();
    }
    if n == 1 {
        let mut v: Vec<usize> = Vec::new();
        v.push(start);
        assert(v@ =~= linspace_seq(start, end, n));
        return v;
    }
    let d: usize = if end >= start { end - start } else { 0 };
    let m: usize = n - 1;
    let q: usize = d / m;
    let r: usize = d % m;
    let ghost spec_d: int = if end >= start { end - start } else { 0 };
    let mut res: Vec<usize> = Vec::new();
    let mut i: usize = 0;
    while i < n
        invariant
            n >= 2,
            m == n - 1,
            d == spec_d,
            spec_d >= 0,
            start + spec_d <= usize::MAX,
            q == d / m,
            r == d % m,
            i <= n,
            res.len() == i,
            forall|k: int|
                0 <= k < i ==> #[trigger] res@[k] == (start + rounded_share(k, spec_d, m as int)) as usize,
        decreases n - i,
    {
        proof {
            lemma_rounded_share_split(i as int, d as int, m as int);
            lemma_rounded_share_bounds(i as int, m as int, d as int, m as int);
            lemma_mod_bound(d as int, m as int);
            assert((i as int) * (r as int) <= (m as int) * (m as int)) by (nonlinear_arith)
                requires 0 <= i <= m, 0 <= r < m;
            assert((m as int) * (m as int) <= 0xffff_ffff_ffff_ffff_ffff_ffff_ffff_ffffint)
                by (nonlinear_arith) requires 0 <= m <= usize::MAX, usize::MAX <= 0xffff_ffff_ffff_ffff;
            assert(0 <= (i as int) * (q as int) <= (i as int) * (q as int) + ((i as int) * (r as int)) / (m as int))
                by (nonlinear_arith) requires 0 <= i, 0 <= q, 0 <= r, m > 0;
        }
        let t: u128 = (i as u128) * (r as u128);
        let tq: u128 = t / (m as u128);
        let tr: u128 = t % (m as u128);
        let bump: u128 = if 2 * tr >= m as u128 { 1 } else { 0 };
        let share: u128 = (i as u128) * (q as u128) + tq + bump;
        let value: usize = start + share as usize;
        res.push(value);
        i = i + 1;
    }
    proof {
        assert(res@ =~= linspace_seq(start, end, n));
        assert forall|k: int| 0 <= k < n implies start <= #[trigger] res[k] && (res[k] <= end
            || res[k] == start) by {
            lemma_rounded_share_bounds(k, m as int, spec_d, m as int);
        }
        assert forall|a: int, b: int| 0 <= a <= b < n implies res[a] <= res[b] by {
            lemma_rounded_share_bounds(a, b, spec_d, m as int);
            lemma_rounded_share_bounds(b, m as int, spec_d, m as int);
        }
        lemma_rounded_share_bounds(0, m as int, spec_d, m as int);
    }
    res
}

/// The three column groups sampled in every row: near the left edge, around the
/// middle and towards the right edge, three columns each.
pub open spec fn sampling_groups_spec(width: usize) -> Seq<Seq<usize>> {
    seq![
        linspace_seq(if 20 <= width - 1 { 20 } else { (width - 1) as usize }, width / 4, 3),
        linspace_seq(width / 2, (5 * width / 8) as usize, 3),
        linspace_seq((6 * width / 8) as usize, (7 * width / 8) as usize, 3),
    ]
}

/// Column groups covering the left, middle and right of a screenshot `width` pixels
/// wide; every column lies inside the screenshot.
pub fn sampling_groups(width: usize) -> (res: Vec<Vec<usize>>)
    requires
        1 <= width < EXACT_GRID_LIMIT,
    ensures
        res@.len() == 3,
        forall|g: int| 0 <= g < 3 ==> (#[trigger] res@[g])@ == sampling_groups_spec(width)[g],
        forall|g: int, k: int|
            0 <= g < 3 && 0 <= k < 3 ==> 0 <= #[trigger] res@[g]@[k] < width,
        ({
            let left_start: int = if width >= 21 { 20 } else { width - 1 };
            let left_end: int = if (width / 4) as int >= left_start { (width / 4) as int } else { left_start };
            &&& res@[0]@ == seq![left_start as usize, ((left_start + left_end + 1) / 2) as usize, left_end as usize]
            &&& res@[1]@ == seq![
                (width / 2) as usize,
                ((width / 2 + 5 * width / 8 + 1) / 2) as usize,
                (5 * width / 8) as usize,
            ]
            &&& res@[2]@ == seq![
                (6 * width / 8) as usize,
                ((6 * width / 8 + 7 * width / 8 + 1) / 2) as usize,
                (7 * width / 8) as usize,
            ]
        }),
{
    let first_start: usize = if 20 <= width - 1 { 20 } else { width - 1 };
    let left = linspace(first_start, width / 4, 3);
    let middle = linspace(width / 2, 5 * width / 8, 3);
    let right = linspace(6 * width / 8, 7 * width / 8, 3);
    let mut res: Vec<Vec<usize>> = Vec::new();
    res.push(left);
    res.push(middle);
    res.push(right);
    proof {
        assert(res@[0]@ =~= left@);
        assert(res@[1]@ =~= middle@);
        assert(res@[2]@ =~= right@);
        assert(width / 2 <= 5 * width / 8) by {
            vstd::arithmetic::div_mod::lemma_div_is_ordered(4 * width as int, 5 * width as int, 8);
        }
        assert(6 * width / 8 <= 7 * width / 8) by {
            vstd::arithmetic::div_mod::lemma_div_is_ordered(6 * width as int, 7 * width as int, 8);
        }
        assert(width / 2 == 4 * width / 8);
        assert forall|g: int, k: int| 0 <= g < 3 && 0 <= k < 3 implies 0 <= #[trigger] res@[g]@[k]
            < width by {
            if g == 0 {
                assert(res@[0]@[k] == left@[k]);
            } else if g == 1 {
                assert(res@[1]@[k] == middle@[k]);
            } else {
                assert(res@[2]@[k] == right@[k]);
            }
        }
    }
    res
}

/// Rows compared at a vertical `offset` between samplings `h1` and `h2` rows tall, with
/// `num_groups` column groups: `(start1, start2, len)` pairs row `start1 + i` of the first
/// sampling with row `start2 + i` of the second for `i < len`, covering every row the two
/// samplings share once the second is shifted up by `offset` rows (down when negative).
/// `None` when either sampling is empty, there are no groups, or no row is shared.
pub open spec fn col_diff_window_spec(h1: int, h2: int, num_groups: int, offset: int) -> Option<
    (int, int, int),
> {
    let s1 = if offset > 0 { offset } else { 0 };
    let s2 = if offset < 0 { -offset } else { 0 };
    let len = min_int(sat_sub(h1, s1), sat_sub(h2, s2));
    if h1 == 0 || h2 == 0 || num_groups == 0 || len == 0 {
        None
    } else {
        Some((s1, s2, len))
    }
}

/// Comparing the second sampling against the first at `-offset` pairs the same rows as
/// comparing the first against the second at `offset`, with the two starts swapped.
pub proof fn lemma_col_diff_window_symmetric(h1: int, h2: int, num_groups: int, offset: int)
    ensures
        col_diff_window_spec(h2, h1, num_groups, -offset) == (match col_diff_window_spec(
            h1,
            h2,
            num_groups,
            offset,
        ) {
            Some((s1, s2, len)) => Some((s2, s1, len)),
            None => None,
        }),
{
}

/// Row `y1` of a sampling `h1` rows tall has a partner `y1 - offset` in one `h2` rows tall.
pub open spec fn shares_row(h1: int, h2: int, offset: int, y1: int) -> bool {
    0 <= y1 < h1 && 0 <= y1 - offset < h2
}

/// The window pairs every row the two samplings share: it starts at the shift on the
/// side that is shifted, ends where the shorter remainder ends, and every row `y1` of the
/// first sampling that has a partner `y1 - offset` in the second lies inside it, paired
/// with that partner. It is empty exactly when no row is shared.
pub proof fn lemma_col_diff_window_shares_every_row(h1: int, h2: int, num_groups: int, offset: int)
    requires
        h1 >= 0,
        h2 >= 0,
    ensures
        col_diff_window_spec(h1, h2, num_groups, offset) matches Some((s1, s2, len)) ==> {
            &&& s1 == (if offset > 0 { offset } else { 0 })
            &&& s2 == (if offset < 0 { -offset } else { 0 })
            &&& 0 <= s1 < h1
            &&& 0 <= s2 < h2
            &&& len == (if h1 - s1 <= h2 - s2 { h1 - s1 } else { h2 - s2 })
            &&& forall|y1: int|
                #[trigger] shares_row(h1, h2, offset, y1) ==> s1 <= y1 < s1 + len && y1 - s1 == y1
                    - offset - s2
        },
        col_diff_window_spec(h1, h2, num_groups, offset) is None <==> (h1 == 0 || h2 == 0
            || num_groups == 0 || !exists|y1: int| #[trigger] shares_row(h1, h2, offset, y1)),
{
    let s1 = if offset > 0 { offset } else { 0 };
    if h1 > 0 && h2 > 0 && num_groups != 0 {
        if exists|y1: int| #[trigger] shares_row(h1, h2, offset, y1) {
            let y1 = choose|y1: int| #[trigger] shares_row(h1, h2, offset, y1);
            assert(s1 <= y1);
        } else {
            if offset >= 0 && offset < h1 {
                assert(shares_row(h1, h2, offset, offset));
            } else if offset < 0 && -offset < h2 {
                assert(shares_row(h1, h2, offset, 0));
            }
        }
    }
}

/// Rows compared at a vertical `offset`: row `start1 + i` of the first sampling is
/// matched with row `start2 + i` of the second for `i < len`, for every row the two
/// samplings share. `None` when either sampling is empty, has no column groups, or the
/// samplings share no row at this offset.
pub fn col_diff_window(h1: usize, h2: usize, num_groups: usize, offset: i32) -> (res: Option<
    (usize, usize, usize),
>)
    ensures
        res matches Some((s1, s2, len)) ==> col_diff_window_spec(
            h1 as int,
            h2 as int,
            num_groups as int,
            offset as int,
        ) == Some((s1 as int, s2 as int, len as int)),
        res is None ==> col_diff_window_spec(h1 as int, h2 as int, num_groups as int, offset as int)
            is None,
        res matches Some((s1, s2, len)) ==> s1 + len <= h1 && s2 + len <= h2,
        res matches Some((s1, s2, len)) ==> {
            &&& s1 == (if offset > 0 { offset as int } else { 0 })
            &&& s2 == (if offset < 0 { -(offset as int) } else { 0 })
            &&& len == (if h1 - s1 <= h2 - s2 { h1 - s1 } else { h2 - s2 })
        },
        res is None <==> (h1 == 0 || h2 == 0 || num_groups == 0 || (offset > 0 && offset >= h1)
            || (offset < 0 && -(offset as int) >= h2)),
{
    proof {
        lemma_col_diff_window_shares_every_row(h1 as int, h2 as int, num_groups as int, offset as int);
    }
    if h1 == 0 || h2 == 0 || num_groups == 0 {
        return None;
    }
    let wide: i64 = offset as i64;
    let shift: u64 = if wide >= 0 { wide as u64 } else { (-wide) as u64 };
    let (s1, s2): (u64, u64) = if offset > 0 { (shift, 0) } else { (0, shift) };
    let rows1: u64 = (h1 as u64).saturating_sub(s1);
    let rows2: u64 = (h2 as u64).saturating_sub(s2);
    let len: u64 = if rows1 <= rows2 { rows1 } else { rows2 };
    if len == 0 {
        None
    } else {
        Some((s1 as usize, s2 as usize, len as usize))
    }
}

/// Offsets tried when matching column samplings `h1` and `h2` rows tall: all shifts
/// that keep at least `min_overlap` rows of the first sampling, nearest to `predict`
/// first. No offset is tried when either sampling is empty.
pub fn diff_overlap_offsets(h1: usize, h2: usize, predict: i32, min_overlap: u32) -> (res: Vec<
    i32,
>)
    requires
        h1 > 0 && h2 > 0 ==> i32::MIN <= (h1 as i32) - (min_overlap as i32) <= i32::MAX,
    ensures
        h1 == 0 || h2 == 0 ==> res.len() == 0,
        h1 > 0 && h2 > 0 ==> {
            let max_offset = if (h1 as i32) - (min_overlap as i32) >= 0 {
                (h1 as i32) - (min_overlap as i32)
            } else {
                0
            };
            &&& res.len() == max_offset + 1
            &&& res[0] == crate::search::search_center(max_offset as i32, predict)
            &&& forall|k: int| 0 <= k < res.len() ==> 0 <= #[trigger] res[k] <= max_offset
            &&& forall|a: int, b: int|
                0 <= a < b < res.len() ==> crate::search::search_rank(
                    res[a] as int,
                    crate::search::search_center(max_offset as i32, predict),
                ) < crate::search::search_rank(
                    res[b] as int,
                    crate::search::search_center(max_offset as i32, predict),
                )
            &&& forall|v: i32| 0 <= v <= max_offset ==> #[trigger] res@.contains(v)
        },
{
    if h1 == 0 || h2 == 0 {
        return Vec::new();
    }
    let h: i32 = h1 as i32;
    let gap: i32 = h - min_overlap as i32;
    let max_offset: i32 = if gap >= 0 { gap } else { 0 };
    crate::search::predict_offset_iter(max_offset, predict)
}

/// One step of the early-stopping rule of the column search, after an offset has been
/// scored. `best_below_approx`: the best difference so far is below the "close enough"
/// level; `diff_below_quarter`: this offset's difference is below a quarter of that level.
/// Returns the updated count of close-enough steps and whether the search stops.
pub fn diff_overlap_step(approach_count: u32, best_below_approx: bool, diff_below_quarter: bool) -> (res: (
    u32,
    bool,
))
    requires
        approach_count <= 10,
    ensures
        !best_below_approx ==> res == (approach_count, false),
        best_below_approx ==> res.0 == approach_count + 1 && res.1 == (approach_count + 1 > 10
            || diff_below_quarter),
        res.1 || res.0 <= 10,
{
    if !best_below_approx {
        return (approach_count, false);
    }
    let count: u32 = approach_count + 1;
    if count > 10 {
        return (count, true);
    }
    (count, diff_below_quarter)
}

} // verus!
