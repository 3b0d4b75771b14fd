use vstd::prelude::*;

verus! {

/// Where a search over offsets `0..=max_offset` starts: the prediction, pulled into range.
pub open spec fn search_center(max_offset: i32, predict: i32) -> int {
    if predict < 0 {
        0
    } else if predict > max_offset {
        max_offset as int
    } else {
        predict as int
    }
}

/// Position of offset `v` in a search that starts at `c` and widens step by step,
/// looking one step further on the larger side before the smaller side.
pub open spec fn search_rank(v: int, c: int) -> int {
    if v >= c {
        2 * (v - c) - (if v > c { 1int } else { 0int })
    } else {
        2 * (c - v)
    }
}

/// Number of offsets in `0..=max` that lie less than `d` steps from `c`.
spec fn covered_count(c: int, d: int, max: int) -> int {
    let hi = if c + d - 1 <= max { c + d - 1 } else { max };
    let lo = if c - d + 1 >= 0 { c - d + 1 } else { 0 };
    hi - lo + 1
}

/// Ordering by search rank is ordering by distance from the centre, and at equal
/// distance the offset above the centre comes first.
pub proof fn lemma_search_rank_orders_by_distance(a: int, b: int, c: int)
    ensures
        ({
            let da = if a >= c { a - c } else { c - a };
            let db = if b >= c { b - c } else { c - b };
            search_rank(a, c) < search_rank(b, c) <==> (da < db || (da == db && a > c && b < c))
        }),
{
}

/// Every offset in `0..=max_offset` exactly once, starting at the prediction (pulled into
/// range) and moving outwards: `c, c + 1, c - 1, c + 2, c - 2, ...`, skipping offsets
/// outside the range.
pub fn predict_offset_iter(max_offset: i32, predict: i32) -> (res: Vec<i32>)
    requires
        max_offset >= 0,
    ensures
        res.len() == max_offset + 1,
        res[0] == search_center(max_offset, predict),
        forall|k: int| 0 <= k < res.len() ==> 0 <= #[trigger] res[k] <= max_offset,
        forall|a: int, b: int|
            0 <= a < b < res.len() ==> search_rank(res[a] as int, search_center(max_offset, predict))
                < search_rank(res[b] as int, search_center(max_offset, predict)),
        forall|v: i32| 0 <= v <= max_offset ==> #[trigger] res@.contains(v),
        res[0] == (if predict < 0 {
            0
        } else if predict > max_offset {
            max_offset
        } else {
            predict
        }),
        ({
            let c = res[0] as int;
            forall|a: int, b: int|
                #![trigger res[a], res[b]]
                0 <= a < b < res.len() ==> {
                    let da = if res[a] >= c { res[a] - c } else { c - res[a] };
                    let db = if res[b] >= c { res[b] - c } else { c - res[b] };
                    da < db || (da == db && res[a] > c && res[b] < c)
                }
        }),
{
    let c: i32 = if predict < 0 {
        0
    } else if predict > max_offset {
        max_offset
    } else {
        predict
    };
    let ghost gc = c as int;
    let mut res: Vec<i32> = Vec::new();
    res.push(c);
    let mut d: i64 = 1;
    let max: i64 = max_offset as i64;
    assert(res@[0] == c);
    while d <= max
        invariant
            gc == c as int,
            gc == search_center(max_offset, predict),
            0 <= c <= max_offset,
            max == max_offset as int,
            1 <= d <= max + 1,
            res.len() == covered_count(gc, d as int, max as int),
            res@[0] == c,
            res.len() >= 1,
            forall|k: int| 0 <= k < res.len() ==> 0 <= #[trigger] res@[k] <= max_offset,
            forall|k: int|
                0 <= k < res.len() ==> #[trigger] search_rank(res@[k] as int, gc) < 2 * d - 1,
            forall|a: int, b: int|
                0 <= a < b < res.len() ==> search_rank(res@[a] as int, gc) < search_rank(
                    res@[b] as int,
                    gc,
                ),
            forall|v: i32|
                0 <= v <= max_offset && v - gc < d && gc - v < d ==> #[trigger] res@.contains(v),
        decreases max + 1 - d,
    {
        let ghost before = res@;
        let up: i64 = c as i64 + d;
        if up <= max {
            res.push(up as i32);
            proof {
                assert forall|v: i32|
                    0 <= v <= max_offset && v - gc < d && gc - v < d implies #[trigger] res@.contains(v) by {
                    assert(before.contains(v));
                    let k = choose|k: int| 0 <= k < before.len() && before[k] == v;
                    assert(res@[k] == v);
                }
            }
        }
        let ghost mid = res@;
        let down: i64 = c as i64 - d;
        if down >= 0 {
            res.push(down as i32);
            proof {
                assert forall|v: i32|
                    0 <= v <= max_offset && v - gc < d && gc - v < d implies #[trigger] res@.contains(v) by {
                    assert(mid.contains(v));
                    let k = choose|k: int| 0 <= k < mid.len() && mid[k] == v;
                    assert(res@[k] == v);
                }
            }
        }
        proof {
            assert forall|v: i32|
                0 <= v <= max_offset && v - gc < d + 1 && gc - v < d + 1 implies #[trigger] res@.contains(v) by {
                if v - gc == d {
                    assert(res@[mid.len() - 1] == v);
                } else if gc - v == d {
                    assert(res@[res.len() - 1] == v);
                } else {
                    assert(mid.contains(v));
                    let k = choose|k: int| 0 <= k < mid.len() && mid[k] == v;
                    assert(res@[k] == v);
                }
            }
        }
        d = d + 1;
    }
    proof {
        assert forall|a: int, b: int| #![trigger res[a], res[b]] 0 <= a < b < res.len() implies {
            let c = res[0] as int;
            let da = if res[a] >= c { res[a] - c } else { c - res[a] };
            let db = if res[b] >= c { res[b] - c } else { c - res[b] };
            da < db || (da == db && res[a] > c && res[b] < c)
        } by {
            lemma_search_rank_orders_by_distance(res[a] as int, res[b] as int, res[0] as int);
        }
    }
    res
}

} // verus!
