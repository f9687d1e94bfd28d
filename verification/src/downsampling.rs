//! Viewport-to-index mapping and downsampling.
//!
//! `find_visible_index_range` maps a time viewport onto a half-open index
//! range of a strictly increasing time buffer, seeding its search from the
//! previous frame's range so that a smoothly panning viewport costs amortized
//! near-constant work per frame. `decimate` and `lttb` then reduce such a
//! range to a bounded number of indices.

use vstd::prelude::*;

verus! {

/// Strategy used to reduce a visible index range to a bounded point count.
#[derive(Clone, Copy, Debug, PartialEq, Eq, Structural)]
pub enum DownsamplingMethod {
    Lttb,
    Decimation,
}

pub open spec fn strictly_increasing(s: Seq<i64>) -> bool {
    forall|i: int, j: int| 0 <= i < j < s.len() ==> #[trigger] s[i] < #[trigger] s[j]
}

/// How many elements of `s` are strictly below `x`.
pub open spec fn count_lt(s: Seq<i64>, x: i64) -> int
    decreases s.len(),
{
    if s.len() == 0 {
        0
    } else {
        count_lt(s.drop_last(), x) + (if s.last() < x {
            1int
        } else {
            0int
        })
    }
}

/// How many elements of `s` are at or below `x`.
pub open spec fn count_le(s: Seq<i64>, x: i64) -> int
    decreases s.len(),
{
    if s.len() == 0 {
        0
    } else {
        count_le(s.drop_last(), x) + (if s.last() <= x {
            1int
        } else {
            0int
        })
    }
}

/// On a strictly increasing sequence, the elements below `x` are exactly the
/// first `count_lt(s, x)` ones.
pub proof fn lemma_count_lt_sorted(s: Seq<i64>, x: i64)
    requires
        strictly_increasing(s),
    ensures
        0 <= count_lt(s, x) <= s.len(),
        forall|i: int| 0 <= i < s.len() ==> ((s[i] < x) <==> i < count_lt(s, x)),
    decreases s.len(),
{
    if s.len() > 0 {
        let t = s.drop_last();
        assert(strictly_increasing(t)) by {
            assert(forall|i: int, j: int|
                0 <= i < j < t.len() ==> #[trigger] t[i] < #[trigger] t[j]) by {
                assert(forall|i: int| 0 <= i < t.len() ==> t[i] == s[i]);
            }
        }
        lemma_count_lt_sorted(t, x);
        let c = count_lt(t, x);
        if s.last() < x {
            assert(c == t.len()) by {
                if c < t.len() {
                    assert(t[c] == s[c]);
                    assert(s[c] < s[s.len() - 1]);
                    assert(t[c] < x);
                }
            }
            assert forall|i: int| 0 <= i < s.len() implies ((s[i] < x) <==> i < count_lt(s, x)) by {
                if i < s.len() - 1 {
                    assert(s[i] == t[i]);
                    assert(t[i] < x);
                }
            }
        } else {
            assert forall|i: int| 0 <= i < s.len() implies ((s[i] < x) <==> i < count_lt(s, x)) by {
                if i < s.len() - 1 {
                    assert(s[i] == t[i]);
                    assert((t[i] < x) <==> i < c);
                }
            }
        }
    }
}

/// On a strictly increasing sequence, the elements at or below `x` are
/// exactly the first `count_le(s, x)` ones.
pub proof fn lemma_count_le_sorted(s: Seq<i64>, x: i64)
    requires
        strictly_increasing(s),
    ensures
        0 <= count_le(s, x) <= s.len(),
        forall|i: int| 0 <= i < s.len() ==> ((s[i] <= x) <==> i < count_le(s, x)),
    decreases s.len(),
{
    if s.len() > 0 {
        let t = s.drop_last();
        assert(strictly_increasing(t)) by {
            assert(forall|i: int, j: int|
                0 <= i < j < t.len() ==> #[trigger] t[i] < #[trigger] t[j]) by {
                assert(forall|i: int| 0 <= i < t.len() ==> t[i] == s[i]);
            }
        }
        lemma_count_le_sorted(t, x);
        let c = count_le(t, x);
        if s.last() <= x {
            assert(c == t.len()) by {
                if c < t.len() {
                    assert(t[c] == s[c]);
                    assert(s[c] < s[s.len() - 1]);
                    assert(t[c] <= x);
                }
            }
            assert forall|i: int| 0 <= i < s.len() implies ((s[i] <= x) <==> i < count_le(s, x)) by {
                if i < s.len() - 1 {
                    assert(s[i] == t[i]);
                    assert(t[i] <= x);
                }
            }
        } else {
            assert forall|i: int| 0 <= i < s.len() implies ((s[i] <= x) <==> i < count_le(s, x)) by {
                if i < s.len() - 1 {
                    assert(s[i] == t[i]);
                    assert((t[i] <= x) <==> i < c);
                }
            }
        }
    }
}

/// First index of the returned visible range: one position before the first
/// sample inside the viewport, so a drawn line extends to the window edge.
pub open spec fn visible_start(time: Seq<i64>, lo: i64) -> int {
    let a = count_lt(time, lo);
    if a == 0 {
        0
    } else {
        a - 1
    }
}

/// One-past-the-last index of the returned visible range: one position after
/// the last sample inside the viewport, clamped to the buffer length.
pub open spec fn visible_end(time: Seq<i64>, hi: i64) -> int {
    let b = count_le(time, hi);
    if b + 1 <= time.len() {
        b + 1
    } else {
        time.len() as int
    }
}

/// Maps the viewport `[lo, hi]` onto a half-open index range `[start, end)`
/// of `time`, walking the boundary indices of `previous` (or of the unseeded
/// default range `[0, 1)`) forward or backward until they straddle the
/// viewport bounds. The seed only shortens the walk: the result is a
/// function of the buffer and the viewport alone. Returns `None` exactly
/// when the buffer is empty; otherwise every index strictly between the
/// range's two boundary indices has its time inside the viewport.
#[verifier::loop_isolation(false)]
pub fn find_visible_index_range(
    time: &Vec<i64>,
    lo: i64,
    hi: i64,
    previous: Option<(usize, usize)>,
) -> (r: Option<(usize, usize)>)
    requires
        strictly_increasing(time@),
        lo <= hi,
        previous matches Some(p) ==> p.0 < p.1 && p.1 <= time@.len(),
    ensures
        r is None <==> time@.len() == 0,
        r matches Some(q) ==> {
            &&& q.0 == visible_start(time@, lo)
            &&& q.1 == visible_end(time@, hi)
            &&& q.0 < q.1 <= time@.len()
        },
{
    let n = time.len();
    if n == 0 {
        return None;
    }
    let (mut start, mut end): (usize, usize) = match previous {
        Some(p) => p,
        None => (0, 1),
    };
    let ghost a = count_lt(time@, lo);
    let ghost b = count_le(time@, hi);
    proof {
        lemma_count_lt_sorted(time@, lo);
        lemma_count_le_sorted(time@, hi);
        assert(a <= b) by {
            if a > 0 {
                assert(time@[a - 1] < lo);
            }
        }
    }
    if time[start] < lo {
        // The cached left boundary fell behind the viewport: walk it forward
        // up to the last sample still below the bound.
        while start + 1 < n && time[start + 1] < lo
            invariant
                n == time@.len(),
                start < a <= n,
                time@[start as int] < lo,
            decreases n - start,
        {
            start = start + 1;
        }
        proof {
            assert(start == a - 1);
        }
    } else {
        // The cached left boundary is at or past the bound: walk it backward
        // until the sample before it is below the bound.
        while start > 0 && time[start - 1] >= lo
            invariant
                n == time@.len(),
                a <= start < n,
            decreases start,
        {
            start = start - 1;
        }
        if start > 0 {
            start = start - 1;
        }
        proof {
            assert(start == if a == 0 {
                0int
            } else {
                a - 1
            });
        }
    }

    if time[end - 1] <= hi {
        // The cached right boundary is at or behind the bound: walk it
        // forward until it has admitted one sample past the bound (or hit
        // the end).
        while end < n && time[end - 1] <= hi
            invariant
                n == time@.len(),
                1 <= end <= n,
                end <= b + 1,
            decreases n - end,
        {
            end = end + 1;
        }
        proof {
            assert(end == if b + 1 <= n {
                b + 1
            } else {
                n as int
            });
        }
    } else {
        // The cached right boundary overshot: walk it backward until exactly
        // one sample past the bound remains inside the range.
        while end > 1 && time[end - 2] > hi
            invariant
                n == time@.len(),
                b + 1 <= end <= n,
            decreases end,
        {
            end = end - 1;
        }
        proof {
            assert(end == b + 1);
        }
    }

    proof {
        assert(start < end) by {
            if a > 0 {
                assert(time@[a - 1] < lo);
                assert(time@[a - 1] <= hi);
            }
        }
    }
    Some((start, end))
}

/// Every index strictly between the two boundary indices of the range
/// returned by `find_visible_index_range` has its time inside the viewport:
/// at most one index on each side lies outside.
pub proof fn lemma_visible_range_inside(time: Seq<i64>, lo: i64, hi: i64)
    requires
        strictly_increasing(time),
        lo <= hi,
        time.len() > 0,
    ensures
        forall|i: int|
            visible_start(time, lo) < i < visible_end(time, hi) - 1 ==> lo <= #[trigger] time[i]
                <= hi,
{
    lemma_count_lt_sorted(time, lo);
    lemma_count_le_sorted(time, hi);
    let a = count_lt(time, lo);
    let b = count_le(time, hi);
    assert forall|i: int|
        visible_start(time, lo) < i < visible_end(time, hi) - 1 implies lo <= #[trigger] time[i]
        <= hi by {
        assert(i >= a);
        assert(i < b);
    }
}

pub open spec fn decimate_step(len: int, max_num_out: int) -> int {
    if len / max_num_out >= 1 {
        len / max_num_out
    } else {
        1
    }
}

/// `ceil(len / step)`: how many indices decimation emits.
pub open spec fn decimate_count(len: int, max_num_out: int) -> int {
    if len == 0 {
        0
    } else {
        (len - 1) / decimate_step(len, max_num_out) + 1
    }
}

/// Fixed-stride downsampling: emits every `step`-th index of `time`,
/// starting at index 0, with `step = max(len / max_num_out, 1)`.
pub fn decimate(time: &Vec<i64>, max_num_out: usize) -> (r: Vec<usize>)
    requires
        max_num_out >= 1,
    ensures
        r@.len() == decimate_count(time@.len() as int, max_num_out as int),
        forall|k: int|
            0 <= k < r@.len() ==> #[trigger] r@[k] == k * decimate_step(
                time@.len() as int,
                max_num_out as int,
            ),
        forall|k: int| 0 <= k < r@.len() ==> #[trigger] r@[k] < time@.len(),
        forall|p: int, q: int| 0 <= p < q < r@.len() ==> #[trigger] r@[p] < #[trigger] r@[q],
        time@.len() > 0 ==> r@.len() > 0 && r@[0] == 0,
{
    let len = time.len();
    let q = len / max_num_out;
    let step: usize = if q >= 1 {
        q
    } else {
        1
    };
    let ghost gstep = decimate_step(len as int, max_num_out as int);
    let mut r: Vec<usize> = Vec::new();
    let mut i: usize = 0;
    proof {
        assert(0int * gstep == 0) by (nonlinear_arith);
    }
    loop
        invariant_except_break
            i == r@.len() * gstep,
            r@.len() > 0 ==> i - gstep < len,
        invariant
            step == gstep,
            0 < gstep,
            forall|k: int| 0 <= k < r@.len() ==> #[trigger] r@[k] == k * gstep,
            forall|k: int| 0 <= k < r@.len() ==> #[trigger] r@[k] < len,
        ensures
            len <= r@.len() * gstep,
            r@.len() == 0 ==> len == 0,
            r@.len() > 0 ==> (r@.len() - 1) * gstep < len,
        decreases len - i,
    {
        if i >= len {
            proof {
                if r@.len() > 0 {
                    assert((r@.len() - 1) * gstep == r@.len() * gstep - gstep)
                        by (nonlinear_arith);
                }
            }
            break ;
        }
        let ghost c0 = r@.len() as int;
        r.push(i);
        proof {
            assert((c0 + 1) * gstep == c0 * gstep + gstep) by (nonlinear_arith);
        }
        if len - i <= step {
            break ;
        }
        i = i + step;
    }
    proof {
        let c = r@.len() as int;
        let glen = len as int;
        assert(c == decimate_count(glen, max_num_out as int)) by {
            if glen == 0 {
                if c > 0 {
                    assert((c - 1) * gstep >= 0) by (nonlinear_arith)
                        requires
                            c - 1 >= 0,
                            gstep > 0,
                    ;
                }
            } else {
                assert(c * gstep == (c - 1) * gstep + gstep) by (nonlinear_arith);
                assert((glen - 1) / gstep == c - 1) by (nonlinear_arith)
                    requires
                        gstep > 0,
                        c >= 1,
                        (c - 1) * gstep <= glen - 1,
                        glen - 1 < (c - 1) * gstep + gstep,
                ;
            }
        }
        assert(forall|p: int, q: int|
            0 <= p < q < r@.len() ==> #[trigger] r@[p] < #[trigger] r@[q]) by {
            assert(forall|p: int, q: int|
                0 <= p < q && gstep > 0 ==> #[trigger] (p * gstep) < #[trigger] (q * gstep))
                by (nonlinear_arith);
        }
    }
    r
}

/// Largest magnitude a coordinate may have for largest-triangle-three-buckets
/// downsampling: keeps every triangle-area computation inside 128-bit
/// integers.
pub const COORD_LIMIT: i64 = 0x2000_0000_0000;

/// Largest buffer length accepted by largest-triangle-three-buckets
/// downsampling, for the same reason.
pub const LTTB_MAX_LEN: usize = 0xFFFF_FFFF;

pub open spec fn coords_bounded(s: Seq<i64>) -> bool {
    forall|i: int| 0 <= i < s.len() ==> -COORD_LIMIT <= #[trigger] s[i] <= COORD_LIMIT
}

/// The sum of `s[lo..hi]`.
pub open spec fn sum_range(s: Seq<i64>, lo: int, hi: int) -> int
    decreases hi - lo,
{
    if lo >= hi {
        0
    } else {
        sum_range(s, lo, hi - 1) + s[hi - 1]
    }
}

proof fn lemma_sum_range_bound(s: Seq<i64>, lo: int, hi: int)
    requires
        coords_bounded(s),
        0 <= lo,
        hi <= s.len(),
    ensures
        vstd::math::abs(sum_range(s, lo, hi)) <= (if hi - lo >= 0 {
            hi - lo
        } else {
            0int
        }) * (COORD_LIMIT as int),
    decreases hi - lo,
{
    if lo < hi {
        lemma_sum_range_bound(s, lo, hi - 1);
        assert((hi - lo) * (COORD_LIMIT as int) == (hi - 1 - lo) * (COORD_LIMIT as int)
            + COORD_LIMIT) by (nonlinear_arith);
    } else {
        assert((if hi - lo >= 0 { hi - lo } else { 0int }) * (COORD_LIMIT as int) >= 0)
            by (nonlinear_arith);
    }
}

/// Twice the area of the triangle through the previously chosen point `p`,
/// the candidate point `cand`, and the average of the points in
/// `[nlo, nhi)`, scaled by the count `nhi - nlo` so everything stays an
/// integer.
pub open spec fn tri_area2(
    time: Seq<i64>,
    data: Seq<i64>,
    p: int,
    cand: int,
    nlo: int,
    nhi: int,
) -> int {
    let cnt = nhi - nlo;
    vstd::math::abs((time[p] * cnt - sum_range(time, nlo, nhi)) * (data[cand] - data[p]) - (
    time[p] - time[cand]) * (sum_range(data, nlo, nhi) - data[p] * cnt)) as int
}

/// The index in `[lo, hi)` whose point makes the largest triangle with the
/// previous chosen point and the next bucket's average; the leftmost wins a
/// tie.
pub open spec fn best_in_bucket(
    time: Seq<i64>,
    data: Seq<i64>,
    p: int,
    lo: int,
    hi: int,
    nlo: int,
    nhi: int,
) -> int
    decreases hi - lo,
{
    if hi - lo <= 1 {
        lo
    } else {
        let b = best_in_bucket(time, data, p, lo, hi - 1, nlo, nhi);
        if tri_area2(time, data, p, hi - 1, nlo, nhi) > tri_area2(time, data, p, b, nlo, nhi) {
            hi - 1
        } else {
            b
        }
    }
}

proof fn lemma_best_in_bucket_range(
    time: Seq<i64>,
    data: Seq<i64>,
    p: int,
    lo: int,
    hi: int,
    nlo: int,
    nhi: int,
)
    requires
        lo < hi,
    ensures
        lo <= best_in_bucket(time, data, p, lo, hi, nlo, nhi) < hi,
    decreases hi - lo,
{
    if hi - lo > 1 {
        lemma_best_in_bucket_range(time, data, p, lo, hi - 1, nlo, nhi);
    }
}

/// Where the `k`-th interior bucket starts: the `len - 2` points between the
/// two mandatory endpoints are split into `n_out - 2` nearly equal buckets.
pub open spec fn lttb_boundary(len: int, n_out: int, k: int) -> int {
    1 + k * (len - 2) / (n_out - 2)
}

proof fn lemma_boundary_bounds(len: int, n_out: int, k: int)
    requires
        3 <= n_out < len,
        0 <= k <= n_out - 2,
    ensures
        1 <= lttb_boundary(len, n_out, k),
        lttb_boundary(len, n_out, k) <= len - 1,
        k == 0 ==> lttb_boundary(len, n_out, k) == 1,
        k == n_out - 2 ==> lttb_boundary(len, n_out, k) == len - 1,
{
    let m = len - 2;
    let nb = n_out - 2;
    assert(k * m >= 0) by (nonlinear_arith)
        requires
            k >= 0,
            m >= 0,
    ;
    assert(k * m <= nb * m) by (nonlinear_arith)
        requires
            k <= nb,
            m >= 0,
    ;
    vstd::arithmetic::div_mod::lemma_div_pos_is_pos(k * m, nb);
    vstd::arithmetic::div_mod::lemma_div_is_ordered(k * m, nb * m, nb);
    vstd::arithmetic::div_mod::lemma_div_multiples_vanish(m, nb);
    if k == 0 {
        assert(0int * m == 0) by (nonlinear_arith);
        vstd::arithmetic::div_mod::lemma_div_of0(nb);
    }
    if k == nb {
        assert(k * m == nb * m);
    }
}

proof fn lemma_boundary_step(len: int, n_out: int, k: int)
    requires
        3 <= n_out < len,
        0 <= k < n_out - 2,
    ensures
        lttb_boundary(len, n_out, k) < lttb_boundary(len, n_out, k + 1),
{
    let m = len - 2;
    let nb = n_out - 2;
    assert((k * m + nb) / nb == k * m / nb + 1) by {
        vstd::arithmetic::div_mod::lemma_hoist_over_denominator(k * m, 1, nb as nat);
        assert(k * m + 1 * nb == k * m + nb);
    }
    assert(k * m + nb <= (k + 1) * m) by (nonlinear_arith)
        requires
            nb <= m,
            k >= 0,
    ;
    vstd::arithmetic::div_mod::lemma_div_is_ordered(k * m + nb, (k + 1) * m, nb);
}

/// The `k`-th index that largest-triangle-three-buckets emits when the
/// buffer is longer than the budget: the first point, one choice per
/// interior bucket, and the last point.
pub open spec fn lttb_pick(time: Seq<i64>, data: Seq<i64>, n_out: int, k: int) -> int
    decreases k,
{
    let len = time.len() as int;
    if k <= 0 {
        0
    } else if k <= n_out - 2 {
        let p = lttb_pick(time, data, n_out, k - 1);
        let lo = lttb_boundary(len, n_out, k - 1);
        let hi = lttb_boundary(len, n_out, k);
        let nlo = if k < n_out - 2 {
            hi
        } else {
            len - 1
        };
        let nhi = if k < n_out - 2 {
            lttb_boundary(len, n_out, k + 1)
        } else {
            len
        };
        best_in_bucket(time, data, p, lo, hi, nlo, nhi)
    } else {
        len - 1
    }
}

proof fn lemma_lttb_pick_range(time: Seq<i64>, data: Seq<i64>, n_out: int, k: int)
    requires
        3 <= n_out < time.len(),
        1 <= k <= n_out - 2,
    ensures
        lttb_boundary(time.len() as int, n_out, k - 1) <= lttb_pick(time, data, n_out, k),
        lttb_pick(time, data, n_out, k) < lttb_boundary(time.len() as int, n_out, k),
{
    let len = time.len() as int;
    lemma_boundary_step(len, n_out, k - 1);
    lemma_best_in_bucket_range(
        time,
        data,
        lttb_pick(time, data, n_out, k - 1),
        lttb_boundary(len, n_out, k - 1),
        lttb_boundary(len, n_out, k),
        if k < n_out - 2 {
            lttb_boundary(len, n_out, k)
        } else {
            len - 1
        },
        if k < n_out - 2 {
            lttb_boundary(len, n_out, k + 1)
        } else {
            len
        },
    );
}

/// How many indices `lttb` emits.
pub open spec fn lttb_len(len: int, n_out: int) -> int {
    if len <= n_out {
        len
    } else {
        n_out
    }
}

/// The `k`-th index `lttb` emits.
pub open spec fn lttb_index(time: Seq<i64>, data: Seq<i64>, n_out: int, k: int) -> int {
    if time.len() <= n_out {
        k
    } else {
        lttb_pick(time, data, n_out, k)
    }
}

/// The chosen indices of every interior bucket are strictly between the two
/// endpoints and strictly ordered across buckets.
pub proof fn lemma_lttb_indices_increasing(time: Seq<i64>, data: Seq<i64>, n_out: int)
    requires
        2 <= n_out,
        n_out < time.len(),
    ensures
        forall|k1: int, k2: int|
            0 <= k1 < k2 < n_out ==> #[trigger] lttb_pick(time, data, n_out, k1)
                < #[trigger] lttb_pick(time, data, n_out, k2),
        lttb_pick(time, data, n_out, 0) == 0,
        lttb_pick(time, data, n_out, n_out - 1) == time.len() - 1,
        forall|k: int| 0 <= k < n_out ==> 0 <= #[trigger] lttb_pick(time, data, n_out, k)
            < time.len(),
{
    let len = time.len() as int;
    if n_out == 2 {
        assert(lttb_pick(time, data, n_out, 0) == 0);
        assert(lttb_pick(time, data, n_out, 1) == len - 1);
    } else {
        assert forall|k: int| 1 <= k <= n_out - 2 implies lttb_boundary(len, n_out, k - 1)
            <= #[trigger] lttb_pick(time, data, n_out, k) && lttb_pick(time, data, n_out, k)
            < lttb_boundary(len, n_out, k) by {
            lemma_lttb_pick_range(time, data, n_out, k);
        }
        assert forall|k: int| 0 <= k <= n_out - 2 implies 1 <= #[trigger] lttb_boundary(
            len,
            n_out,
            k,
        ) <= len - 1 by {
            lemma_boundary_bounds(len, n_out, k);
        }
        assert forall|k1: int, k2: int|
            0 <= k1 < k2 <= n_out - 2 implies #[trigger] lttb_boundary(len, n_out, k1)
            < #[trigger] lttb_boundary(len, n_out, k2) by {
            lemma_boundary_monotonic(len, n_out, k1, k2);
        }
        lemma_boundary_bounds(len, n_out, 0);
        lemma_boundary_bounds(len, n_out, n_out - 2);
        assert forall|k1: int, k2: int|
            0 <= k1 < k2 < n_out implies #[trigger] lttb_pick(time, data, n_out, k1)
            < #[trigger] lttb_pick(time, data, n_out, k2) by {
            if k1 == 0 {
                if k2 <= n_out - 2 {
                    assert(lttb_boundary(len, n_out, k2 - 1) >= 1);
                } else {
                    assert(lttb_pick(time, data, n_out, k2) == len - 1);
                }
            } else if k2 == n_out - 1 {
                if k1 <= n_out - 2 {
                    assert(lttb_pick(time, data, n_out, k1) < lttb_boundary(len, n_out, k1));
                    assert(lttb_boundary(len, n_out, k1) <= len - 1) by {
                        if k1 < n_out - 2 {
                            lemma_boundary_monotonic(len, n_out, k1, n_out - 2);
                        }
                    }
                }
            } else {
                assert(lttb_pick(time, data, n_out, k1) < lttb_boundary(len, n_out, k1));
                assert(lttb_boundary(len, n_out, k2 - 1) <= lttb_pick(time, data, n_out, k2));
                if k1 < k2 - 1 {
                    lemma_boundary_monotonic(len, n_out, k1, k2 - 1);
                }
            }
        }
    }
}

proof fn lemma_boundary_monotonic(len: int, n_out: int, k1: int, k2: int)
    requires
        3 <= n_out < len,
        0 <= k1 < k2 <= n_out - 2,
    ensures
        lttb_boundary(len, n_out, k1) < lttb_boundary(len, n_out, k2),
    decreases k2 - k1,
{
    lemma_boundary_step(len, n_out, k2 - 1);
    if k1 < k2 - 1 {
        lemma_boundary_monotonic(len, n_out, k1, k2 - 1);
    }
}

/// Where the `k`-th interior bucket starts, as executable code.
fn bucket_boundary(len: usize, n_out: usize, k: usize) -> (r: usize)
    requires
        3 <= n_out < len,
        len <= LTTB_MAX_LEN,
        k <= n_out - 2,
    ensures
        r == lttb_boundary(len as int, n_out as int, k as int),
        1 <= r <= len - 1,
{
    proof {
        lemma_boundary_bounds(len as int, n_out as int, k as int);
        assert((k as int) * ((len - 2) as int) <= 0xFFFF_FFFF * 0xFFFF_FFFF) by (nonlinear_arith)
            requires
                0 <= k <= 0xFFFF_FFFF,
                0 <= len - 2 <= 0xFFFF_FFFF,
        ;
    }
    let m = (len - 2) as u128;
    let q = (k as u128) * m / ((n_out - 2) as u128);
    proof {
        assert(q == (k as int) * ((len - 2) as int) / ((n_out - 2) as int));
        assert(q <= len - 2);
    }
    1 + (q as usize)
}

/// Twice the triangle area used to rank one candidate point, as executable
/// code: exact 128-bit integer arithmetic, no rounding.
fn tri_area2_exec(
    time: &Vec<i64>,
    data: &Vec<i64>,
    p: usize,
    cand: usize,
    nlo: usize,
    nhi: usize,
    sx: i128,
    sy: i128,
) -> (a: i128)
    requires
        time@.len() == data@.len(),
        coords_bounded(time@),
        coords_bounded(data@),
        p < time@.len(),
        cand < time@.len(),
        nlo < nhi <= time@.len(),
        time@.len() <= LTTB_MAX_LEN,
        sx == sum_range(time@, nlo as int, nhi as int),
        sy == sum_range(data@, nlo as int, nhi as int),
    ensures
        a == tri_area2(time@, data@, p as int, cand as int, nlo as int, nhi as int),
        a >= 0,
{
    let ghost bound = COORD_LIMIT as int;
    let ghost cap = LTTB_MAX_LEN as int;
    let ghost c = nhi - nlo;
    proof {
        lemma_sum_range_bound(time@, nlo as int, nhi as int);
        lemma_sum_range_bound(data@, nlo as int, nhi as int);
        assert(c * bound <= cap * bound && bound * c <= bound * cap) by (nonlinear_arith)
            requires
                0 <= c <= cap,
                bound >= 0,
        ;
        assert(-(bound * cap) <= time@[p as int] * c <= bound * cap) by (nonlinear_arith)
            requires
                -bound <= time@[p as int] <= bound,
                0 <= c <= cap,
                bound >= 0,
        ;
        assert(-(bound * cap) <= data@[p as int] * c <= bound * cap) by (nonlinear_arith)
            requires
                -bound <= data@[p as int] <= bound,
                0 <= c <= cap,
                bound >= 0,
        ;
    }
    let cnt = (nhi - nlo) as i128;
    let t1 = (time[p] as i128) * cnt - sx;
    let t2 = (data[cand] as i128) - (data[p] as i128);
    let t3 = (time[p] as i128) - (time[cand] as i128);
    let t4 = sy - (data[p] as i128) * cnt;
    proof {
        assert(-(2 * bound * cap) <= t1 <= 2 * bound * cap);
        assert(-(2 * bound) <= t2 <= 2 * bound);
        assert(-(2 * bound) <= t3 <= 2 * bound);
        assert(-(2 * bound * cap) <= t4 <= 2 * bound * cap);
        assert(-(4 * bound * bound * cap) <= t1 * t2 <= 4 * bound * bound * cap)
            by (nonlinear_arith)
            requires
                -(2 * bound * cap) <= t1 <= 2 * bound * cap,
                -(2 * bound) <= t2 <= 2 * bound,
                bound >= 0,
                cap >= 0,
        ;
        assert(-(4 * bound * bound * cap) <= t3 * t4 <= 4 * bound * bound * cap)
            by (nonlinear_arith)
            requires
                -(2 * bound * cap) <= t4 <= 2 * bound * cap,
                -(2 * bound) <= t3 <= 2 * bound,
                bound >= 0,
                cap >= 0,
        ;
    }
    let v = t1 * t2 - t3 * t4;
    if v < 0 {
        -v
    } else {
        v
    }
}

/// Largest-triangle-three-buckets downsampling: reduces a buffer to at most
/// `n_out` indices. The first and last index are always kept; each of the
/// `n_out - 2` interior buckets contributes the index whose point spans the
/// largest triangle with the previously chosen point and the average of the
/// next bucket, which preserves visual peaks far better than uniform
/// decimation. A buffer no longer than the budget is returned whole.
#[verifier::loop_isolation(false)]
pub fn lttb(time: &Vec<i64>, data: &Vec<i64>, n_out: usize) -> (r: Vec<usize>)
    requires
        time@.len() == data@.len(),
        2 <= n_out,
        time@.len() <= LTTB_MAX_LEN,
        coords_bounded(time@),
        coords_bounded(data@),
    ensures
        r@.len() == lttb_len(time@.len() as int, n_out as int),
        forall|k: int|
            0 <= k < r@.len() ==> #[trigger] r@[k] == lttb_index(time@, data@, n_out as int, k),
        forall|k: int| 0 <= k < r@.len() ==> #[trigger] r@[k] < time@.len(),
        forall|k1: int, k2: int| 0 <= k1 < k2 < r@.len() ==> #[trigger] r@[k1] < #[trigger] r@[k2],
        time@.len() > 0 ==> r@.len() > 0 && r@[0] == 0 && r@[r@.len() - 1] == time@.len() - 1,
{
    let len = time.len();
    if len <= n_out {
        let mut r: Vec<usize> = Vec::new();
        let mut i: usize = 0;
        while i < len
            invariant
                i <= len,
                r@.len() == i,
                forall|k: int| 0 <= k < i ==> #[trigger] r@[k] == k,
            decreases len - i,
        {
            r.push(i);
            i = i + 1;
        }
        return r;
    }
    proof {
        lemma_lttb_indices_increasing(time@, data@, n_out as int);
    }
    let ghost gn = n_out as int;
    let mut r: Vec<usize> = Vec::new();
    r.push(0);
    let nb = n_out - 2;
    let mut k: usize = 0;
    let mut prev: usize = 0;
    while k < nb
        invariant
            k <= nb,
            r@.len() == k + 1,
            forall|j: int| 0 <= j <= k ==> #[trigger] r@[j] == lttb_pick(time@, data@, gn, j),
            prev == lttb_pick(time@, data@, gn, k as int),
            prev < len,
        decreases nb - k,
    {
        let lo = bucket_boundary(len, n_out, k);
        let hi = bucket_boundary(len, n_out, k + 1);
        let (nlo, nhi): (usize, usize) = if k + 1 < nb {
            (hi, bucket_boundary(len, n_out, k + 2))
        } else {
            (len - 1, len)
        };
        proof {
            lemma_boundary_step(len as int, gn, k as int);
            if k + 1 < nb {
                lemma_boundary_step(len as int, gn, k + 1 as int);
            }
        }
        let mut sx: i128 = 0;
        let mut sy: i128 = 0;
        let mut j: usize = nlo;
        proof {
            assert(2 * (COORD_LIMIT as int) * (LTTB_MAX_LEN as int) < 0x4000_0000_0000_0000_0000_0000_0000_0000int);
        }
        while j < nhi
            invariant
                nlo <= j <= nhi,
                sx == sum_range(time@, nlo as int, j as int),
                sy == sum_range(data@, nlo as int, j as int),
            decreases nhi - j,
        {
            proof {
                lemma_sum_range_bound(time@, nlo as int, j as int);
                lemma_sum_range_bound(data@, nlo as int, j as int);
                assert((j - nlo) * (COORD_LIMIT as int) <= (LTTB_MAX_LEN as int) * (
                COORD_LIMIT as int)) by (nonlinear_arith)
                    requires
                        0 <= j - nlo <= LTTB_MAX_LEN as int,
                        COORD_LIMIT as int >= 0,
                ;
            }
            sx = sx + (time[j] as i128);
            sy = sy + (data[j] as i128);
            j = j + 1;
        }
        let mut best: usize = lo;
        let mut best_area = tri_area2_exec(time, data, prev, lo, nlo, nhi, sx, sy);
        let mut cand: usize = lo + 1;
        while cand < hi
            invariant
                lo < cand <= hi,
                lo <= best < cand,
                best == best_in_bucket(time@, data@, prev as int, lo as int, cand as int, nlo as int, nhi as int),
                best_area == tri_area2(time@, data@, prev as int, best as int, nlo as int, nhi as int),
            decreases hi - cand,
        {
            let a = tri_area2_exec(time, data, prev, cand, nlo, nhi, sx, sy);
            if a > best_area {
                best = cand;
                best_area = a;
            }
            cand = cand + 1;
        }
        r.push(best);
        prev = best;
        proof {
            assert(best == lttb_pick(time@, data@, gn, k + 1));
        }
        k = k + 1;
    }
    r.push(len - 1);
    proof {
        assert(r@.len() == gn);
        assert(r@[gn - 1] == lttb_pick(time@, data@, gn, gn - 1));
        assert forall|k2: int| 0 <= k2 < r@.len() implies #[trigger] r@[k2] == lttb_index(
            time@,
            data@,
            gn,
            k2,
        ) by {
            if k2 < gn - 1 {
                assert(r@[k2] == lttb_pick(time@, data@, gn, k2));
            }
        }
    }
    r
}

/// Reduces a visible index range to a bounded set of indices with the chosen
/// strategy. `max_num_out` is the point budget; the indices returned are
/// strictly increasing positions into the given slices.
pub fn downsample(
    time: &Vec<i64>,
    data: &Vec<i64>,
    max_num_out: usize,
    method: DownsamplingMethod,
) -> (r: Vec<usize>)
    requires
        time@.len() == data@.len(),
        2 <= max_num_out,
        method == DownsamplingMethod::Lttb ==> time@.len() <= LTTB_MAX_LEN && coords_bounded(time@)
            && coords_bounded(data@),
    ensures
        method == DownsamplingMethod::Decimation ==> r@.len() == decimate_count(
            time@.len() as int,
            max_num_out as int,
        ) && (forall|k: int|
            0 <= k < r@.len() ==> #[trigger] r@[k] == k * decimate_step(
                time@.len() as int,
                max_num_out as int,
            )),
        method == DownsamplingMethod::Lttb ==> r@.len() == lttb_len(
            time@.len() as int,
            max_num_out as int,
        ) && (forall|k: int|
            0 <= k < r@.len() ==> #[trigger] r@[k] == lttb_index(
                time@,
                data@,
                max_num_out as int,
                k,
            )),
        forall|k: int| 0 <= k < r@.len() ==> #[trigger] r@[k] < time@.len(),
        forall|k1: int, k2: int| 0 <= k1 < k2 < r@.len() ==> #[trigger] r@[k1] < #[trigger] r@[k2],
{
    match method {
        DownsamplingMethod::Decimation => decimate(time, max_num_out),
        DownsamplingMethod::Lttb => lttb(time, data, max_num_out),
    }
}

} // verus!
