//! Bucketed-extrema mode: a fast resolver that keeps, per bucket of
//! consecutive samples, its ends and the extremes of both series, with a
//! fast path that thins the previous result when the budget shrinks.
use vstd::prelude::*;
use crate::mouse_event::MouseMoveEvent;
use crate::engine::PlotBounds;
use crate::view::{strictly_increasing, trunc_div};
use std::collections::HashSet;

verus! {

broadcast use vstd::std_specs::hash::group_hash_axioms;

/// Margin, in pixels, added on each side of a bounded view.
pub const MARGIN_PX: u64 = 8;

/// Timestamp of sample `i`, in microseconds.
pub open spec fn time_at(events: Seq<MouseMoveEvent>, i: int) -> int {
    events[i].time_micros_spec()
}

/// Sample times never decrease along the array.
pub open spec fn time_sorted(events: Seq<MouseMoveEvent>) -> bool {
    forall|i: int, j: int| 0 <= i <= j < events.len() ==> time_at(events, i) <= time_at(events, j)
}

/// Samples before `s` are earlier than `t`, the others are not.
pub open spec fn splits_below(events: Seq<MouseMoveEvent>, t: int, s: int) -> bool {
    &&& 0 <= s <= events.len()
    &&& forall|i: int| 0 <= i < s ==> time_at(events, i) < t
    &&& forall|i: int| s <= i < events.len() ==> time_at(events, i) >= t
}

/// Samples before `s` are no later than `t`, the others are later.
pub open spec fn splits_above(events: Seq<MouseMoveEvent>, t: int, s: int) -> bool {
    &&& 0 <= s <= events.len()
    &&& forall|i: int| 0 <= i < s ==> time_at(events, i) <= t
    &&& forall|i: int| s <= i < events.len() ==> time_at(events, i) > t
}

/// The first index from which every sample's time is at least `t`.
pub open spec fn first_not_below(events: Seq<MouseMoveEvent>, t: int) -> int {
    choose|s: int| #[trigger] splits_below(events, t, s)
}

/// The first index from which every sample's time is greater than `t`.
pub open spec fn first_above(events: Seq<MouseMoveEvent>, t: int) -> int {
    choose|s: int| #[trigger] splits_above(events, t, s)
}

/// Points-per-pixel budget for `count` samples over `width` pixels: one
/// point per pixel above three samples per pixel, every sample below one,
/// and `4 - density` points per pixel in between; never more than `count`.
pub open spec fn target_for(count: int, width: int) -> int {
    if count > 3 * width {
        width
    } else if count < width {
        count
    } else if 4 * width - count < count {
        4 * width - count
    } else {
        count
    }
}

/// Doubling the width never lowers the budget; so a view within budget
/// stays within budget, and drawn whole, at twice the width.
pub proof fn lemma_budget_grows_with_width(count: int, width: int)
    requires
        count >= 0,
        width >= 1,
    ensures
        target_for(count, 2 * width) >= target_for(count, width),
        count <= target_for(count, width) ==> count <= target_for(count, 2 * width),
{
}

/// The time window of a bounded view: the bounds widened by [`MARGIN_PX`]
/// pixels' worth of time on each side.
pub open spec fn window(b: PlotBounds, width: int) -> (int, int) {
    let margin = trunc_div(MARGIN_PX * (b.x_max - b.x_min), width);
    (b.x_min - margin, b.x_max + margin)
}

/// Sample `i` is one of the six kept points of bucket `[lo, hi)`: its first
/// or last sample, or one where `dx` or `dy` is least or greatest.
pub open spec fn extreme_in(events: Seq<MouseMoveEvent>, lo: int, hi: int, i: int) -> bool {
    &&& lo <= i < hi
    &&& {
        ||| i == lo
        ||| i == hi - 1
        ||| forall|j: int| lo <= j < hi ==> events[i].dx <= #[trigger] events[j].dx
        ||| forall|j: int| lo <= j < hi ==> events[i].dx >= #[trigger] events[j].dx
        ||| forall|j: int| lo <= j < hi ==> events[i].dy <= #[trigger] events[j].dy
        ||| forall|j: int| lo <= j < hi ==> events[i].dy >= #[trigger] events[j].dy
    }
}

/// Some index of `out` names a sample with timestamp `t`.
pub open spec fn time_in(out: Seq<usize>, events: Seq<MouseMoveEvent>, t: int) -> bool {
    exists|a: int| 0 <= a < out.len() && #[trigger] time_at(events, out[a] as int) == t
}

/// Some marked sample has timestamp `t`.
pub open spec fn time_marked(mark: Seq<bool>, events: Seq<MouseMoveEvent>, t: int) -> bool {
    exists|i: int| 0 <= i < mark.len() && mark[i] && #[trigger] time_at(events, i) == t
}

/// Each of the six kept points of bucket `[lo, hi)` has its timestamp among
/// those that `has_time` holds of: the first and last sample, and for each of
/// least `dx`, greatest `dx`, least `dy`, greatest `dy` some sample attaining it.
pub open spec fn bucket_covered(has_time: spec_fn(int) -> bool, events: Seq<MouseMoveEvent>, lo: int, hi: int) -> bool {
    &&& has_time(time_at(events, lo))
    &&& has_time(time_at(events, hi - 1))
    &&& exists|j: int| lo <= j < hi && #[trigger] has_time(time_at(events, j))
        && forall|m: int| lo <= m < hi ==> events[j].dx <= #[trigger] events[m].dx
    &&& exists|j: int| lo <= j < hi && #[trigger] has_time(time_at(events, j))
        && forall|m: int| lo <= m < hi ==> events[j].dx >= #[trigger] events[m].dx
    &&& exists|j: int| lo <= j < hi && #[trigger] has_time(time_at(events, j))
        && forall|m: int| lo <= m < hi ==> events[j].dy <= #[trigger] events[m].dy
    &&& exists|j: int| lo <= j < hi && #[trigger] has_time(time_at(events, j))
        && forall|m: int| lo <= m < hi ==> events[j].dy >= #[trigger] events[m].dy
}

/// First index of bucket `b`.
pub open spec fn bucket_lo(start: int, size: int, b: int) -> int {
    start + b * size
}

/// One past the last index of bucket `b`, the slice ending at `end`.
pub open spec fn bucket_hi(start: int, end: int, size: int, b: int) -> int {
    if bucket_lo(start, size, b) + size < end { bucket_lo(start, size, b) + size } else { end }
}

/// Sample `i` is one of the six kept points of some bucket of the slice.
pub open spec fn kept_point(events: Seq<MouseMoveEvent>, start: int, end: int, size: int, i: int) -> bool {
    exists|b: int| 0 <= b && bucket_lo(start, size, b) < end
        && #[trigger] extreme_in(events, bucket_lo(start, size, b), bucket_hi(start, end, size, b), i)
}

/// No two indices of `out` name samples with the same timestamp.
pub open spec fn distinct_times(out: Seq<usize>, events: Seq<MouseMoveEvent>) -> bool {
    forall|a: int, b: int| 0 <= a < b < out.len() ==> time_at(events, out[a] as int) != time_at(events, out[b] as int)
}

/// First index whose time is at least `t` (all of them when none is).
fn first_at_or_after(events: &[MouseMoveEvent], t: i128) -> (r: usize)
    requires
        time_sorted(events@),
    ensures
        r <= events@.len(),
        forall|i: int| 0 <= i < r ==> time_at(events@, i) < t,
        forall|i: int| r <= i < events@.len() ==> time_at(events@, i) >= t,
        r == first_not_below(events@, t as int),
{
    let mut lo: usize = 0;
    let mut hi: usize = events.len();
    while lo < hi
        invariant
            lo <= hi <= events@.len(),
            time_sorted(events@),
            forall|i: int| 0 <= i < lo ==> time_at(events@, i) < t,
            forall|i: int| hi <= i < events@.len() ==> time_at(events@, i) >= t,
        decreases hi - lo,
    {
        let mid = lo + (hi - lo) / 2;
        assert(time_at(events@, mid as int) == events@[mid as int].time_micros_spec());
        if (events[mid].time_micros() as i128) < t {
            lo = mid + 1;
        } else {
            hi = mid;
        }
    }
    let ghost c = first_not_below(events@, t as int);
    assert(splits_below(events@, t as int, lo as int));
    assert(c == lo) by {
        if c < lo {
            assert(time_at(events@, c) < t);
        } else if c > lo {
            assert(time_at(events@, lo as int) < t);
        }
    }
    lo
}

/// First index whose time is greater than `t` (all of them when none is).
fn first_after(events: &[MouseMoveEvent], t: i128) -> (r: usize)
    requires
        time_sorted(events@),
    ensures
        r <= events@.len(),
        forall|i: int| 0 <= i < r ==> time_at(events@, i) <= t,
        forall|i: int| r <= i < events@.len() ==> time_at(events@, i) > t,
        r == first_above(events@, t as int),
{
    let mut lo: usize = 0;
    let mut hi: usize = events.len();
    while lo < hi
        invariant
            lo <= hi <= events@.len(),
            time_sorted(events@),
            forall|i: int| 0 <= i < lo ==> time_at(events@, i) <= t,
            forall|i: int| hi <= i < events@.len() ==> time_at(events@, i) > t,
        decreases hi - lo,
    {
        let mid = lo + (hi - lo) / 2;
        assert(time_at(events@, mid as int) == events@[mid as int].time_micros_spec());
        if (events[mid].time_micros() as i128) <= t {
            lo = mid + 1;
        } else {
            hi = mid;
        }
    }
    let ghost c = first_above(events@, t as int);
    assert(splits_above(events@, t as int, lo as int));
    assert(c == lo) by {
        if c < lo {
            assert(time_at(events@, c) > t);
        } else if c > lo {
            assert(time_at(events@, lo as int) <= t);
        }
    }
    lo
}

/// The six kept points of bucket `[lo, hi)`, in this order: first, last,
/// least `dx`, greatest `dx`, least `dy`, greatest `dy` (the first sample
/// attaining each extreme).
fn bucket_points(events: &[MouseMoveEvent], lo: usize, hi: usize) -> (r: [usize; 6])
    requires
        lo < hi <= events@.len(),
    ensures
        r[0] == lo,
        r[1] == hi - 1,
        forall|k: int| 0 <= k < 6 ==> lo <= #[trigger] r[k] < hi,
        forall|m: int| lo <= m < hi ==> events@[r[2] as int].dx <= #[trigger] events@[m].dx,
        forall|m: int| lo <= m < hi ==> events@[r[3] as int].dx >= #[trigger] events@[m].dx,
        forall|m: int| lo <= m < hi ==> events@[r[4] as int].dy <= #[trigger] events@[m].dy,
        forall|m: int| lo <= m < hi ==> events@[r[5] as int].dy >= #[trigger] events@[m].dy,
{
    let mut min_dx = lo;
    let mut max_dx = lo;
    let mut min_dy = lo;
    let mut max_dy = lo;
    let mut i: usize = lo + 1;
    while i < hi
        invariant
            lo < i <= hi <= events@.len(),
            lo <= min_dx < i,
            lo <= max_dx < i,
            lo <= min_dy < i,
            lo <= max_dy < i,
            forall|m: int| lo <= m < i ==> events@[min_dx as int].dx <= #[trigger] events@[m].dx,
            forall|m: int| lo <= m < i ==> events@[max_dx as int].dx >= #[trigger] events@[m].dx,
            forall|m: int| lo <= m < i ==> events@[min_dy as int].dy <= #[trigger] events@[m].dy,
            forall|m: int| lo <= m < i ==> events@[max_dy as int].dy >= #[trigger] events@[m].dy,
        decreases hi - i,
    {
        if events[i].dx < events[min_dx].dx {
            min_dx = i;
        }
        if events[i].dx > events[max_dx].dx {
            max_dx = i;
        }
        if events[i].dy < events[min_dy].dy {
            min_dy = i;
        }
        if events[i].dy > events[max_dy].dy {
            max_dy = i;
        }
        i = i + 1;
    }
    [lo, hi - 1, min_dx, max_dx, min_dy, max_dy]
}

/// Marks sample `c` unless a marked sample already has its timestamp.
fn mark_unless_taken(events: &[MouseMoveEvent], c: usize, mark: &mut Vec<bool>, taken: &mut HashSet<u64>)
    requires
        c < events@.len(),
        old(mark)@.len() == events@.len(),
        forall|t: u64| #[trigger] old(taken)@.contains(t) <==> time_marked(old(mark)@, events@, t as int),
        forall|i: int, j: int| 0 <= i < j < old(mark)@.len() && old(mark)@[i] && old(mark)@[j]
            ==> time_at(events@, i) != time_at(events@, j),
    ensures
        final(mark)@.len() == events@.len(),
        forall|t: u64| #[trigger] final(taken)@.contains(t) <==> time_marked(final(mark)@, events@, t as int),
        forall|i: int, j: int| 0 <= i < j < final(mark)@.len() && final(mark)@[i] && final(mark)@[j]
            ==> time_at(events@, i) != time_at(events@, j),
        forall|i: int| 0 <= i < events@.len() ==> (final(mark)@[i] <==> (old(mark)@[i] || (i == c && !time_marked(old(mark)@, events@, time_at(events@, c as int))))),
        time_marked(final(mark)@, events@, time_at(events@, c as int)),
{
    let t = events[c].time_micros();
    assert(time_at(events@, c as int) == t);
    if !taken.contains(&t) {
        let ghost prev = mark@;
        let ghost prev_taken = taken@;
        taken.insert(t);
        mark.set(c, true);
        proof {
            assert(mark@ == prev.update(c as int, true));
            assert(!time_marked(prev, events@, t as int));
            assert forall|t2: u64| #[trigger] taken@.contains(t2) <==> time_marked(mark@, events@, t2 as int) by {
                if taken@.contains(t2) && t2 != t {
                    assert(prev_taken.contains(t2));
                    let i = choose|i: int| 0 <= i < prev.len() && prev[i] && #[trigger] time_at(events@, i) == t2 as int;
                    assert(mark@[i]);
                }
                if t2 == t {
                    assert(mark@[c as int]);
                }
                if time_marked(mark@, events@, t2 as int) {
                    let i = choose|i: int| 0 <= i < mark@.len() && mark@[i] && #[trigger] time_at(events@, i) == t2 as int;
                    if i != c {
                        assert(prev[i]);
                        assert(time_marked(prev, events@, t2 as int));
                        assert(prev_taken.contains(t2));
                    }
                }
            }
            assert forall|i: int, j: int| 0 <= i < j < mark@.len() && mark@[i] && mark@[j]
                implies time_at(events@, i) != time_at(events@, j) by {
                if i == c && prev[j] {
                    assert(time_marked(prev, events@, time_at(events@, j)));
                }
                if j == c && prev[i] {
                    assert(time_marked(prev, events@, time_at(events@, i)));
                }
            }
            assert(mark@[c as int]);
        }
    } else {
        assert(taken@.contains(t));
    }
}

proof fn lemma_marked_grows(m1: Seq<bool>, m2: Seq<bool>, events: Seq<MouseMoveEvent>, t: int)
    requires
        m1.len() == m2.len(),
        forall|i: int| 0 <= i < m1.len() ==> (m1[i] ==> m2[i]),
        time_marked(m1, events, t),
    ensures
        time_marked(m2, events, t),
{
    let i = choose|i: int| 0 <= i < m1.len() && m1[i] && #[trigger] time_at(events, i) == t;
    assert(m2[i]);
}

proof fn lemma_covered_grows(m1: Seq<bool>, m2: Seq<bool>, events: Seq<MouseMoveEvent>, lo: int, hi: int)
    requires
        m1.len() == m2.len(),
        forall|i: int| 0 <= i < m1.len() ==> (m1[i] ==> m2[i]),
        bucket_covered(|t: int| time_marked(m1, events, t), events, lo, hi),
    ensures
        bucket_covered(|t: int| time_marked(m2, events, t), events, lo, hi),
{
    let c1 = |t: int| time_marked(m1, events, t);
    let c2 = |t: int| time_marked(m2, events, t);
    assert forall|t: int| #[trigger] c1(t) implies c2(t) by {
        lemma_marked_grows(m1, m2, events, t);
    }
    let j2 = choose|j: int| lo <= j < hi && #[trigger] c1(time_at(events, j))
        && forall|m: int| lo <= m < hi ==> events[j].dx <= #[trigger] events[m].dx;
    assert(c2(time_at(events, j2)));
    let j3 = choose|j: int| lo <= j < hi && #[trigger] c1(time_at(events, j))
        && forall|m: int| lo <= m < hi ==> events[j].dx >= #[trigger] events[m].dx;
    assert(c2(time_at(events, j3)));
    let j4 = choose|j: int| lo <= j < hi && #[trigger] c1(time_at(events, j))
        && forall|m: int| lo <= m < hi ==> events[j].dy <= #[trigger] events[m].dy;
    assert(c2(time_at(events, j4)));
    let j5 = choose|j: int| lo <= j < hi && #[trigger] c1(time_at(events, j))
        && forall|m: int| lo <= m < hi ==> events[j].dy >= #[trigger] events[m].dy;
    assert(c2(time_at(events, j5)));
}

proof fn lemma_bucket_lo_monotone(start: int, size: int, b1: int, b2: int)
    requires
        size >= 1,
        0 <= b1 <= b2,
    ensures
        bucket_lo(start, size, b1) <= bucket_lo(start, size, b2),
        bucket_lo(start, size, b1 + 1) == bucket_lo(start, size, b1) + size,
{
    assert(b1 * size <= b2 * size) by (nonlinear_arith)
        requires size >= 1, 0 <= b1 <= b2;
    assert((b1 + 1) * size == b1 * size + size) by (nonlinear_arith);
}

/// Samples to keep from `[start, end)` cut into buckets of `size`: the six
/// kept points of each bucket, at most one per timestamp (the first met,
/// bucket by bucket in the order of [`bucket_points`]), in increasing order.
#[verifier::rlimit(60)]
fn bucket_extrema(events: &[MouseMoveEvent], start: usize, end: usize, size: usize) -> (r: Vec<usize>)
    requires
        start < end <= events@.len(),
        size >= 1,
    ensures
        strictly_increasing(r@),
        distinct_times(r@, events@),
        forall|a: int| 0 <= a < r@.len() ==> start <= #[trigger] r@[a] < end,
        forall|a: int| 0 <= a < r@.len() ==> #[trigger] kept_point(events@, start as int, end as int, size as int, r@[a] as int),
        forall|b: int| 0 <= b && #[trigger] bucket_lo(start as int, size as int, b) < end ==> bucket_covered(
            |t: int| time_in(r@, events@, t),
            events@,
            bucket_lo(start as int, size as int, b),
            bucket_hi(start as int, end as int, size as int, b),
        ),
{
    let n = events.len();
    let mut mark: Vec<bool> = Vec::new();
    while mark.len() < n
        invariant
            mark@.len() <= n == events@.len(),
            forall|j: int| 0 <= j < mark@.len() ==> !mark@[j],
        decreases n - mark@.len(),
    {
        mark.push(false);
    }
    let mut taken: HashSet<u64> = HashSet::new();
    let mut lo: usize = start;
    let ghost mut b: int = 0;
    while lo < end
        invariant
            start <= lo <= end <= n == events@.len(),
            size >= 1,
            0 <= b,
            lo < end ==> lo == bucket_lo(start as int, size as int, b),
            lo == end ==> bucket_lo(start as int, size as int, b) >= end,
            mark@.len() == n,
            forall|t: u64| #[trigger] taken@.contains(t) <==> time_marked(mark@, events@, t as int),
            forall|i: int, j: int| 0 <= i < j < mark@.len() && mark@[i] && mark@[j]
                ==> time_at(events@, i) != time_at(events@, j),
            forall|i: int| 0 <= i < n && mark@[i] ==> start <= i < lo
                && kept_point(events@, start as int, end as int, size as int, i),
            forall|b2: int| 0 <= b2 < b ==> bucket_covered(
                |t: int| time_marked(mark@, events@, t),
                events@,
                #[trigger] bucket_lo(start as int, size as int, b2),
                bucket_hi(start as int, end as int, size as int, b2),
            ),
        decreases end - lo,
    {
        let hi = if size < end - lo { lo + size } else { end };
        assert(hi == bucket_hi(start as int, end as int, size as int, b));
        let pts = bucket_points(events, lo, hi);
        let ghost before = mark@;
        let mut k: usize = 0;
        while k < 6
            invariant
                0 <= k <= 6,
                lo < hi <= end <= n == events@.len(),
                forall|q: int| 0 <= q < 6 ==> lo <= #[trigger] pts[q] < hi,
                mark@.len() == n,
                forall|t: u64| #[trigger] taken@.contains(t) <==> time_marked(mark@, events@, t as int),
                forall|i: int, j: int| 0 <= i < j < mark@.len() && mark@[i] && mark@[j]
                    ==> time_at(events@, i) != time_at(events@, j),
                forall|i: int| 0 <= i < n ==> (before[i] ==> mark@[i]),
                forall|i: int| 0 <= i < n && mark@[i] && !before[i] ==> exists|q: int| 0 <= q < k && pts[q] == i,
                forall|q: int| 0 <= q < k ==> time_marked(mark@, events@, time_at(events@, #[trigger] pts[q] as int)),
            decreases 6 - k,
        {
            let ghost pre = mark@;
            mark_unless_taken(events, pts[k], &mut mark, &mut taken);
            proof {
                assert forall|q: int| 0 <= q < k + 1 implies time_marked(mark@, events@, time_at(events@, #[trigger] pts[q] as int)) by {
                    if q < k {
                        lemma_marked_grows(pre, mark@, events@, time_at(events@, pts[q] as int));
                    }
                }
                assert forall|i: int| 0 <= i < n && mark@[i] && !before[i] implies exists|q: int| 0 <= q < k + 1 && pts[q] == i by {
                    if !pre[i] {
                        assert(pts[k as int] == i);
                    }
                }
            }
            k = k + 1;
        }
        proof {
            let cover = |t: int| time_marked(mark@, events@, t);
            assert(cover(time_at(events@, pts[0] as int)));
            assert(cover(time_at(events@, pts[1] as int)));
            assert(cover(time_at(events@, pts[2] as int)));
            assert(cover(time_at(events@, pts[3] as int)));
            assert(cover(time_at(events@, pts[4] as int)));
            assert(cover(time_at(events@, pts[5] as int)));
            assert(bucket_covered(cover, events@, lo as int, hi as int));
            assert forall|b2: int| 0 <= b2 < b + 1 implies bucket_covered(
                cover,
                events@,
                #[trigger] bucket_lo(start as int, size as int, b2),
                bucket_hi(start as int, end as int, size as int, b2),
            ) by {
                if b2 < b {
                    lemma_covered_grows(before, mark@, events@, bucket_lo(start as int, size as int, b2),
                        bucket_hi(start as int, end as int, size as int, b2));
                }
            }
            assert forall|q: int| 0 <= q < 6 implies extreme_in(events@, lo as int, hi as int, #[trigger] pts[q] as int) by {
                if q == 0 {
                } else if q == 1 {
                } else if q == 2 {
                    assert(forall|m: int| lo <= m < hi ==> events@[pts[2] as int].dx <= #[trigger] events@[m].dx);
                } else if q == 3 {
                    assert(forall|m: int| lo <= m < hi ==> events@[pts[3] as int].dx >= #[trigger] events@[m].dx);
                } else if q == 4 {
                    assert(forall|m: int| lo <= m < hi ==> events@[pts[4] as int].dy <= #[trigger] events@[m].dy);
                } else {
                    assert(forall|m: int| lo <= m < hi ==> events@[pts[5] as int].dy >= #[trigger] events@[m].dy);
                }
            }
            assert forall|i: int| 0 <= i < n && mark@[i] implies start <= i < hi
                && kept_point(events@, start as int, end as int, size as int, i) by {
                if !before[i] {
                    let q = choose|q: int| 0 <= q < 6 && pts[q] == i;
                    assert(extreme_in(events@, lo as int, hi as int, pts[q] as int));
                    assert(extreme_in(events@, bucket_lo(start as int, size as int, b), bucket_hi(start as int, end as int, size as int, b), i));
                }
            }
            lemma_bucket_lo_monotone(start as int, size as int, b, b);
        }
        lo = hi;
        proof {
            b = b + 1;
        }
    }
    let r = crate::view::marked_indices(&mark);
    proof {
        let in_r = |t: int| time_in(r@, events@, t);
        let marked = |t: int| time_marked(mark@, events@, t);
        assert forall|t: int| #[trigger] in_r(t) == marked(t) by {
            if in_r(t) {
                let a = choose|a: int| 0 <= a < r@.len() && #[trigger] time_at(events@, r@[a] as int) == t;
                assert(mark@[r@[a] as int]);
            }
            if marked(t) {
                let i = choose|i: int| 0 <= i < mark@.len() && mark@[i] && #[trigger] time_at(events@, i) == t;
                assert(r@.contains(i as usize));
                let a = choose|a: int| 0 <= a < r@.len() && r@[a] == i as usize;
                assert(time_at(events@, r@[a] as int) == t);
            }
        }
        assert(in_r =~= marked);
        assert forall|b2: int| 0 <= b2 && #[trigger] bucket_lo(start as int, size as int, b2) < end implies bucket_covered(
            in_r,
            events@,
            bucket_lo(start as int, size as int, b2),
            bucket_hi(start as int, end as int, size as int, b2),
        ) by {
            if b2 >= b {
                lemma_bucket_lo_monotone(start as int, size as int, b, b2);
            }
        }
        assert forall|x: int, y: int| 0 <= x < y < r@.len() implies time_at(events@, r@[x] as int) != time_at(events@, r@[y] as int) by {
            assert(mark@[r@[x] as int] && mark@[r@[y] as int]);
        }
    }
    r
}

/// The slice `[start, end)` of samples a view covers: all of them without
/// bounds; with bounds, those whose time lies in the widened [`window`].
pub open spec fn slice_of(events: Seq<MouseMoveEvent>, width: int, bounds: Option<PlotBounds>) -> (int, int) {
    match bounds {
        None => (0, events.len() as int),
        Some(b) => {
            let (lower, upper) = window(b, width);
            let s = first_not_below(events, lower);
            let e = first_above(events, upper);
            (s, if e < s { s } else { e })
        },
    }
}

/// Bucket size for `count` samples and a budget of `target` points.
pub open spec fn bucket_size_for(count: int, target: int) -> int {
    if count / target >= 1 { count / target } else { 1 }
}

/// The position of the `k`-th index taken when stepping by `step`.
pub open spec fn stride_pos(k: int, step: int) -> int {
    k * step
}

/// `i` is one of `c[0], c[step], c[2 * step], ...`.
pub open spec fn in_stride(c: Seq<usize>, step: int, i: usize) -> bool {
    exists|k: int| 0 <= k && 0 <= #[trigger] stride_pos(k, step) < c.len() && c[stride_pos(k, step)] == i
}

/// The indices `start, start + 1, ..., end - 1`.
pub open spec fn index_range(start: int, end: int) -> Seq<usize> {
    Seq::new((end - start) as nat, |k: int| (start + k) as usize)
}

/// The budget of a view: [`target_for`] the samples of its slice.
pub open spec fn view_target(events: Seq<MouseMoveEvent>, width: int, bounds: Option<PlotBounds>) -> int {
    let (start, end) = slice_of(events, width, bounds);
    target_for(end - start, width)
}

/// The view's slice holds no more samples than its budget.
pub open spec fn within_budget(events: Seq<MouseMoveEvent>, width: int, bounds: Option<PlotBounds>) -> bool {
    let (start, end) = slice_of(events, width, bounds);
    end - start <= view_target(events, width, bounds)
}

/// The last full pass of a bucketed resolver: its indices and its budget.
#[derive(Debug)]
pub struct BucketCache {
    pub indices: Vec<usize>,
    pub target: usize,
}

/// Bucketed-extrema resolver with the state its fast path needs.
#[derive(Debug)]
pub struct BucketedLod {
    pub cache: Option<BucketCache>,
}

fn every_step_within(c: &Vec<usize>, step: usize, start: usize, end: usize) -> (r: Vec<usize>)
    requires
        step >= 1,
        strictly_increasing(c@),
    ensures
        strictly_increasing(r@),
        forall|a: int| 0 <= a < r@.len() ==> start <= #[trigger] r@[a] < end,
        forall|i: usize| r@.contains(i) <==> (start <= i < end && in_stride(c@, step as int, i)),
{
    let mut out: Vec<usize> = Vec::new();
    let mut j: usize = 0;
    let ghost mut k: int = 0;
    while j < c.len()
        invariant
            step >= 1,
            strictly_increasing(c@),
            0 <= k,
            j <= c@.len(),
            j < c@.len() ==> j == stride_pos(k, step as int),
            j == c@.len() ==> stride_pos(k, step as int) >= c@.len(),
            strictly_increasing(out@),
            forall|a: int| 0 <= a < out@.len() ==> start <= #[trigger] out@[a] < end,
            forall|a: int| 0 <= a < out@.len() ==> exists|p: int| 0 <= p < j && p < c@.len() && c@[p] == #[trigger] out@[a],
            forall|i: usize| out@.contains(i) <==> (start <= i < end && exists|k2: int| 0 <= k2 < k
                && 0 <= #[trigger] stride_pos(k2, step as int) < c@.len() && c@[stride_pos(k2, step as int)] == i),
        decreases c@.len() - j,
    {
        let v = c[j];
        let ghost prev = out@;
        if start <= v && v < end {
            out.push(v);
        }
        proof {
            assert forall|a: int| 0 <= a < out@.len() implies exists|p: int| 0 <= p < j + 1 && p < c@.len() && c@[p] == #[trigger] out@[a] by {
                if a < prev.len() {
                    assert(out@[a] == prev[a]);
                    let p = choose|p: int| 0 <= p < j && p < c@.len() && c@[p] == #[trigger] prev[a];
                } else {
                    assert(c@[j as int] == out@[a]);
                }
            }
            if start <= v < end {
                assert forall|x: int, y: int| 0 <= x < y < out@.len() implies out@[x] < out@[y] by {
                    if y == prev.len() {
                        let p = choose|p: int| 0 <= p < j && p < c@.len() && c@[p] == #[trigger] prev[x];
                        assert(out@[x] == prev[x]);
                    } else {
                        assert(out@[x] == prev[x] && out@[y] == prev[y]);
                    }
                }
            }
            assert forall|i: usize| out@.contains(i) <==> (start <= i < end && exists|k2: int| 0 <= k2 < k + 1
                && 0 <= #[trigger] stride_pos(k2, step as int) < c@.len() && c@[stride_pos(k2, step as int)] == i) by {
                if out@.contains(i) {
                    let a = choose|a: int| 0 <= a < out@.len() && out@[a] == i;
                    if a < prev.len() {
                        assert(prev[a] == i);
                        assert(prev.contains(i));
                    } else {
                        assert(c@[stride_pos(k, step as int)] == i);
                        assert(0 <= stride_pos(k, step as int));
                    }
                }
                if start <= i < end && exists|k2: int| 0 <= k2 < k + 1
                    && 0 <= #[trigger] stride_pos(k2, step as int) < c@.len() && c@[stride_pos(k2, step as int)] == i {
                    let k2 = choose|k2: int| 0 <= k2 < k + 1
                        && 0 <= #[trigger] stride_pos(k2, step as int) < c@.len() && c@[stride_pos(k2, step as int)] == i;
                    if k2 < k {
                        assert(prev.contains(i));
                        let a = choose|a: int| 0 <= a < prev.len() && prev[a] == i;
                        assert(out@[a] == i);
                    } else {
                        assert(out@[prev.len() as int] == i);
                    }
                }
            }
        }
        let ghost old_j = j;
        if step > c.len() - j {
            j = c.len();
            proof {
                k = k + 1;
                assert(stride_pos(k - 1, step as int) == old_j);
                assert(stride_pos(k, step as int) == old_j + step) by (nonlinear_arith)
                    requires
                        old_j == stride_pos(k - 1, step as int),
                        stride_pos(k, step as int) == k * step,
                        stride_pos(k - 1, step as int) == (k - 1) * step,
                ;
                assert forall|k2: int| k <= k2 implies !(0 <= #[trigger] stride_pos(k2, step as int) < c@.len()) by {
                    assert(stride_pos(k2, step as int) >= stride_pos(k, step as int)) by (nonlinear_arith)
                        requires k <= k2, step >= 1, stride_pos(k2, step as int) == k2 * step,
                            stride_pos(k, step as int) == k * step;
                }
            }
        } else {
            j = j + step;
            proof {
                k = k + 1;
                assert(stride_pos(k - 1, step as int) == old_j);
                assert(stride_pos(k, step as int) == old_j + step) by (nonlinear_arith)
                    requires
                        old_j == stride_pos(k - 1, step as int),
                        stride_pos(k, step as int) == k * step,
                        stride_pos(k - 1, step as int) == (k - 1) * step,
                ;
            }
        }
    }
    proof {
        assert forall|i: usize| out@.contains(i) <==> (start <= i < end && in_stride(c@, step as int, i)) by {
            if in_stride(c@, step as int, i) {
                let k2 = choose|k2: int| 0 <= k2 && 0 <= #[trigger] stride_pos(k2, step as int) < c@.len()
                    && c@[stride_pos(k2, step as int)] == i;
                if k2 >= k {
                    assert(stride_pos(k2, step as int) >= stride_pos(k, step as int)) by (nonlinear_arith)
                        requires k <= k2, step >= 1, stride_pos(k2, step as int) == k2 * step,
                            stride_pos(k, step as int) == k * step;
                }
            }
        }
    }
    out
}

impl BucketedLod {
    /// A cached pass lists its indices in increasing order.
    pub open spec fn wf(&self) -> bool {
        self.cache matches Some(c) ==> strictly_increasing(c.indices@)
    }

    /// A resolver with no previous pass.
    pub fn new() -> (r: BucketedLod)
        ensures
            r.cache.is_none(),
            r.wf(),
    {
        BucketedLod { cache: None }
    }

    /// Indices of the samples to draw over `visible_width` pixels, in
    /// increasing order.
    ///
    /// The view covers [`slice_of`] the samples, `count` of them, and the
    /// budget is [`target_for`] `count`. Within budget the whole slice is
    /// drawn. Over budget, when the last full pass had a larger budget, its
    /// indices are thinned to every `max(1, len / target)`-th one within the
    /// slice and the new budget is recorded. Otherwise a full pass keeps the
    /// six points of each bucket (see [`bucket_size_for`]), one per timestamp,
    /// and is cached.
    pub fn apply_lod_indices(&mut self, events: &[MouseMoveEvent], visible_width: u32, bounds: Option<PlotBounds>) -> (r: Vec<usize>)
        requires
            old(self).wf(),
            time_sorted(events@),
            visible_width >= 1,
        ensures
            final(self).wf(),
            0 <= slice_of(events@, visible_width as int, bounds).0 <= slice_of(events@, visible_width as int, bounds).1
                <= events@.len(),
            strictly_increasing(r@),
            events@.len() == 0 ==> r@.len() == 0,
            forall|a: int| 0 <= a < r@.len() ==> #[trigger] r@[a] < events@.len(),
            bounds matches Some(b) ==> forall|a: int| 0 <= a < r@.len() ==> window(b, visible_width as int).0
                <= #[trigger] time_at(events@, r@[a] as int) <= window(b, visible_width as int).1,
            forall|a: int| 0 <= a < r@.len() ==> slice_of(events@, visible_width as int, bounds).0 <= #[trigger] r@[a]
                < slice_of(events@, visible_width as int, bounds).1,
            within_budget(events@, visible_width as int, bounds) ==> r@ == index_range(
                slice_of(events@, visible_width as int, bounds).0,
                slice_of(events@, visible_width as int, bounds).1,
            ) && final(self).cache == old(self).cache,
            !within_budget(events@, visible_width as int, bounds) ==> match old(self).cache {
                Some(c) if view_target(events@, visible_width as int, bounds) < c.target => {
                    let (start, end) = slice_of(events@, visible_width as int, bounds);
                    let target = view_target(events@, visible_width as int, bounds);
                    let step = bucket_size_for(c.indices@.len() as int, target);
                    &&& final(self).cache matches Some(c2) && c2.indices == c.indices && c2.target == target
                    &&& forall|i: usize| r@.contains(i) <==> (start <= i < end && in_stride(c.indices@, step, i))
                },
                _ => {
                    let (start, end) = slice_of(events@, visible_width as int, bounds);
                    let target = view_target(events@, visible_width as int, bounds);
                    let size = bucket_size_for(end - start, target);
                    &&& final(self).cache matches Some(c2) && c2.indices@ == r@ && c2.target == target
                    &&& distinct_times(r@, events@)
                    &&& forall|a: int| 0 <= a < r@.len() ==> #[trigger] kept_point(events@, start, end, size, r@[a] as int)
                    &&& forall|b: int| 0 <= b && #[trigger] bucket_lo(start, size, b) < end ==> bucket_covered(
                        |t: int| time_in(r@, events@, t),
                        events@,
                        bucket_lo(start, size, b),
                        bucket_hi(start, end, size, b),
                    )
                },
            },
    {
        let n = events.len();
        let (start, end) = match bounds {
            None => (0, n),
            Some(b) => {
                let margin = crate::view::scaled_trunc(b.x_max as i128 - b.x_min as i128, MARGIN_PX as u32, visible_width as i128);
                assert(-0x1_0000_0000_0000_0000_0000 < margin < 0x1_0000_0000_0000_0000_0000) by {
                    let num = (b.x_max - b.x_min) * 8;
                    if num >= 0 {
                        assert(num / (visible_width as int) <= num) by (nonlinear_arith)
                            requires num >= 0, visible_width >= 1;
                    } else {
                        assert((-num) / (visible_width as int) <= -num) by (nonlinear_arith)
                            requires -num >= 0, visible_width >= 1;
                    }
                }
                let s = first_at_or_after(events, b.x_min as i128 - margin);
                let e = first_after(events, b.x_max as i128 + margin);
                if e < s {
                    (s, s)
                } else {
                    (s, e)
                }
            },
        };
        let count = end - start;
        let c64 = count as u64;
        let w = visible_width as u64;
        let target64: u64 = if c64 > 3 * w {
            w
        } else if c64 < w {
            c64
        } else if 4 * w - c64 < c64 {
            4 * w - c64
        } else {
            c64
        };
        let target = target64 as usize;
        assert(target == target_for(count as int, visible_width as int));
        assert((start as int, end as int) == slice_of(events@, visible_width as int, bounds));
        if count <= target {
            let mut out: Vec<usize> = Vec::new();
            let mut i: usize = start;
            while i < end
                invariant
                    start <= i <= end,
                    out@ == index_range(start as int, i as int),
                decreases end - i,
            {
                out.push(i);
                assert(out@ =~= index_range(start as int, i + 1));
                i = i + 1;
            }
            proof {
                assert forall|a: int, b2: int| 0 <= a < b2 < out@.len() implies out@[a] < out@[b2] by {}
                assert forall|a: int| 0 <= a < out@.len() implies start <= #[trigger] out@[a] < end by {}
            }
            return out;
        }
        let coarsen = match &self.cache {
            Some(c) => target < c.target,
            None => false,
        };
        if coarsen {
            let out = match &self.cache {
                Some(c) => {
                    let step = if c.indices.len() / target >= 1 { c.indices.len() / target } else { 1 };
                    assert(step == bucket_size_for(c.indices@.len() as int, target as int));
                    every_step_within(&c.indices, step, start, end)
                },
                None => Vec::new(),
            };
            match &mut self.cache {
                Some(c) => {
                    c.target = target;
                },
                None => {},
            }
            out
        } else {
            let size = if count / target >= 1 { count / target } else { 1 };
            let out = bucket_extrema(events, start, end, size);
            let kept = out.clone();
            assert(kept@ == out@);
            assert(size == bucket_size_for(count as int, target as int));
            self.cache = Some(BucketCache { indices: kept, target });
            out
        }
    }
}

} // verus!
