//! Regression-mode view resolver: picks the samples to draw for a view, from
//! segments built beforehand.
//!
//! Time is measured in microseconds throughout, the vertical axis in counts
//! of `-dy`, and the drawing area in whole pixels.
use vstd::prelude::*;
use crate::mouse_event::MouseMoveEvent;
use crate::segment::Segment;
use std::collections::{HashMap, HashSet};

verus! {

broadcast use vstd::std_specs::hash::group_hash_axioms;

/// The sample's time lies in the closed range `x_range`.
pub open spec fn in_range(e: MouseMoveEvent, x_range: (i64, i64)) -> bool {
    x_range.0 <= e.time_micros_spec() <= x_range.1
}

/// Every element is smaller than the one after it.
pub open spec fn strictly_increasing(s: Seq<usize>) -> bool {
    forall|a: int, b: int| 0 <= a < b < s.len() ==> s[a] < s[b]
}

/// What every view keeps of a segment: a `Discrete` sample in range, and the
/// first and last sample of a `Good` segment when they are in range.
pub open spec fn anchors_kept<F>(
    seg: Segment<F>,
    events: Seq<MouseMoveEvent>,
    x_range: (i64, i64),
    out: Seq<usize>,
) -> bool {
    match seg {
        Segment::Discrete { idx } => idx < events.len() && in_range(events[idx as int], x_range)
            ==> out.contains(idx),
        Segment::Good { start_idx, end_idx, .. } => start_idx < end_idx <= events.len() ==> {
            &&& in_range(events[start_idx as int], x_range) ==> out.contains(start_idx)
            &&& in_range(events[end_idx - 1], x_range) ==> out.contains((end_idx - 1) as usize)
        },
    }
}

/// Division rounded toward zero, for a positive divisor.
pub open spec fn trunc_div(a: int, b: int) -> int {
    if a >= 0 {
        a / b
    } else {
        -((-a) / b)
    }
}

/// How samples are laid onto the drawing area: time across `width` pixels
/// of `x_range`, `-dy` across `height` pixels of `y_range`.
#[derive(Debug, Clone, Copy)]
pub struct Projection {
    pub width: u32,
    pub height: u32,
    pub x_range: (i64, i64),
    pub y_range: (i32, i32),
}

/// Length of a range, taken as at least one unit.
pub open spec fn span(range: (i64, i64)) -> int {
    if range.1 - range.0 >= 1 { range.1 - range.0 } else { 1 }
}

/// The pixel that a sample maps to, each coordinate truncated toward zero.
pub open spec fn pixel_of(e: MouseMoveEvent, p: Projection) -> (int, int) {
    (
        trunc_div((e.time_micros_spec() - p.x_range.0) * p.width, span(p.x_range)),
        trunc_div((-(e.dy as int) - p.y_range.0) * p.height, span((p.y_range.0 as i64, p.y_range.1 as i64))),
    )
}

/// A pixel key as a pair of mathematical integers.
pub open spec fn widen(k: (i128, i128)) -> (int, int) {
    (k.0 as int, k.1 as int)
}

/// A pixel packed into one integer: the column above 65 bits, the row
/// offset by `2^64` below them.
pub open spec fn pixel_code(k: (int, int)) -> int {
    k.0 * 0x2_0000_0000_0000_0000 + (k.1 + 0x1_0000_0000_0000_0000)
}

/// The pixels that samples in range can map to: a column within the drawing
/// width and a row of magnitude below `2^64`.
pub open spec fn pixel_in_bounds(k: (int, int)) -> bool {
    &&& 0 <= k.0 < 0x1_0000_0000
    &&& -0x1_0000_0000_0000_0000 < k.1 < 0x1_0000_0000_0000_0000
}

proof fn lemma_visible_pixel_in_bounds(e: MouseMoveEvent, p: Projection)
    requires
        in_range(e, p.x_range),
    ensures
        pixel_in_bounds(pixel_of(e, p)),
        0 <= pixel_code(pixel_of(e, p)) < 0x2_0000_0000_0000_0000_0000_0000,
{
    let a = e.time_micros_spec() - p.x_range.0;
    let sx = span(p.x_range);
    assert(0 <= a <= sx);
    let w = p.width as int;
    assert(a * w <= sx * w) by (nonlinear_arith)
        requires 0 <= a <= sx, w >= 0;
    assert(a * w >= 0) by (nonlinear_arith)
        requires 0 <= a, w >= 0;
    vstd::arithmetic::div_mod::lemma_div_is_ordered(a * w, sx * w, sx);
    vstd::arithmetic::div_mod::lemma_div_multiples_vanish(w, sx);
    assert(sx * w == w * sx) by (nonlinear_arith);
    vstd::arithmetic::div_mod::lemma_div_pos_is_pos(a * w, sx);
    let b = -(e.dy as int) - p.y_range.0;
    let sy = span((p.y_range.0 as i64, p.y_range.1 as i64));
    let h = p.height as int;
    assert(-0x1_0000_0000_0000_0000 < b * h < 0x1_0000_0000_0000_0000) by (nonlinear_arith)
        requires -0x1_0000_0000 < b < 0x1_0000_0000, 0 <= h < 0x1_0000_0000;
    let num = b * h;
    if num >= 0 {
        assert(num / sy <= num) by (nonlinear_arith) requires num >= 0, sy >= 1;
        vstd::arithmetic::div_mod::lemma_div_pos_is_pos(num, sy);
    } else {
        assert((-num) / sy <= -num) by (nonlinear_arith) requires -num >= 0, sy >= 1;
        vstd::arithmetic::div_mod::lemma_div_pos_is_pos(-num, sy);
    }
}

proof fn lemma_pixel_code_injective(a: (int, int), b: (int, int))
    requires
        pixel_in_bounds(a),
        pixel_in_bounds(b),
        pixel_code(a) == pixel_code(b),
    ensures
        a == b,
{
}

/// Number of samples in `[lo, hi)` that are in the time range of `p` and
/// whose pixel packs to `code`.
pub open spec fn count_code(events: Seq<MouseMoveEvent>, lo: int, hi: int, code: int, p: Projection) -> nat
    decreases hi - lo,
{
    if hi <= lo {
        0
    } else {
        count_code(events, lo, hi - 1, code, p) + if in_range(events[hi - 1], p.x_range)
            && pixel_code(pixel_of(events[hi - 1], p)) == code { 1nat } else { 0nat }
    }
}

proof fn lemma_count_code(events: Seq<MouseMoveEvent>, lo: int, hi: int, key: (int, int), p: Projection)
    requires
        0 <= lo,
        hi <= events.len(),
        pixel_in_bounds(key),
    ensures
        count_code(events, lo, hi, pixel_code(key), p) == count_in(events, lo, hi, key, p),
    decreases hi - lo,
{
    if hi > lo {
        lemma_count_code(events, lo, hi - 1, key, p);
        if in_range(events[hi - 1], p.x_range) {
            lemma_visible_pixel_in_bounds(events[hi - 1], p);
            if pixel_code(pixel_of(events[hi - 1], p)) == pixel_code(key) {
                lemma_pixel_code_injective(pixel_of(events[hi - 1], p), key);
            }
        }
    }
}

/// Number of samples in `[lo, hi)` that are in the time range of `p` and map
/// to pixel `key`.
pub open spec fn count_in(events: Seq<MouseMoveEvent>, lo: int, hi: int, key: (int, int), p: Projection) -> nat
    decreases hi - lo,
{
    if hi <= lo {
        0
    } else {
        count_in(events, lo, hi - 1, key, p) + if in_range(events[hi - 1], p.x_range)
            && pixel_of(events[hi - 1], p) == key { 1nat } else { 0nat }
    }
}

/// `ceil(a / b)` for positive `b`.
pub open spec fn ceil_div(a: int, b: int) -> int {
    (a + b - 1) / b
}

/// Whether the sample at position `rank` of a pixel bucket of `count`
/// samples is drawn: all are while the bucket holds at most `tolerance`,
/// else every `ceil(count / tolerance)`-th, starting with the first.
pub open spec fn bucket_selects(count: int, rank: int, tolerance: int) -> bool {
    count <= tolerance || rank % ceil_div(count, tolerance) == 0
}

/// The `Good` segment `[s, e)` lies within `n` samples and one of its
/// samples in range maps to pixel `key`.
pub open spec fn segment_has_pixel<F>(seg: Segment<F>, events: Seq<MouseMoveEvent>, p: Projection, key: (int, int)) -> bool {
    match seg {
        Segment::Good { start_idx, end_idx, .. } => {
            &&& start_idx < end_idx <= events.len()
            &&& exists|j: int| start_idx <= j < end_idx && in_range(events[j], p.x_range)
                && #[trigger] pixel_of(events[j], p) == key
        },
        Segment::Discrete { .. } => false,
    }
}

/// Pixel `key` was claimed by a `Good` segment before segment `k`.
pub open spec fn seen_before<F>(segs: Seq<Segment<F>>, k: int, events: Seq<MouseMoveEvent>, p: Projection, key: (int, int)) -> bool {
    exists|k2: int| 0 <= k2 < k && #[trigger] segment_has_pixel(segs[k2], events, p, key)
}

/// The `Good` segment `seg` lies within the samples and one of its samples in
/// range has a pixel that packs to `code`.
pub open spec fn segment_has_code<F>(seg: Segment<F>, events: Seq<MouseMoveEvent>, p: Projection, code: int) -> bool {
    match seg {
        Segment::Good { start_idx, end_idx, .. } => {
            &&& start_idx < end_idx <= events.len()
            &&& exists|j: int| start_idx <= j < end_idx && in_range(events[j], p.x_range)
                && #[trigger] pixel_code(pixel_of(events[j], p)) == code
        },
        Segment::Discrete { .. } => false,
    }
}

/// A pixel packing to `code` was claimed by a `Good` segment before segment `k`.
pub open spec fn code_seen_before<F>(segs: Seq<Segment<F>>, k: int, events: Seq<MouseMoveEvent>, p: Projection, code: int) -> bool {
    exists|k2: int| 0 <= k2 < k && #[trigger] segment_has_code(segs[k2], events, p, code)
}

proof fn lemma_seen_by_code<F>(segs: Seq<Segment<F>>, k: int, events: Seq<MouseMoveEvent>, p: Projection, key: (int, int))
    requires
        pixel_in_bounds(key),
    ensures
        seen_before(segs, k, events, p, key) <==> code_seen_before(segs, k, events, p, pixel_code(key)),
{
    if seen_before(segs, k, events, p, key) {
        let k2 = choose|k2: int| 0 <= k2 < k && #[trigger] segment_has_pixel(segs[k2], events, p, key);
        if let Segment::Good { start_idx, end_idx, .. } = segs[k2] {
            let j = choose|j: int| start_idx <= j < end_idx && in_range(events[j], p.x_range)
                && #[trigger] pixel_of(events[j], p) == key;
            assert(pixel_code(pixel_of(events[j], p)) == pixel_code(key));
            assert(segment_has_code(segs[k2], events, p, pixel_code(key)));
        }
    }
    if code_seen_before(segs, k, events, p, pixel_code(key)) {
        let k2 = choose|k2: int| 0 <= k2 < k && #[trigger] segment_has_code(segs[k2], events, p, pixel_code(key));
        if let Segment::Good { start_idx, end_idx, .. } = segs[k2] {
            let j = choose|j: int| start_idx <= j < end_idx && in_range(events[j], p.x_range)
                && #[trigger] pixel_code(pixel_of(events[j], p)) == pixel_code(key);
            lemma_visible_pixel_in_bounds(events[j], p);
            lemma_pixel_code_injective(pixel_of(events[j], p), key);
            assert(segment_has_pixel(segs[k2], events, p, key));
        }
    }
}

/// Which samples of the `Good` segment `[s, e)` are drawn, given the pixels
/// that earlier segments claimed: the first and last in range always; any
/// other in range only if its pixel is unclaimed and its bucket selects it.
pub open spec fn good_keeps(
    events: Seq<MouseMoveEvent>,
    s: int,
    e: int,
    p: Projection,
    tolerance: int,
    claimed: spec_fn((int, int)) -> bool,
    i: int,
) -> bool {
    let key = pixel_of(events[i], p);
    &&& s <= i < e
    &&& in_range(events[i], p.x_range)
    &&& (i == s || i == e - 1 || (!claimed(key) && bucket_selects(
        count_in(events, s, e, key, p) as int,
        count_in(events, s, i, key, p) as int,
        tolerance,
    )))
}

/// One of the first `upto` segments of `segs` draws sample `i`.
pub open spec fn kept_by_any<F>(
    segs: Seq<Segment<F>>,
    upto: int,
    events: Seq<MouseMoveEvent>,
    p: Projection,
    tolerance: int,
    i: int,
) -> bool {
    exists|k: int| 0 <= k < upto && #[trigger] kept_by(segs, k, events, p, tolerance, i)
}

/// Segment `k` of `segs` draws sample `i`.
pub open spec fn kept_by<F>(
    segs: Seq<Segment<F>>,
    k: int,
    events: Seq<MouseMoveEvent>,
    p: Projection,
    tolerance: int,
    i: int,
) -> bool {
    match segs[k] {
        Segment::Discrete { idx } => idx == i && i < events.len() && in_range(events[i], p.x_range),
        Segment::Good { start_idx, end_idx, .. } => start_idx < end_idx <= events.len()
            && good_keeps(
            events,
            start_idx as int,
            end_idx as int,
            p,
            tolerance,
            |key: (int, int)| seen_before(segs, k, events, p, key),
            i,
        ),
    }
}

fn span_of(range: (i64, i64)) -> (r: i128)
    ensures
        r == span(range),
{
    let d = range.1 as i128 - range.0 as i128;
    if d >= 1 {
        d
    } else {
        1
    }
}

pub(crate) fn scaled_trunc(num: i128, scale: u32, span: i128) -> (r: i128)
    requires
        span >= 1,
        -0x1_0000_0000_0000_0000 < num < 0x1_0000_0000_0000_0000,
    ensures
        r == trunc_div(num * scale, span as int),
{
    let mag: u128 = if num >= 0 {
        num as u128
    } else {
        (-num) as u128
    };
    assert(mag * (scale as int) < 0x1_0000_0000_0000_0000 * 0x1_0000_0000) by (nonlinear_arith)
        requires
            mag < 0x1_0000_0000_0000_0000int,
            scale < 0x1_0000_0000int,
    ;
    let q: u128 = mag * (scale as u128) / (span as u128);
    assert(q <= mag * (scale as int)) by (nonlinear_arith)
        requires
            q == (mag * (scale as int)) / (span as int),
            span >= 1,
            mag * (scale as int) >= 0,
    ;
    if num >= 0 {
        assert(num * scale == mag * scale);
        q as i128
    } else {
        assert(-(num * scale) == mag * scale) by (nonlinear_arith)
            requires
                mag == -num,
        ;
        -(q as i128)
    }
}

fn pixel(e: &MouseMoveEvent, p: &Projection) -> (r: (i128, i128))
    ensures
        widen(r) == pixel_of(*e, *p),
{
    let t = e.time_micros() as i128;
    let px = scaled_trunc(t - p.x_range.0 as i128, p.width, span_of(p.x_range));
    let py = scaled_trunc(-(e.dy as i128) - p.y_range.0 as i128, p.height, span_of((p.y_range.0 as i64, p.y_range.1 as i64)));
    (px, py)
}

pub(crate) fn is_in_range(e: &MouseMoveEvent, x_range: (i64, i64)) -> (r: bool)
    ensures
        r == in_range(*e, x_range),
{
    let t = e.time_micros() as i128;
    x_range.0 as i128 <= t && t <= x_range.1 as i128
}

fn pixel_code_exec(e: &MouseMoveEvent, p: &Projection) -> (r: u128)
    requires
        in_range(*e, p.x_range),
    ensures
        r as int == pixel_code(pixel_of(*e, *p)),
{
    let k = pixel(e, p);
    proof {
        lemma_visible_pixel_in_bounds(*e, *p);
    }
    (k.0 as u128) * 0x2_0000_0000_0000_0000u128 + ((k.1 + 0x1_0000_0000_0000_0000i128) as u128)
}

/// Indices `i` with `keep[i]`, in increasing order.
pub(crate) fn marked_indices(keep: &Vec<bool>) -> (r: Vec<usize>)
    ensures
        strictly_increasing(r@),
        forall|i: int| 0 <= i < keep@.len() ==> (keep@[i] <==> r@.contains(i as usize)),
        forall|a: int| 0 <= a < r@.len() ==> r@[a] < keep@.len() && keep@[r@[a] as int],
{
    let mut out: Vec<usize> = Vec::new();
    let mut i: usize = 0;
    while i < keep.len()
        invariant
            i <= keep@.len(),
            strictly_increasing(out@),
            forall|a: int| 0 <= a < out@.len() ==> out@[a] < i && keep@[out@[a] as int],
            forall|j: int| 0 <= j < i ==> (keep@[j] <==> out@.contains(j as usize)),
        decreases keep@.len() - i,
    {
        let ghost prev = out@;
        if keep[i] {
            out.push(i);
        }
        proof {
            assert forall|j: int| 0 <= j <= i implies (keep@[j] <==> out@.contains(j as usize)) by {
                if keep@[i as int] {
                    assert(out@ == prev.push(i));
                    assert(out@[prev.len() as int] == i);
                    if out@.contains(j as usize) && j < i {
                        let a = choose|a: int| 0 <= a < out@.len() && out@[a] == j as usize;
                        assert(prev[a] == j as usize);
                    }
                    if prev.contains(j as usize) {
                        let a = choose|a: int| 0 <= a < prev.len() && prev[a] == j as usize;
                        assert(out@[a] == j as usize);
                    }
                } else {
                    assert(out@ == prev);
                    if j == i && out@.contains(j as usize) {
                        let a = choose|a: int| 0 <= a < out@.len() && out@[a] == j as usize;
                    }
                }
            }
        }
        i = i + 1;
    }
    out
}

fn bucket_selects_exec(count: usize, rank: usize, tolerance: u32) -> (r: bool)
    requires
        tolerance >= 1,
    ensures
        r == bucket_selects(count as int, rank as int, tolerance as int),
{
    if count as u128 <= tolerance as u128 {
        return true;
    }
    let rate: u128 = (count as u128 + tolerance as u128 - 1) / (tolerance as u128);
    assert(rate >= 1) by (nonlinear_arith)
        requires
            rate == (count + tolerance - 1) / (tolerance as int),
            count > tolerance >= 1,
    ;
    (rank as u128) % rate == 0
}

/// Per sample of `[s, e)` in range, how many earlier samples of the segment
/// share its pixel; and per pixel code, how many samples of the segment have
/// it.
fn pixel_ranks(events: &[MouseMoveEvent], s: usize, e: usize, p: &Projection) -> (r: (Vec<usize>, HashMap<u128, usize>))
    requires
        s <= e <= events@.len(),
    ensures
        r.0@.len() == e - s,
        forall|j: int| s <= j < e && in_range(events@[j], p.x_range) ==> r.0@[j - s] == count_code(
            events@, s as int, j, pixel_code(pixel_of(events@[j], *p)), *p),
        forall|x: u128| #[trigger] r.1@.contains_key(x) ==> r.1@[x] == count_code(events@, s as int, e as int, x as int, *p),
        forall|x: u128| !#[trigger] r.1@.contains_key(x) ==> count_code(events@, s as int, e as int, x as int, *p) == 0,
{
    let mut ranks: Vec<usize> = Vec::new();
    let mut counts: HashMap<u128, usize> = HashMap::new();
    let mut i: usize = s;
    while i < e
        invariant
            s <= i <= e <= events@.len(),
            ranks@.len() == i - s,
            forall|j: int| s <= j < i && in_range(events@[j], p.x_range) ==> ranks@[j - s] == count_code(
                events@, s as int, j, pixel_code(pixel_of(events@[j], *p)), *p),
            forall|x: u128| #[trigger] counts@.contains_key(x) ==> counts@[x] == count_code(events@, s as int, i as int, x as int, *p),
            forall|x: u128| !#[trigger] counts@.contains_key(x) ==> count_code(events@, s as int, i as int, x as int, *p) == 0,
            forall|x: u128| #[trigger] counts@.contains_key(x) ==> counts@[x] <= i - s,
        decreases e - i,
    {
        let ghost prev = counts@;
        if is_in_range(&events[i], p.x_range) {
            let code = pixel_code_exec(&events[i], p);
            let c: usize = match counts.get(&code) {
                Some(v) => *v,
                None => 0,
            };
            assert(c == count_code(events@, s as int, i as int, code as int, *p));
            ranks.push(c);
            counts.insert(code, c + 1);
            proof {
                assert forall|x: u128| #[trigger] counts@.contains_key(x) implies counts@[x] == count_code(events@, s as int, i + 1, x as int, *p) by {
                    if x != code {
                        assert(prev.contains_key(x));
                    }
                }
                assert forall|x: u128| !#[trigger] counts@.contains_key(x) implies count_code(events@, s as int, i + 1, x as int, *p) == 0 by {
                    assert(!prev.contains_key(x));
                }
            }
        } else {
            ranks.push(0);
            proof {
                assert forall|x: u128| #[trigger] counts@.contains_key(x) implies counts@[x] == count_code(events@, s as int, i + 1, x as int, *p) by {}
            }
        }
        i = i + 1;
    }
    (ranks, counts)
}

/// Marks the samples that the `Good` segment `[s, e)` draws, given the pixel
/// codes in `seen` as claimed.
fn keep_good(
    events: &[MouseMoveEvent],
    s: usize,
    e: usize,
    p: &Projection,
    tolerance: u32,
    seen: &HashSet<u128>,
    keep: &mut Vec<bool>,
)
    requires
        s < e <= events@.len(),
        old(keep)@.len() == events@.len(),
        tolerance >= 1,
    ensures
        final(keep)@.len() == events@.len(),
        forall|i: int| 0 <= i < events@.len() ==> (final(keep)@[i] <==> (old(keep)@[i]
            || good_keeps(events@, s as int, e as int, *p, tolerance as int, |key: (int, int)| seen@.contains(pixel_code(key) as u128), i))),
{
    let ghost claimed = |key: (int, int)| seen@.contains(pixel_code(key) as u128);
    let (ranks, counts) = pixel_ranks(events, s, e, p);
    let mut i: usize = s;
    while i < e
        invariant
            s <= i <= e <= events@.len(),
            keep@.len() == events@.len(),
            tolerance >= 1,
            ranks@.len() == e - s,
            forall|j: int| s <= j < e && in_range(events@[j], p.x_range) ==> ranks@[j - s] == count_code(
                events@, s as int, j, pixel_code(pixel_of(events@[j], *p)), *p),
            forall|x: u128| #[trigger] counts@.contains_key(x) ==> counts@[x] == count_code(events@, s as int, e as int, x as int, *p),
            forall|x: u128| !#[trigger] counts@.contains_key(x) ==> count_code(events@, s as int, e as int, x as int, *p) == 0,
            claimed == (|key: (int, int)| seen@.contains(pixel_code(key) as u128)),
            forall|j: int| 0 <= j < events@.len() ==> (keep@[j] <==> (old(keep)@[j]
                || (j < i && good_keeps(events@, s as int, e as int, *p, tolerance as int, claimed, j)))),
        decreases e - i,
    {
        if is_in_range(&events[i], p.x_range) {
            let ghost key = pixel_of(events@[i as int], *p);
            proof {
                lemma_visible_pixel_in_bounds(events@[i as int], *p);
                lemma_count_code(events@, s as int, e as int, key, *p);
                lemma_count_code(events@, s as int, i as int, key, *p);
            }
            let draw = if i == s || i == e - 1 {
                true
            } else {
                let code = pixel_code_exec(&events[i], p);
                if seen.contains(&code) {
                    false
                } else {
                    let count: usize = match counts.get(&code) {
                        Some(v) => *v,
                        None => 0,
                    };
                    assert(count == count_in(events@, s as int, e as int, key, *p));
                    assert(ranks@[i - s] == count_in(events@, s as int, i as int, key, *p));
                    bucket_selects_exec(count, ranks[i - s], tolerance)
                }
            };
            assert(draw == good_keeps(events@, s as int, e as int, *p, tolerance as int, claimed, i as int));
            if draw {
                keep.set(i, true);
            }
        } else {
            assert(!good_keeps(events@, s as int, e as int, *p, tolerance as int, claimed, i as int));
        }
        i = i + 1;
    }
}

/// Adds the pixel code of every sample in range of `[s, e)` to `seen`.
fn claim_pixels(events: &[MouseMoveEvent], s: usize, e: usize, p: &Projection, seen: &mut HashSet<u128>)
    requires
        s <= e <= events@.len(),
    ensures
        forall|x: u128| #[trigger] final(seen)@.contains(x) <==> (old(seen)@.contains(x)
            || exists|j: int| s <= j < e && in_range(events@[j], p.x_range)
                && #[trigger] pixel_code(pixel_of(events@[j], *p)) == x),
{
    let mut i: usize = s;
    while i < e
        invariant
            s <= i <= e <= events@.len(),
            forall|x: u128| #[trigger] seen@.contains(x) <==> (old(seen)@.contains(x)
                || exists|j: int| s <= j < i && in_range(events@[j], p.x_range)
                    && #[trigger] pixel_code(pixel_of(events@[j], *p)) == x),
        decreases e - i,
    {
        if is_in_range(&events[i], p.x_range) {
            let code = pixel_code_exec(&events[i], p);
            seen.insert(code);
            proof {
                assert forall|x: u128| #[trigger] seen@.contains(x) <==> (old(seen)@.contains(x)
                    || exists|j: int| s <= j < i + 1 && in_range(events@[j], p.x_range)
                        && #[trigger] pixel_code(pixel_of(events@[j], *p)) == x) by {
                    if x == code {
                        assert(pixel_code(pixel_of(events@[i as int], *p)) == x);
                    }
                }
            }
        }
        i = i + 1;
    }
}

/// Indices of the samples to draw, in increasing order.
///
/// Segments are visited in order. A `Discrete` sample is drawn when its
/// time is in `x_range`. Of a `Good` segment `[start, end)` with
/// `start < end <= events.len()`, the first and last sample are drawn when in
/// range; the other samples in range are grouped by the pixel they map to;
/// a pixel that an earlier `Good` segment already claimed draws nothing more,
/// and otherwise its bucket draws all its samples while it holds at most
/// `tolerance`, else every `ceil(size / tolerance)`-th one. Segments outside
/// the sample array are passed over.
pub fn collect_visible_indices<F>(
    segments: &[Segment<F>],
    events: &[MouseMoveEvent],
    render_width: u32,
    render_height: u32,
    x_range: (i64, i64),
    y_range: (i32, i32),
    tolerance: u32,
) -> (r: Vec<usize>)
    requires
        tolerance >= 1,
    ensures
        strictly_increasing(r@),
        forall|a: int| 0 <= a < r@.len() ==> r@[a] < events@.len() && #[trigger] in_range(events@[r@[a] as int], x_range),
        forall|i: int| 0 <= i < events@.len() ==> (r@.contains(i as usize) <==> #[trigger] kept_by_any(
            segments@,
            segments@.len() as int,
            events@,
            Projection { width: render_width, height: render_height, x_range, y_range },
            tolerance as int,
            i,
        )),
        forall|k: int| 0 <= k < segments@.len() ==> #[trigger] anchors_kept(segments@[k], events@, x_range, r@),
{
    let n = events.len();
    let p = Projection { width: render_width, height: render_height, x_range, y_range };
    let mut keep: Vec<bool> = Vec::new();
    while keep.len() < n
        invariant
            keep@.len() <= n == events@.len(),
            forall|j: int| 0 <= j < keep@.len() ==> !keep@[j],
        decreases n - keep@.len(),
    {
        keep.push(false);
    }
    let mut seen: HashSet<u128> = HashSet::new();
    let mut k: usize = 0;
    while k < segments.len()
        invariant
            k <= segments@.len(),
            n == events@.len(),
            keep@.len() == n,
            tolerance >= 1,
            p == (Projection { width: render_width, height: render_height, x_range, y_range }),
            forall|i: int| 0 <= i < n ==> (keep@[i] <==> kept_by_any(segments@, k as int, events@, p, tolerance as int, i)),
            forall|x: u128| #[trigger] seen@.contains(x) <==> code_seen_before(segments@, k as int, events@, p, x as int),
        decreases segments@.len() - k,
    {
        let ghost prev_keep = keep@;
        let ghost prev_seen = seen@;
        match &segments[k] {
            Segment::Discrete { idx } => {
                if *idx < n && is_in_range(&events[*idx], x_range) {
                    keep.set(*idx, true);
                }
            },
            Segment::Good { start_idx, end_idx, .. } => {
                let s = *start_idx;
                let e = *end_idx;
                if s < e && e <= n {
                    keep_good(events, s, e, &p, tolerance, &seen, &mut keep);
                    claim_pixels(events, s, e, &p, &mut seen);
                }
            },
        }
        proof {
            assert forall|x: u128| #[trigger] seen@.contains(x) <==> code_seen_before(segments@, k + 1, events@, p, x as int) by {
                if code_seen_before(segments@, k + 1, events@, p, x as int) {
                    let k2 = choose|k2: int| 0 <= k2 < k + 1 && #[trigger] segment_has_code(segments@[k2], events@, p, x as int);
                    if k2 < k {
                        assert(code_seen_before(segments@, k as int, events@, p, x as int));
                        assert(prev_seen.contains(x));
                    }
                }
                if prev_seen.contains(x) {
                    let k2 = choose|k2: int| 0 <= k2 < k && #[trigger] segment_has_code(segments@[k2], events@, p, x as int);
                    assert(code_seen_before(segments@, k + 1, events@, p, x as int));
                }
                if seen@.contains(x) && !prev_seen.contains(x) {
                    assert(segment_has_code(segments@[k as int], events@, p, x as int));
                }
            }
            assert forall|i: int| 0 <= i < n implies (keep@[i] <==> (prev_keep[i]
                || kept_by(segments@, k as int, events@, p, tolerance as int, i))) by {
                match segments@[k as int] {
                    Segment::Discrete { idx } => {},
                    Segment::Good { start_idx, end_idx, .. } => {
                        if start_idx < end_idx <= n && in_range(events@[i], p.x_range) {
                            let key = pixel_of(events@[i], p);
                            lemma_visible_pixel_in_bounds(events@[i], p);
                            lemma_seen_by_code(segments@, k as int, events@, p, key);
                            assert(prev_seen.contains(pixel_code(key) as u128) <==> code_seen_before(segments@, k as int, events@, p, pixel_code(key)));
                        }
                    },
                }
            }
            assert forall|i: int| 0 <= i < n implies (keep@[i] <==> kept_by_any(segments@, k + 1, events@, p, tolerance as int, i)) by {
                if kept_by_any(segments@, k + 1, events@, p, tolerance as int, i) {
                    let k2 = choose|k2: int| 0 <= k2 < k + 1 && #[trigger] kept_by(segments@, k2, events@, p, tolerance as int, i);
                    if k2 < k {
                        assert(kept_by_any(segments@, k as int, events@, p, tolerance as int, i));
                    }
                }
                if prev_keep[i] {
                    let k2 = choose|k2: int| 0 <= k2 < k && #[trigger] kept_by(segments@, k2, events@, p, tolerance as int, i);
                    assert(kept_by_any(segments@, k + 1, events@, p, tolerance as int, i));
                }
            }
        }
        k = k + 1;
    }
    let r = marked_indices(&keep);
    proof {
        assert forall|i: int| 0 <= i < events@.len() implies (r@.contains(i as usize) <==> #[trigger] kept_by_any(
            segments@, segments@.len() as int, events@, p, tolerance as int, i)) by {
            assert(keep@[i] <==> r@.contains(i as usize));
        }
        assert forall|a: int| 0 <= a < r@.len() implies r@[a] < events@.len() && #[trigger] in_range(events@[r@[a] as int], x_range) by {
            let i = r@[a] as int;
            assert(r@.contains(r@[a]));
            assert(kept_by_any(segments@, segments@.len() as int, events@, p, tolerance as int, i));
            let k2 = choose|k2: int| 0 <= k2 < segments@.len() && #[trigger] kept_by(segments@, k2, events@, p, tolerance as int, i);
        }
        assert forall|k2: int| 0 <= k2 < segments@.len() implies #[trigger] anchors_kept(segments@[k2], events@, x_range, r@) by {
            match segments@[k2] {
                Segment::Discrete { idx } => {
                    if idx < n && in_range(events@[idx as int], x_range) {
                        assert(kept_by(segments@, k2, events@, p, tolerance as int, idx as int));
                        assert(kept_by_any(segments@, segments@.len() as int, events@, p, tolerance as int, idx as int));
                    }
                },
                Segment::Good { start_idx, end_idx, .. } => {
                    if start_idx < end_idx <= n {
                        assert(kept_by(segments@, k2, events@, p, tolerance as int, start_idx as int) <==> in_range(events@[start_idx as int], x_range));
                        assert(kept_by(segments@, k2, events@, p, tolerance as int, end_idx - 1) <==> in_range(events@[end_idx - 1], x_range));
                        if in_range(events@[start_idx as int], x_range) {
                            assert(kept_by_any(segments@, segments@.len() as int, events@, p, tolerance as int, start_idx as int));
                        }
                        if in_range(events@[end_idx - 1], x_range) {
                            assert(kept_by_any(segments@, segments@.len() as int, events@, p, tolerance as int, end_idx - 1));
                        }
                    }
                },
            }
        }
    }
    r
}

} // verus!
