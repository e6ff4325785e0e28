//! The regression-mode engine: segments built for one sample array, the
//! outliers found on them, and the last resolved view kept for reuse.
use vstd::prelude::*;
use crate::mouse_event::MouseMoveEvent;
use crate::segment::Segment;
use crate::view::{
    Projection, collect_visible_indices, in_range, is_in_range, kept_by_any, scaled_trunc,
    strictly_increasing, trunc_div,
};

verus! {

/// Most samples per pixel before a pixel bucket is thinned.
pub const LOD_TOLERANCE: u32 = 3;

/// Prefetch multiplier of the view, in thousandths: the resolved range is
/// the view widened by `(zoom - 1) / 2` of its width on each side.
pub const LOD_ZOOM_PERMILLE: u32 = 1200;

/// A cached view stays usable while the zoom factor is at least this many
/// tenths of the cached one.
pub const ZOOM_REUSE_TENTHS: u32 = 9;

/// Visible area of the plot: time in microseconds, values in counts of `-dy`.
#[derive(Debug, Clone, Copy)]
pub struct PlotBounds {
    pub x_min: i64,
    pub x_max: i64,
    pub y_min: i32,
    pub y_max: i32,
}

/// A resolved view kept for reuse when the next view lies inside it.
#[derive(Debug)]
pub struct LodCache {
    pub visible_indices: Vec<usize>,
    /// Zoom factor, in thousandths.
    pub zoom_factor: u32,
    pub last_x_range: (i64, i64),
    pub last_y_range: (i32, i32),
    pub last_tolerance: u32,
}

impl LodCache {
    /// The view lies inside the cached ranges, the zoom factor is at least
    /// nine tenths of the cached one, and the tolerance is the cached one.
    pub open spec fn reusable(&self, x_range: (i64, i64), y_range: (i32, i32), tolerance: u32, zoom_factor: u32) -> bool {
        &&& x_range.0 >= self.last_x_range.0 && x_range.1 <= self.last_x_range.1
        &&& y_range.0 >= self.last_y_range.0 && y_range.1 <= self.last_y_range.1
        &&& 10 * zoom_factor >= ZOOM_REUSE_TENTHS * self.zoom_factor
        &&& tolerance == self.last_tolerance
    }

    /// Whether the cached view can serve this one: see [`LodCache::reusable`].
    pub fn can_reuse(&self, x_range: (i64, i64), y_range: (i32, i32), tolerance: u32, zoom_factor: u32) -> (r: bool)
        ensures
            r == self.reusable(x_range, y_range, tolerance, zoom_factor),
    {
        assert((ZOOM_REUSE_TENTHS as u64) * (self.zoom_factor as u64) <= 9 * 0xffff_ffffu64) by (nonlinear_arith)
            requires
                self.zoom_factor <= 0xffff_ffffu32,
                ZOOM_REUSE_TENTHS == 9,
        ;
        let x_within = x_range.0 >= self.last_x_range.0 && x_range.1 <= self.last_x_range.1;
        let y_within = y_range.0 >= self.last_y_range.0 && y_range.1 <= self.last_y_range.1;
        let zoom_ok = 10 * (zoom_factor as u64) >= (ZOOM_REUSE_TENTHS as u64) * (self.zoom_factor as u64);
        let tolerance_ok = tolerance == self.last_tolerance;
        x_within && y_within && zoom_ok && tolerance_ok
    }
}

/// Index `i` names a sample whose time lies in `x_range`.
pub open spec fn in_view(events: Seq<MouseMoveEvent>, x_range: (i64, i64)) -> spec_fn(usize) -> bool {
    |i: usize| i < events.len() && in_range(events[i as int], x_range)
}

/// The indices of `indices` that name samples in `x_range`, in their order.
pub fn filter_to_range(indices: &Vec<usize>, events: &[MouseMoveEvent], x_range: (i64, i64)) -> (r: Vec<usize>)
    ensures
        r@ == indices@.filter(in_view(events@, x_range)),
{
    let mut out: Vec<usize> = Vec::new();
    let mut j: usize = 0;
    while j < indices.len()
        invariant
            j <= indices@.len(),
            out@ == indices@.subrange(0, j as int).filter(in_view(events@, x_range)),
        decreases indices@.len() - j,
    {
        let i = indices[j];
        proof {
            assert(indices@.subrange(0, j + 1) == indices@.subrange(0, j as int).push(i));
            indices@.subrange(0, j as int).lemma_filter_push(i, in_view(events@, x_range));
        }
        if i < events.len() && is_in_range(&events[i], x_range) {
            out.push(i);
        }
        j = j + 1;
    }
    assert(indices@.subrange(0, indices@.len() as int) == indices@);
    out
}

/// Clamps a value into the range of `i64`.
pub open spec fn saturate(v: int) -> int {
    if v < i64::MIN { i64::MIN as int } else if v > i64::MAX { i64::MAX as int } else { v }
}

fn saturate_exec(v: i128) -> (r: i64)
    ensures
        r == saturate(v as int),
{
    if v < i64::MIN as i128 {
        i64::MIN
    } else if v > i64::MAX as i128 {
        i64::MAX
    } else {
        v as i64
    }
}

/// The time range widened by `(zoom - 1) / 2` of its width on each side
/// (`zoom` in thousandths), the widening truncated toward zero.
pub open spec fn extended(x_range: (i64, i64), zoom: u32) -> (i64, i64) {
    let margin = trunc_div((x_range.1 - x_range.0) * (zoom - 1000), 2000);
    (saturate(x_range.0 - margin) as i64, saturate(x_range.1 + margin) as i64)
}

/// The view's time range widened for prefetching: see [`extended`].
pub fn extend_range(x_range: (i64, i64), zoom: u32) -> (r: (i64, i64))
    requires
        1000 <= zoom,
    ensures
        r == extended(x_range, zoom),
{
    let margin = scaled_trunc(x_range.1 as i128 - x_range.0 as i128, zoom - 1000, 2000);
    assert(-0x1_0000_0000_0000_0000_0000_0000 < margin < 0x1_0000_0000_0000_0000_0000_0000) by {
        assert(-0x1_0000_0000_0000_0000 < x_range.1 - x_range.0 < 0x1_0000_0000_0000_0000);
        let num = (x_range.1 - x_range.0) * (zoom - 1000);
        assert(-0x1_0000_0000_0000_0000_0000_0000 < num < 0x1_0000_0000_0000_0000_0000_0000) by (nonlinear_arith)
            requires
                num == (x_range.1 - x_range.0) * (zoom - 1000),
                -0x1_0000_0000_0000_0000 < x_range.1 - x_range.0 < 0x1_0000_0000_0000_0000,
                0 <= zoom - 1000 < 0x1_0000_0000,
        ;
        if num >= 0 {
            assert(num / 2000 <= num) by (nonlinear_arith) requires num >= 0;
        } else {
            assert((-num) / 2000 <= -num) by (nonlinear_arith) requires -num >= 0;
        }
    }
    (saturate_exec(x_range.0 as i128 - margin), saturate_exec(x_range.1 as i128 + margin))
}

/// Smallest `-dy` of a non-empty run of samples.
pub open spec fn neg_dy_min(s: Seq<MouseMoveEvent>) -> int
    decreases s.len(),
{
    if s.len() <= 1 {
        -(s[0].dy as int)
    } else {
        let m = neg_dy_min(s.drop_last());
        if -(s.last().dy as int) < m { -(s.last().dy as int) } else { m }
    }
}

/// Largest `-dy` of a non-empty run of samples.
pub open spec fn neg_dy_max(s: Seq<MouseMoveEvent>) -> int
    decreases s.len(),
{
    if s.len() <= 1 {
        -(s[0].dy as int)
    } else {
        let m = neg_dy_max(s.drop_last());
        if -(s.last().dy as int) > m { -(s.last().dy as int) } else { m }
    }
}

/// The time and value ranges of a view: the plot bounds when given, else
/// the first to the last sample time and the extent of `-dy`.
pub open spec fn view_ranges(events: Seq<MouseMoveEvent>, bounds: Option<PlotBounds>) -> ((i64, i64), (i32, i32)) {
    match bounds {
        Some(b) => ((b.x_min, b.x_max), (b.y_min, b.y_max)),
        None => (
            (events[0].time_micros_spec() as i64, events.last().time_micros_spec() as i64),
            (neg_dy_min(events) as i32, neg_dy_max(events) as i32),
        ),
    }
}

fn neg_dy_extent(events: &[MouseMoveEvent]) -> (r: (i32, i32))
    requires
        events@.len() > 0,
    ensures
        r.0 == neg_dy_min(events@),
        r.1 == neg_dy_max(events@),
{
    let mut lo: i32 = -(events[0].dy as i32);
    let mut hi: i32 = lo;
    let mut j: usize = 1;
    assert(events@.subrange(0, 1).len() == 1);
    while j < events.len()
        invariant
            1 <= j <= events@.len(),
            lo == neg_dy_min(events@.subrange(0, j as int)),
            hi == neg_dy_max(events@.subrange(0, j as int)),
        decreases events@.len() - j,
    {
        let v = -(events[j].dy as i32);
        assert(events@.subrange(0, j + 1).drop_last() == events@.subrange(0, j as int));
        if v < lo {
            lo = v;
        }
        if v > hi {
            hi = v;
        }
        j = j + 1;
    }
    assert(events@.subrange(0, events@.len() as int) == events@);
    (lo, hi)
}

/// Level-of-detail state for one sample array.
pub struct LodEngine<F> {
    pub segments: Vec<Segment<F>>,
    /// Outlier indices within the last resolved extended range.
    pub error_points: Vec<usize>,
    /// All outlier indices found on the current segments.
    pub error_points_all: Vec<usize>,
    /// Length of the sample array the segments were built for.
    pub last_events_len: usize,
    pub cache: Option<LodCache>,
}

impl<F> LodEngine<F> {
    /// An engine with no segments and no cached view.
    pub fn new() -> (r: LodEngine<F>)
        ensures
            r.segments@.len() == 0,
            r.error_points@.len() == 0,
            r.error_points_all@.len() == 0,
            r.last_events_len == 0,
            r.cache.is_none(),
    {
        LodEngine {
            segments: Vec::new(),
            error_points: Vec::new(),
            error_points_all: Vec::new(),
            last_events_len: 0,
            cache: None,
        }
    }

    /// The segments were built for a sample array of another length.
    pub fn needs_rebuild(&self, events_len: usize) -> (r: bool)
        ensures
            r == (events_len != self.last_events_len),
    {
        events_len != self.last_events_len
    }

    /// Takes the segments and outliers built for `events_len` samples; the
    /// cached view no longer applies.
    pub fn install(&mut self, segments: Vec<Segment<F>>, error_points_all: Vec<usize>, events_len: usize)
        ensures
            final(self).segments == segments,
            final(self).error_points_all == error_points_all,
            final(self).error_points == old(self).error_points,
            final(self).last_events_len == events_len,
            final(self).cache.is_none(),
    {
        self.segments = segments;
        self.error_points_all = error_points_all;
        self.last_events_len = events_len;
        self.cache = None;
    }

    /// Forgets the segments and the cached view, as for a new capture.
    pub fn reset(&mut self)
        ensures
            final(self).segments@.len() == 0,
            final(self).error_points == old(self).error_points,
            final(self).error_points_all == old(self).error_points_all,
            final(self).last_events_len == 0,
            final(self).cache.is_none(),
    {
        self.segments = Vec::new();
        self.last_events_len = 0;
        self.cache = None;
    }

    /// Indices of the samples to draw for a view, in increasing order.
    ///
    /// The view is `bounds`, or the whole array when absent. When the cached
    /// view can be reused for it, the cached indices are filtered to the view's
    /// time range. Otherwise the segments are resolved over the view's time
    /// range widened by the zoom factor, that result is cached, and it is
    /// filtered to the view's time range. The outliers are filtered to the
    /// widened range either way.
    pub fn apply_lod_indices(
        &mut self,
        events: &[MouseMoveEvent],
        visible_width: u32,
        visible_height: u32,
        bounds: Option<PlotBounds>,
    ) -> (r: Vec<usize>)
        ensures
            final(self).segments == old(self).segments,
            final(self).error_points_all == old(self).error_points_all,
            final(self).last_events_len == old(self).last_events_len,
            events@.len() == 0 ==> r@.len() == 0 && final(self).cache == old(self).cache
                && final(self).error_points == old(self).error_points,
            events@.len() > 0 ==> forall|a: int| 0 <= a < r@.len() ==> #[trigger] r@[a] < events@.len()
                && in_range(events@[r@[a] as int], view_ranges(events@, bounds).0),
            events@.len() > 0 ==> {
                let (xr, yr) = view_ranges(events@, bounds);
                let ext = extended(xr, LOD_ZOOM_PERMILLE);
                &&& final(self).error_points@ == old(self).error_points_all@.filter(in_view(events@, ext))
                &&& match old(self).cache {
                    Some(c) if c.reusable(xr, yr, LOD_TOLERANCE, LOD_ZOOM_PERMILLE) => {
                        &&& final(self).cache == old(self).cache
                        &&& r@ == c.visible_indices@.filter(in_view(events@, xr))
                    },
                    _ => final(self).cache matches Some(c) && {
                        &&& c.zoom_factor == LOD_ZOOM_PERMILLE
                        &&& c.last_x_range == ext
                        &&& c.last_y_range == yr
                        &&& c.last_tolerance == LOD_TOLERANCE
                        &&& strictly_increasing(c.visible_indices@)
                        &&& forall|i: int| 0 <= i < events@.len() ==> (c.visible_indices@.contains(i as usize)
                            <==> #[trigger] kept_by_any(
                            old(self).segments@,
                            old(self).segments@.len() as int,
                            events@,
                            Projection { width: visible_width, height: visible_height, x_range: ext, y_range: yr },
                            LOD_TOLERANCE as int,
                            i,
                        ))
                        &&& r@ == c.visible_indices@.filter(in_view(events@, xr))
                    },
                }
            },
    {
        if events.len() == 0 {
            return Vec::new();
        }
        let (x_range, y_range) = match bounds {
            Some(b) => ((b.x_min, b.x_max), (b.y_min, b.y_max)),
            None => {
                let first = events[0].time_micros() as i64;
                let last = events[events.len() - 1].time_micros() as i64;
                ((first, last), neg_dy_extent(events))
            },
        };
        let ext = extend_range(x_range, LOD_ZOOM_PERMILLE);
        let reuse = match &self.cache {
            Some(c) => c.can_reuse(x_range, y_range, LOD_TOLERANCE, LOD_ZOOM_PERMILLE),
            None => false,
        };
        let indices = if reuse {
            match &self.cache {
                Some(c) => filter_to_range(&c.visible_indices, events, x_range),
                None => Vec::new(),
            }
        } else {
            let visible = collect_visible_indices(
                self.segments.as_slice(),
                events,
                visible_width,
                visible_height,
                ext,
                y_range,
                LOD_TOLERANCE,
            );
            let filtered = filter_to_range(&visible, events, x_range);
            self.cache = Some(LodCache {
                visible_indices: visible,
                zoom_factor: LOD_ZOOM_PERMILLE,
                last_x_range: ext,
                last_y_range: y_range,
                last_tolerance: LOD_TOLERANCE,
            });
            filtered
        };
        self.error_points = filter_to_range(&self.error_points_all, events, ext);
        proof {
            broadcast use vstd::seq_lib::group_filter_ensures;
        }
        indices
    }
}

} // verus!
