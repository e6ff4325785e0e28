use mouse_tester::engine::{extend_range, LodCache, LodEngine, PlotBounds, LOD_ZOOM_PERMILLE};
use mouse_tester::mouse_event::MouseMoveEvent;
use mouse_tester::segment::{build_segments, FitQuality, Segment, R2_SCALE};
use mouse_tester::view::collect_visible_indices;

fn event(dx: i16, dy: i16, micros: u64) -> MouseMoveEvent {
    MouseMoveEvent::new(dx, dy, (micros / 1_000_000) as u32, (micros % 1_000_000) as u32, false, 0, [false; 5], 0, 0)
}

/// One sample per second, moving linearly.
fn linear_events(n: usize) -> Vec<MouseMoveEvent> {
    (0..n).map(|i| event((i * 10) as i16, -((i * 5) as i16), i as u64 * 1_000_000)).collect()
}

fn perfect(s: usize, e: usize) -> Option<(FitQuality, ())> {
    let q = FitQuality { dx_r_squared: R2_SCALE, dy_r_squared: R2_SCALE, time_r_squared: R2_SCALE, score: (e - s) as i64 };
    Some((q, ()))
}

fn bounds_of<F>(s: &Segment<F>) -> (usize, usize) {
    match s {
        Segment::Good { start_idx, end_idx, .. } => (*start_idx, *end_idx),
        Segment::Discrete { idx } => (*idx, *idx + 1),
    }
}

fn assert_tiles<F>(segs: &[Segment<F>], n: usize) {
    let mut pos = 0;
    for s in segs {
        let (a, b) = bounds_of(s);
        assert_eq!(a, pos);
        assert!(b > a);
        pos = b;
    }
    assert_eq!(pos, n);
}

#[test]
fn longest_acceptable_candidate_wins() {
    let segs = build_segments(50, 10, 16, 10, 980_000_000, perfect);
    assert_tiles(&segs, 50);
    // Candidates 10, 16, 26, 42 fit from 0; the rest is too short to fit.
    assert_eq!(bounds_of(&segs[0]), (0, 42));
    assert!(matches!(segs[0], Segment::Good { .. }));
    assert_eq!(segs.len(), 1 + 8);
    assert!(segs[1..].iter().all(|s| matches!(s, Segment::Discrete { .. })));
}

#[test]
fn failed_fits_leave_discrete_samples() {
    let segs = build_segments(7, 4, 3, 2, 0, |_s: usize, _e: usize| -> Option<(FitQuality, ())> { None });
    assert_tiles(&segs, 7);
    assert_eq!(segs.len(), 7);
}

#[test]
fn good_segments_are_at_least_the_initial_size() {
    // Only candidates ending on a multiple of 12 are acceptable.
    let judge = |s: usize, e: usize| -> Option<(FitQuality, usize)> {
        let r2 = if e % 12 == 0 { R2_SCALE } else { 0 };
        Some((FitQuality { dx_r_squared: r2, dy_r_squared: r2, time_r_squared: r2, score: 1 }, e - s))
    };
    let segs = build_segments(100, 6, 2, 1, 900_000_000, judge);
    assert_tiles(&segs, 100);
    let mut goods = 0;
    for s in &segs {
        if let Segment::Good { start_idx, end_idx, fit } = s {
            assert!(end_idx - start_idx >= 6);
            assert_eq!(*fit, end_idx - start_idx);
            assert_eq!(end_idx % 12, 0);
            goods += 1;
        }
    }
    assert!(goods > 0);
}

#[test]
fn crowded_pixel_is_thinned_to_every_fourth() {
    let events: Vec<MouseMoveEvent> = (0..10).map(|i| event(0, 0, i)).collect();
    let segs: Vec<Segment<()>> = vec![Segment::Good { start_idx: 0, end_idx: 10, fit: () }];
    let out = collect_visible_indices(&segs, &events, 1, 1, (0, 1000), (0, 10), 3);
    assert_eq!(out, vec![0, 4, 8, 9]);
    let all = collect_visible_indices(&segs, &events, 1, 1, (0, 1000), (0, 10), 10);
    assert_eq!(all, (0..10).collect::<Vec<usize>>());
}

#[test]
fn claimed_pixels_are_not_drawn_again() {
    let events: Vec<MouseMoveEvent> = (0..8).map(|i| event(0, 0, i)).collect();
    let segs: Vec<Segment<()>> = vec![
        Segment::Good { start_idx: 0, end_idx: 4, fit: () },
        Segment::Good { start_idx: 4, end_idx: 8, fit: () },
    ];
    let out = collect_visible_indices(&segs, &events, 1, 1, (0, 1000), (0, 10), 5);
    // The second segment's pixel was claimed: only its ends remain.
    assert_eq!(out, vec![0, 1, 2, 3, 4, 7]);
}

#[test]
fn segment_ends_and_discrete_samples_in_range_are_kept() {
    let events = linear_events(30);
    let segs: Vec<Segment<()>> = vec![
        Segment::Good { start_idx: 0, end_idx: 12, fit: () },
        Segment::Discrete { idx: 12 },
        Segment::Good { start_idx: 13, end_idx: 30, fit: () },
    ];
    let out = collect_visible_indices(&segs, &events, 4, 4, (0, 29_000_000), (-200, 0), 1);
    for i in [0usize, 11, 12, 13, 29] {
        assert!(out.contains(&i), "index {} missing", i);
    }
    assert!(out.windows(2).all(|w| w[0] < w[1]));
    let narrow = collect_visible_indices(&segs, &events, 4, 4, (5_000_000, 20_000_000), (-200, 0), 1);
    assert!(narrow.contains(&11) && narrow.contains(&12) && narrow.contains(&13));
    assert!(!narrow.contains(&0) && !narrow.contains(&29));
    assert!(narrow.iter().all(|&i| (5..=20).contains(&i)));
}

#[test]
fn empty_inputs_draw_nothing() {
    let segs: Vec<Segment<()>> = Vec::new();
    assert!(collect_visible_indices(&segs, &linear_events(5), 100, 100, (0, 10), (0, 10), 3).is_empty());
    let one: Vec<Segment<()>> = vec![Segment::Discrete { idx: 0 }];
    assert!(collect_visible_indices(&one, &[], 100, 100, (0, 10), (0, 10), 3).is_empty());
    let mut engine: LodEngine<()> = LodEngine::new();
    assert!(engine.apply_lod_indices(&[], 800, 600, None).is_empty());
}

#[test]
fn extended_range_adds_a_tenth_each_side() {
    assert_eq!(extend_range((10_000_000, 30_000_000), LOD_ZOOM_PERMILLE), (8_000_000, 32_000_000));
    assert_eq!(extend_range((5, 5), 1000), (5, 5));
}

#[test]
fn test_error_points_filtered_by_visible_range() {
    let events = linear_events(100);
    let mut engine: LodEngine<()> = LodEngine::new();
    let segs = build_segments(events.len(), 10, 16, 10, 800_000_000, perfect);
    let all: Vec<usize> = (0..100).collect();
    engine.install(segs, all, events.len());
    let bounds = PlotBounds { x_min: 10_000_000, x_max: 30_000_000, y_min: -500, y_max: 500 };
    engine.apply_lod_indices(&events, 800, 600, Some(bounds));
    let (lo, hi) = (8_000_000u64, 32_000_000u64);
    assert!(!engine.error_points.is_empty());
    for &idx in &engine.error_points {
        let t = events[idx].time_micros();
        assert!(t >= lo && t <= hi, "error point {} at {} outside [{}, {}]", idx, t, lo, hi);
    }
    assert_eq!(engine.error_points, (8..=32).collect::<Vec<usize>>());
}

#[test]
fn reused_view_is_the_cache_filtered() {
    let events = linear_events(200);
    let mut engine: LodEngine<()> = LodEngine::new();
    let segs = build_segments(events.len(), 10, 16, 10, 800_000_000, perfect);
    engine.install(segs, Vec::new(), events.len());
    let wide = PlotBounds { x_min: 50_000_000, x_max: 150_000_000, y_min: -1000, y_max: 0 };
    let first = engine.apply_lod_indices(&events, 50, 50, Some(wide));
    let cached: Vec<usize> = engine.cache.as_ref().unwrap().visible_indices.clone();
    assert_eq!(engine.cache.as_ref().unwrap().last_x_range, (40_000_000, 160_000_000));
    assert!(first.iter().all(|&i| (50..=150).contains(&i)));
    let narrow = PlotBounds { x_min: 60_000_000, x_max: 100_000_000, y_min: -900, y_max: -100 };
    let second = engine.apply_lod_indices(&events, 50, 50, Some(narrow));
    let expected: Vec<usize> = cached.iter().copied().filter(|&i| (60..=100).contains(&i)).collect();
    assert_eq!(second, expected);
    assert_eq!(engine.cache.as_ref().unwrap().visible_indices, cached);
}

#[test]
fn shrunk_array_rebuilds_and_stays_in_bounds() {
    let big = linear_events(1000);
    let mut engine: LodEngine<()> = LodEngine::new();
    assert!(engine.needs_rebuild(big.len()));
    engine.install(build_segments(big.len(), 10, 16, 10, 800_000_000, perfect), Vec::new(), big.len());
    let full = engine.apply_lod_indices(&big, 800, 600, None);
    assert!(!full.is_empty());
    let small: Vec<MouseMoveEvent> = (0..500).map(|i| event(3, (i % 7) as i16, i as u64 * 2_000)).collect();
    assert!(engine.needs_rebuild(small.len()));
    engine.install(build_segments(small.len(), 10, 16, 10, 800_000_000, perfect), Vec::new(), small.len());
    assert!(engine.cache.is_none());
    let out = engine.apply_lod_indices(&small, 800, 600, None);
    assert!(!out.is_empty());
    assert!(out.iter().all(|&i| i < 500));
}

#[test]
fn cache_reuse_needs_containment_zoom_and_tolerance() {
    let c = LodCache { visible_indices: vec![1, 2], zoom_factor: 1200, last_x_range: (0, 100), last_y_range: (-10, 10), last_tolerance: 3 };
    assert!(c.can_reuse((0, 100), (-10, 10), 3, 1200));
    assert!(c.can_reuse((10, 90), (-5, 5), 3, 1080));
    assert!(!c.can_reuse((10, 90), (-5, 5), 3, 1079));
    assert!(!c.can_reuse((10, 90), (-5, 5), 4, 1200));
    assert!(!c.can_reuse((-1, 90), (-5, 5), 3, 1200));
    assert!(!c.can_reuse((10, 101), (-5, 5), 3, 1200));
    assert!(!c.can_reuse((10, 90), (-11, 5), 3, 1200));
}
