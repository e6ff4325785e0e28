use mouse_tester::bucketed::BucketedLod;
use mouse_tester::engine::PlotBounds;
use mouse_tester::mouse_event::MouseMoveEvent;

fn event(dx: i16, dy: i16, micros: u64) -> MouseMoveEvent {
    MouseMoveEvent::new(dx, dy, (micros / 1_000_000) as u32, (micros % 1_000_000) as u32, false, 0, [false; 5], 0, 0)
}

fn strictly_increasing(v: &[usize]) -> bool {
    v.windows(2).all(|w| w[0] < w[1])
}

#[test]
fn few_samples_are_drawn_whole() {
    let events: Vec<MouseMoveEvent> = (0..4).map(|i| event(i as i16, -(i as i16), i as u64 * 1_000_000)).collect();
    let mut lod = BucketedLod::new();
    assert_eq!(lod.apply_lod_indices(&events, 1000, None), vec![0, 1, 2, 3]);
    assert!(lod.cache.is_none());
}

#[test]
fn dense_samples_take_a_full_pass() {
    let events: Vec<MouseMoveEvent> = (0..1000).map(|i| event((i % 10) as i16, (i % 5) as i16, i as u64 * 10_000)).collect();
    let mut lod = BucketedLod::new();
    let out = lod.apply_lod_indices(&events, 100, None);
    assert!(!out.is_empty());
    assert!(out.len() <= 200 * 6);
    assert!(out.len() < events.len());
    assert!(strictly_increasing(&out));
    // Buckets of ten samples: each keeps its first and last sample.
    assert!(out.contains(&0) && out.contains(&9) && out.contains(&990) && out.contains(&999));
    let cache = lod.cache.as_ref().unwrap();
    assert_eq!(cache.target, 100);
    assert_eq!(cache.indices, out);
}

#[test]
fn bounded_view_keeps_its_margin() {
    let events: Vec<MouseMoveEvent> = (0..100).map(|i| event((i % 3) as i16, 0, i as u64 * 100_000)).collect();
    let mut lod = BucketedLod::new();
    let bounds = PlotBounds { x_min: 2_000_000, x_max: 5_000_000, y_min: -10, y_max: 10 };
    // Eight pixels of 240 over three seconds is a tenth of a second.
    let out = lod.apply_lod_indices(&events, 240, Some(bounds));
    assert!(!out.is_empty());
    for &i in &out {
        let t = events[i].time_micros();
        assert!((1_900_000..=5_100_000).contains(&t), "index {} at {}", i, t);
    }
    assert_eq!(out, (19..=51).collect::<Vec<usize>>());
}

#[test]
fn shrinking_budget_coarsens_the_previous_pass() {
    let events: Vec<MouseMoveEvent> = (0..10_000).map(|i| event((i % 17) as i16 - 8, (i % 11) as i16 - 5, i as u64 * 100)).collect();
    let mut lod = BucketedLod::new();
    let a = lod.apply_lod_indices(&events, 2000, None);
    let b = lod.apply_lod_indices(&events, 500, None);
    let c = lod.apply_lod_indices(&events, 100, None);
    assert!(b.len() <= a.len());
    assert!(c.len() <= b.len());
    assert!(strictly_increasing(&b) && strictly_increasing(&c));
    assert!(b.iter().all(|i| a.contains(i)));
    assert_eq!(lod.cache.as_ref().unwrap().target, 100);
}

#[test]
fn budget_follows_density() {
    // 250 samples over 100 pixels: 4 - 2.5 = 1.5 points per pixel, so 150.
    let events: Vec<MouseMoveEvent> = (0..250).map(|i| event(0, 0, i as u64)).collect();
    let mut lod = BucketedLod::new();
    let out = lod.apply_lod_indices(&events, 100, None);
    assert_eq!(lod.cache.as_ref().unwrap().target, 150);
    // Buckets of one sample keep every sample.
    assert_eq!(out, (0..250).collect::<Vec<usize>>());
    // 150 samples over 100 pixels: a budget of 250 points, so all are drawn.
    let fewer: Vec<MouseMoveEvent> = (0..150).map(|i| event(0, 0, i as u64)).collect();
    let mut lod2 = BucketedLod::new();
    assert_eq!(lod2.apply_lod_indices(&fewer, 100, None), (0..150).collect::<Vec<usize>>());
}

#[test]
fn equal_timestamps_are_drawn_once() {
    let events: Vec<MouseMoveEvent> = (0..400).map(|i| event((i % 9) as i16, (i % 4) as i16, (i / 4) as u64)).collect();
    let mut lod = BucketedLod::new();
    let out = lod.apply_lod_indices(&events, 10, None);
    let mut times: Vec<u64> = out.iter().map(|&i| events[i].time_micros()).collect();
    let before = times.len();
    times.dedup();
    assert_eq!(times.len(), before);
}

#[test]
fn empty_array_draws_nothing() {
    let mut lod = BucketedLod::new();
    assert!(lod.apply_lod_indices(&[], 800, None).is_empty());
    let bounds = PlotBounds { x_min: 0, x_max: 10, y_min: 0, y_max: 1 };
    assert!(lod.apply_lod_indices(&[], 800, Some(bounds)).is_empty());
}

#[test]
fn doubling_the_width_never_draws_fewer() {
    let events: Vec<MouseMoveEvent> = (0..3000).map(|i| event(((i * 7) % 23) as i16, ((i * 5) % 19) as i16, i as u64 * 50)).collect();
    for width in [100u32, 400, 800, 1000, 2000] {
        let mut narrow = BucketedLod::new();
        let mut wide = BucketedLod::new();
        let a = narrow.apply_lod_indices(&events, width, None);
        let b = wide.apply_lod_indices(&events, 2 * width, None);
        assert!(b.len() >= a.len(), "width {}: {} then {}", width, a.len(), b.len());
    }
}
