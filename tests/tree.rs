use mouse_tester::mouse_event::MouseMoveEvent;
use mouse_tester::tree::{build_segment_tree, collect_for_view, SegmentTree};

fn event(dx: i16, dy: i16, micros: u64) -> MouseMoveEvent {
    MouseMoveEvent::new(dx, dy, (micros / 1_000_000) as u32, (micros % 1_000_000) as u32, false, 0, [false; 5], 0, 0)
}

/// RMSE grows with the length of the range: long ranges fit badly.
fn length_rmse(s: usize, e: usize) -> Option<(u64, usize)> {
    Some(((e - s) as u64 * 100, e - s))
}

fn leaves<F>(tree: &SegmentTree<F>) -> Vec<(usize, usize, u64)> {
    tree.nodes.iter().filter(|n| n.children.is_none()).map(|n| (n.start, n.end, n.rmse_milli_px)).collect()
}

#[test]
fn tree_splits_until_fit_or_minimum() {
    let tree = build_segment_tree(0, 100, 5, 1_500, length_rmse);
    let root = tree.nodes.last().unwrap();
    assert_eq!((root.start, root.end), (0, 100));
    let mut ls = leaves(&tree);
    ls.sort();
    let mut pos = 0;
    for &(s, e, rmse) in &ls {
        assert_eq!(s, pos);
        assert!(rmse <= 1_500 || e - s <= 10);
        pos = e;
    }
    assert_eq!(pos, 100);
    // 100 -> 50 -> 25 -> 12 or 13, each within 1500.
    assert!(ls.iter().all(|&(s, e, _)| e - s == 12 || e - s == 13));
    for (i, n) in tree.nodes.iter().enumerate() {
        if let Some((l, r)) = n.children {
            assert!(l < i && r < i);
            assert_eq!(tree.nodes[l].start, n.start);
            assert_eq!(tree.nodes[l].end, tree.nodes[r].start);
            assert_eq!(tree.nodes[r].end, n.end);
        }
    }
}

#[test]
fn short_ranges_are_stub_leaves() {
    let tree = build_segment_tree(0, 3, 3, 0, length_rmse);
    assert_eq!(tree.nodes.len(), 1);
    assert!(tree.nodes[0].fit.is_none());
    assert_eq!(tree.nodes[0].rmse_milli_px, 0);
}

#[test]
fn view_draws_small_leaves_whole_and_samples_large_ones() {
    let events: Vec<MouseMoveEvent> = (0..100).map(|i| event(i as i16, -(i as i16), i as u64 * 1000)).collect();
    let tree = build_segment_tree(0, 100, 5, 1_500, length_rmse);
    // Coarse view: the root is drawn as one leaf, every tenth sample and the last.
    let coarse = collect_for_view(&tree, &events, 20_000);
    let idx: Vec<u64> = coarse.iter().map(|t| t.0 / 1000).collect();
    assert_eq!(idx, vec![0, 10, 20, 30, 40, 50, 60, 70, 80, 90, 99]);
    assert_eq!(coarse[1], (10_000, 10, -10));
    // Fine view: every leaf of 12 or 13 samples gives every second one and its last.
    let fine = collect_for_view(&tree, &events, 0);
    let fine_idx: Vec<u64> = fine.iter().map(|t| t.0 / 1000).collect();
    assert!(fine_idx.windows(2).all(|w| w[0] < w[1]));
    assert!(fine_idx.contains(&0) && fine_idx.contains(&99));
    assert!(fine.len() > coarse.len());
    let small = build_segment_tree(0, 8, 5, 0, length_rmse);
    let whole = collect_for_view(&small, &events, 0);
    assert_eq!(whole.iter().map(|t| t.0 / 1000).collect::<Vec<u64>>(), (0..8).collect::<Vec<u64>>());
}

#[test]
fn empty_range_draws_nothing() {
    let tree = build_segment_tree(0, 0, 5, 0, length_rmse);
    assert!(collect_for_view(&tree, &[], 0).is_empty());
}
