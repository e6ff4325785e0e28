//! Tree mode: a top-down split of the sample range into a binary tree of
//! segments, each fitted by the caller's judge, and the traversal that draws
//! a view from it.
//!
//! The tree is stored as an arena: children always sit before their parent,
//! so a node refers only to earlier nodes and the last node is the root.
use vstd::prelude::*;
use crate::mouse_event::MouseMoveEvent;
use crate::segment::MIN_FIT_POINTS;

verus! {

/// Segments of at most this many samples are drawn whole.
pub const LEAF_DRAW_ALL: usize = 10;

/// A node of the segment tree over `[start, end)`, with the RMSE of its
/// fit in thousandths of a pixel. `fit` is absent for a zero-coefficient
/// stub (fewer than four samples, or a failed fit).
#[derive(Debug)]
pub struct SegmentNode<F> {
    pub start: usize,
    pub end: usize,
    pub fit: Option<F>,
    pub rmse_milli_px: u64,
    /// Indices of the two halves in the arena, when split.
    pub children: Option<(usize, usize)>,
}

/// Node `i` is sound: it covers `start <= end`, and when split its two
/// children come earlier in the arena and cut its range at one point.
pub open spec fn node_ok<F>(nodes: Seq<SegmentNode<F>>, i: int) -> bool {
    &&& nodes[i].start <= nodes[i].end
    &&& match nodes[i].children {
        None => true,
        Some((l, r)) => {
            &&& l < i && r < i
            &&& nodes[l as int].start == nodes[i].start
            &&& nodes[l as int].end == nodes[r as int].start
            &&& nodes[l as int].end == nodes[i].start + (nodes[i].end - nodes[i].start) / 2
            &&& nodes[r as int].end == nodes[i].end
        },
    }
}

/// The node's fit and RMSE are the judge's verdict on its range: a stub with
/// RMSE zero below four samples or when the fit fails.
pub open spec fn node_fitted<F, J: Fn(usize, usize) -> Option<(u64, F)>>(judge: J, node: SegmentNode<F>) -> bool {
    if node.end - node.start < MIN_FIT_POINTS {
        node.fit.is_none() && node.rmse_milli_px == 0
    } else {
        exists|r: Option<(u64, F)>| #[trigger] judge.ensures((node.start, node.end), r) && match r {
            Some((rmse, f)) => node.fit == Some(f) && node.rmse_milli_px == rmse,
            None => node.fit.is_none() && node.rmse_milli_px == 0,
        }
    }
}

/// Node `i` obeys the split rule: a split node's fit was worse than
/// `tol` with more than `2 * min_pts` samples; a leaf is within `tol`, or has
/// at most `2 * min_pts` samples, or fewer than four.
pub open spec fn split_rule_ok<F>(nodes: Seq<SegmentNode<F>>, i: int, min_pts: int, tol: int) -> bool {
    let n = nodes[i].end - nodes[i].start;
    match nodes[i].children {
        Some(_) => nodes[i].rmse_milli_px > tol && n > 2 * min_pts && n >= MIN_FIT_POINTS,
        None => nodes[i].rmse_milli_px <= tol || n <= 2 * min_pts || n < MIN_FIT_POINTS,
    }
}

/// Node `i` is sound and obeys the split rule.
pub open spec fn node_valid<F>(nodes: Seq<SegmentNode<F>>, i: int, min_pts: int, tol: int) -> bool {
    node_ok(nodes, i) && split_rule_ok(nodes, i, min_pts, tol)
}

/// Every node of the arena is sound and obeys the split rule.
pub open spec fn tree_ok<F>(nodes: Seq<SegmentNode<F>>, min_pts: int, tol: int) -> bool {
    forall|i: int| 0 <= i < nodes.len() ==> #[trigger] node_valid(nodes, i, min_pts, tol)
}

/// Builds the subtree over `[start, end)` onto the arena; returns the index
/// of its root, which is the last node pushed.
fn build_node<F, J>(
    nodes: &mut Vec<SegmentNode<F>>,
    start: usize,
    end: usize,
    min_pts: usize,
    tol_milli_px: u64,
    judge: &J,
) -> (root: usize)
    where
        J: Fn(usize, usize) -> Option<(u64, F)>,
    requires
        start <= end,
        forall|s: usize, e: usize| s < e <= end ==> #[trigger] judge.requires((s, e)),
        tree_ok(old(nodes)@, min_pts as int, tol_milli_px as int),
        forall|i: int| 0 <= i < old(nodes)@.len() ==> node_fitted(*judge, #[trigger] old(nodes)@[i]),
        old(nodes)@.len() + 2 * (end - start) + 1 <= usize::MAX,
    ensures
        final(nodes)@.len() > old(nodes)@.len(),
        final(nodes)@.len() <= old(nodes)@.len() + if end == start { 1 } else { 2 * (end - start) - 1 },
        root == final(nodes)@.len() - 1,
        final(nodes)@.subrange(0, old(nodes)@.len() as int) == old(nodes)@,
        tree_ok(final(nodes)@, min_pts as int, tol_milli_px as int),
        forall|i: int| 0 <= i < final(nodes)@.len() ==> node_fitted(*judge, #[trigger] final(nodes)@[i]),
        final(nodes)@[root as int].start == start,
        final(nodes)@[root as int].end == end,
    decreases end - start,
{
    let n = end - start;
    if n < MIN_FIT_POINTS {
        let ghost prev = nodes@;
        nodes.push(SegmentNode { start, end, fit: None, rmse_milli_px: 0, children: None });
        proof {
            assert forall|i: int| 0 <= i < nodes@.len() implies #[trigger] node_valid(nodes@, i, min_pts as int, tol_milli_px as int) by {
                if i < prev.len() {
                    assert(nodes@[i] == prev[i]);
                    assert(node_valid(prev, i, min_pts as int, tol_milli_px as int));
                    match prev[i].children {
                        None => {},
                        Some((a, b)) => {
                            assert(nodes@[a as int] == prev[a as int]);
                            assert(nodes@[b as int] == prev[b as int]);
                        },
                    }
                } else {
                    assert(nodes@[i] == nodes@.last());
                    assert(nodes@[i].start == start && nodes@[i].end == end);
                    assert(nodes@[i].children.is_none());
                }
            }
            assert(nodes@.subrange(0, prev.len() as int) =~= prev);
            assert forall|i: int| 0 <= i < nodes@.len() implies node_fitted(*judge, #[trigger] nodes@[i]) by {
                if i < prev.len() {
                    assert(nodes@[i] == prev[i]);
                }
            }
        }
        return nodes.len() - 1;
    }
    let verdict = judge(start, end);
    let ghost v = verdict;
    let (fit, rmse) = match verdict {
        Some((rmse, f)) => (Some(f), rmse),
        None => (None, 0),
    };
    if rmse > tol_milli_px && n > min_pts && n - min_pts > min_pts {
        assert(n > 2 * min_pts);
        let mid = start + n / 2;
        let ghost prev = nodes@;
        let l = build_node(nodes, start, mid, min_pts, tol_milli_px, judge);
        let ghost mid_nodes = nodes@;
        let r = build_node(nodes, mid, end, min_pts, tol_milli_px, judge);
        let ghost after = nodes@;
        nodes.push(SegmentNode { start, end, fit, rmse_milli_px: rmse, children: Some((l, r)) });
        proof {
            assert(after.subrange(0, mid_nodes.len() as int) == mid_nodes);
            assert(after[l as int] == mid_nodes[l as int]);
            assert forall|i: int| 0 <= i < nodes@.len() implies #[trigger] node_valid(nodes@, i, min_pts as int, tol_milli_px as int) by {
                if i < after.len() {
                    assert(nodes@[i] == after[i]);
                    assert(node_valid(after, i, min_pts as int, tol_milli_px as int));
                    assert(node_ok(after, i));
                    match after[i].children {
                        None => {},
                        Some((a, b)) => {
                            assert(nodes@[a as int] == after[a as int]);
                            assert(nodes@[b as int] == after[b as int]);
                        },
                    }
                } else {
                    assert(nodes@[l as int] == after[l as int]);
                    assert(nodes@[r as int] == after[r as int]);
                }
            }
            assert(nodes@.subrange(0, prev.len() as int) =~= prev) by {
                assert(mid_nodes.subrange(0, prev.len() as int) == prev);
                assert forall|i: int| 0 <= i < prev.len() implies nodes@[i] == prev[i] by {
                    assert(after[i] == mid_nodes[i]);
                    assert(mid_nodes[i] == prev[i]);
                }
            }
            assert forall|i: int| 0 <= i < nodes@.len() implies node_fitted(*judge, #[trigger] nodes@[i]) by {
                if i < after.len() {
                    assert(nodes@[i] == after[i]);
                } else {
                    assert(judge.ensures((start, end), v));
                }
            }
        }
        nodes.len() - 1
    } else {
        let ghost prev = nodes@;
        nodes.push(SegmentNode { start, end, fit, rmse_milli_px: rmse, children: None });
        proof {
            assert forall|i: int| 0 <= i < nodes@.len() implies #[trigger] node_valid(nodes@, i, min_pts as int, tol_milli_px as int) by {
                if i < prev.len() {
                    assert(nodes@[i] == prev[i]);
                    assert(node_valid(prev, i, min_pts as int, tol_milli_px as int));
                    match prev[i].children {
                        None => {},
                        Some((a, b)) => {
                            assert(nodes@[a as int] == prev[a as int]);
                            assert(nodes@[b as int] == prev[b as int]);
                        },
                    }
                } else {
                    assert(nodes@[i] == nodes@.last());
                    assert(nodes@[i].start == start && nodes@[i].end == end);
                    assert(nodes@[i].children.is_none());
                }
            }
            assert(nodes@.subrange(0, prev.len() as int) =~= prev);
            assert forall|i: int| 0 <= i < nodes@.len() implies node_fitted(*judge, #[trigger] nodes@[i]) by {
                if i < prev.len() {
                    assert(nodes@[i] == prev[i]);
                } else {
                    assert(judge.ensures((start, end), v));
                }
            }
        }
        nodes.len() - 1
    }
}

/// A segment tree in an arena; the root is the last node.
#[derive(Debug)]
pub struct SegmentTree<F> {
    pub nodes: Vec<SegmentNode<F>>,
}

/// Builds the segment tree over `[start, end)`.
///
/// A node fits its range with `judge(start, end)`, which returns the RMSE in
/// thousandths of a pixel and the fit, or `None` when the fit fails (a
/// zero-coefficient stub with RMSE zero). A range of fewer than four samples
/// is a stub leaf without asking the judge. A node whose RMSE exceeds
/// `tol_milli_px` and that holds more than `2 * min_pts` samples is split at
/// `start + n / 2` into two children; any other node is a leaf.
pub fn build_segment_tree<F, J>(start: usize, end: usize, min_pts: usize, tol_milli_px: u64, judge: J) -> (r: SegmentTree<F>)
    where
        J: Fn(usize, usize) -> Option<(u64, F)>,
    requires
        start <= end,
        2 * (end - start) + 1 <= usize::MAX,
        forall|s: usize, e: usize| s < e <= end ==> #[trigger] judge.requires((s, e)),
    ensures
        r.nodes@.len() > 0,
        r.nodes@.last().start == start,
        r.nodes@.last().end == end,
        tree_ok(r.nodes@, min_pts as int, tol_milli_px as int),
        forall|i: int| 0 <= i < r.nodes@.len() ==> node_fitted(judge, #[trigger] r.nodes@[i]),
{
    let mut nodes: Vec<SegmentNode<F>> = Vec::new();
    build_node(&mut nodes, start, end, min_pts, tol_milli_px, &judge);
    SegmentTree { nodes }
}

/// Every leaf of a tree built with `min_pts` and `tol` either fits within
/// `tol` or holds at most `2 * min_pts` samples (or fewer than four, too
/// few to fit); and every split node's children cut its range in two.
pub proof fn lemma_tree_leaves<F>(nodes: Seq<SegmentNode<F>>, min_pts: int, tol: int)
    requires
        tree_ok(nodes, min_pts, tol),
    ensures
        forall|i: int| 0 <= i < nodes.len() && (#[trigger] nodes[i]).children.is_none() ==> {
            ||| nodes[i].rmse_milli_px <= tol
            ||| nodes[i].end - nodes[i].start <= 2 * min_pts
            ||| nodes[i].end - nodes[i].start < MIN_FIT_POINTS
        },
        forall|i: int| 0 <= i < nodes.len() ==> match (#[trigger] nodes[i]).children {
            Some((l, r)) => nodes[l as int].start == nodes[i].start && nodes[l as int].end == nodes[r as int].start
                && nodes[r as int].end == nodes[i].end && l < i && r < i,
            None => true,
        },
{
    assert forall|i: int| 0 <= i < nodes.len() && (#[trigger] nodes[i]).children.is_none() implies {
        ||| nodes[i].rmse_milli_px <= tol
        ||| nodes[i].end - nodes[i].start <= 2 * min_pts
        ||| nodes[i].end - nodes[i].start < MIN_FIT_POINTS
    } by {
        assert(node_valid(nodes, i, min_pts, tol));
    }
    assert forall|i: int| 0 <= i < nodes.len() implies match (#[trigger] nodes[i]).children {
        Some((l, r)) => nodes[l as int].start == nodes[i].start && nodes[l as int].end == nodes[r as int].start
            && nodes[r as int].end == nodes[i].end && l < i && r < i,
        None => true,
    } by {
        assert(node_valid(nodes, i, min_pts, tol));
    }
}

/// Indices `j, j + k, j + 2k, ...` below `e`.
pub open spec fn stride_from(j: int, e: int, k: int) -> Seq<usize>
    decreases e - j,
{
    if k <= 0 || j >= e {
        Seq::empty()
    } else if j + k >= e {
        seq![j as usize]
    } else {
        seq![j as usize] + stride_from(j + k, e, k)
    }
}

/// The samples a leaf over `[s, e)` draws: all of them up to
/// [`LEAF_DRAW_ALL`]; else every `max(2, n / 10)`-th from `s`, then `e - 1`
/// if the stride missed it.
pub open spec fn leaf_sample(s: int, e: int) -> Seq<usize> {
    let n = e - s;
    if n <= LEAF_DRAW_ALL {
        stride_from(s, e, 1)
    } else {
        let k = if n / 10 >= 2 { n / 10 } else { 2 };
        let st = stride_from(s, e, k);
        if st.last() == (e - 1) as usize { st } else { st.push((e - 1) as usize) }
    }
}

/// The samples drawn from the subtree at node `i`: its children's in turn
/// when it is split and its RMSE exceeds `view_tol`, else its leaf sample.
pub open spec fn drawn<F>(nodes: Seq<SegmentNode<F>>, i: int, view_tol: int) -> Seq<usize>
    decreases i,
{
    match nodes[i].children {
        Some((l, r)) => if 0 <= l < i && 0 <= r < i && nodes[i].rmse_milli_px > view_tol {
            drawn(nodes, l as int, view_tol) + drawn(nodes, r as int, view_tol)
        } else {
            leaf_sample(nodes[i].start as int, nodes[i].end as int)
        },
        None => leaf_sample(nodes[i].start as int, nodes[i].end as int),
    }
}

proof fn lemma_stride_within(j: int, e: int, k: int)
    requires
        0 <= j,
        e <= usize::MAX,
    ensures
        forall|q: int| 0 <= q < stride_from(j, e, k).len() ==> j <= #[trigger] stride_from(j, e, k)[q] < e,
    decreases e - j,
{
    if k > 0 && j < e && j + k < e {
        lemma_stride_within(j + k, e, k);
        assert forall|q: int| 0 <= q < stride_from(j, e, k).len() implies j <= #[trigger] stride_from(j, e, k)[q] < e by {
            if q > 0 {
                assert(stride_from(j, e, k)[q] == stride_from(j + k, e, k)[q - 1]);
            }
        }
    }
}

proof fn lemma_leaf_within(s: int, e: int)
    requires
        0 <= s <= e <= usize::MAX,
    ensures
        forall|q: int| 0 <= q < leaf_sample(s, e).len() ==> s <= #[trigger] leaf_sample(s, e)[q] < e,
{
    let n = e - s;
    lemma_stride_within(s, e, 1);
    if n > LEAF_DRAW_ALL {
        let k = if n / 10 >= 2 { n / 10 } else { 2 };
        lemma_stride_within(s, e, k);
    }
}

proof fn lemma_drawn_within<F>(nodes: Seq<SegmentNode<F>>, i: int, view_tol: int)
    requires
        0 <= i < nodes.len(),
        forall|m: int| 0 <= m < nodes.len() ==> #[trigger] node_ok(nodes, m),
    ensures
        forall|q: int| 0 <= q < drawn(nodes, i, view_tol).len() ==> nodes[i].start <= #[trigger] drawn(nodes, i, view_tol)[q]
            < nodes[i].end,
    decreases i,
{
    assert(node_ok(nodes, i));
    lemma_leaf_within(nodes[i].start as int, nodes[i].end as int);
    match nodes[i].children {
        Some((l, r)) => {
            if 0 <= l < i && 0 <= r < i && nodes[i].rmse_milli_px > view_tol {
                lemma_drawn_within(nodes, l as int, view_tol);
                lemma_drawn_within(nodes, r as int, view_tol);
                let dl = drawn(nodes, l as int, view_tol);
                let dr = drawn(nodes, r as int, view_tol);
                assert(node_ok(nodes, l as int));
                assert(node_ok(nodes, r as int));
                assert forall|q: int| 0 <= q < drawn(nodes, i, view_tol).len() implies nodes[i].start
                    <= #[trigger] drawn(nodes, i, view_tol)[q] < nodes[i].end by {
                    if q < dl.len() {
                        assert(drawn(nodes, i, view_tol)[q] == dl[q]);
                    } else {
                        assert(drawn(nodes, i, view_tol)[q] == dr[q - dl.len()]);
                    }
                }
            }
        },
        None => {},
    }
}

proof fn lemma_stride_one(j: int, e: int)
    requires
        0 <= j <= e <= usize::MAX,
    ensures
        stride_from(j, e, 1) =~= Seq::new((e - j) as nat, |q: int| (j + q) as usize),
    decreases e - j,
{
    if j < e {
        lemma_stride_one(j + 1, e);
    }
}

proof fn lemma_stride_increasing(j: int, e: int, k: int)
    requires
        0 <= j,
        e <= usize::MAX,
    ensures
        forall|a: int, b: int| 0 <= a < b < stride_from(j, e, k).len() ==> stride_from(j, e, k)[a] < stride_from(j, e, k)[b],
    decreases e - j,
{
    if k > 0 && j < e && j + k < e {
        lemma_stride_increasing(j + k, e, k);
        lemma_stride_within(j + k, e, k);
        let st = stride_from(j, e, k);
        let rest = stride_from(j + k, e, k);
        assert forall|a: int, b: int| 0 <= a < b < st.len() implies st[a] < st[b] by {
            assert(st[b] == rest[b - 1]);
            if a > 0 {
                assert(st[a] == rest[a - 1]);
            }
        }
    }
}

/// A leaf of at most [`LEAF_DRAW_ALL`] samples draws each of them, in order.
pub proof fn lemma_small_leaf_draws_all(s: int, e: int)
    requires
        0 <= s <= e <= usize::MAX,
        e - s <= LEAF_DRAW_ALL,
    ensures
        leaf_sample(s, e) =~= Seq::new((e - s) as nat, |q: int| (s + q) as usize),
{
    lemma_stride_one(s, e);
}

proof fn lemma_leaf_increasing(s: int, e: int)
    requires
        0 <= s <= e <= usize::MAX,
    ensures
        forall|a: int, b: int| 0 <= a < b < leaf_sample(s, e).len() ==> leaf_sample(s, e)[a] < leaf_sample(s, e)[b],
{
    let n = e - s;
    lemma_stride_increasing(s, e, 1);
    if n > LEAF_DRAW_ALL {
        let k = if n / 10 >= 2 { n / 10 } else { 2 };
        lemma_stride_increasing(s, e, k);
        lemma_stride_within(s, e, k);
        let st = stride_from(s, e, k);
        if st.last() != (e - 1) as usize {
            let l = st.push((e - 1) as usize);
            assert forall|a: int, b: int| 0 <= a < b < l.len() implies l[a] < l[b] by {
                if b == st.len() {
                    assert(st[a] < e);
                    assert(st[a] != (e - 1) as usize || a == st.len() - 1 || st[a] < st[st.len() - 1]);
                    if a < st.len() - 1 {
                        assert(st[a] < st[st.len() - 1]);
                    }
                }
            }
        }
    }
}

/// The samples drawn from any node come in strictly increasing order, all
/// within the node's range.
pub proof fn lemma_drawn_increasing<F>(nodes: Seq<SegmentNode<F>>, i: int, view_tol: int)
    requires
        0 <= i < nodes.len(),
        forall|m: int| 0 <= m < nodes.len() ==> #[trigger] node_ok(nodes, m),
    ensures
        forall|a: int, b: int| 0 <= a < b < drawn(nodes, i, view_tol).len() ==> drawn(nodes, i, view_tol)[a]
            < drawn(nodes, i, view_tol)[b],
        forall|q: int| 0 <= q < drawn(nodes, i, view_tol).len() ==> nodes[i].start <= #[trigger] drawn(nodes, i, view_tol)[q]
            < nodes[i].end,
    decreases i,
{
    assert(node_ok(nodes, i));
    lemma_drawn_within(nodes, i, view_tol);
    lemma_leaf_increasing(nodes[i].start as int, nodes[i].end as int);
    match nodes[i].children {
        Some((l, r)) => {
            if 0 <= l < i && 0 <= r < i && nodes[i].rmse_milli_px > view_tol {
                lemma_drawn_increasing(nodes, l as int, view_tol);
                lemma_drawn_increasing(nodes, r as int, view_tol);
                let dl = drawn(nodes, l as int, view_tol);
                let dr = drawn(nodes, r as int, view_tol);
                let d = drawn(nodes, i, view_tol);
                assert(d == dl + dr);
                assert forall|a: int, b: int| 0 <= a < b < d.len() implies d[a] < d[b] by {
                    if b < dl.len() {
                    } else if a >= dl.len() {
                        assert(d[a] == dr[a - dl.len()]);
                        assert(d[b] == dr[b - dl.len()]);
                    } else {
                        assert(d[a] == dl[a]);
                        assert(d[b] == dr[b - dl.len()]);
                        assert(dl[a] < nodes[l as int].end);
                        assert(nodes[r as int].start <= dr[b - dl.len()]);
                    }
                }
            }
        },
        None => {},
    }
}

fn push_stride(out: &mut Vec<usize>, s: usize, e: usize, k: usize) -> (last: usize)
    requires
        s < e,
        k >= 1,
    ensures
        final(out)@ == old(out)@ + stride_from(s as int, e as int, k as int),
        last == stride_from(s as int, e as int, k as int).last(),
{
    let mut j: usize = s;
    let mut last: usize = s;
    assert(stride_from(s as int, e as int, k as int) == seq![s] + stride_from(s + k, e as int, k as int));
    while j < e
        invariant
            s <= j,
            k >= 1,
            s < e,
            old(out)@ + stride_from(s as int, e as int, k as int) == out@ + stride_from(j as int, e as int, k as int),
            j < e ==> (j == s || out@.len() > old(out)@.len()),
            j >= e ==> out@.len() > old(out)@.len() && last == out@.last(),
            j > s ==> out@.len() > old(out)@.len() && last == out@.last(),
        decreases e - j,
    {
        let ghost prev = out@;
        out.push(j);
        last = j;
        proof {
            assert(stride_from(j as int, e as int, k as int) == seq![j] + stride_from(j + k, e as int, k as int));
            assert(out@ == prev + seq![j]);
            assert(prev + stride_from(j as int, e as int, k as int) == out@ + stride_from(j + k, e as int, k as int));
        }
        if k > e - j {
            j = e;
        } else {
            j = j + k;
        }
    }
    proof {
        assert(stride_from(j as int, e as int, k as int) == Seq::<usize>::empty());
        assert(out@ == old(out)@ + stride_from(s as int, e as int, k as int));
        assert(stride_from(s as int, e as int, k as int).last() == out@.last());
    }
    last
}

fn push_leaf(out: &mut Vec<usize>, s: usize, e: usize)
    requires
        s <= e,
    ensures
        final(out)@ == old(out)@ + leaf_sample(s as int, e as int),
{
    let n = e - s;
    if n == 0 {
        assert(leaf_sample(s as int, e as int) == Seq::<usize>::empty());
        assert(old(out)@ + Seq::<usize>::empty() == old(out)@);
        return;
    }
    if n <= LEAF_DRAW_ALL {
        push_stride(out, s, e, 1);
    } else {
        let k = if n / 10 >= 2 { n / 10 } else { 2 };
        let ghost prev = out@;
        let last = push_stride(out, s, e, k);
        if last != e - 1 {
            out.push(e - 1);
            proof {
                assert(out@ == prev + stride_from(s as int, e as int, k as int).push((e - 1) as usize));
            }
        }
    }
}

fn draw_node<F>(nodes: &Vec<SegmentNode<F>>, i: usize, view_tol: u64, out: &mut Vec<usize>)
    requires
        i < nodes@.len(),
        forall|m: int| 0 <= m < nodes@.len() ==> #[trigger] node_ok(nodes@, m),
    ensures
        final(out)@ == old(out)@ + drawn(nodes@, i as int, view_tol as int),
    decreases i,
{
    assert(node_ok(nodes@, i as int));
    let node = &nodes[i];
    match node.children {
        Some((l, r)) => {
            if node.rmse_milli_px > view_tol {
                let ghost prev = out@;
                draw_node(nodes, l, view_tol, out);
                let ghost mid = out@;
                draw_node(nodes, r, view_tol, out);
                proof {
                    assert(out@ == prev + (drawn(nodes@, l as int, view_tol as int) + drawn(nodes@, r as int, view_tol as int)));
                }
            } else {
                push_leaf(out, node.start, node.end);
            }
        },
        None => {
            push_leaf(out, node.start, node.end);
        },
    }
}

/// Samples to draw from a tree as `(time in microseconds, dx, dy)`, in the
/// order of [`drawn`] from the root.
pub fn collect_for_view<F>(tree: &SegmentTree<F>, events: &[MouseMoveEvent], view_tol_milli_px: u64) -> (r: Vec<(u64, i16, i16)>)
    requires
        tree.nodes@.len() > 0,
        forall|m: int| 0 <= m < tree.nodes@.len() ==> #[trigger] node_ok(tree.nodes@, m),
        forall|m: int| 0 <= m < tree.nodes@.len() ==> (#[trigger] tree.nodes@[m]).end <= events@.len(),
    ensures
        ({
            let d = drawn(tree.nodes@, tree.nodes@.len() - 1, view_tol_milli_px as int);
            &&& r@.len() == d.len()
            &&& events@.len() == 0 ==> r@.len() == 0
            &&& forall|a: int, b: int| 0 <= a < b < d.len() ==> d[a] < d[b]
            &&& forall|q: int| 0 <= q < d.len() ==> d[q] < events@.len() && #[trigger] r@[q] == (
                events@[d[q] as int].time_micros_spec() as u64,
                events@[d[q] as int].dx,
                events@[d[q] as int].dy,
            )
        }),
{
    let mut idx: Vec<usize> = Vec::new();
    let root = tree.nodes.len() - 1;
    draw_node(&tree.nodes, root, view_tol_milli_px, &mut idx);
    assert(idx@ == drawn(tree.nodes@, root as int, view_tol_milli_px as int));
    proof {
        lemma_drawn_within(tree.nodes@, root as int, view_tol_milli_px as int);
        lemma_drawn_increasing(tree.nodes@, root as int, view_tol_milli_px as int);
        assert(tree.nodes@[root as int].end <= events@.len());
    }
    let mut out: Vec<(u64, i16, i16)> = Vec::new();
    let mut q: usize = 0;
    while q < idx.len()
        invariant
            q <= idx@.len(),
            out@.len() == q,
            forall|m: int| 0 <= m < idx@.len() ==> idx@[m] < events@.len(),
            forall|p: int| 0 <= p < q ==> #[trigger] out@[p] == (
                events@[idx@[p] as int].time_micros_spec() as u64,
                events@[idx@[p] as int].dx,
                events@[idx@[p] as int].dy,
            ),
        decreases idx@.len() - q,
    {
        let e = &events[idx[q]];
        out.push((e.time_micros(), e.dx, e.dy));
        q = q + 1;
    }
    assert(idx@.len() > 0 ==> idx@[0] < events@.len());
    out
}

} // verus!
