//! Regression-mode segmentation: the sample range is cut, left to right, into
//! runs that a cubic fits well (`Good`) and single samples that no acceptable
//! fit absorbs (`Discrete`).
//!
//! The fitting itself is numerical work done by the caller; it reaches the
//! segmenter through a judge, which fits a candidate range and reports the fit
//! quality as integers in parts per [`R2_SCALE`].
use vstd::prelude::*;

verus! {

/// Fixed-point scale of coefficients of determination and scores: a value
/// `v` stands for `v / R2_SCALE`.
pub const R2_SCALE: i64 = 1_000_000_000;

/// Fewest samples that a cubic can be fitted to.
pub const MIN_FIT_POINTS: usize = 4;

/// Failed candidates tolerated in a row while the average R² still improves.
pub const TOLERANCE_WHILE_IMPROVING: u32 = 10;

/// Failed candidates tolerated in a row once the average R² stops improving.
pub const TOLERANCE_WHILE_DECLINING: u32 = 3;

/// Quality of one candidate fit, in parts per [`R2_SCALE`].
#[derive(Debug, Clone, Copy)]
pub struct FitQuality {
    pub dx_r_squared: i64,
    pub dy_r_squared: i64,
    pub time_r_squared: i64,
    /// Composite of length and average R²; a larger score is preferred.
    pub score: i64,
}

/// A run of samples `[start_idx, end_idx)` with its fit, or one sample.
#[derive(Debug, Clone)]
pub enum Segment<F> {
    Good { start_idx: usize, end_idx: usize, fit: F },
    Discrete { idx: usize },
}

impl<F> Segment<F> {
    /// First index covered.
    pub open spec fn lo(&self) -> int {
        match self {
            Segment::Good { start_idx, .. } => *start_idx as int,
            Segment::Discrete { idx } => *idx as int,
        }
    }

    /// One past the last index covered.
    pub open spec fn hi(&self) -> int {
        match self {
            Segment::Good { end_idx, .. } => *end_idx as int,
            Segment::Discrete { idx } => *idx as int + 1,
        }
    }
}

/// Sum of the three channels' R²; the average is a third of it.
pub open spec fn r2_sum(q: FitQuality) -> int {
    q.dx_r_squared + q.dy_r_squared + q.time_r_squared
}

/// A fit is acceptable when its average R² reaches `min_r2` and its time
/// channel reaches 70% of `min_r2`.
pub open spec fn acceptable(q: FitQuality, min_r2: i64) -> bool {
    &&& r2_sum(q) >= 3 * min_r2
    &&& 10 * q.time_r_squared >= 7 * min_r2
}

/// The judge's verdict is an acceptable fit.
pub open spec fn verdict_acceptable<F>(r: Option<(FitQuality, F)>, min_r2: i64) -> bool {
    r matches Some((q, _)) && acceptable(q, min_r2)
}

/// From `pos`, the first candidate `[pos, pos + initial_size)` cannot become a
/// `Good` segment: it is too short to fit, runs past `n`, or the judge's
/// verdict on it is a failed or unacceptable fit.
pub open spec fn first_candidate_fails<F, J: Fn(usize, usize) -> Option<(FitQuality, F)>>(
    judge: J,
    pos: usize,
    n: usize,
    initial_size: usize,
    min_r2: i64,
) -> bool {
    ||| initial_size < MIN_FIT_POINTS
    ||| pos + initial_size > n
    ||| exists|e: usize, r: Option<(FitQuality, F)>| e == pos + initial_size
        && #[trigger] judge.ensures((pos, e), r) && !verdict_acceptable(r, min_r2)
}

/// `segs` lie side by side, each non-empty, and together cover `[0, n)`.
pub open spec fn tiles<F>(segs: Seq<Segment<F>>, n: int) -> bool {
    &&& segs.len() == 0 ==> n == 0
    &&& segs.len() > 0 ==> segs[0].lo() == 0 && segs.last().hi() == n
    &&& forall|k: int| 0 <= k < segs.len() ==> #[trigger] segs[k].lo() < segs[k].hi()
    &&& forall|k: int| 0 <= k < segs.len() - 1 ==> #[trigger] segs[k].hi() == segs[k + 1].lo()
}

/// Index `i` lies in one of `segs`.
pub open spec fn in_some_segment<F>(segs: Seq<Segment<F>>, i: int) -> bool {
    exists|k: int| 0 <= k < segs.len() && segs[k].lo() <= i < #[trigger] segs[k].hi()
}

proof fn lemma_tiles_ordered<F>(segs: Seq<Segment<F>>, n: int, k: int)
    requires
        tiles(segs, n),
        0 <= k < segs.len(),
    ensures
        forall|j: int| 0 <= j < k ==> #[trigger] segs[j].hi() <= segs[k].lo(),
    decreases k,
{
    if k > 0 {
        lemma_tiles_ordered(segs, n, k - 1);
        assert(segs[k - 1].hi() == segs[k].lo());
        assert(segs[k - 1].lo() < segs[k - 1].hi());
    }
}

proof fn lemma_tiles_reach<F>(segs: Seq<Segment<F>>, n: int, k: int, i: int)
    requires
        tiles(segs, n),
        0 <= k < segs.len(),
        segs[k].lo() <= i < n,
    ensures
        exists|m: int| 0 <= m < segs.len() && segs[m].lo() <= i < #[trigger] segs[m].hi(),
    decreases segs.len() - k,
{
    if i >= segs[k].hi() {
        if k == segs.len() - 1 {
            assert(segs.last().hi() == n);
        } else {
            assert(segs[k].hi() == segs[k + 1].lo());
            lemma_tiles_reach(segs, n, k + 1, i);
        }
    }
}

/// Segments that tile `[0, n)` cover every index of it exactly once: each
/// index lies in some segment, and of two segments the earlier ends before
/// the later begins.
pub proof fn lemma_segments_partition<F>(segs: Seq<Segment<F>>, n: int)
    requires
        tiles(segs, n),
    ensures
        forall|i: int| 0 <= i < n ==> #[trigger] in_some_segment(segs, i),
        forall|j: int, k: int|
            0 <= j < k < segs.len() ==> #[trigger] segs[j].hi() <= #[trigger] segs[k].lo(),
{
    assert forall|i: int| 0 <= i < n implies #[trigger] in_some_segment(segs, i) by {
        lemma_tiles_reach(segs, n, 0, i);
    }
    assert forall|j: int, k: int| 0 <= j < k < segs.len() implies
        #[trigger] segs[j].hi() <= #[trigger] segs[k].lo() by {
        lemma_tiles_ordered(segs, n, k);
    }
}

/// `ceil(size * num / den)`, the next candidate size.
pub open spec fn grown(size: int, num: int, den: int) -> int {
    (size * num + den - 1) / den
}

/// The `k`-th candidate length: `initial`, grown `k` times.
pub open spec fn schedule(initial: int, num: int, den: int, k: nat) -> int
    decreases k,
{
    if k == 0 { initial } else { grown(schedule(initial, num, den, (k - 1) as nat), num, den) }
}

/// Growing by a factor above one lengthens every positive size.
pub proof fn lemma_grown_exceeds(size: int, num: int, den: int)
    requires
        0 < den < num,
        size >= 1,
    ensures
        grown(size, num, den) > size,
{
    assert(size * num >= size * den + size) by (nonlinear_arith)
        requires 0 < den < num, size >= 1;
    assert(size * num + den - 1 >= (size + 1) * den) by (nonlinear_arith)
        requires size * num >= size * den + size, size >= 1;
    vstd::arithmetic::div_mod::lemma_div_is_ordered((size + 1) * den, size * num + den - 1, den);
    vstd::arithmetic::div_mod::lemma_div_multiples_vanish(size + 1, den);
    assert((size + 1) * den == den * (size + 1)) by (nonlinear_arith);
}

/// The verdict the judge gives on `[s, e)` (one of them, should it give several).
pub open spec fn verdict_of<F, J: Fn(usize, usize) -> Option<(FitQuality, F)>>(judge: J, s: usize, e: usize) -> Option<(FitQuality, F)> {
    choose|r: Option<(FitQuality, F)>| judge.ensures((s, e), r)
}

/// The judge gives one verdict only on each candidate within `[0, n)`, as a
/// fit that depends on the samples alone does.
pub open spec fn judge_deterministic<F, J: Fn(usize, usize) -> Option<(FitQuality, F)>>(judge: J, n: usize) -> bool {
    forall|s: usize, e: usize, r1: Option<(FitQuality, F)>, r2: Option<(FitQuality, F)>|
        s < e <= n && #[trigger] judge.ensures((s, e), r1) && #[trigger] judge.ensures((s, e), r2) ==> r1 == r2
}

/// Where the scan from `pos` ends up, given its state: the candidate length
/// `size` to try next, the best acceptable candidate so far with its end, the
/// highest R² sum seen, and the strikes. See [`build_segments`].
pub open spec fn scan_choice<F, J: Fn(usize, usize) -> Option<(FitQuality, F)>>(
    judge: J,
    n: int,
    pos: int,
    size: int,
    best: Option<(usize, FitQuality, F)>,
    best_sum: Option<int>,
    strikes: int,
    num: int,
    den: int,
    min_r2: i64,
) -> Option<(usize, FitQuality, F)>
    decreases n - size,
{
    if pos < 0 || size > n - pos || size < MIN_FIT_POINTS || den <= 0 || num <= den {
        best
    } else {
        match verdict_of(judge, pos as usize, (pos + size) as usize) {
            None => best,
            Some((q, f)) => {
                let sum = r2_sum(q);
                let improves = match best {
                    None => true,
                    Some((_, bq, _)) => q.score > bq.score,
                };
                let rising = match best_sum {
                    None => true,
                    Some(b) => sum > b,
                };
                let ok = acceptable(q, min_r2);
                let best2 = if ok && improves { Some(((pos + size) as usize, q, f)) } else { best };
                let strikes2 = if ok { if improves { 0 } else { strikes } } else { strikes + 1 };
                let stop = !ok && if rising {
                    strikes2 > TOLERANCE_WHILE_IMPROVING
                } else {
                    strikes2 > TOLERANCE_WHILE_DECLINING
                };
                let sum2 = if rising { Some(sum) } else { best_sum };
                let next = grown(size, num, den);
                if stop || next > n - pos {
                    best2
                } else {
                    proof {
                        lemma_grown_exceeds(size, num, den);
                    }
                    scan_choice(judge, n, pos, next, best2, sum2, strikes2, num, den, min_r2)
                }
            },
        }
    }
}

/// The segments of `[pos, n)`: from each position, the scan's choice as a
/// `Good` segment, or a `Discrete` sample when it has none.
pub open spec fn segments_from<F, J: Fn(usize, usize) -> Option<(FitQuality, F)>>(
    judge: J,
    n: int,
    pos: int,
    initial_size: int,
    num: int,
    den: int,
    min_r2: i64,
) -> Seq<Segment<F>>
    decreases n - pos,
{
    if pos < 0 || pos >= n {
        Seq::empty()
    } else {
        match scan_choice(judge, n, pos, initial_size, None, None, 0, num, den, min_r2) {
            Some((e, _, f)) => if pos < e <= n {
                seq![Segment::Good { start_idx: pos as usize, end_idx: e, fit: f }]
                    + segments_from(judge, n, e as int, initial_size, num, den, min_r2)
            } else {
                Seq::empty()
            },
            None => seq![Segment::Discrete { idx: pos as usize }] + segments_from(
                judge,
                n,
                pos + 1,
                initial_size,
                num,
                den,
                min_r2,
            ),
        }
    }
}

spec fn sum_view(o: Option<i128>) -> Option<int> {
    match o {
        Some(b) => Some(b as int),
        None => None,
    }
}

fn grow(size: usize, num: u64, den: u64) -> (r: u128)
    requires
        0 < den < num,
        size >= 1,
    ensures
        r == grown(size as int, num as int, den as int),
        r > size,
{
    assert((size as int) * (num as int) <= 0xffff_ffff_ffff_ffffint * 0xffff_ffff_ffff_ffffint)
        by (nonlinear_arith)
        requires
            size <= 0xffff_ffff_ffff_ffffint,
            num <= 0xffff_ffff_ffff_ffffint,
    ;
    let prod: u128 = (size as u128) * (num as u128);
    let g: u128 = (prod + (den as u128) - 1) / (den as u128);
    proof {
        lemma_grown_exceeds(size as int, num as int, den as int);
    }
    g
}

/// Cuts `[0, n)` into segments, left to right.
///
/// From each position the scan tries candidate lengths `initial_size`,
/// then `ceil(previous * growth_num / growth_den)`, while the candidate still
/// fits in `[0, n)`. `judge(start, end)` fits `[start, end)` and returns its
/// quality and fit, or `None` when the fit fails, which ends the scan. Among
/// the acceptable candidates the one with the highest score wins and becomes
/// a `Good` segment; a candidate shorter than [`MIN_FIT_POINTS`] counts as a
/// failed fit. With no acceptable candidate the position becomes `Discrete`.
/// Each unacceptable candidate adds a strike and each new best clears them;
/// the scan ends once the strikes exceed [`TOLERANCE_WHILE_IMPROVING`] while
/// the candidate's average R² beats all before it, or
/// [`TOLERANCE_WHILE_DECLINING`] otherwise.
///
/// For a judge that gives one verdict per candidate the result is exactly
/// [`segments_from`] position 0; for any judge it tiles `[0, n)` with `Good`
/// segments whose fits the judge accepted, and `Discrete` samples only where
/// the first candidate already fails.
pub fn build_segments<F, J>(
    n: usize,
    initial_size: usize,
    growth_num: u64,
    growth_den: u64,
    min_r_squared: i64,
    judge: J,
) -> (r: Vec<Segment<F>>)
    where
        J: Fn(usize, usize) -> Option<(FitQuality, F)>,
    requires
        0 < growth_den < growth_num,
        forall|s: usize, e: usize| s < e <= n ==> #[trigger] judge.requires((s, e)),
    ensures
        judge_deterministic(judge, n) ==> r@ == segments_from(
            judge,
            n as int,
            0,
            initial_size as int,
            growth_num as int,
            growth_den as int,
            min_r_squared,
        ),
        tiles(r@, n as int),
        forall|k: int| 0 <= k < r@.len() ==> match #[trigger] r@[k] {
            Segment::Good { start_idx, end_idx, fit } => {
                &&& end_idx - start_idx >= initial_size
                &&& end_idx - start_idx >= MIN_FIT_POINTS
                &&& exists|k: nat| end_idx - start_idx == #[trigger] schedule(initial_size as int, growth_num as int, growth_den as int, k)
                &&& exists|q: FitQuality| acceptable(q, min_r_squared)
                    && judge.ensures((start_idx, end_idx), Some((q, fit)))
            },
            Segment::Discrete { idx } => first_candidate_fails(judge, idx, n, initial_size, min_r_squared),
        },
{
    let mut segs: Vec<Segment<F>> = Vec::new();
    let mut pos: usize = 0;
    while pos < n
        invariant
            pos <= n,
            0 < growth_den < growth_num,
            forall|s: usize, e: usize| s < e <= n ==> #[trigger] judge.requires((s, e)),
            judge_deterministic(judge, n) ==> segments_from(judge, n as int, 0, initial_size as int,
                growth_num as int, growth_den as int, min_r_squared) == segs@ + segments_from(judge, n as int,
                pos as int, initial_size as int, growth_num as int, growth_den as int, min_r_squared),
            segs@.len() == 0 ==> pos == 0,
            segs@.len() > 0 ==> segs@[0].lo() == 0 && segs@.last().hi() == pos,
            forall|k: int| 0 <= k < segs@.len() ==> #[trigger] segs@[k].lo() < segs@[k].hi(),
            forall|k: int|
                0 <= k < segs@.len() - 1 ==> #[trigger] segs@[k].hi() == segs@[k + 1].lo(),
            forall|k: int| 0 <= k < segs@.len() ==> match #[trigger] segs@[k] {
                Segment::Good { start_idx, end_idx, fit } => {
                    &&& end_idx - start_idx >= initial_size
                    &&& end_idx - start_idx >= MIN_FIT_POINTS
                    &&& exists|k: nat| end_idx - start_idx == #[trigger] schedule(initial_size as int, growth_num as int, growth_den as int, k)
                    &&& exists|q: FitQuality| acceptable(q, min_r_squared)
                        && judge.ensures((start_idx, end_idx), Some((q, fit)))
                },
                Segment::Discrete { idx } => first_candidate_fails(judge, idx, n, initial_size, min_r_squared),
            },
        decreases n - pos,
    {
        let mut best: Option<(usize, FitQuality, F)> = None;
        let mut best_sum: Option<i128> = None;
        let mut size: usize = initial_size;
        let mut strikes: u32 = 0;
        let ghost mut called = false;
        let ghost mut step: nat = 0;
        while size <= n - pos
            invariant_except_break
                strikes <= TOLERANCE_WHILE_IMPROVING,
            invariant
                pos < n,
                0 < growth_den < growth_num,
                forall|s: usize, e: usize| s < e <= n ==> #[trigger] judge.requires((s, e)),
                size >= initial_size,
                !called ==> size == initial_size,
                judge_deterministic(judge, n) ==> scan_choice(judge, n as int, pos as int, initial_size as int, None,
                    None, 0, growth_num as int, growth_den as int, min_r_squared) == scan_choice(judge, n as int,
                    pos as int, size as int, best, sum_view(best_sum), strikes as int, growth_num as int,
                    growth_den as int, min_r_squared),
                size == schedule(initial_size as int, growth_num as int, growth_den as int, step),
                best.is_none() && called ==> first_candidate_fails(judge, pos, n, initial_size, min_r_squared),
                best matches Some((e, q, f)) ==> {
                    &&& pos < e <= n
                    &&& e - pos >= initial_size
                    &&& e - pos >= MIN_FIT_POINTS
                    &&& exists|k: nat| e - pos == #[trigger] schedule(initial_size as int, growth_num as int, growth_den as int, k)
                    &&& acceptable(q, min_r_squared)
                    &&& judge.ensures((pos, e), Some((q, f)))
                },
            ensures
                judge_deterministic(judge, n) ==> best == scan_choice(judge, n as int, pos as int, initial_size as int,
                    None, None, 0, growth_num as int, growth_den as int, min_r_squared),
                best.is_none() ==> first_candidate_fails(judge, pos, n, initial_size, min_r_squared),
                best matches Some((e, q, f)) ==> {
                    &&& pos < e <= n
                    &&& e - pos >= initial_size
                    &&& e - pos >= MIN_FIT_POINTS
                    &&& exists|k: nat| e - pos == #[trigger] schedule(initial_size as int, growth_num as int, growth_den as int, k)
                    &&& acceptable(q, min_r_squared)
                    &&& judge.ensures((pos, e), Some((q, f)))
                },
            decreases n - size,
        {
            if size < MIN_FIT_POINTS {
                break;
            }
            let end = pos + size;
            let ghost best0 = best;
            let ghost sum0 = sum_view(best_sum);
            let ghost strikes0 = strikes as int;
            let ghost size0 = size as int;
            let verdict = judge(pos, end);
            proof {
                if judge_deterministic(judge, n) {
                    assert(judge.ensures((pos, end), verdict));
                    let v = verdict_of(judge, pos, end);
                    assert(judge.ensures((pos, end), v));
                    assert(v == verdict);
                    assert(((pos as int) as usize, (pos as int + size as int) as usize) == (pos, end));
                }
                if !called && !verdict_acceptable(verdict, min_r_squared) {
                    assert(judge.ensures((pos, end), verdict));
                    assert(first_candidate_fails(judge, pos, n, initial_size, min_r_squared));
                }
                called = true;
            }
            match verdict {
                None => {
                    break;
                },
                Some((q, fit)) => {
                    let sum: i128 = q.dx_r_squared as i128 + q.dy_r_squared as i128
                        + q.time_r_squared as i128;
                    let min: i128 = min_r_squared as i128;
                    if sum >= 3 * min && 10 * (q.time_r_squared as i128) >= 7 * min {
                        let better = match &best {
                            None => true,
                            Some((_, bq, _)) => q.score > bq.score,
                        };
                        if better {
                            assert(end - pos == schedule(initial_size as int, growth_num as int, growth_den as int, step));
                            best = Some((end, q, fit));
                            strikes = 0;
                        }
                    } else {
                        let improving = match best_sum {
                            None => true,
                            Some(b) => sum > b,
                        };
                        strikes = strikes + 1;
                        if improving {
                            if strikes > TOLERANCE_WHILE_IMPROVING {
                                break;
                            }
                        } else {
                            if strikes > TOLERANCE_WHILE_DECLINING {
                                break;
                            }
                        }
                    }
                    match best_sum {
                        None => {
                            best_sum = Some(sum);
                        },
                        Some(b) => {
                            if sum > b {
                                best_sum = Some(sum);
                            }
                        },
                    }
                    let next = grow(size, growth_num, growth_den);
                    if next > (n - pos) as u128 {
                        break;
                    }
                    size = next as usize;
                    proof {
                        step = step + 1;
                    }
                },
            }
        }
        match best {
            Some((end, q, fit)) => {
                segs.push(Segment::Good { start_idx: pos, end_idx: end, fit });
                pos = end;
            },
            None => {
                segs.push(Segment::Discrete { idx: pos });
                pos = pos + 1;
            },
        }
    }
    segs
}

} // verus!
