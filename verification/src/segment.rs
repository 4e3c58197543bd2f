//! Greedy line segmentation.
//!
//! Given per-character display widths and a list of break opportunities
//! (character index where the next line would start, and whether the break
//! is mandatory), [`next_break`] picks the position at which one line ends:
//! the first mandatory break that still fits, otherwise the last opportunity
//! whose prefix fits, otherwise a hard character-level split that always
//! makes progress.  [`line_starts`] iterates this to a full layout.

use vstd::prelude::*;

use crate::width::{lemma_seg_w_bound, lemma_seg_w_concat, lemma_seg_w_nonneg, lemma_seg_w_step, seg_w};

verus! {

/// Well-formed break list for a text of `n` characters: positions ascend
/// strictly, stay within the text, and nonempty text ends with an
/// opportunity at its end.
pub open spec fn brks_wf(brks: Seq<(usize, bool)>, n: int) -> bool {
    &&& forall|k: int| 0 <= k < brks.len() ==> (#[trigger] brks[k]).0 <= n
    &&& forall|k: int| 0 < k < brks.len() ==> (#[trigger] brks[k]).0 > brks[k - 1].0
    &&& (n > 0 ==> brks.len() > 0 && brks[brks.len() - 1].0 == n)
}

/// Hard character split: the largest end `>= j` such that the segment from
/// `start` still fits in `max`, scanning from `j`.
pub open spec fn hard_from(w: Seq<usize>, start: int, j: int, max: int) -> int
    decreases w.len() - j,
{
    if j >= w.len() {
        j
    } else if seg_w(w, start, j + 1) > max {
        j
    } else {
        hard_from(w, start, j + 1, max)
    }
}

/// Where a hard character split ends a line that starts at `start`: at least
/// one character, then as many as fit in `max`.
pub open spec fn hard_end(w: Seq<usize>, start: int, max: int) -> int {
    hard_from(w, start, start + 1, max)
}

pub proof fn lemma_hard_from_bounds(w: Seq<usize>, start: int, j: int, max: int)
    ensures
        j <= hard_from(w, start, j, max),
        j <= w.len() ==> hard_from(w, start, j, max) <= w.len(),
    decreases w.len() - j,
{
    if j < w.len() && !(seg_w(w, start, j + 1) > max) {
        lemma_hard_from_bounds(w, start, j + 1, max);
    }
}

/// Scan of the break list from entry `k`, with `rem` the last opportunity
/// seen to fit.  Returns where the line that starts at `start` ends, or
/// `None` when the rest of the text fits with no mandatory break.
pub open spec fn scan_next(
    w: Seq<usize>,
    brks: Seq<(usize, bool)>,
    start: int,
    max: Option<int>,
    k: int,
    rem: Option<int>,
) -> Option<int>
    decreases brks.len() - k,
{
    if k < 0 || k >= brks.len() {
        Option::None
    } else {
        let p = brks[k].0 as int;
        if p <= start {
            scan_next(w, brks, start, max, k + 1, rem)
        } else {
            let over = match max {
                Option::Some(m) => seg_w(w, start, p) > m,
                Option::None => false,
            };
            if over {
                match rem {
                    Option::Some(r) => Option::Some(r),
                    Option::None => Option::Some(
                        hard_end(
                            w,
                            start,
                            match max {
                                Option::Some(m) => m,
                                Option::None => 0,
                            },
                        ),
                    ),
                }
            } else if brks[k].1 {
                Option::Some(p)
            } else {
                scan_next(w, brks, start, max, k + 1, Option::Some(p))
            }
        }
    }
}

/// Where the line that starts at `start` ends, or `None` when the remaining
/// text fits within `max` with no mandatory break.
pub open spec fn next_break(
    w: Seq<usize>,
    brks: Seq<(usize, bool)>,
    start: int,
    max: Option<int>,
) -> Option<int> {
    scan_next(w, brks, start, max, 0, Option::None)
}

pub proof fn lemma_scan_next_range(
    w: Seq<usize>,
    brks: Seq<(usize, bool)>,
    start: int,
    max: Option<int>,
    k: int,
    rem: Option<int>,
)
    requires
        brks_wf(brks, w.len() as int),
        match rem {
            Option::Some(r) => start < r <= w.len(),
            Option::None => true,
        },
    ensures
        match scan_next(w, brks, start, max, k, rem) {
            Option::Some(p) => start < p <= w.len(),
            Option::None => true,
        },
    decreases brks.len() - k,
{
    if 0 <= k < brks.len() {
        let p = brks[k].0 as int;
        assert((brks[k]).0 <= w.len());
        if p <= start {
            lemma_scan_next_range(w, brks, start, max, k + 1, rem);
        } else {
            let over = match max {
                Option::Some(m) => seg_w(w, start, p) > m,
                Option::None => false,
            };
            if over {
                if rem is None {
                    let m = match max {
                        Option::Some(m) => m,
                        Option::None => 0,
                    };
                    // p > start and p <= len, so one more character fits in the text
                    lemma_hard_from_bounds(w, start, start + 1, m);
                }
            } else if brks[k].1 {
            } else {
                lemma_scan_next_range(w, brks, start, max, k + 1, Option::Some(p));
            }
        }
    }
}

/// The chosen break always lies strictly after the start of the line.
pub proof fn lemma_next_break_gt(
    w: Seq<usize>,
    brks: Seq<(usize, bool)>,
    start: int,
    max: Option<int>,
    k: int,
    rem: Option<int>,
)
    requires
        match rem {
            Option::Some(r) => r > start,
            Option::None => true,
        },
    ensures
        match scan_next(w, brks, start, max, k, rem) {
            Option::Some(p) => p > start,
            Option::None => true,
        },
    decreases brks.len() - k,
{
    if 0 <= k < brks.len() {
        let p = brks[k].0 as int;
        if p <= start {
            lemma_next_break_gt(w, brks, start, max, k + 1, rem);
        } else {
            let over = match max {
                Option::Some(m) => seg_w(w, start, p) > m,
                Option::None => false,
            };
            if over {
                if rem is None {
                    let m = match max {
                        Option::Some(m) => m,
                        Option::None => 0,
                    };
                    lemma_hard_from_bounds(w, start, start + 1, m);
                }
            } else if brks[k].1 {
            } else {
                lemma_next_break_gt(w, brks, start, max, k + 1, Option::Some(p));
            }
        }
    }
}

/// The ordered sequence of line-start indices for the text laid out at
/// `max`: index 0, then each break in turn, stopping before the end of the
/// text.
pub open spec fn line_starts(
    w: Seq<usize>,
    brks: Seq<(usize, bool)>,
    max: Option<int>,
    start: int,
) -> Seq<usize>
    decreases w.len() - start,
        via line_starts_decreases
{
    seq![start as usize] + (match next_break(w, brks, start, max) {
        Option::None => seq![],
        Option::Some(p) => if p >= w.len() {
            seq![]
        } else {
            line_starts(w, brks, max, p)
        },
    })
}

#[via_fn]
proof fn line_starts_decreases(
    w: Seq<usize>,
    brks: Seq<(usize, bool)>,
    max: Option<int>,
    start: int,
) {
    lemma_next_break_gt(w, brks, start, max, 0, Option::None);
}

/// Spec view of an optional executable width bound.
pub open spec fn omax(max: Option<usize>) -> Option<int> {
    match max {
        Option::Some(m) => Option::Some(m as int),
        Option::None => Option::None,
    }
}

/// An executable optional index equals a spec one.
pub open spec fn opt_eq(a: Option<usize>, b: Option<int>) -> bool {
    match (a, b) {
        (Option::None, Option::None) => true,
        (Option::Some(x), Option::Some(y)) => x as int == y,
        _ => false,
    }
}

/// Executable hard character split.
fn hard_split(w: &Vec<usize>, start: usize, max: usize) -> (r: usize)
    requires
        start < w@.len(),
        forall|i: int| 0 <= i < w@.len() ==> w@[i] <= 3,
    ensures
        r as int == hard_end(w@, start as int, max as int),
        start < r <= w@.len(),
{
    let n = w.len();
    let mut j = start + 1;
    let mut acc: u128 = w[start] as u128;
    proof {
        assert(seg_w(w@, start + 1, start + 1) == 0);
        assert(seg_w(w@, start as int, start + 1) == w@[start as int] + seg_w(w@, start + 1, start + 1));
    }
    while j < n
        invariant
            start < j <= n,
            n == w@.len(),
            forall|i: int| 0 <= i < w@.len() ==> w@[i] <= 3,
            acc == seg_w(w@, start as int, j as int),
            hard_end(w@, start as int, max as int) == hard_from(w@, start as int, j as int, max as int),
        decreases n - j,
    {
        proof {
            lemma_seg_w_bound(w@, start as int, j + 1, 3);
            lemma_seg_w_step(w@, start as int, j as int);
        }
        let step = w[j] as u128;
        if acc + step > max as u128 {
            return j;
        }
        acc = acc + step;
        j = j + 1;
    }
    j
}

/// Executable form of [`next_break`].
pub(crate) fn find_break(
    w: &Vec<usize>,
    brks: &Vec<(usize, bool)>,
    start: usize,
    max: Option<usize>,
) -> (r: Option<usize>)
    requires
        start <= w@.len(),
        brks_wf(brks@, w@.len() as int),
        forall|i: int| 0 <= i < w@.len() ==> w@[i] <= 3,
    ensures
        opt_eq(r, next_break(w@, brks@, start as int, omax(max))),
        match r {
            Option::Some(p) => start < p <= w@.len(),
            Option::None => true,
        },
{
    proof {
        lemma_scan_next_range(w@, brks@, start as int, omax(max), 0, Option::None);
        lemma_next_break_gt(w@, brks@, start as int, omax(max), 0, Option::None);
    }
    let n = w.len();
    let mut k: usize = 0;
    let mut rem: Option<usize> = Option::None;
    let mut i: usize = start;
    let mut acc: u128 = 0;
    while k < brks.len()
        invariant
            start <= w@.len(),
            n == w@.len(),
            brks_wf(brks@, w@.len() as int),
            forall|t: int| 0 <= t < w@.len() ==> w@[t] <= 3,
            k <= brks@.len(),
            start <= i <= n,
            i == start || (max is Some && k > 0 && i == brks@[k - 1].0 && i > start),
            acc == seg_w(w@, start as int, i as int),
            match rem {
                Option::Some(r) => start < r <= n,
                Option::None => true,
            },
            scan_next(w@, brks@, start as int, omax(max), 0, Option::None) == scan_next(
                w@,
                brks@,
                start as int,
                omax(max),
                k as int,
                match rem {
                    Option::Some(r) => Option::Some(r as int),
                    Option::None => Option::<int>::None,
                },
            ),
            match scan_next(w@, brks@, start as int, omax(max), 0, Option::None) {
                Option::Some(p) => start < p <= w@.len(),
                Option::None => true,
            },
        decreases brks@.len() - k,
    {
        let (p, mand) = brks[k];
        proof {
            assert((brks@[k as int]).0 <= w@.len());
            if k > 0 {
                assert((brks@[k as int]).0 > brks@[k as int - 1].0);
            }
        }
        if p > start {
            if let Option::Some(m) = max {
                while i < p
                    invariant
                        n == w@.len(),
                        forall|t: int| 0 <= t < w@.len() ==> w@[t] <= 3,
                        p <= n,
                        start <= i <= p,
                        acc == seg_w(w@, start as int, i as int),
                    decreases p - i,
                {
                    proof {
                        lemma_seg_w_bound(w@, start as int, i as int, 3);
                        lemma_seg_w_step(w@, start as int, i as int);
                    }
                    acc = acc + w[i] as u128;
                    i = i + 1;
                }
                if acc > m as u128 {
                    match rem {
                        Option::Some(r) => {
                            return Option::Some(r);
                        },
                        Option::None => {
                            let h = hard_split(w, start, m);
                            return Option::Some(h);
                        },
                    }
                }
            }
            if mand {
                return Option::Some(p);
            }
            rem = Option::Some(p);
        }
        k = k + 1;
    }
    Option::None
}

/// Executable layout: all line starts of the text at width `max`.
pub(crate) fn layout_lines(w: &Vec<usize>, brks: &Vec<(usize, bool)>, max: Option<usize>) -> (r:
    Vec<usize>)
    requires
        brks_wf(brks@, w@.len() as int),
        forall|i: int| 0 <= i < w@.len() ==> w@[i] <= 3,
    ensures
        r@ == line_starts(w@, brks@, omax(max), 0),
        r@.len() >= 1,
{
    let mut r: Vec<usize> = Vec::new();
    r.push(0);
    let mut cur: usize = 0;
    loop
        invariant
            brks_wf(brks@, w@.len() as int),
            forall|i: int| 0 <= i < w@.len() ==> w@[i] <= 3,
            r@.len() >= 1,
            r@[r@.len() - 1] == cur,
            cur <= w@.len(),
            line_starts(w@, brks@, omax(max), 0) == r@.drop_last() + line_starts(
                w@,
                brks@,
                omax(max),
                cur as int,
            ),
        decreases w@.len() - cur,
    {
        match find_break(w, brks, cur, max) {
            Option::None => {
                proof {
                    assert(line_starts(w@, brks@, omax(max), cur as int) =~= seq![cur]);
                    assert(r@.drop_last() + seq![cur] =~= r@);
                }
                return r;
            },
            Option::Some(p) => {
                if p >= w.len() {
                    proof {
                        assert(line_starts(w@, brks@, omax(max), cur as int) =~= seq![cur]);
                        assert(r@.drop_last() + seq![cur] =~= r@);
                    }
                    return r;
                }
                proof {
                    assert(line_starts(w@, brks@, omax(max), cur as int) =~= seq![cur]
                        + line_starts(w@, brks@, omax(max), p as int));
                    assert(r@.drop_last() + seq![cur] =~= r@);
                    assert(r@.drop_last() + (seq![cur] + line_starts(
                        w@,
                        brks@,
                        omax(max),
                        p as int,
                    )) =~= (r@.drop_last() + seq![cur]) + line_starts(
                        w@,
                        brks@,
                        omax(max),
                        p as int,
                    ));
                }
                let ghost prev = r@;
                r.push(p);
                cur = p;
                proof {
                    assert(r@.drop_last() =~= prev);
                }
            },
        }
    }
}


/// Well-formed line-start list for a text of `n` characters.
pub open spec fn starts_wf(starts: Seq<usize>, n: int) -> bool {
    &&& starts.len() >= 1
    &&& forall|t: int| 0 <= t < starts.len() ==> (#[trigger] starts[t]) <= n
    &&& forall|t: int| 0 < t < starts.len() ==> (#[trigger] starts[t]) > starts[t - 1]
}

/// The line starts are ascending, begin at `start`, and stay within the text.
pub proof fn lemma_line_starts_wf(
    w: Seq<usize>,
    brks: Seq<(usize, bool)>,
    max: Option<int>,
    start: int,
)
    requires
        brks_wf(brks, w.len() as int),
        0 <= start <= w.len(),
    ensures
        ({
            let r = line_starts(w, brks, max, start);
            &&& r.len() >= 1
            &&& r[0] == start
            &&& forall|t: int| 0 <= t < r.len() ==> start <= (#[trigger] r[t]) <= w.len()
            &&& forall|t: int| 0 < t < r.len() ==> (#[trigger] r[t]) > r[t - 1]
        }),
    decreases w.len() - start,
{
    let r = line_starts(w, brks, max, start);
    lemma_next_break_gt(w, brks, start, max, 0, Option::None);
    lemma_scan_next_range(w, brks, start, max, 0, Option::None);
    match next_break(w, brks, start, max) {
        Option::None => {},
        Option::Some(p) => {
            if p < w.len() {
                lemma_line_starts_wf(w, brks, max, p);
                let sub = line_starts(w, brks, max, p);
                assert(r =~= seq![start as usize] + sub);
                assert forall|t: int| 0 <= t < r.len() implies start <= (#[trigger] r[t])
                    <= w.len() by {
                    if t > 0 {
                        assert(r[t] == sub[t - 1]);
                    }
                }
                assert forall|t: int| 0 < t < r.len() implies (#[trigger] r[t]) > r[t - 1] by {
                    if t == 1 {
                        assert(r[1] == sub[0] && sub[0] == p);
                    } else {
                        assert(r[t] == sub[t - 1] && r[t - 1] == sub[t - 2]);
                    }
                }
            }
        },
    }
}

/// The widest segment of `w` between consecutive retained break positions
/// (all opportunities, or the mandatory ones only), scanning from entry `k`
/// with the previous retained position `prev`.
pub open spec fn max_seg(
    w: Seq<usize>,
    brks: Seq<(usize, bool)>,
    only_mand: bool,
    prev: int,
    k: int,
) -> int
    decreases brks.len() - k,
{
    if k < 0 || k >= brks.len() {
        seg_w(w, prev, w.len() as int)
    } else {
        let p = brks[k].0 as int;
        if (only_mand && !brks[k].1) || p <= prev {
            max_seg(w, brks, only_mand, prev, k + 1)
        } else {
            let a = seg_w(w, prev, p);
            let b = max_seg(w, brks, only_mand, p, k + 1);
            if a >= b {
                a
            } else {
                b
            }
        }
    }
}


pub proof fn lemma_max_seg_nonneg(
    w: Seq<usize>,
    brks: Seq<(usize, bool)>,
    only_mand: bool,
    prev: int,
    k: int,
)
    ensures
        max_seg(w, brks, only_mand, prev, k) >= 0,
    decreases brks.len() - k,
{
    if k < 0 || k >= brks.len() {
        lemma_seg_w_nonneg(w, prev, w.len() as int);
    } else {
        let p = brks[k].0 as int;
        if (only_mand && !brks[k].1) || p <= prev {
            lemma_max_seg_nonneg(w, brks, only_mand, prev, k + 1);
        } else {
            lemma_seg_w_nonneg(w, prev, p);
            lemma_max_seg_nonneg(w, brks, only_mand, p, k + 1);
        }
    }
}

/// Entries of a well-formed break list ascend.
pub proof fn lemma_brks_sorted(brks: Seq<(usize, bool)>, n: int, a: int, b: int)
    requires
        brks_wf(brks, n),
        0 <= a < b < brks.len(),
    ensures
        brks[a].0 < brks[b].0,
    decreases b - a,
{
    if a + 1 < b {
        lemma_brks_sorted(brks, n, a + 1, b);
    }
}

/// A later suffix weighs no more.
pub proof fn lemma_seg_w_suffix(w: Seq<usize>, s2: int, s1: int, e: int)
    requires
        s2 <= s1 <= e,
    ensures
        seg_w(w, s1, e) <= seg_w(w, s2, e),
{
    lemma_seg_w_concat(w, s2, s1, e);
    lemma_seg_w_nonneg(w, s2, s1);
}

/// A hard split never runs past a point the line cannot reach.
pub proof fn lemma_hard_le(w: Seq<usize>, start: int, mx: int, e: int)
    requires
        start + 1 <= e,
        seg_w(w, start, e) > mx,
    ensures
        hard_end(w, start, mx) <= e,
{
    lemma_hard_from_le(w, start, start + 1, mx, e);
}

proof fn lemma_hard_from_le(w: Seq<usize>, start: int, j: int, mx: int, e: int)
    requires
        start < j <= e,
        seg_w(w, start, e) > mx,
    ensures
        hard_from(w, start, j, mx) <= e,
    decreases e - j,
{
    if j < w.len() && !(seg_w(w, start, j + 1) > mx) {
        // the segment to j + 1 still fits, so j + 1 <= e
        if j + 1 > e {
            // then e <= j, and seg to e is a prefix of seg to j + 1
            lemma_seg_w_concat(w, start, e, j + 1);
            lemma_seg_w_nonneg(w, e, j + 1);
            assert(false);
        }
        lemma_hard_from_le(w, start, j + 1, mx, e);
    }
}

/// The scan never picks a break past a reachable mandatory opportunity.
pub proof fn lemma_scan_le_mandatory(
    w: Seq<usize>,
    brks: Seq<(usize, bool)>,
    start: int,
    max: Option<int>,
    k: int,
    rem: Option<int>,
    j: int,
)
    requires
        brks_wf(brks, w.len() as int),
        0 <= k <= j < brks.len(),
        brks[j].1,
        brks[j].0 > start,
        match rem {
            Option::Some(r) => start < r <= brks[j].0,
            Option::None => true,
        },
    ensures
        match scan_next(w, brks, start, max, k, rem) {
            Option::Some(p) => p <= brks[j].0,
            Option::None => false,
        },
    decreases brks.len() - k,
{
    let m = brks[j].0 as int;
    let p = brks[k].0 as int;
    if k < j {
        lemma_brks_sorted(brks, w.len() as int, k, j);
    }
    if p <= start {
        assert(k < j);
        lemma_scan_le_mandatory(w, brks, start, max, k + 1, rem, j);
    } else {
        let over = match max {
            Option::Some(mx) => seg_w(w, start, p) > mx,
            Option::None => false,
        };
        if over {
            if rem is None {
                let mx = match max {
                    Option::Some(mx) => mx,
                    Option::None => 0,
                };
                lemma_hard_le(w, start, mx, p);
            }
        } else if brks[k].1 {
        } else {
            assert(k < j);
            lemma_scan_le_mandatory(w, brks, start, max, k + 1, Option::Some(p), j);
        }
    }
}

/// Without a width bound the scan returns exactly the first mandatory
/// opportunity past the start, if any.
pub proof fn lemma_scan_unbounded(
    w: Seq<usize>,
    brks: Seq<(usize, bool)>,
    start: int,
    k: int,
    rem: Option<int>,
)
    requires
        0 <= k,
    ensures
        match scan_next(w, brks, start, Option::None, k, rem) {
            Option::Some(p) => exists|j: int|
                k <= j < brks.len() && (#[trigger] brks[j]).1 && brks[j].0 as int == p && p > start,
            Option::None => forall|j: int|
                k <= j < brks.len() ==> !((#[trigger] brks[j]).1 && brks[j].0 > start),
        },
    decreases brks.len() - k,
{
    if k < brks.len() {
        let p = brks[k].0 as int;
        if p <= start {
            lemma_scan_unbounded(w, brks, start, k + 1, rem);
        } else if brks[k].1 {
        } else {
            lemma_scan_unbounded(w, brks, start, k + 1, Option::Some(p));
        }
    }
}

/// Every mandatory break inside the text starts a line, at every width.
/// (A mandatory newline always produces a break at its exact position,
/// regardless of the available width.)
pub proof fn lemma_mandatory_honored(
    w: Seq<usize>,
    brks: Seq<(usize, bool)>,
    max: Option<int>,
    start: int,
    j: int,
)
    requires
        brks_wf(brks, w.len() as int),
        0 <= j < brks.len(),
        brks[j].1,
        0 <= start < brks[j].0,
        brks[j].0 < w.len(),
    ensures
        line_starts(w, brks, max, start).contains(brks[j].0),
    decreases brks[j].0 - start,
{
    let m = brks[j].0 as int;
    lemma_scan_le_mandatory(w, brks, start, max, 0, Option::None, j);
    lemma_next_break_gt(w, brks, start, max, 0, Option::None);
    match next_break(w, brks, start, max) {
        Option::None => {
            assert(false);
        },
        Option::Some(p) => {
            assert(start < p <= m);
            assert(p < w.len());
            let sub = line_starts(w, brks, max, p);
            assert(line_starts(w, brks, max, start) == seq![start as usize] + sub);
            if p == m {
                assert(sub[0] == brks[j].0);
                assert((seq![start as usize] + sub)[1] == brks[j].0);
            } else {
                lemma_mandatory_honored(w, brks, max, p, j);
                let i = choose|i: int| 0 <= i < sub.len() && sub[i] == brks[j].0;
                assert((seq![start as usize] + sub)[i + 1] == brks[j].0);
            }
        },
    }
}

/// The unbounded layout never produces more lines than a layout at any
/// finite width.
pub proof fn lemma_unbounded_fewest_lines(
    w: Seq<usize>,
    brks: Seq<(usize, bool)>,
    mx: int,
    s_n: int,
    s_m: int,
)
    requires
        brks_wf(brks, w.len() as int),
        0 <= s_m <= s_n <= w.len(),
    ensures
        line_starts(w, brks, Option::None, s_n).len() <= line_starts(
            w,
            brks,
            Option::Some(mx),
            s_m,
        ).len(),
    decreases w.len() - s_m,
{
    lemma_scan_unbounded(w, brks, s_n, 0, Option::None);
    lemma_next_break_gt(w, brks, s_n, Option::None, 0, Option::None);
    match next_break(w, brks, s_n, Option::None) {
        Option::None => {
            assert(line_starts(w, brks, Option::None, s_n).len() == 1);
        },
        Option::Some(m) => {
            if m >= w.len() {
                assert(line_starts(w, brks, Option::None, s_n).len() == 1);
            } else {
                let j = choose|j: int|
                    0 <= j < brks.len() && (#[trigger] brks[j]).1 && brks[j].0 as int == m && m
                        > s_n;
                lemma_scan_le_mandatory(w, brks, s_m, Option::Some(mx), 0, Option::None, j);
                lemma_next_break_gt(w, brks, s_m, Option::Some(mx), 0, Option::None);
                match next_break(w, brks, s_m, Option::Some(mx)) {
                    Option::None => {
                        assert(false);
                    },
                    Option::Some(p) => {
                        assert(s_m < p <= m);
                        lemma_unbounded_fewest_lines(w, brks, mx, m, p);
                        assert(line_starts(w, brks, Option::None, s_n) == seq![s_n as usize]
                            + line_starts(w, brks, Option::None, m));
                        assert(line_starts(w, brks, Option::Some(mx), s_m) == seq![s_m as usize]
                            + line_starts(w, brks, Option::Some(mx), p));
                    },
                }
            }
        },
    }
}


proof fn lemma_scan_all_fits(
    w: Seq<usize>,
    brks: Seq<(usize, bool)>,
    mx: int,
    k: int,
    rem: Option<int>,
)
    requires
        brks_wf(brks, w.len() as int),
        seg_w(w, 0, w.len() as int) <= mx,
        forall|j: int| 0 <= j < brks.len() ==> ((#[trigger] brks[j]).1 ==> brks[j].0 == w.len()),
    ensures
        match scan_next(w, brks, 0, Option::Some(mx), k, rem) {
            Option::Some(p) => p == w.len(),
            Option::None => true,
        },
    decreases brks.len() - k,
{
    if 0 <= k < brks.len() {
        let p = brks[k].0 as int;
        if p > 0 {
            assert(brks[k].0 <= w.len());
            lemma_seg_w_concat(w, 0, p, w.len() as int);
            lemma_seg_w_nonneg(w, p, w.len() as int);
            assert(seg_w(w, 0, p) <= mx);
            if brks[k].1 {
            } else {
                lemma_scan_all_fits(w, brks, mx, k + 1, Option::Some(p));
            }
        } else {
            lemma_scan_all_fits(w, brks, mx, k + 1, rem);
        }
    }
}

/// Content whose total width fits the bound, with no mandatory break inside
/// the text, lays out as a single line: an exact fit produces no wrap.
pub proof fn lemma_exact_fit_no_wrap(w: Seq<usize>, brks: Seq<(usize, bool)>, mx: int)
    requires
        brks_wf(brks, w.len() as int),
        seg_w(w, 0, w.len() as int) <= mx,
        forall|j: int| 0 <= j < brks.len() ==> ((#[trigger] brks[j]).1 ==> brks[j].0 == w.len()),
    ensures
        line_starts(w, brks, Option::Some(mx), 0).len() == 1,
{
    lemma_scan_all_fits(w, brks, mx, 0, Option::None);
    match next_break(w, brks, 0, Option::Some(mx)) {
        Option::None => {
            assert(line_starts(w, brks, Option::Some(mx), 0) == seq![0usize] + Seq::<
                usize,
            >::empty());
        },
        Option::Some(p) => {
            assert(p == w.len());
            assert(line_starts(w, brks, Option::Some(mx), 0) == seq![0usize] + Seq::<
                usize,
            >::empty());
        },
    }
}

proof fn lemma_hard_from_lt(w: Seq<usize>, start: int, j: int, mx: int, e: int)
    requires
        start < j <= e - 1,
        e <= w.len(),
        seg_w(w, start, e) > mx,
    ensures
        hard_from(w, start, j, mx) <= e - 1,
    decreases e - j,
{
    if j < w.len() && !(seg_w(w, start, j + 1) > mx) {
        if j + 1 > e - 1 {
            // j == e - 1, but then the segment to e exceeds the bound
            assert(seg_w(w, start, j + 1) == seg_w(w, start, e));
            assert(false);
        }
        lemma_hard_from_lt(w, start, j + 1, mx, e);
    }
}

/// Content one column too wide with no break opportunity inside the text is
/// split at the hard character boundary: as many whole characters as fit.
pub proof fn lemma_hard_split_when_no_opportunity(w: Seq<usize>, brks: Seq<(usize, bool)>, mx: int)
    requires
        brks_wf(brks, w.len() as int),
        w.len() >= 2,
        seg_w(w, 0, w.len() as int) > mx,
        forall|j: int| 0 <= j < brks.len() ==> (#[trigger] brks[j]).0 == w.len(),
    ensures
        line_starts(w, brks, Option::Some(mx), 0).len() >= 2,
        line_starts(w, brks, Option::Some(mx), 0)[1] == hard_end(w, 0, mx),
{
    let n = w.len() as int;
    assert(brks.len() > 0);
    let p = brks[0].0 as int;
    assert(p == n);
    let h = hard_end(w, 0, mx);
    lemma_hard_from_lt(w, 0, 1, mx, n);
    lemma_hard_from_bounds(w, 0, 1, mx);
    assert(next_break(w, brks, 0, Option::Some(mx)) == Option::Some(h));
    assert(1 <= h < n);
    let sub = line_starts(w, brks, Option::Some(mx), h);
    assert(line_starts(w, brks, Option::Some(mx), 0) == seq![0usize] + sub);
    assert(sub[0] == h as usize);
    assert((seq![0usize] + sub)[1] == h as usize);
}


/// `p` is the position of some break opportunity.
pub open spec fn is_entry(brks: Seq<(usize, bool)>, p: int) -> bool {
    exists|j: int| 0 <= j < brks.len() && (#[trigger] brks[j]).0 as int == p
}

/// A position a line can start at: the beginning of the text or a break
/// opportunity.
pub open spec fn valid_start(brks: Seq<(usize, bool)>, s: int) -> bool {
    s == 0 || is_entry(brks, s)
}

/// Everything after `s` fits in `mx` and holds no mandatory break.
pub open spec fn fits_to_end(w: Seq<usize>, brks: Seq<(usize, bool)>, mx: int, s: int) -> bool {
    forall|j: int|
        0 <= j < brks.len() && (#[trigger] brks[j]).0 > s ==> !brks[j].1 && seg_w(
            w,
            s,
            brks[j].0 as int,
        ) <= mx
}

/// What the scan's chosen break `p` looks like when no hard split occurs:
/// an opportunity after `s` that fits, preceded by no mandatory
/// opportunity, and either mandatory itself or followed by an opportunity
/// that no longer fits.
pub open spec fn break_shape(
    w: Seq<usize>,
    brks: Seq<(usize, bool)>,
    mx: int,
    s: int,
    p: int,
) -> bool {
    &&& s < p
    &&& exists|jp: int|
        0 <= jp < brks.len() && (#[trigger] brks[jp]).0 as int == p && (brks[jp].1 || (jp + 1
            < brks.len() && seg_w(w, s, brks[jp + 1].0 as int) > mx))
    &&& forall|j: int| 0 <= j < brks.len() && s < (#[trigger] brks[j]).0 < p ==> !brks[j].1
    &&& forall|j: int|
        0 <= j < brks.len() && s < (#[trigger] brks[j]).0 <= p ==> seg_w(w, s, brks[j].0 as int)
            <= mx
}

/// The widest all-opportunities segment bounds the gap between the entries
/// `a` and `a + 1`.
proof fn lemma_max_seg_reach(w: Seq<usize>, brks: Seq<(usize, bool)>, prev: int, k: int, a: int)
    requires
        brks_wf(brks, w.len() as int),
        0 <= k <= a + 1,
        0 <= a,
        a + 1 < brks.len(),
        prev == (if k == 0 {
            0int
        } else {
            brks[k - 1].0 as int
        }),
        prev <= brks[a].0,
    ensures
        max_seg(w, brks, false, prev, k) >= seg_w(w, brks[a].0 as int, brks[a + 1].0 as int),
    decreases a + 1 - k,
{
    let p = brks[k].0 as int;
    if k >= 1 {
        lemma_brks_sorted(brks, w.len() as int, k - 1, k);
    }
    if k <= a && k + 1 >= 1 {
        if k < a {
            lemma_brks_sorted(brks, w.len() as int, k, a);
        }
    }
    if k == a + 1 {
        // prev == brks[a].0; the entry at a + 1 lies beyond it
        lemma_brks_sorted(brks, w.len() as int, a, a + 1);
        lemma_max_seg_nonneg(w, brks, false, brks[a + 1].0 as int, a + 2);
    } else {
        // k <= a
        if p <= prev {
            assert(p == prev || k == 0);
            lemma_max_seg_reach(w, brks, p, k + 1, a);
            assert(max_seg(w, brks, false, prev, k) == max_seg(w, brks, false, prev, k + 1)
                || max_seg(w, brks, false, prev, k) >= max_seg(w, brks, false, p, k + 1));
            if p < prev {
                assert(false);
            }
        } else {
            lemma_max_seg_reach(w, brks, p, k + 1, a);
            lemma_seg_w_nonneg(w, prev, p);
        }
    }
}

/// The segment from a valid start to the first opportunity beyond it is
/// bounded by the widest all-opportunities segment.
#[verifier::rlimit(100)]
#[verifier::spinoff_prover]
proof fn lemma_first_gap(w: Seq<usize>, brks: Seq<(usize, bool)>, s: int, k: int)
    requires
        brks_wf(brks, w.len() as int),
        valid_start(brks, s),
        0 <= s,
        0 <= k < brks.len(),
        brks[k].0 > s,
        forall|j: int| 0 <= j < k ==> (#[trigger] brks[j]).0 <= s,
    ensures
        seg_w(w, s, brks[k].0 as int) <= max_seg(w, brks, false, 0, 0),
{
    if k == 0 {
        if s == 0 {
            // the gap from the start of the text to the first entry
            assert(max_seg(w, brks, false, 0, 0) >= seg_w(w, 0, brks[0].0 as int));
        } else {
            // s is an entry position, but every entry from 0 on lies past s
            let j = choose|j: int| 0 <= j < brks.len() && (#[trigger] brks[j]).0 as int == s;
            if j >= k {
                if j > 0 {
                    lemma_brks_sorted(brks, w.len() as int, 0, j);
                }
                assert(brks[j].0 > s);
                assert(false);
            }
            assert(false);
        }
    } else {
        // the entry k - 1 sits at or before s; s is a valid start, so it is
        // exactly s when s is positive
        if s == 0 {
            assert(brks[k - 1].0 <= 0);
            assert(brks[k - 1].0 as int == 0);
            if k >= 2 {
                lemma_brks_sorted(brks, w.len() as int, k - 2, k - 1);
                assert(false);
            }
            lemma_max_seg_reach(w, brks, 0, 0, k - 1);
            assert(seg_w(w, brks[k - 1].0 as int, brks[k].0 as int) == seg_w(
                w,
                s,
                brks[k].0 as int,
            ));
        } else {
            let j = choose|j: int| 0 <= j < brks.len() && (#[trigger] brks[j]).0 as int == s;
            // j < k since brks[j].0 == s, while entries from k on lie past s
            if j >= k {
                if j > k {
                    lemma_brks_sorted(brks, w.len() as int, k, j);
                }
                assert(brks[j].0 > s);
                assert(false);
            }
            if j < k - 1 {
                lemma_brks_sorted(brks, w.len() as int, j, k - 1);
                assert(brks[k - 1].0 > s);
                assert(false);
            }
            lemma_max_seg_reach(w, brks, 0, 0, k - 1);
            assert(seg_w(w, brks[k - 1].0 as int, brks[k].0 as int) == seg_w(
                w,
                s,
                brks[k].0 as int,
            ));
        }
    }
}

/// Under the no-hard-split hypothesis the scan's result has the declarative
/// shape above.
#[verifier::rlimit(100)]
#[verifier::spinoff_prover]
proof fn lemma_scan_shape(
    w: Seq<usize>,
    brks: Seq<(usize, bool)>,
    mx: int,
    s: int,
    k: int,
    rem: Option<int>,
)
    requires
        brks_wf(brks, w.len() as int),
        max_seg(w, brks, false, 0, 0) <= mx,
        valid_start(brks, s),
        0 <= s,
        0 <= k <= brks.len(),
        forall|j: int|
            0 <= j < k && (#[trigger] brks[j]).0 > s ==> !brks[j].1 && seg_w(
                w,
                s,
                brks[j].0 as int,
            ) <= mx,
        match rem {
            Option::None => forall|j: int| 0 <= j < k ==> (#[trigger] brks[j]).0 <= s,
            Option::Some(r) => k >= 1 && r == brks[k - 1].0 as int && r > s,
        },
    ensures
        match scan_next(w, brks, s, Option::Some(mx), k, rem) {
            Option::None => fits_to_end(w, brks, mx, s),
            Option::Some(p) => break_shape(w, brks, mx, s, p),
        },
    decreases brks.len() - k,
{
    if k >= brks.len() {
        // every entry was passed
    } else {
        let p = brks[k].0 as int;
        if p <= s {
            match rem {
                Option::Some(r) => {
                    lemma_brks_sorted(brks, w.len() as int, k - 1, k);
                    assert(false);
                },
                Option::None => {
                    lemma_scan_shape(w, brks, mx, s, k + 1, rem);
                },
            }
        } else {
            let over = seg_w(w, s, p) > mx;
            if over {
                match rem {
                    Option::None => {
                        // the first opportunity past a valid start always
                        // fits, so a hard split cannot happen here
                        lemma_first_gap(w, brks, s, k);
                        assert(false);
                    },
                    Option::Some(r) => {
                        // the previous opportunity is the chosen break
                        assert(scan_next(w, brks, s, Option::Some(mx), k, rem)
                            == Option::Some(r));
                        assert(brks[k - 1].0 as int == r && (brks[k - 1].1 || (k < brks.len()
                            && seg_w(w, s, brks[k].0 as int) > mx)));
                        assert forall|j: int|
                            0 <= j < brks.len() && s < (#[trigger] brks[j]).0 < r implies !brks[j].1 by {
                            if j >= k - 1 {
                                if j > k - 1 {
                                    lemma_brks_sorted(brks, w.len() as int, k - 1, j);
                                } else {
                                    assert(brks[j].0 as int == r);
                                }
                                assert(false);
                            }
                        }
                        assert forall|j: int|
                            0 <= j < brks.len() && s < (#[trigger] brks[j]).0 <= r implies seg_w(
                            w,
                            s,
                            brks[j].0 as int,
                        ) <= mx by {
                            if j >= k {
                                lemma_brks_sorted(brks, w.len() as int, k - 1, j);
                                assert(false);
                            }
                        }
                    },
                }
            } else if brks[k].1 {
                assert(scan_next(w, brks, s, Option::Some(mx), k, rem) == Option::Some(p));
                assert forall|j: int|
                    0 <= j < brks.len() && s < (#[trigger] brks[j]).0 < p implies !brks[j].1 by {
                    if j >= k {
                        if j > k {
                            lemma_brks_sorted(brks, w.len() as int, k, j);
                        }
                        assert(false);
                    }
                }
                assert forall|j: int|
                    0 <= j < brks.len() && s < (#[trigger] brks[j]).0 <= p implies seg_w(
                    w,
                    s,
                    brks[j].0 as int,
                ) <= mx by {
                    if j > k {
                        lemma_brks_sorted(brks, w.len() as int, k, j);
                        assert(false);
                    } else if j == k {
                        assert(seg_w(w, s, brks[j].0 as int) <= mx);
                    }
                }
            } else {
                lemma_scan_shape(w, brks, mx, s, k + 1, Option::Some(p));
            }
        }
    }
}

/// Entries listed later sit at later positions, and conversely.
proof fn lemma_entry_index(w: Seq<usize>, brks: Seq<(usize, bool)>, a: int, b: int)
    requires
        brks_wf(brks, w.len() as int),
        0 <= a < brks.len(),
        0 <= b < brks.len(),
        brks[a].0 < brks[b].0,
    ensures
        a < b,
{
    if a >= b {
        if a > b {
            lemma_brks_sorted(brks, w.len() as int, b, a);
        }
    }
}

/// Greedy breaking from a later start at a wider bound never chooses an
/// earlier break.
proof fn lemma_break_dominates(
    w: Seq<usize>,
    brks: Seq<(usize, bool)>,
    mx1: int,
    mx2: int,
    s1: int,
    s2: int,
    p1: int,
    p2: int,
)
    requires
        brks_wf(brks, w.len() as int),
        mx1 >= mx2,
        0 <= s2 <= s1,
        break_shape(w, brks, mx1, s1, p1),
        break_shape(w, brks, mx2, s2, p2),
    ensures
        p1 >= p2,
{
    if p1 < p2 {
        let jp1 = choose|jp: int|
            0 <= jp < brks.len() && (#[trigger] brks[jp]).0 as int == p1 && (brks[jp].1 || (jp + 1
                < brks.len() && seg_w(w, s1, brks[jp + 1].0 as int) > mx1));
        let jp2 = choose|jp: int|
            0 <= jp < brks.len() && (#[trigger] brks[jp]).0 as int == p2 && (brks[jp].1 || (jp + 1
                < brks.len() && seg_w(w, s2, brks[jp + 1].0 as int) > mx2));
        // p1 lies strictly inside (s2, p2), so it is not mandatory there
        assert(s2 < brks[jp1].0 < p2);
        assert(!brks[jp1].1);
        // so an opportunity right after p1 fails to fit mx1
        assert(jp1 + 1 < brks.len() && seg_w(w, s1, brks[jp1 + 1].0 as int) > mx1);
        let e1 = brks[jp1 + 1].0 as int;
        // that opportunity sits at or before p2
        lemma_entry_index(w, brks, jp1, jp2);
        assert(jp1 + 1 <= jp2);
        if jp1 + 1 < jp2 {
            lemma_brks_sorted(brks, w.len() as int, jp1 + 1, jp2);
        }
        assert(e1 <= p2);
        assert(e1 > p1 > s2) by {
            lemma_brks_sorted(brks, w.len() as int, jp1, jp1 + 1);
        }
        // but everything up to p2 fits mx2 from s2, and a suffix weighs less
        assert(seg_w(w, s2, e1) <= mx2);
        lemma_seg_w_suffix(w, s2, s1, e1);
        assert(false);
    }
}

/// Line counts do not increase as the width grows, for widths at least the
/// minimum width of the content (its widest all-opportunities segment).
pub proof fn lemma_line_count_monotone_from(
    w: Seq<usize>,
    brks: Seq<(usize, bool)>,
    mx1: int,
    mx2: int,
    s1: int,
    s2: int,
)
    requires
        brks_wf(brks, w.len() as int),
        max_seg(w, brks, false, 0, 0) <= mx2,
        mx2 <= mx1,
        0 <= s2 <= s1 <= w.len(),
        valid_start(brks, s1),
        valid_start(brks, s2),
    ensures
        line_starts(w, brks, Option::Some(mx1), s1).len() <= line_starts(
            w,
            brks,
            Option::Some(mx2),
            s2,
        ).len(),
    decreases w.len() - s2,
{
    lemma_scan_shape(w, brks, mx1, s1, 0, Option::None);
    lemma_scan_shape(w, brks, mx2, s2, 0, Option::None);
    lemma_next_break_gt(w, brks, s1, Option::Some(mx1), 0, Option::None);
    lemma_next_break_gt(w, brks, s2, Option::Some(mx2), 0, Option::None);
    lemma_scan_next_range(w, brks, s1, Option::Some(mx1), 0, Option::None);
    lemma_scan_next_range(w, brks, s2, Option::Some(mx2), 0, Option::None);
    match next_break(w, brks, s1, Option::Some(mx1)) {
        Option::None => {
            assert(line_starts(w, brks, Option::Some(mx1), s1).len() == 1);
            lemma_line_starts_wf(w, brks, Option::Some(mx2), s2);
        },
        Option::Some(p1) => {
            match next_break(w, brks, s2, Option::Some(mx2)) {
                Option::None => {
                    // everything fits from s2, hence also from the later s1
                    assert(fits_to_end(w, brks, mx2, s2));
                    assert(break_shape(w, brks, mx1, s1, p1));
                    let jp1 = choose|jp: int|
                        0 <= jp < brks.len() && (#[trigger] brks[jp]).0 as int == p1 && (brks[jp].1
                            || (jp + 1 < brks.len() && seg_w(w, s1, brks[jp + 1].0 as int) > mx1));
                    assert(brks[jp1].0 > s2);
                    assert(!brks[jp1].1);
                    assert(jp1 + 1 < brks.len() && seg_w(w, s1, brks[jp1 + 1].0 as int) > mx1);
                    assert(brks[jp1 + 1].0 > s2) by {
                        lemma_brks_sorted(brks, w.len() as int, jp1, jp1 + 1);
                    }
                    assert(seg_w(w, s2, brks[jp1 + 1].0 as int) <= mx2);
                    lemma_seg_w_suffix(w, s2, s1, brks[jp1 + 1].0 as int);
                    assert(false);
                },
                Option::Some(p2) => {
                    lemma_break_dominates(w, brks, mx1, mx2, s1, s2, p1, p2);
                    if p2 >= w.len() {
                        assert(p1 <= w.len());
                        assert(line_starts(w, brks, Option::Some(mx2), s2).len() == 1);
                        if p1 >= w.len() {
                            assert(line_starts(w, brks, Option::Some(mx1), s1).len() == 1);
                        } else {
                            assert(false);
                        }
                    } else if p1 >= w.len() {
                        assert(line_starts(w, brks, Option::Some(mx1), s1).len() == 1);
                        lemma_line_starts_wf(w, brks, Option::Some(mx2), s2);
                    } else {
                        lemma_line_count_monotone_from(w, brks, mx1, mx2, p1, p2);
                        assert(line_starts(w, brks, Option::Some(mx1), s1) == seq![s1 as usize]
                            + line_starts(w, brks, Option::Some(mx1), p1));
                        assert(line_starts(w, brks, Option::Some(mx2), s2) == seq![s2 as usize]
                            + line_starts(w, brks, Option::Some(mx2), p2));
                    }
                },
            }
        },
    }
}

/// The number of lines of a layout is monotonically non-increasing as the
/// width grows, for widths at least the content's minimum width.
pub proof fn lemma_line_count_monotone(
    w: Seq<usize>,
    brks: Seq<(usize, bool)>,
    mx1: int,
    mx2: int,
)
    requires
        brks_wf(brks, w.len() as int),
        max_seg(w, brks, false, 0, 0) <= mx2,
        mx2 <= mx1,
    ensures
        line_starts(w, brks, Option::Some(mx1), 0).len() <= line_starts(
            w,
            brks,
            Option::Some(mx2),
            0,
        ).len(),
{
    lemma_line_count_monotone_from(w, brks, mx1, mx2, 0, 0);
}

} // verus!
