//! Layout of one time-series chart: the visible window, the axis ranges, the
//! label count and the points that are drawn.

use vstd::prelude::*;
use crate::counter::{Counter, max_count, lemma_max_bounds, sorted_positive, total};
use crate::clock::{three_months_before, three_months_before_day, today_utc, EPOCH_DAY};

verus! {

/// Most x-axis labels a chart carries.
pub const MAX_LABELS: usize = 30;

/// y-axis maximum used in place of the largest count when there is no data.
pub const EMPTY_SCALE: u64 = 10;

/// Room left above the largest count on the y-axis.
pub const HEADROOM: u64 = 2;

/// Everything needed to draw one chart.
pub struct ChartPlan {
    /// First day of the x-axis.
    pub x_first: i32,
    /// Last day of the x-axis (today).
    pub x_last: i32,
    /// Top of the y-axis; the bottom is zero.
    pub y_max: u64,
    /// Number of x-axis labels.
    pub x_labels: usize,
    /// The points of the series, by ascending day.
    pub points: Vec<(i32, u64)>,
}

/// The entries of `s` whose day lies in `[first, last]`, in order.
pub open spec fn window(s: Seq<(i32, u64)>, first: int, last: int) -> Seq<(i32, u64)>
    decreases s.len(),
{
    if s.len() == 0 {
        s
    } else {
        let w = window(s.drop_last(), first, last);
        if first <= s.last().0 <= last {
            w.push(s.last())
        } else {
            w
        }
    }
}

/// Labels for `n` buckets: half of them past fifteen buckets, else one more
/// than the buckets, and never more than the cap.
pub open spec fn label_count(n: nat) -> nat {
    let target = if n > 15 {
        n / 2
    } else {
        n + 1
    };
    if target < MAX_LABELS {
        target
    } else {
        MAX_LABELS as nat
    }
}

/// Top of the y-axis for the counts in `s`.
pub open spec fn y_top(s: Seq<(i32, u64)>) -> int {
    let top: int = if s.len() == 0 {
        EMPTY_SCALE as int
    } else {
        max_count(s) as int
    };
    top + HEADROOM
}

/// First day of the x-axis: the earliest bucket, but no earlier than the
/// window start; today when there are no buckets.
pub open spec fn x_start(s: Seq<(i32, u64)>, today: int, start: int) -> int {
    if s.len() == 0 {
        today
    } else if s[0].0 > start {
        s[0].0 as int
    } else {
        start
    }
}

/// `p` is the chart of the sorted entries `s` seen on `today`, with the
/// visible window starting at `start`.
pub open spec fn is_plan(p: ChartPlan, s: Seq<(i32, u64)>, today: int, start: int) -> bool {
    &&& p.x_first as int == x_start(s, today, start)
    &&& p.x_last as int == today
    &&& p.y_max as int == y_top(s)
    &&& p.x_labels as int == label_count(s.len())
    &&& p.points@ == window(s, start, today)
}

/// Lays out the chart of `data` as seen on `today`, showing the buckets from
/// `start` to `today`.
pub fn plan_chart(data: &Counter, today: i32, start: i32) -> (r: ChartPlan)
    requires
        data.wf(),
    ensures
        is_plan(r, data@, today as int, start as int),
{
    let entries = data.entries();
    let n = entries.len();
    let mut points: Vec<(i32, u64)> = Vec::new();
    let mut top: u64 = 0;
    let mut i: usize = 0;
    proof {
        lemma_max_bounds(data@);
    }
    while i < n
        invariant
            entries@ == data@,
            n == data@.len(),
            i <= n,
            top as int == max_count(data@.subrange(0, i as int)),
            max_count(data@) <= total(data@),
            data.wf(),
            points@ == window(data@.subrange(0, i as int), start as int, today as int),
        decreases n - i,
    {
        let e = entries[i];
        proof {
            assert(data@.subrange(0, i + 1).drop_last() =~= data@.subrange(0, i as int));
        }
        if e.1 > top {
            top = e.1;
        }
        if start <= e.0 && e.0 <= today {
            points.push(e);
        }
        i = i + 1;
    }
    proof {
        assert(data@.subrange(0, n as int) =~= data@);
    }
    let y_max: u64 = if n == 0 {
        EMPTY_SCALE + HEADROOM
    } else {
        top + HEADROOM
    };
    let target: usize = if n > 15 {
        n / 2
    } else {
        n + 1
    };
    let x_labels: usize = if target < MAX_LABELS {
        target
    } else {
        MAX_LABELS
    };
    let x_first: i32 = if n == 0 {
        today
    } else if entries[0].0 > start {
        entries[0].0
    } else {
        start
    };
    ChartPlan { x_first, x_last: today, y_max, x_labels, points }
}

/// Lays out the chart of `data` as seen today (UTC), with the window starting
/// three calendar months before today. `None` where the system clock cannot
/// be read as a date, or chrono cannot step back three months from it.
pub fn plan_chart_now(data: &Counter) -> (r: Option<ChartPlan>)
    requires
        data.wf(),
    ensures
        r matches Some(p) ==> is_plan(
            p,
            data@,
            p.x_last as int,
            three_months_before(p.x_last as int),
        ) && p.x_last >= EPOCH_DAY,
{
    let today = match today_utc() {
        Some(d) => d,
        None => return None,
    };
    match three_months_before_day(today) {
        Some(start) => Some(plan_chart(data, today, start)),
        None => None,
    }
}

/// Every drawn point lies in the window `[start, today]`; a bucket outside
/// it is never drawn, and one inside it always is. Drawn points are buckets
/// of the counter, and for a sorted counter they come by ascending day.
pub proof fn lemma_window(s: Seq<(i32, u64)>, start: int, today: int)
    ensures
        forall|i: int|
            0 <= i < window(s, start, today).len() ==> s.contains(
                #[trigger] window(s, start, today)[i],
            ),
        sorted_positive(s) ==> forall|i: int, j: int|
            0 <= i < j < window(s, start, today).len() ==> window(s, start, today)[i].0 < window(
                s,
                start,
                today,
            )[j].0,
        forall|i: int|
            0 <= i < window(s, start, today).len() ==> start <= #[trigger] window(
                s,
                start,
                today,
            )[i].0 <= today,
        forall|e: (i32, u64)|
            s.contains(e) ==> (#[trigger] window(s, start, today).contains(e) <==> start <= e.0
                <= today),
    decreases s.len(),
{
    if s.len() > 0 {
        let p = s.drop_last();
        lemma_window(p, start, today);
        let wp = window(p, start, today);
        let w = window(s, start, today);
        assert forall|i: int| 0 <= i < w.len() implies start <= #[trigger] w[i].0 <= today by {
            if i < wp.len() {
                assert(w[i] == wp[i]);
            }
        }
        assert forall|i: int| 0 <= i < w.len() implies s.contains(#[trigger] w[i]) by {
            if i < wp.len() {
                assert(w[i] == wp[i]);
                let k = choose|k: int| 0 <= k < p.len() && p[k] == wp[i];
                assert(s[k] == p[k]);
            } else {
                assert(w[i] == s[s.len() - 1]);
            }
        }
        if sorted_positive(s) {
            assert(sorted_positive(p)) by {
                assert forall|a: int, b: int| 0 <= a < b < p.len() implies p[a].0 < p[b].0 by {
                    assert(p[a] == s[a] && p[b] == s[b]);
                }
                assert forall|a: int| 0 <= a < p.len() implies p[a].1 > 0 by {
                    assert(p[a] == s[a]);
                }
            }
            assert forall|i: int, j: int| 0 <= i < j < w.len() implies w[i].0 < w[j].0 by {
                assert(w[i] == wp[i]);
                if j < wp.len() {
                    assert(w[j] == wp[j]);
                } else {
                    let k = choose|k: int| 0 <= k < p.len() && p[k] == wp[i];
                    assert(s[k] == p[k]);
                    assert(w[j] == s[s.len() - 1]);
                }
            }
        }
        assert forall|e: (i32, u64)| s.contains(e) implies (#[trigger] w.contains(e) <==> start
            <= e.0 <= today) by {
            let k = choose|k: int| 0 <= k < s.len() && s[k] == e;
            if start <= e.0 <= today {
                if k == s.len() - 1 {
                    assert(w[w.len() - 1] == e);
                } else {
                    assert(p[k] == e);
                    assert(p.contains(e));
                    assert(wp.contains(e));
                    let m = choose|m: int| 0 <= m < wp.len() && wp[m] == e;
                    assert(w[m] == e);
                }
            } else if w.contains(e) {
                let m = choose|m: int| 0 <= m < w.len() && w[m] == e;
                assert(start <= w[m].0 <= today);
            }
        }
    }
}

/// Laying out the same counter on the same day twice gives the same chart.
pub proof fn lemma_plan_repeatable(
    p: ChartPlan,
    q: ChartPlan,
    s: Seq<(i32, u64)>,
    today: int,
    start: int,
)
    requires
        is_plan(p, s, today, start),
        is_plan(q, s, today, start),
    ensures
        p.points@ == q.points@,
        p.x_first == q.x_first,
        p.x_last == q.x_last,
        p.y_max == q.y_max,
        p.x_labels == q.x_labels,
{
}

} // verus!
