//! The price-levels route's rules that do not touch a price: the export
//! names for a refusal, and how a series is cut into trading days, which is
//! what the analysis window is counted in.
//!
//! Two rules find a trading day, because the fact that finds one stops being
//! visible partway up the timeframe ladder. Bars shorter than the daily hole
//! (1m to 30m) split at the hole itself. Bars as long as the hole or longer
//! (1h, 4h, 1d) cannot see it, so the day is counted from the one hole every
//! timeframe shows, the weekend, in steps of a day from the first bar of each
//! week.
use vstd::prelude::*;

use crate::htf::{lemma_runs_cut, lemma_runs_partition, partitions, runs_split, spans_fit, split_by_gap, steps_within, weeks_of, TWO_DAYS_MS};
use crate::text::{owned, str_eq};

verus! {

broadcast use vstd::string::group_string_axioms;

/// The gap inside a trading day's tape that is really the day roll.
pub const DAY_GAP_MS: i64 = 2_700_000;

/// The daily hole: a bar this long or longer hides it.
pub const DAILY_HOLE_MS: i64 = 3_600_000;

/// A day.
pub const DAY_MS: i64 = 86_400_000;

/// Which file the bars came from, and how many it held.
pub struct LevelsSourceDto {
    pub file: String,
    pub bars: usize,
    pub timeframe: String,
}

/// The slice of the file everything on a response was computed from.
pub struct LevelsWindowDto {
    /// Bars in the window.
    pub bars: usize,
    /// Trading days in it, measured in the stamps.
    pub days: usize,
    pub start_bar_ms: i64,
    pub end_bar_ms: i64,
    /// The profile's own window in trading days.
    pub profile_days: usize,
}

/// `GET /api/paper/levels`'s query.
pub struct LevelsQuery {
    pub market: String,
    pub tf: Option<String>,
    pub days: Option<usize>,
}

/// The profile's window when a query does not say, in trading days.
pub const DEFAULT_PROFILE_DAYS: usize = 5;

/// The most trading days a profile may span.
pub const MAX_PROFILE_DAYS: usize = 60;

/// The analysis window in trading days: two broker weeks, so the prior
/// week's extremes are levels that exist.
pub const ANALYSIS_DAYS: usize = 10;

/// The timeframe a levels query means: its own, or `15m`, the one the books
/// decide on.
pub open spec fn levels_timeframe(q: LevelsQuery) -> Seq<char> {
    match q.tf {
        Some(t) => t@,
        None => "15m"@,
    }
}

impl LevelsQuery {
    /// The timeframe asked for, or `15m`.
    pub fn timeframe(&self) -> (t: String)
        ensures
            t@ == levels_timeframe(*self),
    {
        match &self.tf {
            Some(t) => t.clone(),
            None => crate::text::owned("15m"),
        }
    }

    /// The profile's window: the query's days, or [`DEFAULT_PROFILE_DAYS`],
    /// kept between one day and [`MAX_PROFILE_DAYS`].
    pub fn profile_days(&self) -> (n: usize)
        ensures
            n == ({
                let asked = match self.days {
                    Some(d) => d,
                    None => DEFAULT_PROFILE_DAYS,
                };
                if asked < 1 { 1 } else if asked > MAX_PROFILE_DAYS { MAX_PROFILE_DAYS } else { asked }
            }),
    {
        let asked = match self.days {
            Some(d) => d,
            None => DEFAULT_PROFILE_DAYS,
        };
        if asked < 1 { 1 } else if asked > MAX_PROFILE_DAYS { MAX_PROFILE_DAYS } else { asked }
    }
}

/// The run before the newest: the last complete day or week, when there is
/// one. The newest run is the one in progress.
pub fn prior_run(runs: &Vec<(usize, usize)>) -> (r: Option<(usize, usize)>)
    ensures
        runs@.len() < 2 ==> r is None,
        runs@.len() >= 2 ==> r == Some(runs@[runs@.len() - 2]),
{
    if runs.len() < 2 {
        None
    } else {
        Some(runs[runs.len() - 2])
    }
}

/// The MT5 name for each of this desk's timeframes; anything else is passed
/// through.
pub open spec fn levels_mt5(tf: Seq<char>) -> Seq<char> {
    if tf == "1m"@ {
        "M1"@
    } else if tf == "5m"@ {
        "M5"@
    } else if tf == "15m"@ {
        "M15"@
    } else if tf == "30m"@ {
        "M30"@
    } else if tf == "1h"@ {
        "H1"@
    } else if tf == "4h"@ {
        "H4"@
    } else if tf == "1d"@ {
        "D1"@
    } else {
        tf
    }
}

/// The MT5 name for one of our timeframes, for the export hint in a
/// refusal. Exhaustive, so no timeframe is named as another.
pub fn mt5_name(timeframe: &str) -> (name: String)
    ensures
        name@ == levels_mt5(timeframe@),
{
    if str_eq(timeframe, "1m") {
        owned("M1")
    } else if str_eq(timeframe, "5m") {
        owned("M5")
    } else if str_eq(timeframe, "15m") {
        owned("M15")
    } else if str_eq(timeframe, "30m") {
        owned("M30")
    } else if str_eq(timeframe, "1h") {
        owned("H1")
    } else if str_eq(timeframe, "4h") {
        owned("H4")
    } else if str_eq(timeframe, "1d") {
        owned("D1")
    } else {
        owned(timeframe)
    }
}

/// Division rounding toward zero, as Rust's `/` on integers does.
pub open spec fn tdiv(a: int, b: int) -> int {
    if a >= 0 {
        a / b
    } else {
        -((-a) / b)
    }
}

/// The day of the week anchored at `anchor` that stamp `i` falls in.
pub open spec fn day_index(t: Seq<i64>, anchor: int, i: int) -> int {
    tdiv(t[i] - anchor, DAY_MS as int)
}

/// The days of one week `[.., end)` from a day open at `start`, looking at
/// index `i`: a new day begins wherever the day index changes.
pub open spec fn days_from(t: Seq<i64>, anchor: int, end: int, start: int, i: int) -> Seq<(int, int)>
    decreases end - i,
{
    if i >= end {
        seq![(start, end)]
    } else if day_index(t, anchor, i) != day_index(t, anchor, start) {
        seq![(start, i)] + days_from(t, anchor, end, i, i + 1)
    } else {
        days_from(t, anchor, end, start, i + 1)
    }
}

/// The days of a list of weeks, each week anchored at its own first bar.
pub open spec fn days_of_weeks(t: Seq<i64>, weeks: Seq<(int, int)>) -> Seq<(int, int)>
    decreases weeks.len(),
{
    if weeks.len() == 0 {
        Seq::empty()
    } else {
        let w = weeks.last();
        days_of_weeks(t, weeks.drop_last()) + days_from(t, t[w.0] as int, w.1, w.0, w.0)
    }
}

/// The trading days of a series, as index ranges, oldest first.
pub open spec fn trading_days(t: Seq<i64>, bar_ms: int) -> Seq<(int, int)> {
    if bar_ms < DAILY_HOLE_MS {
        runs_split(t, DAY_GAP_MS as int)
    } else {
        days_of_weeks(t, runs_split(t, TWO_DAYS_MS as int))
    }
}

/// `(t[i] - anchor) / DAY_MS`, rounding toward zero.
fn day_of(t: &[i64], anchor: i64, i: usize) -> (d: i64)
    requires
        i < t@.len(),
        i64::MIN <= t@[i as int] - anchor <= i64::MAX,
    ensures
        d == day_index(t@, anchor as int, i as int),
{
    let diff: i128 = t[i] as i128 - anchor as i128;
    if diff >= 0 {
        (diff / (DAY_MS as i128)) as i64
    } else {
        (0 - ((0 - diff) / (DAY_MS as i128))) as i64
    }
}

/// Index ranges as the contracts see them.
pub open spec fn ranges_view(v: Seq<(usize, usize)>) -> Seq<(int, int)> {
    v.map_values(|r: (usize, usize)| (r.0 as int, r.1 as int))
}

/// Append the days of the week `[s, e)`, anchored at its first bar.
fn push_week_days(t: &[i64], s: usize, e: usize, out: &mut Vec<(usize, usize)>)
    requires
        s < e <= t@.len(),
        spans_fit(t@),
    ensures
        ranges_view(final(out)@) == ranges_view(old(out)@) + days_from(t@, t@[s as int] as int, e as int, s as int, s as int),
{
    let anchor = t[s];
    let ghost base = ranges_view(out@);
    let ghost week_days = days_from(t@, anchor as int, e as int, s as int, s as int);
    let mut start = s;
    let mut i = s;
    while i < e
        invariant
            s <= start <= i <= e <= t@.len(),
            anchor == t@[s as int],
            spans_fit(t@),
            ranges_view(out@) + days_from(t@, anchor as int, e as int, start as int, i as int) == base + week_days,
        decreases e - i,
    {
        let ghost rest = days_from(t@, anchor as int, e as int, start as int, i as int);
        let di = day_of(t, anchor, i);
        let ds = day_of(t, anchor, start);
        if di != ds {
            let ghost next = days_from(t@, anchor as int, e as int, i as int, i + 1);
            assert(rest == seq![(start as int, i as int)] + next);
            let ghost before = ranges_view(out@);
            out.push((start, i));
            assert(ranges_view(out@) =~= before.push((start as int, i as int)));
            assert(ranges_view(out@) + next =~= before + rest);
            start = i;
        }
        i = i + 1;
    }
    let ghost rest = days_from(t@, anchor as int, e as int, start as int, i as int);
    assert(rest == seq![(start as int, e as int)]);
    let ghost before = ranges_view(out@);
    out.push((start, e));
    assert(ranges_view(out@) =~= before + rest);
}

/// The trading days of a series, as index ranges, oldest first. Bars
/// shorter than the daily hole split at the hole; longer bars are counted in
/// days from the first bar of each week, the anchor re-taken every week.
pub fn trading_day_runs(t: &[i64], bar_ms: i64) -> (runs: Vec<(usize, usize)>)
    requires
        spans_fit(t@),
    ensures
        ranges_view(runs@) == trading_days(t@, bar_ms as int),
{
    if bar_ms < DAILY_HOLE_MS {
        let r = split_by_gap(t, DAY_GAP_MS);
        assert(ranges_view(r@) =~= trading_days(t@, bar_ms as int));
        return r;
    }
    let weeks = weeks_of(t);
    let ghost ws = runs_split(t@, TWO_DAYS_MS as int);
    proof {
        lemma_runs_partition(t@, TWO_DAYS_MS as int);
    }
    let mut out: Vec<(usize, usize)> = Vec::new();
    let mut w: usize = 0;
    assert(ws.take(0) =~= Seq::<(int, int)>::empty());
    assert(ranges_view(out@) =~= Seq::<(int, int)>::empty());
    while w < weeks.len()
        invariant
            w <= weeks@.len(),
            weeks@.len() == ws.len(),
            spans_fit(t@),
            ws == runs_split(t@, TWO_DAYS_MS as int),
            ws.len() > 0 ==> partitions(ws, 0, t@.len() as int),
            forall|k: int| 0 <= k < weeks@.len() ==> (#[trigger] weeks@[k]).0 as int == ws[k].0 && weeks@[k].1 as int == ws[k].1,
            ranges_view(out@) == days_of_weeks(t@, ws.take(w as int)),
        decreases weeks@.len() - w,
    {
        let (s, e) = weeks[w];
        proof {
            lemma_partition_bounds(ws, 0, t@.len() as int, w as int);
        }
        assert(ws.take(w + 1).drop_last() =~= ws.take(w as int));
        assert(ws.take(w + 1).last() == ws[w as int]);
        push_week_days(t, s, e, &mut out);
        w = w + 1;
    }
    assert(ws.take(weeks@.len() as int) =~= ws);
    out
}

/// Each range of a partition lies inside it, non-empty.
proof fn lemma_partition_bounds(runs: Seq<(int, int)>, lo: int, hi: int, k: int)
    requires
        partitions(runs, lo, hi),
        0 <= k < runs.len(),
        0 <= lo,
    ensures
        lo <= runs[k].0 < runs[k].1 <= hi,
    decreases runs.len() - k,
{
    if k < runs.len() - 1 {
        lemma_partition_bounds(runs, lo, hi, k + 1);
    } else {
        assert(runs[k] == runs.last());
    }
    lemma_partition_lower(runs, lo, hi, k);
}

/// Each range of a partition starts at or after its low end.
proof fn lemma_partition_lower(runs: Seq<(int, int)>, lo: int, hi: int, k: int)
    requires
        partitions(runs, lo, hi),
        0 <= k < runs.len(),
    ensures
        lo <= runs[k].0,
    decreases k,
{
    if k > 0 {
        lemma_partition_lower(runs, lo, hi, k - 1);
        assert(runs[k - 1].1 == runs[k].0);
    }
}

/// The last `days` trading days of a series, as an index range running to
/// its end: fewer when the series holds fewer, and nothing for no bars or
/// no days.
pub fn last_days(t: &[i64], days: usize, bar_ms: i64) -> (r: Option<(usize, usize)>)
    requires
        spans_fit(t@),
    ensures
        (t@.len() == 0 || days == 0) ==> r is None,
        (t@.len() > 0 && days > 0) ==> {
            let runs = trading_days(t@, bar_ms as int);
            let first = if runs.len() > days { runs.len() - days } else { 0 };
            r matches Some((a, b)) && a as int == runs[first].0 && b == t@.len()
        },
{
    if t.len() == 0 || days == 0 {
        return None;
    }
    let runs = trading_day_runs(t, bar_ms);
    proof {
        lemma_trading_days_partition(t@, bar_ms as int);
    }
    let first = if runs.len() > days { runs.len() - days } else { 0 };
    assert(ranges_view(runs@)[first as int] == (runs@[first as int].0 as int, runs@[first as int].1 as int));
    Some((runs[first].0, t.len()))
}

/// Partitions laid end to end are a partition.
proof fn lemma_partitions_join(a: Seq<(int, int)>, b: Seq<(int, int)>, lo: int, mid: int, hi: int)
    requires
        partitions(a, lo, mid),
        partitions(b, mid, hi),
    ensures
        partitions(a + b, lo, hi),
{
    let c = a + b;
    assert(c[0] == a[0]);
    assert(c.last() == b.last());
    assert forall|k: int| 0 <= k < c.len() implies (#[trigger] c[k]).0 < c[k].1 by {
        if k >= a.len() {
            assert(c[k] == b[k - a.len()]);
        }
    }
    assert forall|k: int| 0 <= k < c.len() - 1 implies (#[trigger] c[k]).1 == c[k + 1].0 by {
        if k < a.len() - 1 {
            assert(c[k] == a[k] && c[k + 1] == a[k + 1]);
        } else if k == a.len() - 1 {
            assert(c[k] == a.last() && c[k + 1] == b[0]);
        } else {
            assert(c[k] == b[k - a.len()] && c[k + 1] == b[k + 1 - a.len()]);
        }
    }
}

/// The days of one week, from an open day, cover it end to end.
proof fn lemma_days_from_partition(t: Seq<i64>, anchor: int, end: int, start: int, i: int)
    requires
        start <= i <= end,
        start < end,
    ensures
        partitions(days_from(t, anchor, end, start, i), start, end),
    decreases end - i,
{
    let r = days_from(t, anchor, end, start, i);
    if i < end {
        if day_index(t, anchor, i) != day_index(t, anchor, start) {
            lemma_days_from_partition(t, anchor, end, i, i + 1);
            let rest = days_from(t, anchor, end, i, i + 1);
            lemma_partitions_join(seq![(start, i)], rest, start, i, end);
            assert(r == seq![(start, i)] + rest);
        } else {
            lemma_days_from_partition(t, anchor, end, start, i + 1);
        }
    }
}

/// A partition without its last range covers up to where that range starts.
proof fn lemma_partition_drop_last(runs: Seq<(int, int)>, lo: int, hi: int)
    requires
        partitions(runs, lo, hi),
        runs.len() > 1,
    ensures
        partitions(runs.drop_last(), lo, runs.last().0),
{
    let d = runs.drop_last();
    assert(d.last() == runs[runs.len() - 2]);
    assert(d[0] == runs[0]);
    assert forall|k: int| 0 <= k < d.len() implies (#[trigger] d[k]).0 < d[k].1 by {
        assert(d[k] == runs[k]);
    }
    assert forall|k: int| 0 <= k < d.len() - 1 implies (#[trigger] d[k]).1 == d[k + 1].0 by {
        assert(d[k] == runs[k] && d[k + 1] == runs[k + 1]);
    }
}

/// The days of a partition into weeks cover the same span.
proof fn lemma_days_of_weeks_partition(t: Seq<i64>, weeks: Seq<(int, int)>, lo: int, hi: int)
    requires
        partitions(weeks, lo, hi),
    ensures
        partitions(days_of_weeks(t, weeks), lo, hi),
    decreases weeks.len(),
{
    let w = weeks.last();
    assert(w == weeks[weeks.len() - 1]);
    assert(w.0 < w.1);
    lemma_days_from_partition(t, t[w.0] as int, w.1, w.0, w.0);
    if weeks.len() == 1 {
        assert(weeks.drop_last() =~= Seq::<(int, int)>::empty());
        assert(days_of_weeks(t, weeks.drop_last()) =~= Seq::<(int, int)>::empty());
        assert(days_of_weeks(t, weeks) =~= days_from(t, t[w.0] as int, w.1, w.0, w.0));
    } else {
        lemma_partition_drop_last(weeks, lo, hi);
        lemma_days_of_weeks_partition(t, weeks.drop_last(), lo, w.0);
        lemma_partitions_join(
            days_of_weeks(t, weeks.drop_last()),
            days_from(t, t[w.0] as int, w.1, w.0, w.0),
            lo,
            w.0,
            hi,
        );
    }
}

/// The trading days of a series cover it end to end, oldest first: every
/// bar belongs to exactly one day, and no day is empty.
pub proof fn lemma_trading_days_partition(t: Seq<i64>, bar_ms: int)
    ensures
        t.len() == 0 ==> trading_days(t, bar_ms).len() == 0,
        t.len() > 0 ==> partitions(trading_days(t, bar_ms), 0, t.len() as int),
{
    lemma_runs_partition(t, DAY_GAP_MS as int);
    lemma_runs_partition(t, TWO_DAYS_MS as int);
    if t.len() > 0 && bar_ms >= DAILY_HOLE_MS {
        lemma_days_of_weeks_partition(t, runs_split(t, TWO_DAYS_MS as int), 0, t.len() as int);
    }
    if t.len() == 0 && bar_ms >= DAILY_HOLE_MS {
        assert(runs_split(t, TWO_DAYS_MS as int).len() == 0);
    }
}

/// Stamps `j` and `s` fall on the same day of the week anchored at `anchor`.
pub open spec fn same_day(t: Seq<i64>, anchor: int, j: int, s: int) -> bool {
    day_index(t, anchor, j) == day_index(t, anchor, s)
}

/// The days of one week, from an open day, break exactly where the day
/// changes: every stamp of a day falls on that day's first stamp's day, and
/// each day after the first falls on another day than the one before it.
proof fn lemma_days_from_cut(t: Seq<i64>, anchor: int, end: int, start: int, i: int)
    requires
        start < i <= end,
        forall|j: int| start <= j < i ==> #[trigger] same_day(t, anchor, j, start),
    ensures
        ({
            let d = days_from(t, anchor, end, start, i);
            &&& forall|k: int, j: int|
                #![trigger d[k], same_day(t, anchor, j, d[k].0)]
                0 <= k < d.len() && d[k].0 <= j < d[k].1 ==> same_day(t, anchor, j, d[k].0)
            &&& forall|k: int| 0 <= k < d.len() - 1 ==> !same_day(t, anchor, d[k + 1].0, (#[trigger] d[k]).0)
        }),
    decreases end - i,
{
    let d = days_from(t, anchor, end, start, i);
    if i < end {
        if day_index(t, anchor, i) != day_index(t, anchor, start) {
            assert(same_day(t, anchor, i, i));
            lemma_days_from_cut(t, anchor, end, i, i + 1);
            lemma_days_from_partition(t, anchor, end, i, i + 1);
            let rest = days_from(t, anchor, end, i, i + 1);
            assert(d == seq![(start, i)] + rest);
            assert forall|k: int, j: int|
                #![trigger d[k], same_day(t, anchor, j, d[k].0)]
                0 <= k < d.len() && d[k].0 <= j < d[k].1 implies same_day(t, anchor, j, d[k].0) by {
                if k > 0 {
                    assert(d[k] == rest[k - 1]);
                }
            }
            assert forall|k: int| 0 <= k < d.len() - 1 implies !same_day(t, anchor, d[k + 1].0, (#[trigger] d[k]).0) by {
                if k > 0 {
                    assert(d[k] == rest[k - 1] && d[k + 1] == rest[k]);
                } else {
                    assert(d[1] == rest[0]);
                }
            }
        } else {
            assert(same_day(t, anchor, i, start));
            lemma_days_from_cut(t, anchor, end, start, i + 1);
            assert(d == days_from(t, anchor, end, start, i + 1));
        }
    } else {
        assert(d == seq![(start, end)]);
        assert forall|k: int, j: int|
            #![trigger d[k], same_day(t, anchor, j, d[k].0)]
            0 <= k < d.len() && d[k].0 <= j < d[k].1 implies same_day(t, anchor, j, d[k].0) by {
            assert(d[k] == (start, end));
        }
    }
}

/// `day` lies inside one of `weeks`, and every stamp of it falls on the same
/// day of that week, counted from the week's first bar.
pub open spec fn day_in_week(t: Seq<i64>, weeks: Seq<(int, int)>, day: (int, int)) -> bool {
    exists|w: int|
        0 <= w < weeks.len() && weeks[w].0 <= day.0 && day.1 <= weeks[w].1 && forall|j: int|
            day.0 <= j < day.1 ==> #[trigger] same_day(t, t[weeks[w].0] as int, j, day.0)
}

/// Each day of a list of weeks is a day of one of them.
proof fn lemma_days_of_weeks_cut(t: Seq<i64>, weeks: Seq<(int, int)>)
    requires
        forall|w: int| 0 <= w < weeks.len() ==> 0 <= (#[trigger] weeks[w]).0 < weeks[w].1,
    ensures
        forall|k: int| 0 <= k < days_of_weeks(t, weeks).len() ==> day_in_week(t, weeks, #[trigger] days_of_weeks(t, weeks)[k]),
    decreases weeks.len(),
{
    if weeks.len() > 0 {
        let w = weeks.last();
        let n = weeks.len() - 1;
        assert(w == weeks[n]);
        let prefix = weeks.drop_last();
        lemma_days_of_weeks_cut(t, prefix);
        let a = days_of_weeks(t, prefix);
        let anchor = t[w.0] as int;
        let b = days_from(t, anchor, w.1, w.0, w.0);
        assert(same_day(t, anchor, w.0, w.0));
        assert(b == days_from(t, anchor, w.1, w.0, w.0 + 1));
        lemma_days_from_cut(t, anchor, w.1, w.0, w.0 + 1);
        lemma_days_from_partition(t, anchor, w.1, w.0, w.0);
        let all = days_of_weeks(t, weeks);
        assert(all == a + b);
        assert forall|k: int| 0 <= k < all.len() implies day_in_week(t, weeks, #[trigger] all[k]) by {
            if k < a.len() {
                assert(all[k] == a[k]);
                assert(day_in_week(t, prefix, a[k]));
                let v = choose|v: int|
                    0 <= v < prefix.len() && prefix[v].0 <= a[k].0 && a[k].1 <= prefix[v].1 && forall|j: int|
                        a[k].0 <= j < a[k].1 ==> #[trigger] same_day(t, t[prefix[v].0] as int, j, a[k].0);
                assert(prefix[v] == weeks[v]);
            } else {
                let m = k - a.len();
                assert(all[k] == b[m]);
                lemma_partition_bounds(b, w.0, w.1, m);
                assert forall|j: int| b[m].0 <= j < b[m].1 implies #[trigger] same_day(t, t[weeks[n].0] as int, j, b[m].0) by {
                    assert(same_day(t, anchor, j, b[m].0));
                }
            }
        }
    }
}

/// The trading days of a series, stated directly: for bars finer than the
/// daily hole a day breaks exactly where two bars are more than
/// [`DAY_GAP_MS`] apart; otherwise each day lies inside one week (a run with
/// no gap of two days) and all its bars fall on one day of that week,
/// counted from the week's first bar, with each day of a week on another
/// day than the one before it.
pub proof fn lemma_trading_days_cut(t: Seq<i64>, bar_ms: int)
    ensures
        ({
            let d = trading_days(t, bar_ms);
            let weeks = runs_split(t, TWO_DAYS_MS as int);
            &&& bar_ms < DAILY_HOLE_MS ==> {
                &&& forall|k: int, j: int|
                    #![trigger d[k], steps_within(t, DAY_GAP_MS as int, j)]
                    0 <= k < d.len() && d[k].0 < j < d[k].1 ==> steps_within(t, DAY_GAP_MS as int, j)
                &&& forall|k: int| 0 < k < d.len() ==> !steps_within(t, DAY_GAP_MS as int, (#[trigger] d[k]).0)
            }
            &&& bar_ms >= DAILY_HOLE_MS ==> forall|k: int| 0 <= k < d.len() ==> day_in_week(t, weeks, #[trigger] d[k])
        }),
{
    lemma_runs_cut(t, DAY_GAP_MS as int);
    if bar_ms >= DAILY_HOLE_MS {
        let weeks = runs_split(t, TWO_DAYS_MS as int);
        lemma_runs_partition(t, TWO_DAYS_MS as int);
        if t.len() > 0 {
            assert forall|w: int| 0 <= w < weeks.len() implies 0 <= (#[trigger] weeks[w]).0 < weeks[w].1 by {
                lemma_partition_bounds(weeks, 0, t.len() as int, w);
            }
        }
        lemma_days_of_weeks_cut(t, weeks);
    }
}

} // verus!
