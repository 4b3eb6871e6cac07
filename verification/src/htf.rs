//! The higher-timeframe facts' rules that do not touch a price: the names a
//! refusal gives the exporter, the weeks of a series found by its weekend
//! hole, and the label a structure rule gives from the comparisons of its
//! swings.
//!
//! This route refuses to resample: the broker's H4 and D1 candles are not on
//! the epoch's grid, so a missing file is named, with the export command
//! that fixes it, rather than rebuilt from a finer series.
use vstd::prelude::*;

use crate::text::{owned, str_eq};

verus! {

broadcast use vstd::string::group_string_axioms;

/// Which file the bars came from, and how many were read.
pub struct HtfSourceDto {
    /// The parquet the bars were read from, relative to the data root.
    pub file: String,
    pub bars: usize,
    /// Always the timeframe asked for; a mismatch is refused.
    pub timeframe: String,
}

/// `UP` needs a higher high and a higher low, `DOWN` a lower high and a
/// lower low; anything else is `RANGE`.
#[derive(Clone, Copy, PartialEq, Eq, Structural)]
pub enum Structure {
    Up,
    Down,
    Range,
}

/// Which side of the break level ends the structure.
#[derive(Clone, Copy, PartialEq, Eq, Structural)]
pub enum BreakSide {
    /// Trading below it ends an up-structure (its last higher low).
    Below,
    /// Trading above it ends a down-structure (its last lower high).
    Above,
}

/// `GET /api/paper/htf`'s query.
pub struct HtfQuery {
    pub market: String,
}

/// The MT5 name of one of this route's timeframes, for the export command
/// in a refusal; anything else is passed through.
pub open spec fn htf_mt5(tf: Seq<char>) -> Seq<char> {
    if tf == "1h"@ {
        "H1"@
    } else if tf == "4h"@ {
        "H4"@
    } else if tf == "1d"@ {
        "D1"@
    } else {
        tf
    }
}

/// The MT5 name for one of this route's timeframes.
pub fn mt5_name(timeframe: &str) -> (name: String)
    ensures
        name@ == htf_mt5(timeframe@),
{
    if str_eq(timeframe, "1h") {
        owned("H1")
    } else if str_eq(timeframe, "4h") {
        owned("H4")
    } else if str_eq(timeframe, "1d") {
        owned("D1")
    } else {
        owned(timeframe)
    }
}

/// The label the fractal rule gives, from how the last two swing highs and
/// the last two swing lows compare.
pub open spec fn fractal_structure(higher_high: bool, higher_low: bool, lower_high: bool, lower_low: bool) -> Structure {
    if higher_high && higher_low {
        Structure::Up
    } else if lower_high && lower_low {
        Structure::Down
    } else {
        Structure::Range
    }
}

/// The fractal rule's label: up on a higher high and a higher low, down on a
/// lower high and a lower low, otherwise a range.
pub fn fractal_label(higher_high: bool, higher_low: bool, lower_high: bool, lower_low: bool) -> (s: Structure)
    ensures
        s == fractal_structure(higher_high, higher_low, lower_high, lower_low),
{
    if higher_high && higher_low {
        Structure::Up
    } else if lower_high && lower_low {
        Structure::Down
    } else {
        Structure::Range
    }
}

/// The zigzag rule's label: the leg runs the other way from the pivot that
/// ended the last one, and there is no leg before the first pivot.
pub fn zigzag_label(last_pivot_is_high: Option<bool>) -> (s: Structure)
    ensures
        s == (match last_pivot_is_high {
            Some(true) => Structure::Down,
            Some(false) => Structure::Up,
            None => Structure::Range,
        }),
{
    match last_pivot_is_high {
        Some(true) => Structure::Down,
        Some(false) => Structure::Up,
        None => Structure::Range,
    }
}

/// The side whose break ends a structure, and none on a range: a range has
/// no single price that changes its label.
pub fn break_side(label: Structure) -> (side: Option<BreakSide>)
    ensures
        side == (match label {
            Structure::Up => Some(BreakSide::Below),
            Structure::Down => Some(BreakSide::Above),
            Structure::Range => None,
        }),
{
    match label {
        Structure::Up => Some(BreakSide::Below),
        Structure::Down => Some(BreakSide::Above),
        Structure::Range => None,
    }
}

/* ---------------------------------------------------------------- runs */

/// Every difference of two stamps fits an `i64`.
pub open spec fn spans_fit(t: Seq<i64>) -> bool {
    forall|i: int, j: int| 0 <= i < t.len() && 0 <= j < t.len() ==> i64::MIN <= #[trigger] t[i] - #[trigger] t[j] <= i64::MAX
}

/// The runs of `t` from a run open at `start`, looking at index `i`: a new
/// run begins wherever consecutive stamps are more than `gap` apart.
pub open spec fn runs_from(t: Seq<i64>, gap: int, start: int, i: int) -> Seq<(int, int)>
    decreases t.len() - i,
{
    if i >= t.len() {
        seq![(start, t.len() as int)]
    } else if t[i] - t[i - 1] > gap {
        seq![(start, i)] + runs_from(t, gap, i, i + 1)
    } else {
        runs_from(t, gap, start, i + 1)
    }
}

/// `t` split into runs wherever consecutive stamps are more than `gap` apart,
/// as index ranges, oldest first.
pub open spec fn runs_split(t: Seq<i64>, gap: int) -> Seq<(int, int)> {
    if t.len() == 0 {
        Seq::empty()
    } else {
        runs_from(t, gap, 0, 1)
    }
}

/// `runs` cover `[lo, hi)` end to end: each non-empty, each starting where
/// the one before ended.
pub open spec fn partitions(runs: Seq<(int, int)>, lo: int, hi: int) -> bool {
    &&& runs.len() > 0
    &&& runs[0].0 == lo
    &&& runs.last().1 == hi
    &&& forall|k: int| 0 <= k < runs.len() ==> (#[trigger] runs[k]).0 < runs[k].1
    &&& forall|k: int| 0 <= k < runs.len() - 1 ==> (#[trigger] runs[k]).1 == runs[k + 1].0
}

/// The runs from an open run cover it and everything after it.
proof fn lemma_runs_from_partition(t: Seq<i64>, gap: int, start: int, i: int)
    requires
        0 <= start < i <= t.len(),
    ensures
        partitions(runs_from(t, gap, start, i), start, t.len() as int),
    decreases t.len() - i,
{
    let r = runs_from(t, gap, start, i);
    if i < t.len() {
        if t[i] - t[i - 1] > gap {
            lemma_runs_from_partition(t, gap, i, i + 1);
            let rest = runs_from(t, gap, i, i + 1);
            assert(r == seq![(start, i)] + rest);
            assert(r.last() == rest.last());
            assert forall|k: int| 0 <= k < r.len() implies (#[trigger] r[k]).0 < r[k].1 by {
                if k > 0 {
                    assert(r[k] == rest[k - 1]);
                }
            }
            assert forall|k: int| 0 <= k < r.len() - 1 implies (#[trigger] r[k]).1 == r[k + 1].0 by {
                if k > 0 {
                    assert(r[k] == rest[k - 1]);
                    assert(r[k + 1] == rest[k]);
                }
            }
        } else {
            lemma_runs_from_partition(t, gap, start, i + 1);
        }
    }
}

/// The runs of a split cover the whole series end to end.
pub proof fn lemma_runs_partition(t: Seq<i64>, gap: int)
    ensures
        t.len() == 0 ==> runs_split(t, gap).len() == 0,
        t.len() > 0 ==> partitions(runs_split(t, gap), 0, t.len() as int),
{
    if t.len() > 0 {
        lemma_runs_from_partition(t, gap, 0, 1);
    }
}

/// Stamp `j` follows the one before it by no more than `gap`.
pub open spec fn steps_within(t: Seq<i64>, gap: int, j: int) -> bool {
    t[j] - t[j - 1] <= gap
}

/// The runs from an open run break exactly at the gaps: inside each run
/// every step is within `gap`, and each run after the first opens on a step
/// past it.
proof fn lemma_runs_from_cut(t: Seq<i64>, gap: int, start: int, i: int)
    requires
        0 <= start < i <= t.len(),
        forall|j: int| start < j < i ==> #[trigger] steps_within(t, gap, j),
        start > 0 ==> !steps_within(t, gap, start),
    ensures
        ({
            let r = runs_from(t, gap, start, i);
            &&& forall|k: int, j: int|
                #![trigger r[k], steps_within(t, gap, j)]
                0 <= k < r.len() && r[k].0 < j < r[k].1 ==> steps_within(t, gap, j)
            &&& forall|k: int| 0 <= k < r.len() && (#[trigger] r[k]).0 > 0 ==> !steps_within(t, gap, r[k].0)
        }),
    decreases t.len() - i,
{
    let r = runs_from(t, gap, start, i);
    if i < t.len() {
        if t[i] - t[i - 1] > gap {
            lemma_runs_from_cut(t, gap, i, i + 1);
            let rest = runs_from(t, gap, i, i + 1);
            assert(r == seq![(start, i)] + rest);
            assert forall|k: int, j: int|
                #![trigger r[k], steps_within(t, gap, j)]
                0 <= k < r.len() && r[k].0 < j < r[k].1 implies steps_within(t, gap, j) by {
                if k > 0 {
                    assert(r[k] == rest[k - 1]);
                }
            }
            assert forall|k: int| 0 <= k < r.len() && (#[trigger] r[k]).0 > 0 implies !steps_within(t, gap, r[k].0) by {
                if k > 0 {
                    assert(r[k] == rest[k - 1]);
                }
            }
        } else {
            assert(steps_within(t, gap, i));
            lemma_runs_from_cut(t, gap, start, i + 1);
            assert(r == runs_from(t, gap, start, i + 1));
        }
    } else {
        assert(r == seq![(start, t.len() as int)]);
        assert forall|k: int, j: int|
            #![trigger r[k], steps_within(t, gap, j)]
            0 <= k < r.len() && r[k].0 < j < r[k].1 implies steps_within(t, gap, j) by {
            assert(r[k] == (start, t.len() as int));
        }
    }
}

/// A split breaks the series exactly at its gaps: consecutive stamps inside
/// a run are never more than `gap` apart, and every run but the first opens
/// more than `gap` after the stamp before it.
pub proof fn lemma_runs_cut(t: Seq<i64>, gap: int)
    ensures
        ({
            let r = runs_split(t, gap);
            &&& forall|k: int, j: int|
                #![trigger r[k], steps_within(t, gap, j)]
                0 <= k < r.len() && r[k].0 < j < r[k].1 ==> steps_within(t, gap, j)
            &&& forall|k: int| 0 < k < r.len() ==> !steps_within(t, gap, (#[trigger] r[k]).0)
        }),
{
    if t.len() > 0 {
        lemma_runs_from_cut(t, gap, 0, 1);
        lemma_runs_from_partition(t, gap, 0, 1);
        let r = runs_split(t, gap);
        assert forall|k: int| 0 < k < r.len() implies !steps_within(t, gap, (#[trigger] r[k]).0) by {
            assert(r[k - 1].1 == r[k].0);
            assert(r[k - 1].0 < r[k - 1].1);
            lemma_runs_start_positive(r, k);
        }
    }
}

/// In a partition that starts at 0, every range after the first starts
/// after 0.
proof fn lemma_runs_start_positive(r: Seq<(int, int)>, k: int)
    requires
        r.len() > 0,
        r[0].0 == 0,
        0 < k < r.len(),
        forall|m: int| 0 <= m < r.len() ==> (#[trigger] r[m]).0 < r[m].1,
        forall|m: int| 0 <= m < r.len() - 1 ==> (#[trigger] r[m]).1 == r[m + 1].0,
    ensures
        r[k].0 > 0,
    decreases k,
{
    assert(r[k - 1].1 == r[k].0);
    if k > 1 {
        lemma_runs_start_positive(r, k - 1);
    }
}

/// `t` split wherever consecutive stamps are more than `gap` apart.
pub fn split_by_gap(t: &[i64], gap: i64) -> (runs: Vec<(usize, usize)>)
    requires
        spans_fit(t@),
    ensures
        runs@.len() == runs_split(t@, gap as int).len(),
        forall|k: int| 0 <= k < runs@.len() ==> (#[trigger] runs@[k]).0 as int == runs_split(t@, gap as int)[k].0
            && runs@[k].1 as int == runs_split(t@, gap as int)[k].1,
{
    let mut out: Vec<(usize, usize)> = Vec::new();
    if t.len() == 0 {
        return out;
    }
    let mut start: usize = 0;
    let mut i: usize = 1;
    while i < t.len()
        invariant
            0 <= start < i <= t@.len(),
            spans_fit(t@),
            out@.len() + runs_from(t@, gap as int, start as int, i as int).len() == runs_split(t@, gap as int).len(),
            forall|k: int| 0 <= k < out@.len() ==> (#[trigger] out@[k]).0 as int == runs_split(t@, gap as int)[k].0
                && out@[k].1 as int == runs_split(t@, gap as int)[k].1,
            forall|k: int| 0 <= k < runs_from(t@, gap as int, start as int, i as int).len() ==> runs_split(t@, gap as int)[out@.len() + k]
                == #[trigger] runs_from(t@, gap as int, start as int, i as int)[k],
        decreases t@.len() - i,
    {
        let ghost rest = runs_from(t@, gap as int, start as int, i as int);
        assert(i64::MIN <= t@[i as int] - t@[i - 1] <= i64::MAX);
        if t[i] - t[i - 1] > gap {
            let ghost before = out@.len();
            let ghost next = runs_from(t@, gap as int, i as int, i + 1);
            assert(rest == seq![(start as int, i as int)] + next);
            assert(runs_split(t@, gap as int)[before as int] == rest[0]);
            out.push((start, i));
            assert forall|k: int| 0 <= k < next.len() implies runs_split(t@, gap as int)[out@.len() + k] == #[trigger] next[k] by {
                assert(rest[k + 1] == next[k]);
            }
            start = i;
        }
        i = i + 1;
    }
    let ghost rest = runs_from(t@, gap as int, start as int, i as int);
    assert(rest == seq![(start as int, t@.len() as int)]);
    let ghost before = out@.len();
    assert(runs_split(t@, gap as int)[before as int] == rest[0]);
    out.push((start, t.len()));
    out
}

/// A weekend: more than two days between consecutive daily stamps.
pub const TWO_DAYS_MS: i64 = 172_800_000;

/// The broker weeks of a series: split at the weekend hole rather than by
/// the calendar, so the daylight-saving shift of the stamps does not matter.
pub fn weeks_of(t: &[i64]) -> (weeks: Vec<(usize, usize)>)
    requires
        spans_fit(t@),
    ensures
        weeks@.len() == runs_split(t@, TWO_DAYS_MS as int).len(),
        forall|k: int| 0 <= k < weeks@.len() ==> (#[trigger] weeks@[k]).0 as int == runs_split(t@, TWO_DAYS_MS as int)[k].0
            && weeks@[k].1 as int == runs_split(t@, TWO_DAYS_MS as int)[k].1,
{
    split_by_gap(t, TWO_DAYS_MS)
}

/* ------------------------------------------------------ fractal swings */

/// A level as the swing rule compares it: a key that orders as the prices
/// do, `i64::MIN` and `i64::MAX` standing for the two infinities and `None`
/// for a price that is not a number (which compares with nothing).
pub open spec fn finite_level(v: Option<i64>) -> bool {
    v matches Some(x) && i64::MIN < x < i64::MAX
}

/// `c` beats the neighbour `o`: strictly above it for a swing high, strictly
/// below it for a swing low. Nothing beats a level that is not a number.
pub open spec fn beats(c: i64, o: Option<i64>, high: bool) -> bool {
    match o {
        Some(x) => if high { c > x } else { c < x },
        None => false,
    }
}

/// Bar `i` is a swing: a finite level with `n` bars on each side, every one
/// of them strictly beaten. Equal levels are not a swing: two equal highs
/// are a pause, not a peak.
pub open spec fn is_swing(v: Seq<Option<i64>>, i: int, n: int, high: bool) -> bool {
    &&& n > 0
    &&& n <= i < v.len() - n
    &&& finite_level(v[i])
    &&& forall|k: int| 1 <= k <= n ==> beats(v[i]->0, #[trigger] v[i - k], high) && beats(v[i]->0, v[i + k], high)
}

/// The swings among the first `k` bars, oldest first.
pub open spec fn swings_below(v: Seq<Option<i64>>, n: int, high: bool, k: int) -> Seq<int>
    decreases k,
{
    if k <= 0 {
        Seq::empty()
    } else if is_swing(v, k - 1, n, high) {
        swings_below(v, n, high, k - 1).push(k - 1)
    } else {
        swings_below(v, n, high, k - 1)
    }
}

/// Does `c` beat `o`?
fn beats_exec(c: i64, o: Option<i64>, high: bool) -> (r: bool)
    ensures
        r == beats(c, o, high),
{
    match o {
        Some(x) => if high { c > x } else { c < x },
        None => false,
    }
}

/// The fractal swings of a series of levels, oldest first: a swing is only
/// reported once its `n` bars on the right have closed, so a reported swing
/// never changes.
pub fn fractal_swings(v: &Vec<Option<i64>>, n: usize, high: bool) -> (out: Vec<usize>)
    ensures
        out@.len() == swings_below(v@, n as int, high, v@.len() as int).len(),
        forall|j: int| 0 <= j < out@.len() ==> (#[trigger] out@[j]) as int == swings_below(v@, n as int, high, v@.len() as int)[j],
{
    let mut out: Vec<usize> = Vec::new();
    let len = v.len();
    let mut i: usize = 0;
    while i < len
        invariant
            len == v@.len(),
            i <= len,
            out@.len() == swings_below(v@, n as int, high, i as int).len(),
            forall|j: int| 0 <= j < out@.len() ==> (#[trigger] out@[j]) as int == swings_below(v@, n as int, high, i as int)[j],
        decreases len - i,
    {
        let mut swing = false;
        if n > 0 && n <= i && i < len - n {
            match v[i] {
                Some(c) => {
                    if i64::MIN < c && c < i64::MAX {
                        let mut all = true;
                        let mut k: usize = 1;
                        while k <= n
                            invariant
                                0 < n <= i < len - n,
                                len == v@.len(),
                                1 <= k <= n + 1,
                                v@[i as int] == Some(c),
                                all == forall|q: int| 1 <= q < k ==> beats(c, #[trigger] v@[i - q], high) && beats(c, v@[i + q], high),
                            decreases n + 1 - k,
                        {
                            let ok = beats_exec(c, v[i - k], high) && beats_exec(c, v[i + k], high);
                            all = all && ok;
                            k = k + 1;
                        }
                        swing = all;
                    }
                },
                None => {},
            }
        }
        assert(swing == is_swing(v@, i as int, n as int, high));
        if swing {
            out.push(i);
        }
        i = i + 1;
    }
    out
}

/// What the fractal rule reads off a series: the last two swing highs and
/// lows (by index), the label their comparison gives, the swing whose level
/// is the break, and the bar that confirmed the newest swing.
pub struct FractalRead {
    pub last_high: Option<usize>,
    pub prior_high: Option<usize>,
    pub last_low: Option<usize>,
    pub prior_low: Option<usize>,
    pub label: Structure,
    /// The swing whose level is the break level: the last low of an up
    /// structure, the last high of a down one, none on a range.
    pub break_at: Option<usize>,
    pub break_side: Option<BreakSide>,
    /// The bar `n` after the newest swing, which confirmed it.
    pub confirmed_at: Option<usize>,
}

/// The `back`-th swing from the end (1 is the last), if there are that many.
pub open spec fn from_end(s: Seq<int>, back: int) -> Option<int> {
    if s.len() >= back { Some(s[s.len() - back]) } else { None }
}

/// The two swings compare with the newer above the older.
pub open spec fn rose(v: Seq<Option<i64>>, last: Option<int>, prior: Option<int>) -> bool {
    last matches Some(a) && prior matches Some(b) && v[a]->0 > v[b]->0
}

/// The two swings compare with the newer below the older.
pub open spec fn fell(v: Seq<Option<i64>>, last: Option<int>, prior: Option<int>) -> bool {
    last matches Some(a) && prior matches Some(b) && v[a]->0 < v[b]->0
}

/// An optional index, as one.
pub open spec fn at(i: Option<int>) -> Option<usize> {
    match i {
        Some(k) => Some(k as usize),
        None => None,
    }
}

/// `r` is the fractal rule's reading of `highs` and `lows` with `n` bars a
/// side.
pub open spec fn is_fractal_read(highs: Seq<Option<i64>>, lows: Seq<Option<i64>>, n: int, r: FractalRead) -> bool {
    let h = swings_below(highs, n, true, highs.len() as int);
    let l = swings_below(lows, n, false, lows.len() as int);
    let lh = from_end(h, 1);
    let ph = from_end(h, 2);
    let ll = from_end(l, 1);
    let pl = from_end(l, 2);
    let label = fractal_structure(rose(highs, lh, ph), rose(lows, ll, pl), fell(highs, lh, ph), fell(lows, ll, pl));
    let newest = match (lh, ll) {
        (Some(a), Some(b)) => Some(if a > b { a } else { b }),
        (Some(a), None) => Some(a),
        (None, Some(b)) => Some(b),
        (None, None) => None,
    };
    &&& r.last_high == at(lh)
    &&& r.prior_high == at(ph)
    &&& r.last_low == at(ll)
    &&& r.prior_low == at(pl)
    &&& r.label == label
    &&& r.break_at == (match label {
        Structure::Up => at(ll),
        Structure::Down => at(lh),
        Structure::Range => None,
    })
    &&& r.break_side == (match label {
        Structure::Up => Some(BreakSide::Below),
        Structure::Down => Some(BreakSide::Above),
        Structure::Range => None,
    })
    &&& r.confirmed_at == (match newest {
        Some(i) => Some((i + n) as usize),
        None => None,
    })
}

/// Swings lie inside the series, oldest first.
proof fn lemma_swings_inside(v: Seq<Option<i64>>, n: int, high: bool, k: int)
    requires
        0 <= k <= v.len(),
    ensures
        forall|j: int| 0 <= j < swings_below(v, n, high, k).len() ==> is_swing(v, #[trigger] swings_below(v, n, high, k)[j], n, high)
            && 0 <= swings_below(v, n, high, k)[j] < k,
    decreases k,
{
    if k > 0 {
        lemma_swings_inside(v, n, high, k - 1);
        let r = swings_below(v, n, high, k - 1);
        let s = swings_below(v, n, high, k);
        assert forall|j: int| 0 <= j < s.len() implies is_swing(v, #[trigger] s[j], n, high) && 0 <= s[j] < k by {
            if j < r.len() {
                assert(s[j] == r[j]);
            }
        }
    }
}

/// The swings below `k` are the first of those below any `m >= k`.
proof fn lemma_swings_grow(v: Seq<Option<i64>>, n: int, high: bool, k: int, m: int)
    requires
        0 <= k <= m,
    ensures
        swings_below(v, n, high, k).is_prefix_of(swings_below(v, n, high, m)),
    decreases m - k,
{
    if k < m {
        lemma_swings_grow(v, n, high, k, m - 1);
    }
}

/// Whether bar `i` is a swing depends only on the `n` bars each side of it.
proof fn lemma_swing_same(v: Seq<Option<i64>>, w: Seq<Option<i64>>, i: int, n: int, high: bool)
    requires
        0 < n <= i,
        i + n < v.len() <= w.len(),
        forall|j: int| 0 <= j < v.len() ==> v[j] == w[j],
    ensures
        is_swing(v, i, n, high) == is_swing(w, i, n, high),
{
    assert(v[i] == w[i]);
    let c = v[i]->0;
    if is_swing(v, i, n, high) {
        assert forall|q: int| 1 <= q <= n implies beats(c, #[trigger] w[i - q], high) && beats(c, w[i + q], high) by {
            assert(v[i - q] == w[i - q]);
            assert(v[i + q] == w[i + q]);
            assert(beats(c, v[i - q], high) && beats(c, v[i + q], high));
        }
    }
    if is_swing(w, i, n, high) {
        assert forall|q: int| 1 <= q <= n implies beats(c, #[trigger] v[i - q], high) && beats(c, v[i + q], high) by {
            assert(v[i - q] == w[i - q]);
            assert(v[i + q] == w[i + q]);
            assert(beats(c, w[i - q], high) && beats(c, w[i + q], high));
        }
    }
}

/// Up to `k`, two series that agree on their first `k + n` levels have the
/// same swings.
proof fn lemma_swings_agree(v: Seq<Option<i64>>, w: Seq<Option<i64>>, n: int, high: bool, k: int)
    requires
        0 <= k,
        0 <= n,
        k == 0 || k + n <= v.len(),
        v.len() <= w.len(),
        forall|i: int| 0 <= i < v.len() ==> v[i] == w[i],
    ensures
        swings_below(v, n, high, k) == swings_below(w, n, high, k),
    decreases k,
{
    if k > 0 {
        lemma_swings_agree(v, w, n, high, k - 1);
        let i = k - 1;
        if n > 0 && n <= i {
            lemma_swing_same(v, w, i, n, high);
        }
    }
}

/// No swing is reported among the last `n` bars: they have not been
/// confirmed yet.
proof fn lemma_swings_unconfirmed_tail(v: Seq<Option<i64>>, n: int, high: bool, k: int)
    requires
        0 <= n,
        0 <= k <= v.len(),
        k >= v.len() - n,
    ensures
        swings_below(v, n, high, k) == swings_below(v, n, high, if v.len() >= n { v.len() - n } else { 0 }),
    decreases k,
{
    let k0 = if v.len() >= n { v.len() - n } else { 0 };
    if k > k0 {
        assert(!is_swing(v, k - 1, n, high));
        lemma_swings_unconfirmed_tail(v, n, high, k - 1);
    }
}

/// A fractal never repaints: bars that arrive later never take back or
/// change a swing already reported; they can only add swings after it.
pub proof fn lemma_swings_never_repaint(v: Seq<Option<i64>>, w: Seq<Option<i64>>, n: int, high: bool)
    requires
        0 <= n,
        v.len() <= w.len(),
        forall|i: int| 0 <= i < v.len() ==> v[i] == w[i],
    ensures
        swings_below(v, n, high, v.len() as int).is_prefix_of(swings_below(w, n, high, w.len() as int)),
{
    let k0 = if v.len() >= n { v.len() - n } else { 0 };
    lemma_swings_unconfirmed_tail(v, n, high, v.len() as int);
    lemma_swings_agree(v, w, n, high, k0);
    lemma_swings_grow(w, n, high, k0, w.len() as int);
}

/// The `back`-th swing index from the end of `out`, if there is one.
fn nth_from_end(out: &Vec<usize>, back: usize) -> (r: Option<usize>)
    requires
        back >= 1,
    ensures
        r == (if out@.len() >= back { Some(out@[out@.len() - back]) } else { None::<usize> }),
{
    if out.len() >= back {
        Some(out[out.len() - back])
    } else {
        None
    }
}

/// The fractal rule's reading of a series: swings `n` bars a side on the
/// highs and on the lows, the label from the last two of each, the break
/// level's swing, and the bar that confirmed the newest swing.
pub fn read_fractal(highs: &Vec<Option<i64>>, lows: &Vec<Option<i64>>, n: usize) -> (r: FractalRead)
    ensures
        is_fractal_read(highs@, lows@, n as int, r),
{
    let h = fractal_swings(highs, n, true);
    let l = fractal_swings(lows, n, false);
    proof {
        lemma_swings_inside(highs@, n as int, true, highs@.len() as int);
        lemma_swings_inside(lows@, n as int, false, lows@.len() as int);
    }
    let ghost hs = swings_below(highs@, n as int, true, highs@.len() as int);
    let ghost ls = swings_below(lows@, n as int, false, lows@.len() as int);
    let lh = nth_from_end(&h, 1);
    let ph = nth_from_end(&h, 2);
    let ll = nth_from_end(&l, 1);
    let pl = nth_from_end(&l, 2);
    assert(lh == at(from_end(hs, 1)));
    assert(ph == at(from_end(hs, 2)));
    assert(ll == at(from_end(ls, 1)));
    assert(pl == at(from_end(ls, 2)));
    let level = |v: &Vec<Option<i64>>, i: usize| -> (x: i64)
        requires
            i < v@.len(),
            v@[i as int] is Some,
        ensures
            Some(x) == v@[i as int],
    {
        match v[i] {
            Some(x) => x,
            None => 0,
        }
    };
    let (hh, lhf) = match (lh, ph) {
        (Some(a), Some(b)) => {
            let x = level(highs, a);
            let y = level(highs, b);
            (x > y, x < y)
        },
        _ => (false, false),
    };
    let (hl, llf) = match (ll, pl) {
        (Some(a), Some(b)) => {
            let x = level(lows, a);
            let y = level(lows, b);
            (x > y, x < y)
        },
        _ => (false, false),
    };
    let label = fractal_label(hh, hl, lhf, llf);
    let (break_at, side) = match label {
        Structure::Up => (ll, Some(BreakSide::Below)),
        Structure::Down => (lh, Some(BreakSide::Above)),
        Structure::Range => (None, None),
    };
    let newest = match (lh, ll) {
        (Some(a), Some(b)) => Some(if a > b { a } else { b }),
        (Some(a), None) => Some(a),
        (None, Some(b)) => Some(b),
        (None, None) => None,
    };
    proof {
        if h@.len() >= 1 {
            assert(is_swing(highs@, hs[hs.len() - 1], n as int, true));
        }
        if l@.len() >= 1 {
            assert(is_swing(lows@, ls[ls.len() - 1], n as int, false));
        }
    }
    let longest = if highs.len() > lows.len() { highs.len() } else { lows.len() };
    let confirmed_at = match newest {
        Some(i) => {
            assert(i + n < longest);
            Some(i + n)
        },
        None => None,
    };
    FractalRead {
        last_high: lh,
        prior_high: ph,
        last_low: ll,
        prior_low: pl,
        label,
        break_at,
        break_side: side,
        confirmed_at,
    }
}

/// The fractal label, by how the legs moved: up exactly when both the highs
/// and the lows rose, down exactly when both fell (and they did not both
/// rise), and a range whenever the two legs disagree or either has not
/// moved.
pub proof fn lemma_fractal_label_needs_both_legs(higher_high: bool, higher_low: bool, lower_high: bool, lower_low: bool)
    ensures
        (fractal_structure(higher_high, higher_low, lower_high, lower_low) == Structure::Up) == (higher_high
            && higher_low),
        (fractal_structure(higher_high, higher_low, lower_high, lower_low) == Structure::Down) == (!(higher_high
            && higher_low) && lower_high && lower_low),
        (fractal_structure(higher_high, higher_low, lower_high, lower_low) == Structure::Range) == (!(higher_high
            && higher_low) && !(lower_high && lower_low)),
{
}

/// What the fractal rule reads, in the series' own numbers: the label is up
/// exactly when the last swing high stands above the one before it and the
/// last swing low above the one before it, down exactly when both stand
/// below, and a range otherwise, a lower high with a higher low among them.
/// An up structure breaks below its last swing low, a down one above its
/// last swing high, and a range has no break.
pub proof fn lemma_fractal_read_law(highs: Seq<Option<i64>>, lows: Seq<Option<i64>>, n: int, r: FractalRead)
    requires
        is_fractal_read(highs, lows, n, r),
        highs.len() <= usize::MAX,
        lows.len() <= usize::MAX,
    ensures
        ({
            let up_highs = r.last_high matches Some(a) && r.prior_high matches Some(b) && highs[a as int]->0
                > highs[b as int]->0;
            let up_lows = r.last_low matches Some(a) && r.prior_low matches Some(b) && lows[a as int]->0
                > lows[b as int]->0;
            let down_highs = r.last_high matches Some(a) && r.prior_high matches Some(b) && highs[a as int]->0
                < highs[b as int]->0;
            let down_lows = r.last_low matches Some(a) && r.prior_low matches Some(b) && lows[a as int]->0
                < lows[b as int]->0;
            &&& (r.label == Structure::Up) == (up_highs && up_lows)
            &&& (r.label == Structure::Down) == (down_highs && down_lows)
            &&& (r.label == Structure::Range) == (!(up_highs && up_lows) && !(down_highs && down_lows))
            &&& r.label == Structure::Up ==> r.break_at == r.last_low && r.break_side == Some(BreakSide::Below)
            &&& r.label == Structure::Down ==> r.break_at == r.last_high && r.break_side == Some(BreakSide::Above)
            &&& r.label == Structure::Range ==> r.break_at is None && r.break_side is None
        }),
{
    let h = swings_below(highs, n, true, highs.len() as int);
    let l = swings_below(lows, n, false, lows.len() as int);
    lemma_swings_inside(highs, n, true, highs.len() as int);
    lemma_swings_inside(lows, n, false, lows.len() as int);
    if h.len() >= 1 {
        assert(0 <= h[h.len() - 1] < highs.len());
    }
    if h.len() >= 2 {
        assert(0 <= h[h.len() - 2] < highs.len());
    }
    if l.len() >= 1 {
        assert(0 <= l[l.len() - 1] < lows.len());
    }
    if l.len() >= 2 {
        assert(0 <= l[l.len() - 2] < lows.len());
    }
}

} // verus!
