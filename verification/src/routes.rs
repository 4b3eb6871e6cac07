//! The chart routes' own rules: which market and timeframe a query means,
//! how many bars it gets, and which stored series a chart is drawn from.
//!
//! The broker's clock is a whole number of hours from UTC, so any bucket
//! that divides an hour lands on the same instants wherever the trading day
//! starts, and may be rebuilt from a finer series. Four hours and a day may
//! not: the broker's own candles for those start at its day roll, hours an
//! epoch-anchored resample never produces, so they come from an exported
//! file or not at all.
use vstd::prelude::*;

use crate::error::ApiError;
use crate::text::{chars_of, owned, parsed_i64, pieces, push_str, str_eq, string_of, trim};
use crate::version::days_from_civil;

verus! {

broadcast use vstd::string::group_string_axioms;

/// One hour, in epoch milliseconds.
pub const HOUR_MS: i64 = 3_600_000;

/// Is `step` a bucket whose boundaries are the same wherever the trading day
/// starts? True exactly when it is positive and divides an hour.
pub fn anchor_free(step: i64) -> (free: bool)
    ensures
        free == (step > 0 && HOUR_MS % step == 0),
{
    step > 0 && HOUR_MS % step == 0
}

/// A chart query: market, timeframe, and how many of the newest bars.
pub struct MarketQuery {
    pub market: Option<String>,
    pub tf: Option<String>,
    /// How many of the newest closed bars to return; absent means all.
    pub n: Option<usize>,
}

impl MarketQuery {
    /// The market asked for, or the configured one.
    pub fn market(&self, default_market: &str) -> (m: String)
        ensures
            m@ == (match &self.market {
                Some(x) => x@,
                None => default_market@,
            }),
    {
        match &self.market {
            Some(x) => x.clone(),
            None => owned(default_market),
        }
    }

    /// The timeframe asked for, or the configured one.
    pub fn timeframe(&self, default_tf: &str) -> (t: String)
        ensures
            t@ == (match &self.tf {
                Some(x) => x@,
                None => default_tf@,
            }),
    {
        match &self.tf {
            Some(x) => x.clone(),
            None => owned(default_tf),
        }
    }

    /// How many of the newest bars to keep: a caller asking for zero gets
    /// the whole series rather than an empty chart.
    pub fn window(&self) -> (n: Option<usize>)
        ensures
            n == (match self.n {
                Some(k) => if k > 0 { Some(k) } else { None },
                None => None,
            }),
    {
        match self.n {
            Some(k) => if k > 0 { Some(k) } else { None },
            None => None,
        }
    }
}

/// The newest `n` of a chart's bars, when the query names a window: cut
/// after any resample, so a rebuilt hour is built from every bar it needs.
pub fn trim_to_window<T>(bars: &mut Vec<T>, window: Option<usize>)
    ensures
        final(bars)@ == (match window {
            Some(n) => if old(bars)@.len() > n {
                old(bars)@.subrange(old(bars)@.len() - n, old(bars)@.len() as int)
            } else {
                old(bars)@
            },
            None => old(bars)@,
        }),
{
    if let Some(n) = window {
        crate::paper::keep_newest(bars, n);
    }
}

/* ------------------------------------------------- choosing the series */

/// A stored series at or below the step asked for: its step, and whether
/// its file holds any bars.
pub struct Stored {
    pub step: i64,
    pub has_bars: bool,
}

/// Where a chart's bars come from.
#[derive(PartialEq, Eq, Structural)]
pub enum Source {
    /// The file at exactly the step asked for; `finer` is the finest stored
    /// series below it, for the forming bar.
    Exact { at: usize, finer: Option<usize> },
    /// Rebuilt from the coarsest stored series below the step, which divides
    /// an hour; `finer` as above.
    Resampled { from: usize, finer: Option<usize> },
    /// No file at the step, and it may not be rebuilt.
    Refused,
    /// Nothing stored at or below the step.
    Nothing,
}

/// The last series in `s[..k]` with bars at exactly `step`.
pub open spec fn exact_in(s: Seq<Stored>, step: int, k: int) -> Option<int>
    decreases k,
{
    if k <= 0 {
        None
    } else if s[k - 1].has_bars && s[k - 1].step == step {
        Some(k - 1)
    } else {
        exact_in(s, step, k - 1)
    }
}

/// The first series with bars below `step` whose step is least, among
/// `s[..k]`.
pub open spec fn finest_in(s: Seq<Stored>, step: int, k: int) -> Option<int>
    decreases k,
{
    if k <= 0 {
        None
    } else {
        let before = finest_in(s, step, k - 1);
        if s[k - 1].has_bars && s[k - 1].step < step && (before is None || s[k - 1].step < s[before->0].step) {
            Some(k - 1)
        } else {
            before
        }
    }
}

/// The first series with bars below `step` whose step is greatest, among
/// `s[..k]`.
pub open spec fn coarsest_in(s: Seq<Stored>, step: int, k: int) -> Option<int>
    decreases k,
{
    if k <= 0 {
        None
    } else {
        let before = coarsest_in(s, step, k - 1);
        if s[k - 1].has_bars && s[k - 1].step < step && (before is None || s[k - 1].step > s[before->0].step) {
            Some(k - 1)
        } else {
            before
        }
    }
}

/// The source for a chart at `step`, from the series stored at or below it
/// (in the desk's timeframe order): the exact file when there is one;
/// otherwise a rebuild from the coarsest finer series, only where the step
/// divides an hour.
pub open spec fn source_for(s: Seq<Stored>, step: int) -> Source {
    let n = s.len() as int;
    let finer = match finest_in(s, step, n) {
        Some(i) => Some(i as usize),
        None => None,
    };
    match exact_in(s, step, n) {
        Some(i) => Source::Exact { at: i as usize, finer },
        None => if !(step > 0 && (HOUR_MS as int) % step == 0) {
            Source::Refused
        } else {
            match coarsest_in(s, step, n) {
                Some(i) => Source::Resampled { from: i as usize, finer },
                None => Source::Nothing,
            }
        },
    }
}

/// What the three searches find lies among the series searched.
proof fn lemma_found_in_range(s: Seq<Stored>, step: int, k: int)
    requires
        0 <= k <= s.len(),
    ensures
        exact_in(s, step, k) matches Some(i) ==> 0 <= i < k,
        finest_in(s, step, k) matches Some(i) ==> 0 <= i < k,
        coarsest_in(s, step, k) matches Some(i) ==> 0 <= i < k,
    decreases k,
{
    if k > 0 {
        lemma_found_in_range(s, step, k - 1);
    }
}

/// Choose where a chart at `step` is drawn from.
pub fn choose_source(stored: &Vec<Stored>, step: i64) -> (src: Source)
    ensures
        src == source_for(stored@, step as int),
{
    let mut exact: Option<usize> = None;
    let mut finest: Option<usize> = None;
    let mut coarsest: Option<usize> = None;
    let mut k: usize = 0;
    while k < stored.len()
        invariant
            k <= stored@.len(),
            exact == (match exact_in(stored@, step as int, k as int) {
                Some(i) => Some(i as usize),
                None => None::<usize>,
            }),
            finest == (match finest_in(stored@, step as int, k as int) {
                Some(i) => Some(i as usize),
                None => None::<usize>,
            }),
            coarsest == (match coarsest_in(stored@, step as int, k as int) {
                Some(i) => Some(i as usize),
                None => None::<usize>,
            }),
            exact matches Some(i) ==> i < k,
            finest matches Some(i) ==> i < k,
            coarsest matches Some(i) ==> i < k,
        decreases stored@.len() - k,
    {
        proof {
            lemma_found_in_range(stored@, step as int, k as int);
            lemma_found_in_range(stored@, step as int, k + 1);
        }
        let s = &stored[k];
        if s.has_bars && s.step == step {
            exact = Some(k);
        }
        if s.has_bars && s.step < step {
            let better = match finest {
                None => true,
                Some(f) => s.step < stored[f].step,
            };
            if better {
                finest = Some(k);
            }
            let wider = match coarsest {
                None => true,
                Some(c) => s.step > stored[c].step,
            };
            if wider {
                coarsest = Some(k);
            }
        }
        k = k + 1;
    }
    match exact {
        Some(i) => Source::Exact { at: i, finer: finest },
        None => if !anchor_free(step) {
            Source::Refused
        } else {
            match coarsest {
                Some(i) => Source::Resampled { from: i, finer: finest },
                None => Source::Nothing,
            }
        },
    }
}

/// The export name a refusal gives for a timeframe that may not be rebuilt.
pub open spec fn export_name(tf: Seq<char>) -> Seq<char> {
    if tf == "4h"@ {
        "H4"@
    } else if tf == "1d"@ {
        "D1"@
    } else {
        tf
    }
}

/// Why a chart at `timeframe` is refused: no file, and the step may not be
/// rebuilt because the broker's day starts at its own roll; and the command
/// that exports the file.
pub open spec fn refusal_message(market: Seq<char>, timeframe: Seq<char>, symbol: Seq<char>) -> Seq<char> {
    "no "@ + timeframe + " bars for "@ + market + ": bars/"@ + symbol + "-"@ + timeframe
        + ".parquet has not been exported, and "@ + timeframe
        + " cannot be resampled from a finer series because this broker's day starts at 21:00 UTC (22:00 outside US summer time) - an epoch-anchored "@
        + timeframe + " candle is not the broker's. Export it: py/ingest/mt5_export.py --symbols "@
        + symbol + " --timeframes "@ + export_name(timeframe)
}

/// The refusal of a chart whose timeframe has no file and may not be
/// rebuilt.
pub fn refusal(market: &str, timeframe: &str, symbol: &str) -> (e: ApiError)
    ensures
        e matches ApiError::NoData(m) && m@ == refusal_message(market@, timeframe@, symbol@),
{
    let name = if str_eq(timeframe, "4h") {
        "H4"
    } else if str_eq(timeframe, "1d") {
        "D1"
    } else {
        timeframe
    };
    let mut m = String::new();
    push_str(&mut m, "no ");
    push_str(&mut m, timeframe);
    push_str(&mut m, " bars for ");
    push_str(&mut m, market);
    push_str(&mut m, ": bars/");
    push_str(&mut m, symbol);
    push_str(&mut m, "-");
    push_str(&mut m, timeframe);
    push_str(&mut m, ".parquet has not been exported, and ");
    push_str(&mut m, timeframe);
    push_str(
        &mut m,
        " cannot be resampled from a finer series because this broker's day starts at 21:00 UTC (22:00 outside US summer time) - an epoch-anchored ",
    );
    push_str(&mut m, timeframe);
    push_str(&mut m, " candle is not the broker's. Export it: py/ingest/mt5_export.py --symbols ");
    push_str(&mut m, symbol);
    push_str(&mut m, " --timeframes ");
    push_str(&mut m, name);
    assert(m@ =~= refusal_message(market@, timeframe@, symbol@));
    ApiError::NoData(m)
}

/// The answer when nothing is stored at or below the step asked for.
pub fn nothing_stored(symbol: &str, timeframe: &str) -> (e: ApiError)
    ensures
        e matches ApiError::NoData(m) && m@ == "no stored bars for "@ + symbol@ + " at or below "@ + timeframe@,
{
    let mut m = String::new();
    push_str(&mut m, "no stored bars for ");
    push_str(&mut m, symbol);
    push_str(&mut m, " at or below ");
    push_str(&mut m, timeframe);
    ApiError::NoData(m)
}

/* ------------------------------------------------- a backtest's dates */

/// One day, in epoch milliseconds.
const DAY_MS_I128: i128 = 86_400_000;

/// The date a bound's text names: its first three `-`-separated pieces read
/// as numbers, the month 1-12 and the day 1-31.
pub open spec fn date_named(text: Seq<char>) -> Option<(int, int, int)> {
    let p = pieces(text, '-');
    if p.len() < 3 {
        None
    } else {
        match (parsed_i64(p[0]), parsed_i64(p[1]), parsed_i64(p[2])) {
            (Some(y), Some(m), Some(d)) => if 1 <= m <= 12 && 1 <= d <= 31 {
                Some((y, m, d))
            } else {
                None
            },
            _ => None,
        }
    }
}

/// The instant a date bound stands for: the start of its UTC day, or for the
/// end of a range the day's last millisecond.
pub open spec fn bound_ms(y: int, m: int, d: int, end: bool) -> int {
    days_from_civil(y, m, d) * 86_400_000 + if end { 86_399_999int } else { 0int }
}

/// The refusal of a date bound that is not a date.
pub open spec fn bad_date_message(text: Seq<char>) -> Seq<char> {
    "bad date `"@ + text + "`: expected YYYY-MM-DD"@
}

/// What a date bound reads as: nothing when absent or blank, the instant
/// when it is a date whose instant is one, else the refusal.
pub open spec fn bound_of(text: Option<Seq<char>>, end: bool) -> Result<Option<int>, Seq<char>> {
    match text {
        None => Ok(None),
        Some(raw) => {
            let t = trim(raw);
            if t.len() == 0 {
                Ok(None)
            } else {
                match date_named(t) {
                    Some((y, m, d)) => if i64::MIN <= bound_ms(y, m, d, end) <= i64::MAX {
                        Ok(Some(bound_ms(y, m, d, end)))
                    } else {
                        Err(bad_date_message(t))
                    },
                    None => Err(bad_date_message(t)),
                }
            }
        },
    }
}

/// The day number of a date, as [`days_from_civil`] counts it.
fn civil_days(y: i64, m: i64, d: i64) -> (r: i128)
    requires
        1 <= m <= 12,
        1 <= d <= 31,
    ensures
        r == days_from_civil(y as int, m as int, d as int),
{
    let yp: i128 = if m <= 2 { y as i128 - 1 } else { y as i128 };
    let era: i128 = if yp >= 0 { yp / 400 } else { 0 - ((0 - yp + 399) / 400) };
    proof {
        if yp < 0 {
            let b = 0 - yp;
            assert(era == (yp as int) / 400) by (nonlinear_arith)
                requires
                    b == -(yp as int),
                    b > 0,
                    era == -((b + 399) / 400),
            ;
        }
    }
    let yoe: i128 = yp - era * 400;
    assert(0 <= yoe < 400) by (nonlinear_arith)
        requires
            era == (yp as int) / 400,
            yoe == yp - era * 400,
    ;
    let mp: i128 = if m > 2 { (m - 3) as i128 } else { (m + 9) as i128 };
    let doy: i128 = (153 * mp + 2) / 5 + d as i128 - 1;
    era * 146097 + (365 * yoe + yoe / 4 - yoe / 100) + doy - 719468
}

/// Read a backtest's date bound: a UTC day `YYYY-MM-DD`, from the start of
/// the day, or to its last millisecond for the end of a range. Absent or
/// blank is no bound. A date whose instant does not fit a stamp is refused
/// like any other bad date.
pub fn date_bound(text: Option<&str>, end: bool) -> (r: Result<Option<i64>, ApiError>)
    ensures
        match bound_of(crate::auth::opt_view(text), end) {
            Ok(v) => r matches Ok(got) && got == (match v {
                Some(ms) => Some(ms as i64),
                None => None::<i64>,
            }),
            Err(m) => r matches Err(ApiError::BadRequest(e)) && e@ == m,
        },
{
    let raw = match text {
        None => return Ok(None),
        Some(t) => t,
    };
    let t = crate::text::trimmed(raw);
    if t.len() == 0 {
        return Ok(None);
    }
    let refusal = {
        let mut m = String::new();
        push_str(&mut m, "bad date `");
        crate::text::push_chars(&mut m, &t);
        push_str(&mut m, "`: expected YYYY-MM-DD");
        m
    };
    assert(refusal@ == bad_date_message(t@));
    let p = crate::text::split_chars(&t, '-');
    if p.len() < 3 {
        return Err(ApiError::BadRequest(refusal));
    }
    let y = crate::text::parse_i64(string_of(&p[0]).as_str());
    let m = crate::text::parse_i64(string_of(&p[1]).as_str());
    let d = crate::text::parse_i64(string_of(&p[2]).as_str());
    let (y, m, d) = match (y, m, d) {
        (Some(y), Some(m), Some(d)) => (y, m, d),
        _ => return Err(ApiError::BadRequest(refusal)),
    };
    if !(1 <= m && m <= 12 && 1 <= d && d <= 31) {
        return Err(ApiError::BadRequest(refusal));
    }
    let days = civil_days(y, m, d);
    let ms: i128 = days * DAY_MS_I128 + if end { 86_399_999 } else { 0 };
    if ms < i64::MIN as i128 || ms > i64::MAX as i128 {
        return Err(ApiError::BadRequest(refusal));
    }
    Ok(Some(ms as i64))
}

/// A backtest's range, `from` and `to` both inclusive UTC days: each bound
/// read as [`date_bound`] reads it, `from` first, and refused when `from`
/// falls after `to`.
pub fn date_range(from: Option<&str>, to: Option<&str>) -> (r: Result<(Option<i64>, Option<i64>), ApiError>)
    ensures
        ({
            let a = bound_of(crate::auth::opt_view(from), false);
            let b = bound_of(crate::auth::opt_view(to), true);
            match (a, b) {
                (Err(m), _) => r matches Err(ApiError::BadRequest(e)) && e@ == m,
                (Ok(_), Err(m)) => r matches Err(ApiError::BadRequest(e)) && e@ == m,
                (Ok(x), Ok(y)) => if x is Some && y is Some && x->0 > y->0 {
                    r matches Err(ApiError::BadRequest(e)) && e@ == "`from` is after `to`"@
                } else {
                    r matches Ok((f, t)) && f == (match x {
                        Some(ms) => Some(ms as i64),
                        None => None::<i64>,
                    }) && t == (match y {
                        Some(ms) => Some(ms as i64),
                        None => None::<i64>,
                    })
                },
            }
        }),
{
    let a = date_bound(from, false)?;
    let b = date_bound(to, true)?;
    if let (Some(x), Some(y)) = (a, b) {
        if x > y {
            return Err(ApiError::BadRequest(owned("`from` is after `to`")));
        }
    }
    Ok((a, b))
}

/// The first of `asked` that is not among `declared`, if any.
pub open spec fn first_unknown(declared: Seq<String>, asked: Seq<String>, k: int) -> Option<int>
    decreases k,
{
    if k <= 0 {
        None
    } else {
        match first_unknown(declared, asked, k - 1) {
            Some(i) => Some(i),
            None => if (exists|j: int| 0 <= j < declared.len() && (#[trigger] declared[j])@ == asked[k - 1]@) {
                None
            } else {
                Some(k - 1)
            },
        }
    }
}

/// A backtest's parameter overrides, by name in the order given, against
/// what the strategy declares: a name it does not declare is refused rather
/// than silently ignored, the first such name named.
pub fn check_params(strategy: &str, declared: &Vec<String>, asked: &Vec<String>) -> (r: Result<(), ApiError>)
    ensures
        match first_unknown(declared@, asked@, asked@.len() as int) {
            None => r is Ok,
            Some(i) => r matches Err(ApiError::BadRequest(m)) && m@ == strategy@ + " has no parameter `"@
                + asked@[i]@ + "`"@,
        },
{
    let mut i: usize = 0;
    while i < asked.len()
        invariant
            i <= asked@.len(),
            first_unknown(declared@, asked@, i as int) is None,
        decreases asked@.len() - i,
    {
        let mut found = false;
        let mut j: usize = 0;
        while j < declared.len()
            invariant
                j <= declared@.len(),
                i < asked@.len(),
                found == exists|k: int| 0 <= k < j && (#[trigger] declared@[k])@ == asked@[i as int]@,
            decreases declared@.len() - j,
        {
            if str_eq(declared[j].as_str(), asked[i].as_str()) {
                found = true;
            }
            j = j + 1;
        }
        if !found {
            let mut m = String::new();
            push_str(&mut m, strategy);
            push_str(&mut m, " has no parameter `");
            push_str(&mut m, asked[i].as_str());
            push_str(&mut m, "`");
            proof {
                lemma_first_unknown_stays(declared@, asked@, i as int + 1, asked@.len() as int);
            }
            return Err(ApiError::BadRequest(m));
        }
        i = i + 1;
    }
    Ok(())
}

/// Once found, the first unknown name stays the first.
proof fn lemma_first_unknown_stays(declared: Seq<String>, asked: Seq<String>, k: int, n: int)
    requires
        0 <= k <= n,
        first_unknown(declared, asked, k) is Some,
    ensures
        first_unknown(declared, asked, n) == first_unknown(declared, asked, k),
    decreases n - k,
{
    if k < n {
        lemma_first_unknown_stays(declared, asked, k + 1, n);
    }
}

} // verus!
