//! What this binary was built from, so a deploy can prove what is running.
//!
//! The stamp describes the source the code came from, never the checkout the
//! process is sitting in. The functions here take the stamp's three texts,
//! so the binary can hand in what its build environment recorded; the
//! constants are what the library falls back to when nothing was recorded:
//! `unknown` for the commit, which fails an equality check loudly instead of
//! matching by accident.
use vstd::prelude::*;

use crate::text::{
    chars_of, decimal, owned, parse_i64, parsed_i64, push_char, push_chars, push_padded, push_str,
    same_chars, slice, zero_pad,
};

verus! {

/// The commit this library was built from, or `"unknown"`.
pub const GIT_HASH: &'static str = "unknown";

/// Whether the tree had uncommitted changes when it was stamped: `"true"` or
/// `"false"`.
pub const GIT_DIRTY: &'static str = "false";

/// When it was stamped, epoch milliseconds UTC. The unit is in the name.
pub const BUILT_AT_MS: &'static str = "1794954344814";

/* ------------------------------------------------------------ the calendar */

/// A leap year of the proleptic Gregorian calendar.
pub open spec fn is_leap(y: int) -> bool {
    y % 4 == 0 && (y % 100 != 0 || y % 400 == 0)
}

/// Days in month `m` (1 = January) of year `y`.
pub open spec fn days_in_month(y: int, m: int) -> int {
    if m == 2 {
        if is_leap(y) { 29 } else { 28 }
    } else if m == 4 || m == 6 || m == 9 || m == 11 {
        30
    } else {
        31
    }
}

/// Days before March 1 of year-of-era `yoe` counted from March 1 of the era's
/// first year: 365 a year, plus one every fourth year, less one every
/// hundredth.
pub open spec fn days_before_march_year(yoe: int) -> int {
    365 * yoe + yoe / 4 - yoe / 100
}

/// The day number of a civil date, counted from 1970-01-01 as day 0.
///
/// The year is taken to start on March 1, so the leap day is the last day of
/// the year; eras are the 400-year cycles of 146097 days each.
pub open spec fn days_from_civil(y: int, m: int, d: int) -> int {
    let yp = if m <= 2 { y - 1 } else { y };
    let era = yp / 400;
    let yoe = yp - era * 400;
    let mp = if m > 2 { m - 3 } else { m + 9 };
    let doy = (153 * mp + 2) / 5 + d - 1;
    era * 146097 + days_before_march_year(yoe) + doy - 719468
}

/// `(y, m, d)` is a real date and it is day `days`.
pub open spec fn is_civil_date_of(days: int, y: int, m: int, d: int) -> bool {
    &&& 1 <= m <= 12
    &&& 1 <= d <= days_in_month(y, m)
    &&& days_from_civil(y, m, d) == days
}

/// Where a day of the era falls: its year of the era, and its day of that
/// (March-based) year. `doy` is 365 only on the leap day.
proof fn lemma_day_of_era(doe: int)
    requires
        0 <= doe <= 146096,
    ensures
        ({
            let yoe = (doe - doe / 1460 + doe / 36524 - doe / 146096) / 365;
            let doy = doe - days_before_march_year(yoe);
            &&& 0 <= yoe <= 399
            &&& 0 <= doy <= 365
            &&& doy == 365 ==> ((yoe + 1) % 4 == 0 && (yoe + 1) % 100 != 0) || yoe == 399
        }),
{
    let yoe = (doe - doe / 1460 + doe / 36524 - doe / 146096) / 365;
    if doe == 146096 {
        assert(doe / 1460 == 100);
        assert(doe / 36524 == 4);
        assert(doe / 146096 == 1);
        assert(yoe == 399);
        assert(days_before_march_year(399) == 145731);
    } else {
        let k = doe / 36524;
        let t = doe % 36524;
        let j = t / 1461;
        let u = t % 1461;
        assert(0 <= k <= 3);
        assert(0 <= j <= 24);
        assert(0 <= u <= 1460);
        assert(j == 24 ==> u <= 1459);
        assert(doe == 36524 * k + 1461 * j + u);
        let delta: int = if 24 * k + j + u >= 1460 { 1 } else { 0 };
        assert(doe / 1460 == 25 * k + j + delta) by (nonlinear_arith)
            requires
                doe == 36524 * k + 1461 * j + u,
                0 <= k <= 3,
                0 <= j <= 24,
                0 <= u <= 1460,
                delta == if 24 * k + j + u >= 1460 { 1int } else { 0int },
        ;
        assert(doe / 36524 == k);
        assert(doe / 146096 == 0);
        let c: int = if delta == 1 { 3 } else { u / 365 };
        assert(yoe == 100 * k + 4 * j + c) by (nonlinear_arith)
            requires
                yoe == (doe - (25 * k + j + delta) + k - 0) / 365,
                doe == 36524 * k + 1461 * j + u,
                0 <= k <= 3,
                0 <= j <= 24,
                0 <= u <= 1460,
                j == 24 ==> u <= 1459,
                delta == if 24 * k + j + u >= 1460 { 1int } else { 0int },
                c == if delta == 1 { 3 } else { u / 365 },
        ;
        assert(days_before_march_year(yoe) == 36524 * k + 1461 * j + 365 * c) by (nonlinear_arith)
            requires
                yoe == 100 * k + 4 * j + c,
                0 <= k <= 3,
                0 <= j <= 24,
                0 <= c <= 3,
        ;
    }
}

/// The civil date of day `days`, by the arithmetic `iso_utc` performs.
spec fn civil_parts(days: int) -> (int, int, int) {
    let z = days + 719468;
    let era = z / 146097;
    let doe = z % 146097;
    let yoe = (doe - doe / 1460 + doe / 36524 - doe / 146096) / 365;
    let doy = doe - days_before_march_year(yoe);
    let mp = (5 * doy + 2) / 153;
    let d = doy - (153 * mp + 2) / 5 + 1;
    let m = if mp < 10 { mp + 3 } else { mp - 9 };
    let y = if m <= 2 { yoe + era * 400 + 1 } else { yoe + era * 400 };
    (y, m, d)
}

/// That arithmetic lands on the real date of the day.
proof fn lemma_civil_parts(days: int)
    requires
        days >= 0,
    ensures
        is_civil_date_of(days, civil_parts(days).0, civil_parts(days).1, civil_parts(days).2),
        civil_parts(days).0 >= 1970,
{
    let z = days + 719468;
    let era = z / 146097;
    let doe = z % 146097;
    lemma_day_of_era(doe);
    let yoe = (doe - doe / 1460 + doe / 36524 - doe / 146096) / 365;
    let doy = doe - days_before_march_year(yoe);
    let mp = (5 * doy + 2) / 153;
    let d = doy - (153 * mp + 2) / 5 + 1;
    let m = if mp < 10 { mp + 3 } else { mp - 9 };
    let y = if m <= 2 { yoe + era * 400 + 1 } else { yoe + era * 400 };
    assert(0 <= mp <= 11);
    assert(153 * mp <= 5 * doy + 2 < 153 * mp + 153);
    assert(1 <= d);
    assert(doy < (153 * (mp + 1) + 2) / 5);
    let yp: int = if m <= 2 { y - 1 } else { y };
    assert(yp == yoe + era * 400);
    assert(yp / 400 == era) by (nonlinear_arith)
        requires
            yp == yoe + era * 400,
            0 <= yoe <= 399,
    ;
    let mpp: int = if m > 2 { m - 3 } else { m + 9 };
    assert(mpp == mp);
    assert(era * 146097 + doe == z);
    assert(days_from_civil(y, m, d) == days);
    if mp == 11 && d == 29 {
        assert(doy == 365);
        assert(is_leap(y)) by (nonlinear_arith)
            requires
                y == yoe + era * 400 + 1,
                0 <= yoe <= 399,
                ((yoe + 1) % 4 == 0 && (yoe + 1) % 100 != 0) || yoe == 399,
        ;
    }
    assert(d <= days_in_month(y, m));
    assert(era >= 4) by (nonlinear_arith)
        requires
            era == z / 146097,
            z >= 719468,
    ;
}

/// The date and time of `ms` milliseconds after the epoch, as the exact
/// characters `YYYY-MM-DDTHH:MM:SSZ`, given its civil date.
pub open spec fn iso_text(y: int, m: int, d: int, h: int, mi: int, s: int) -> Seq<char> {
    zero_pad(decimal(y as nat), 4) + seq!['-'] + zero_pad(decimal(m as nat), 2) + seq!['-']
        + zero_pad(decimal(d as nat), 2) + seq!['T'] + zero_pad(decimal(h as nat), 2) + seq![':']
        + zero_pad(decimal(mi as nat), 2) + seq![':'] + zero_pad(decimal(s as nat), 2) + seq!['Z']
}

/// Whole days since the epoch at `ms` (ms > 0).
pub open spec fn day_of(ms: int) -> int {
    (ms / 1000) / 86400
}

/// Seconds into the day at `ms` (ms > 0).
pub open spec fn second_of_day(ms: int) -> int {
    (ms / 1000) % 86400
}

/// `text` is how `iso_utc` writes `ms`: `unknown` at or before the epoch, else
/// the civil date and time of day, `YYYY-MM-DDTHH:MM:SSZ`.
pub open spec fn is_iso_utc(ms: int, text: Seq<char>) -> bool {
    if ms <= 0 {
        text == "unknown"@
    } else {
        exists|y: int, m: int, d: int|
            #![trigger days_from_civil(y, m, d)]
            is_civil_date_of(day_of(ms), y, m, d) && text == iso_text(
                y,
                m,
                d,
                second_of_day(ms) / 3600,
                (second_of_day(ms) % 3600) / 60,
                second_of_day(ms) % 60,
            )
    }
}

/// `YYYY-MM-DDTHH:MM:SSZ` from epoch milliseconds, or `unknown` for a stamp at
/// or before the epoch.
pub fn iso_utc(ms: i64) -> (out: String)
    ensures
        is_iso_utc(ms as int, out@),
{
    if ms <= 0 {
        return owned("unknown");
    }
    let secs = ms / 1000;
    let days = secs / 86_400;
    let rem = secs % 86_400;
    let h = rem / 3600;
    let mi = (rem % 3600) / 60;
    let s = rem % 60;

    let z = days + 719_468;
    let era = z / 146_097;
    let doe = z % 146_097;
    let yoe = (doe - doe / 1460 + doe / 36_524 - doe / 146_096) / 365;
    let y0 = yoe + era * 400;
    let doy = doe - (365 * yoe + yoe / 4 - yoe / 100);
    let mp = (5 * doy + 2) / 153;
    let d = doy - (153 * mp + 2) / 5 + 1;
    let m = if mp < 10 { mp + 3 } else { mp - 9 };
    let y = if m <= 2 { y0 + 1 } else { y0 };
    proof {
        lemma_civil_parts(days as int);
        lemma_day_of_era(doe as int);
        assert(civil_parts(days as int) == (y as int, m as int, d as int));
        assert(day_of(ms as int) == days as int);
    }
    let mut out = String::new();
    push_padded(&mut out, y as u64, 4);
    push_char(&mut out, '-');
    push_padded(&mut out, m as u64, 2);
    push_char(&mut out, '-');
    push_padded(&mut out, d as u64, 2);
    push_char(&mut out, 'T');
    push_padded(&mut out, h as u64, 2);
    push_char(&mut out, ':');
    push_padded(&mut out, mi as u64, 2);
    push_char(&mut out, ':');
    push_padded(&mut out, s as u64, 2);
    push_char(&mut out, 'Z');
    assert(out@ =~= iso_text(y as int, m as int, d as int, h as int, mi as int, s as int));
    out
}

/* ------------------------------------------------------------ the stamp */

/// The first seven characters of a commit hash, or the whole of a shorter one.
pub open spec fn short_hash(hash: Seq<char>) -> Seq<char> {
    if hash.len() >= 7 {
        hash.subrange(0, 7)
    } else {
        hash
    }
}

/// The build time in epoch milliseconds, from its stamp text: `0` when the
/// text is not a number.
pub open spec fn built_at_of(text: Seq<char>) -> int {
    match parsed_i64(text) {
        Some(v) => v,
        None => 0,
    }
}

/// `built from <short><dirty>, <iso> UTC`, for a given `iso` rendering.
pub open spec fn summary_line(hash: Seq<char>, dirty: Seq<char>, iso: Seq<char>) -> Seq<char> {
    "built from "@ + short_hash(hash) + (if dirty == "true"@ {
        " +uncommitted-changes"@
    } else {
        Seq::empty()
    }) + ", "@ + iso + " UTC"@
}

/// The build time a stamp's text gives, epoch milliseconds UTC, or 0 when
/// the text is not a number.
pub fn built_at_from(text: &str) -> (at: i64)
    ensures
        at == built_at_of(text@),
{
    match parse_i64(text) {
        Some(v) => v,
        None => 0,
    }
}

/// The build time, epoch milliseconds UTC, or 0 when the stamp is unreadable.
pub fn built_at_ms() -> (at: i64)
    ensures
        at == built_at_of(BUILT_AT_MS@),
{
    built_at_from(BUILT_AT_MS)
}

/// The console line for a stamp, from its three parts.
pub fn summary_of(hash: &str, dirty: &str, built_at: &str) -> (line: String)
    ensures
        exists|iso: Seq<char>|
            is_iso_utc(built_at_of(built_at@), iso) && line@ == summary_line(hash@, dirty@, iso),
{
    let h = chars_of(hash);
    let mut line = owned("built from ");
    let short = if h.len() >= 7 { slice(&h, 0, 7) } else { slice(&h, 0, h.len()) };
    assert(h@.subrange(0, h@.len() as int) =~= h@);
    push_chars(&mut line, &short);
    let d = chars_of(dirty);
    let t = chars_of("true");
    let is_dirty = same_chars(&d, &t);
    if is_dirty {
        push_str(&mut line, " +uncommitted-changes");
    }
    push_str(&mut line, ", ");
    let at = match parse_i64(built_at) {
        Some(v) => v,
        None => 0,
    };
    let iso = iso_utc(at);
    push_str(&mut line, iso.as_str());
    push_str(&mut line, " UTC");
    proof {
        reveal_strlit("true");
        assert(is_dirty == (dirty@ == "true"@));
        assert(at as int == built_at_of(built_at@));
        assert(short@ == short_hash(hash@));
        assert(is_iso_utc(built_at_of(built_at@), iso@));
        assert(line@ =~= summary_line(hash@, dirty@, iso@));
    }
    line
}

/// One line for a console: the same facts the version endpoint serves.
pub fn summary() -> (line: String)
    ensures
        exists|iso: Seq<char>|
            is_iso_utc(built_at_of(BUILT_AT_MS@), iso) && line@ == summary_line(
                GIT_HASH@,
                GIT_DIRTY@,
                iso,
            ),
{
    summary_of(GIT_HASH, GIT_DIRTY, BUILT_AT_MS)
}

} // verus!
