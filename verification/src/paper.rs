//! The paper desk's runs, as far as their rules can be stated without the
//! engine: how runs are named, which bars a run takes, which run a stop
//! means, what an intent from outside is allowed to do, and how the tail of a
//! run's log is read.
//!
//! A run is one `market:tf`, one strategy and one book. Runs are keyed by an
//! id; the id defaults to `<market>-<tf>-<strategy>`, and the first layout's
//! state files (one run per stream, no id in the file) reload under
//! `<market>-<tf>`.
use vstd::prelude::*;

use crate::error::ApiError;
use crate::text::{chars_of, push_i64, push_str, signed_decimal, str_eq, upper_all, lower_all, trim};

verus! {

broadcast use vstd::string::group_string_axioms;

/// Bars kept when a start does not say.
pub const DEFAULT_WINDOW: usize = 600;

/// The longest run id accepted.
pub const MAX_ID_LEN: usize = 40;

/// How old a forming bar may be and still be shown as the current price.
pub const MAX_LIVE_AGE_MS: i64 = 90_000;

/// Fills a detail carries at most.
pub const MAX_DETAIL_FILLS: usize = 500;

/// Events a detail carries at most.
pub const MAX_DETAIL_EVENTS: usize = 200;

/// Window bars a detail carries when the query does not say.
pub const DEFAULT_DETAIL_BARS: usize = 120;

/// Default and ceiling for how many log entries come back.
pub const DEFAULT_REASONING: usize = 50;
pub const MAX_REASONING: usize = 500;

/// How old the latest tick may be for a trigger to price off it.
pub const MAX_TRIGGER_TICK_AGE_MS: i64 = 10_000;

/* ------------------------------------------------------------------ names */

/// The run id of the first layout, and the default's prefix:
/// `<market>-<tf>`.
pub fn legacy_run_id(market: &str, tf: &str) -> (id: String)
    ensures
        id@ == market@ + "-"@ + tf@,
{
    let mut s = String::new();
    push_str(&mut s, market);
    push_str(&mut s, "-");
    push_str(&mut s, tf);
    assert(s@ =~= market@ + "-"@ + tf@);
    s
}

/// The id a start gets when it does not name one:
/// `<market>-<tf>-<strategy>`.
pub fn default_run_id(market: &str, tf: &str, strategy: &str) -> (id: String)
    ensures
        id@ == market@ + "-"@ + tf@ + "-"@ + strategy@,
{
    let mut s = String::new();
    push_str(&mut s, market);
    push_str(&mut s, "-");
    push_str(&mut s, tf);
    push_str(&mut s, "-");
    push_str(&mut s, strategy);
    assert(s@ =~= market@ + "-"@ + tf@ + "-"@ + strategy@);
    s
}

/// `market:tf`, the key a posted bar is matched on.
pub fn stream_key(market: &str, tf: &str) -> (key: String)
    ensures
        key@ == market@ + ":"@ + tf@,
{
    let mut s = String::new();
    push_str(&mut s, market);
    push_str(&mut s, ":");
    push_str(&mut s, tf);
    assert(s@ =~= market@ + ":"@ + tf@);
    s
}

/// A run's id: the stored one, or for a state file of the first layout (no
/// id in it) the key that layout used, `<market>-<tf>`.
pub fn run_id(stored: &str, market: &str, tf: &str) -> (id: String)
    ensures
        id@ == (if stored@.len() == 0 { market@ + "-"@ + tf@ } else { stored@ }),
{
    if chars_of(stored).len() == 0 {
        legacy_run_id(market, tf)
    } else {
        crate::text::owned(stored)
    }
}

/// A character a run id may hold: `[a-z0-9_-]`.
pub open spec fn id_char(c: char) -> bool {
    ('a' <= c && c <= 'z') || ('0' <= c && c <= '9') || c == '_' || c == '-'
}

/// A run id that needs no escaping anywhere: `[a-z0-9_-]{1,40}`.
pub open spec fn valid_id(id: Seq<char>) -> bool {
    &&& 0 < id.len() <= MAX_ID_LEN
    &&& forall|i: int| 0 <= i < id.len() ==> id_char(#[trigger] id[i])
}

/// The refusal of a run id.
pub open spec fn bad_id_message(id: Seq<char>) -> Seq<char> {
    "run id `"@ + id + "` must match [a-z0-9_-]{1,40}"@
}

/// `[a-z0-9_-]{1,40}`: a directory name that needs no escaping, and short
/// enough to read in a status line. Every character allowed is one byte, so
/// forty characters are forty bytes.
pub fn check_id(id: &str) -> (r: Result<(), ApiError>)
    ensures
        r is Ok <==> valid_id(id@),
        r matches Err(e) ==> e matches ApiError::BadRequest(m) && m@ == bad_id_message(id@),
{
    let v = chars_of(id);
    let mut ok = v.len() > 0 && v.len() <= MAX_ID_LEN;
    let mut i: usize = 0;
    while i < v.len()
        invariant
            i <= v@.len(),
            v@ == id@,
            ok == (0 < v@.len() <= MAX_ID_LEN && forall|k: int| 0 <= k < i ==> id_char(#[trigger] v@[k])),
        decreases v@.len() - i,
    {
        let c = v[i];
        if !(('a' <= c && c <= 'z') || ('0' <= c && c <= '9') || c == '_' || c == '-') {
            ok = false;
        }
        i = i + 1;
    }
    if ok {
        Ok(())
    } else {
        let mut m = String::new();
        push_str(&mut m, "run id `");
        push_str(&mut m, id);
        push_str(&mut m, "` must match [a-z0-9_-]{1,40}");
        assert(m@ =~= bad_id_message(id@));
        Err(ApiError::BadRequest(m))
    }
}

/// `<run>:<bar>`: the name an advisor uses for something a run decided on
/// a bar.
pub open spec fn tagged(run: Seq<char>, bar: int) -> Seq<char> {
    run + ":"@ + signed_decimal(bar)
}

/// The name of the intent currently pending: the run, and the bar whose
/// close produced it (0 before any bar). A verdict naming a bar that is no
/// longer last is about an intent that has filled, and is dropped.
pub fn pending_id(run: &str, last_bar_time: Option<i64>) -> (id: String)
    ensures
        id@ == tagged(run@, match last_bar_time {
            Some(t) => t as int,
            None => 0,
        }),
{
    let t = match last_bar_time {
        Some(t) => t,
        None => 0,
    };
    order_id(run, t)
}

/// The name of a resting order: the run and the bar whose close produced
/// it. Unlike [`pending_id`] it does not move as bars arrive.
pub fn order_id(run: &str, decided_bar_time: i64) -> (id: String)
    ensures
        id@ == tagged(run@, decided_bar_time as int),
{
    let mut s = String::new();
    push_str(&mut s, run);
    push_str(&mut s, ":");
    push_i64(&mut s, decided_bar_time);
    assert(s@ =~= tagged(run@, decided_bar_time as int));
    s
}

/* ------------------------------------------------------------- stopping */

/// Which run to stop: by `id`, or by `market` + `tf` when exactly one run is
/// on that stream.
pub struct StopRequest {
    pub id: Option<String>,
    pub market: Option<String>,
    pub tf: Option<String>,
}

/// The ids, in order, of the runs on `stream`; each run given as
/// `(id, stream)`.
pub open spec fn ids_on(runs: Seq<(String, String)>, stream: Seq<char>) -> Seq<Seq<char>>
    decreases runs.len(),
{
    if runs.len() == 0 {
        Seq::empty()
    } else {
        let rest = ids_on(runs.drop_last(), stream);
        if runs.last().1@ == stream {
            rest.push(runs.last().0@)
        } else {
            rest
        }
    }
}

/// Ids separated by `, `.
pub open spec fn comma_list(ids: Seq<Seq<char>>) -> Seq<char>
    decreases ids.len(),
{
    if ids.len() == 0 {
        Seq::empty()
    } else if ids.len() == 1 {
        ids[0]
    } else {
        comma_list(ids.drop_last()) + ", "@ + ids.last()
    }
}

/// The run a stop request names, among `runs` given as `(id, stream)` in id
/// order: its id when it gives one; the only run on `market:tf` when it
/// gives those; otherwise it is refused, and says why.
pub fn resolve_stop(request: &StopRequest, runs: &Vec<(String, String)>) -> (r: Result<String, ApiError>)
    ensures
        request.id matches Some(id) ==> (r matches Ok(got) && got@ == id@),
        request.id is None && request.market is Some && request.tf is Some ==> {
            let stream = request.market->0@ + ":"@ + request.tf->0@;
            let ids = ids_on(runs@, stream);
            &&& ids.len() == 1 ==> (r matches Ok(got) && got@ == ids[0])
            &&& ids.len() == 0 ==> (r matches Err(ApiError::NotFound(m)) && m@ == "no paper run for "@
                + stream)
            &&& ids.len() > 1 ==> (r matches Err(ApiError::Conflict(m)) && m@ == crate::text::decimal(
                ids.len(),
            ) + " paper runs on "@ + stream + "; say which by id: "@ + comma_list(ids))
        },
        request.id is None && !(request.market is Some && request.tf is Some) ==> (r matches Err(
            ApiError::BadRequest(m),
        ) && m@ == "stop needs an id, or a market and tf"@),
{
    if let Some(id) = &request.id {
        return Ok(id.clone());
    }
    let (market, tf) = match (&request.market, &request.tf) {
        (Some(m), Some(t)) => (m, t),
        _ => return Err(ApiError::BadRequest(crate::text::owned("stop needs an id, or a market and tf"))),
    };
    let stream = stream_key(market.as_str(), tf.as_str());
    let mut found: Vec<String> = Vec::new();
    let mut i: usize = 0;
    while i < runs.len()
        invariant
            i <= runs@.len(),
            found@.len() == ids_on(runs@.subrange(0, i as int), stream@).len(),
            forall|k: int| 0 <= k < found@.len() ==> (#[trigger] found@[k])@ == ids_on(runs@.subrange(0, i as int), stream@)[k],
        decreases runs@.len() - i,
    {
        assert(runs@.subrange(0, i + 1).drop_last() =~= runs@.subrange(0, i as int));
        if str_eq(runs[i].1.as_str(), stream.as_str()) {
            found.push(runs[i].0.clone());
        }
        i = i + 1;
    }
    assert(runs@.subrange(0, runs@.len() as int) =~= runs@);
    let ghost ids = ids_on(runs@, stream@);
    if found.len() == 1 {
        return Ok(found[0].clone());
    }
    if found.len() == 0 {
        let mut m = String::new();
        push_str(&mut m, "no paper run for ");
        push_str(&mut m, stream.as_str());
        assert(m@ =~= "no paper run for "@ + stream@);
        return Err(ApiError::NotFound(m));
    }
    let mut m = String::new();
    crate::text::push_decimal(&mut m, found.len() as u64);
    push_str(&mut m, " paper runs on ");
    push_str(&mut m, stream.as_str());
    push_str(&mut m, "; say which by id: ");
    let ghost head = m@;
    let mut j: usize = 0;
    while j < found.len()
        invariant
            j <= found@.len(),
            found@.len() == ids.len(),
            forall|k: int| 0 <= k < found@.len() ==> (#[trigger] found@[k])@ == ids[k],
            m@ == head + comma_list(ids.take(j as int)),
        decreases found@.len() - j,
    {
        assert(ids.take(j + 1).drop_last() =~= ids.take(j as int));
        if j > 0 {
            push_str(&mut m, ", ");
        }
        push_str(&mut m, found[j].as_str());
        j = j + 1;
        assert(m@ =~= head + comma_list(ids.take(j as int)));
    }
    assert(ids.take(ids.len() as int) =~= ids);
    Err(ApiError::Conflict(m))
}

/* -------------------------------------------------------- bars arriving */

/// What a closed bar posted at `time` is to a run whose last bar is `last`.
pub enum Arrival {
    /// The last bar again: already seen, nothing to do.
    Seen,
    /// Older than the last bar: refused.
    Older,
    /// Newer: appended and stepped. `gap` counts the bars missing before it
    /// when the feed skipped more than one interval.
    Next { gap: Option<usize> },
}

/// The bars missing between `last` and `time` when they are more than two
/// intervals apart; recorded, never filled.
pub open spec fn gap_of(last: int, time: int, bar_ms: int) -> Option<usize> {
    if bar_ms > 0 && time - last > 2 * bar_ms {
        let missing = (time - last) / bar_ms - 1;
        Some(if missing <= usize::MAX { missing as usize } else { 0usize })
    } else {
        None
    }
}

/// Where a closed bar at `time` stands against the run's last bar: the same
/// bar is seen, an older one refused, and a newer one taken, with the gap
/// before it counted when the feed skipped bars.
pub fn arrival(last: Option<i64>, time: i64, bar_ms: i64) -> (a: Arrival)
    ensures
        a == (match last {
            None => Arrival::Next { gap: None },
            Some(l) => if time == l {
                Arrival::Seen
            } else if time < l {
                Arrival::Older
            } else {
                Arrival::Next { gap: gap_of(l as int, time as int, bar_ms as int) }
            },
        }),
{
    let l = match last {
        None => return Arrival::Next { gap: None },
        Some(l) => l,
    };
    if time == l {
        return Arrival::Seen;
    }
    if time < l {
        return Arrival::Older;
    }
    let span = time as i128 - l as i128;
    if bar_ms > 0 && span > 2 * (bar_ms as i128) {
        let missing = span / (bar_ms as i128) - 1;
        let gap: usize = if missing <= usize::MAX as i128 { missing as usize } else { 0 };
        Arrival::Next { gap: Some(gap) }
    } else {
        Arrival::Next { gap: None }
    }
}

/// Keep only the newest `n` items of `v`, dropping the oldest.
pub fn keep_newest<T>(v: &mut Vec<T>, n: usize)
    ensures
        final(v)@ == (if old(v)@.len() > n {
            old(v)@.subrange(old(v)@.len() - n, old(v)@.len() as int)
        } else {
            old(v)@
        }),
{
    if v.len() > n {
        let at = v.len() - n;
        let tail = v.split_off(at);
        *v = tail;
    }
}

/// The newest `n` items of a window that keeps at least one.
pub open spec fn window_of<T>(s: Seq<T>, window: usize) -> Seq<T> {
    let n = if window > 1 { window as int } else { 1 };
    if s.len() > n {
        s.subrange(s.len() - n, s.len() as int)
    } else {
        s
    }
}

/// Push a bar's worth of item onto a run's window and trim it to `window`
/// (at least one).
pub fn push_windowed<T>(v: &mut Vec<T>, item: T, window: usize)
    ensures
        final(v)@ == window_of(old(v)@.push(item), window),
{
    v.push(item);
    let n = if window > 1 { window } else { 1 };
    keep_newest(v, n);
}

/* --------------------------------------------------- reading a log's tail */

/// The first `b` in `s` at or after `from`, or `s.len()`.
pub open spec fn byte_from(s: Seq<u8>, b: u8, from: int) -> int
    decreases s.len() - from,
{
    if from < 0 || from >= s.len() {
        s.len() as int
    } else if s[from] == b {
        from
    } else {
        byte_from(s, b, from + 1)
    }
}

/// The last `b` in `s[..end]`, if there is one.
pub open spec fn byte_before(s: Seq<u8>, b: u8, end: int) -> Option<int>
    decreases end,
{
    if end <= 0 || end > s.len() {
        None
    } else if s[end - 1] == b {
        Some(end - 1)
    } else {
        byte_before(s, b, end - 1)
    }
}

/// The part of a window cut at newlines on both sides: from the byte after
/// its first newline (from its first byte when the window starts the file)
/// through its last newline. `None` when there is no such part.
pub open spec fn whole_lines_part(window: Seq<u8>, from_start: bool) -> Option<Seq<u8>> {
    let start = if from_start { 0 } else { byte_from(window, 10u8, 0) + 1 };
    if start > window.len() {
        None
    } else {
        match byte_before(window, 10u8, window.len() as int) {
            Some(j) => if j >= start {
                Some(window.subrange(start, j + 1))
            } else {
                None
            },
            None => None,
        }
    }
}

/// The lines of `ls` that are not blank.
pub open spec fn non_blank(ls: Seq<Seq<char>>) -> Seq<Seq<char>>
    decreases ls.len(),
{
    if ls.len() == 0 {
        ls
    } else if trim(ls.last()).len() > 0 {
        non_blank(ls.drop_last()).push(ls.last())
    } else {
        non_blank(ls.drop_last())
    }
}

/// The whole, non-empty lines of a window that ends at the end of a file:
/// the head fragment dropped unless the window starts the file, the torn
/// tail after the last newline dropped, and nothing at all when what is
/// left is not UTF-8.
pub open spec fn complete_lines_of(window: Seq<u8>, from_start: bool) -> Seq<Seq<char>> {
    match whole_lines_part(window, from_start) {
        Some(part) => if vstd::utf8::valid_utf8(part) {
            non_blank(crate::text::lines(vstd::utf8::decode_utf8(part)))
        } else {
            Seq::empty()
        },
        None => Seq::empty(),
    }
}

/// `std::str::from_utf8`: the text the bytes encode, when they are valid
/// UTF-8, and nothing otherwise.
#[verifier::external_body]
fn utf8_text<'a>(bytes: &'a [u8]) -> (r: Option<&'a str>)
    ensures
        r is Some <==> vstd::utf8::valid_utf8(bytes@),
        r matches Some(t) ==> t@ == vstd::utf8::decode_utf8(bytes@),
{
    std::str::from_utf8(bytes).ok()
}

/// The whole, non-empty lines inside a window that ends at the end of a
/// file. `from_start` says the window begins at byte 0, where the first line
/// is not a fragment. A torn line, at either end, is never returned.
pub fn complete_lines(window: &[u8], from_start: bool) -> (lines: Vec<String>)
    ensures
        lines@.len() == complete_lines_of(window@, from_start).len(),
        forall|i: int| 0 <= i < lines@.len() ==> (#[trigger] lines@[i])@ == complete_lines_of(
            window@,
            from_start,
        )[i],
{
    let n = window.len();
    let mut start: usize = 0;
    if !from_start {
        let mut i: usize = 0;
        while i < n && window[i] != 10u8
            invariant
                i <= n,
                n == window@.len(),
                byte_from(window@, 10u8, 0) == byte_from(window@, 10u8, i as int),
            decreases n - i,
        {
            i = i + 1;
        }
        if i >= n {
            return Vec::new();
        }
        start = i + 1;
    }
    let mut j: usize = n;
    while j > 0 && window[j - 1] != 10u8
        invariant
            j <= n,
            n == window@.len(),
            byte_before(window@, 10u8, n as int) == byte_before(window@, 10u8, j as int),
        decreases j,
    {
        j = j - 1;
    }
    if j == 0 || j - 1 < start {
        return Vec::new();
    }
    let part = slice_bytes(window, start, j);
    assert(whole_lines_part(window@, from_start) == Some(part@));
    let text = match utf8_text(part.as_slice()) {
        Some(t) => t,
        None => return Vec::new(),
    };
    let chars = chars_of(text);
    let all = crate::text::split_lines(&chars);
    let ghost ls = crate::text::lines(text@);
    let mut out: Vec<String> = Vec::new();
    let mut k: usize = 0;
    assert(ls.take(0) =~= Seq::<Seq<char>>::empty());
    while k < all.len()
        invariant
            k <= all@.len(),
            all@.len() == ls.len(),
            forall|q: int| 0 <= q < all@.len() ==> (#[trigger] all@[q])@ == ls[q],
            out@.len() == non_blank(ls.take(k as int)).len(),
            forall|q: int| 0 <= q < out@.len() ==> (#[trigger] out@[q])@ == non_blank(ls.take(k as int))[q],
        decreases all@.len() - k,
    {
        assert(ls.take(k + 1).drop_last() =~= ls.take(k as int));
        assert(ls.take(k + 1).last() == all@[k as int]@);
        let line = &all[k];
        let t = crate::text::slice_trimmed(line, 0, line.len());
        assert(line@.subrange(0, line@.len() as int) =~= line@);
        if t.len() > 0 {
            out.push(crate::text::string_of(line));
        }
        k = k + 1;
    }
    assert(ls.take(all@.len() as int) =~= ls);
    out
}

/// The newest `limit` whole, non-empty lines of a window that ends at the end
/// of a file: what a log's tail is read from. Blank lines are dropped before
/// `limit` is counted; a torn line, at either end, is never returned.
pub fn tail_lines(window: &[u8], from_start: bool, limit: usize) -> (lines: Vec<String>)
    ensures
        ({
            let all = complete_lines_of(window@, from_start);
            let from = if all.len() > limit { all.len() - limit } else { 0 };
            &&& lines@.len() == all.len() - from
            &&& forall|i: int| 0 <= i < lines@.len() ==> (#[trigger] lines@[i])@ == all[from + i]
        }),
{
    let mut lines = complete_lines(window, from_start);
    let ghost before = lines@;
    keep_newest(&mut lines, limit);
    proof {
        let all = complete_lines_of(window@, from_start);
        let from = if all.len() > limit { all.len() - limit } else { 0 };
        assert forall|i: int| 0 <= i < lines@.len() implies (#[trigger] lines@[i])@ == all[from + i] by {
            assert(lines@[i] == before[from + i]);
        }
    }
    lines
}

/// `v[lo..hi]` as a new vector of bytes.
fn slice_bytes(v: &[u8], lo: usize, hi: usize) -> (w: Vec<u8>)
    requires
        lo <= hi <= v@.len(),
    ensures
        w@ == v@.subrange(lo as int, hi as int),
{
    let mut w: Vec<u8> = Vec::new();
    let mut k = lo;
    while k < hi
        invariant
            lo <= k <= hi <= v@.len(),
            w@ == v@.subrange(lo as int, k as int),
        decreases hi - k,
    {
        w.push(v[k]);
        k = k + 1;
        assert(w@ =~= v@.subrange(lo as int, k as int));
    }
    w
}

/* ------------------------------------------------- intents from outside */

/// A side an intent may take.
#[derive(Clone, Copy, PartialEq, Eq, Structural)]
pub enum Side {
    Long,
    Short,
}

/// How an intent is to be entered.
#[derive(Clone, Copy, PartialEq, Eq, Structural)]
pub enum EntryKind {
    /// At the next bar's open.
    Market,
    /// Resting at a price, filled from the tick feed.
    Limit,
    /// Resting at a price, filled when the tick trades through it.
    Stop,
}

/// The side an intent's text names: `LONG`, `SHORT`, or `NONE` (a decider
/// that looked and wanted nothing), in any case.
pub open spec fn side_named(text: Seq<char>) -> Option<Option<Side>> {
    let up = upper_all(text);
    if up == "LONG"@ {
        Some(Some(Side::Long))
    } else if up == "SHORT"@ {
        Some(Some(Side::Short))
    } else if up == "NONE"@ {
        Some(None)
    } else {
        None
    }
}

/// Read an intent's side. `NONE` is a real answer and is accepted; anything
/// else is refused and the refusal repeats it.
pub fn parse_side(text: &str) -> (r: Result<Option<Side>, ApiError>)
    ensures
        side_named(text@) matches Some(s) ==> r == Ok::<Option<Side>, ApiError>(s),
        side_named(text@) is None ==> (r matches Err(ApiError::BadRequest(m)) && m@
            == "side must be LONG, SHORT or NONE, got `"@ + upper_all(text@) + "`"@),
{
    let up = crate::text::upper_chars(&chars_of(text));
    let up_s = crate::text::string_of(&up);
    if str_eq(up_s.as_str(), "LONG") {
        Ok(Some(Side::Long))
    } else if str_eq(up_s.as_str(), "SHORT") {
        Ok(Some(Side::Short))
    } else if str_eq(up_s.as_str(), "NONE") {
        Ok(None)
    } else {
        let mut m = String::new();
        push_str(&mut m, "side must be LONG, SHORT or NONE, got `");
        push_str(&mut m, up_s.as_str());
        push_str(&mut m, "`");
        assert(m@ =~= "side must be LONG, SHORT or NONE, got `"@ + upper_all(text@) + "`"@);
        Err(ApiError::BadRequest(m))
    }
}

/// The entry an intent's `entry.type` names: absent, empty or `market` is a
/// market entry; `limit` and `stop` rest an order. Case and surrounding
/// space do not matter.
pub open spec fn entry_named(text: Option<Seq<char>>) -> Option<EntryKind> {
    match text {
        None => Some(EntryKind::Market),
        Some(t) => {
            let low = lower_all(trim(t));
            if low == "market"@ || low.len() == 0 {
                Some(EntryKind::Market)
            } else if low == "limit"@ {
                Some(EntryKind::Limit)
            } else if low == "stop"@ {
                Some(EntryKind::Stop)
            } else {
                None
            }
        },
    }
}

/// Read an intent's `entry.type`. A body written before orders existed
/// (no `entry`) means exactly what it meant then: a market entry.
pub fn parse_entry_type(text: Option<&str>) -> (r: Result<EntryKind, ApiError>)
    ensures
        entry_named(crate::auth::opt_view(text)) matches Some(k) ==> r == Ok::<EntryKind, ApiError>(k),
        entry_named(crate::auth::opt_view(text)) is None ==> (r matches Err(ApiError::BadRequest(m))
            && m@ == "entry.type must be market, limit or stop, got `"@ + lower_all(
            trim(text->0@),
        ) + "`"@),
{
    let t = match text {
        None => return Ok(EntryKind::Market),
        Some(t) => t,
    };
    let low = crate::text::lower_chars(&crate::text::trimmed(t));
    let low_s = crate::text::string_of(&low);
    if str_eq(low_s.as_str(), "market") || low.len() == 0 {
        Ok(EntryKind::Market)
    } else if str_eq(low_s.as_str(), "limit") {
        Ok(EntryKind::Limit)
    } else if str_eq(low_s.as_str(), "stop") {
        Ok(EntryKind::Stop)
    } else {
        let mut m = String::new();
        push_str(&mut m, "entry.type must be market, limit or stop, got `");
        push_str(&mut m, low_s.as_str());
        push_str(&mut m, "`");
        assert(m@ =~= "entry.type must be market, limit or stop, got `"@ + lower_all(trim(t@)) + "`"@);
        Err(ApiError::BadRequest(m))
    }
}

/// What the desk makes of a posted intent before it touches the book.
pub enum IntentVerdict {
    /// Not taken, for the reason given; the book is left as it was.
    Refused(String),
    /// May proceed to the book.
    Proceed,
}

/// The refusals an intent meets, in order: a paused run takes no entry (a
/// stand-aside is still recorded); only an `external` run takes posted
/// intents at all; the intent must have been decided on the run's last bar
/// (late costs a trade, never a bad fill); and an order cannot add to a
/// position the run holds.
pub fn intent_gate(
    run: &str,
    strategy: &str,
    paused: bool,
    last_bar: i64,
    bar_time: i64,
    side: Option<Side>,
    entry: EntryKind,
    holding: bool,
) -> (r: Result<IntentVerdict, ApiError>)
    ensures
        paused && side is Some ==> (r matches Ok(IntentVerdict::Refused(m)) && m@ == "run is paused"@),
        !(paused && side is Some) && strategy@ != "external"@ ==> (r matches Err(ApiError::BadRequest(m))
            && m@ == "run `"@ + run@ + "` uses strategy `"@ + strategy@
            + "`; only an `external` run takes posted intents"@),
        !(paused && side is Some) && strategy@ == "external"@ && last_bar != bar_time ==> (r matches Ok(
            IntentVerdict::Refused(m),
        ) && m@ == "decided on bar "@ + signed_decimal(bar_time as int) + " but the run is on "@
            + signed_decimal(last_bar as int)),
        !(paused && side is Some) && strategy@ == "external"@ && last_bar == bar_time ==> (if side is Some
            && entry != EntryKind::Market && holding {
            r matches Ok(IntentVerdict::Refused(m)) && m@ == "run holds a position; an order cannot add to it"@
        } else {
            r matches Ok(IntentVerdict::Proceed)
        }),
{
    if paused && side.is_some() {
        return Ok(IntentVerdict::Refused(crate::text::owned("run is paused")));
    }
    if !str_eq(strategy, "external") {
        let mut m = String::new();
        push_str(&mut m, "run `");
        push_str(&mut m, run);
        push_str(&mut m, "` uses strategy `");
        push_str(&mut m, strategy);
        push_str(&mut m, "`; only an `external` run takes posted intents");
        assert(m@ =~= "run `"@ + run@ + "` uses strategy `"@ + strategy@
            + "`; only an `external` run takes posted intents"@);
        return Err(ApiError::BadRequest(m));
    }
    if last_bar != bar_time {
        let mut m = String::new();
        push_str(&mut m, "decided on bar ");
        push_i64(&mut m, bar_time);
        push_str(&mut m, " but the run is on ");
        push_i64(&mut m, last_bar);
        assert(m@ =~= "decided on bar "@ + signed_decimal(bar_time as int) + " but the run is on "@
            + signed_decimal(last_bar as int));
        return Ok(IntentVerdict::Refused(m));
    }
    if side.is_some() && entry != EntryKind::Market && holding {
        return Ok(IntentVerdict::Refused(crate::text::owned("run holds a position; an order cannot add to it")));
    }
    Ok(IntentVerdict::Proceed)
}

/* ----------------------------------------------- a resting order's terms */

/// What an order intent asks for, its prices given as levels: keys that
/// order as the prices do, with 0 standing for a price of zero, and `None`
/// for a price that is absent or not finite.
pub struct OrderAsk {
    pub side: Side,
    pub price: Option<i64>,
    pub stop: Option<i64>,
    pub target: Option<i64>,
    pub valid_bars: Option<usize>,
}

/// Why an order intent is not taken.
#[derive(Clone, Copy, PartialEq, Eq, Structural)]
pub enum OrderRefusal {
    /// No finite price above zero.
    NoPrice,
    /// No finite stop.
    NoStop,
    /// The stop is not on the losing side of the price.
    StopNotLosing,
    /// The target is not on the winning side of the price.
    TargetNotWinning,
    /// It would rest for no bars at all.
    NoValidBars,
}

/// The bars an order rests for when the intent does not say.
pub const DEFAULT_VALID_BARS: usize = 2;

/// An order's terms, checked whole and in this order: a price above zero, a
/// stop, the stop on the losing side of the price (below it for a long,
/// above it for a short), a target when given on the winning side, and at
/// least one bar to rest for. Taken, it rests for the bars asked
/// ([`DEFAULT_VALID_BARS`] when not).
pub open spec fn order_verdict(a: OrderAsk) -> Result<usize, OrderRefusal> {
    let long = a.side == Side::Long;
    match a.price {
        Some(p) if p > 0 => match a.stop {
            None => Err(OrderRefusal::NoStop),
            Some(s) => if !(if long { s < p } else { s > p }) {
                Err(OrderRefusal::StopNotLosing)
            } else if a.target matches Some(t) && !(if long { t > p } else { t < p }) {
                Err(OrderRefusal::TargetNotWinning)
            } else {
                let bars = match a.valid_bars {
                    Some(b) => b,
                    None => DEFAULT_VALID_BARS,
                };
                if bars == 0 {
                    Err(OrderRefusal::NoValidBars)
                } else {
                    Ok(bars)
                }
            },
        },
        _ => Err(OrderRefusal::NoPrice),
    }
}

/// Check an order intent's terms; the bars it rests for when they hold.
pub fn check_order(a: &OrderAsk) -> (r: Result<usize, OrderRefusal>)
    ensures
        r == order_verdict(*a),
{
    let long = match a.side {
        Side::Long => true,
        Side::Short => false,
    };
    let p = match a.price {
        Some(p) => if p > 0 {
            p
        } else {
            return Err(OrderRefusal::NoPrice);
        },
        None => return Err(OrderRefusal::NoPrice),
    };
    let s = match a.stop {
        Some(s) => s,
        None => return Err(OrderRefusal::NoStop),
    };
    let losing = if long { s < p } else { s > p };
    if !losing {
        return Err(OrderRefusal::StopNotLosing);
    }
    if let Some(t) = a.target {
        let winning = if long { t > p } else { t < p };
        if !winning {
            return Err(OrderRefusal::TargetNotWinning);
        }
    }
    let bars = match a.valid_bars {
        Some(b) => b,
        None => DEFAULT_VALID_BARS,
    };
    if bars == 0 {
        return Err(OrderRefusal::NoValidBars);
    }
    Ok(bars)
}

/// An order's reason: the intent's own, or `external` when it gave none.
pub fn order_reason(reason: &str) -> (r: String)
    ensures
        r@ == (if reason@.len() == 0 { "external"@ } else { reason@ }),
{
    if chars_of(reason).len() == 0 {
        crate::text::owned("external")
    } else {
        crate::text::owned(reason)
    }
}

/// The name a posted intent gives its decider, trimmed, when it gives one.
pub fn decider_name(raw: Option<&str>) -> (name: Option<String>)
    ensures
        name matches Some(n) ==> raw is Some && n@ == trim(raw->0@) && n@.len() > 0,
        name is None ==> (raw is None || trim(raw->0@).len() == 0),
{
    match raw {
        None => None,
        Some(r) => {
            let t = crate::text::trimmed(r);
            if t.len() == 0 {
                None
            } else {
                Some(crate::text::string_of(&t))
            }
        },
    }
}

/// Who has been posting a book's entries: the last poster, when, and a
/// count per name. More than one name means the book's record is not any
/// one decider's.
pub struct Decider {
    /// What the most recent poster called itself.
    pub last: String,
    /// Epoch ms of the last accepted intent.
    pub last_at: i64,
    /// Accepted entries per decider name, each name once.
    pub decisions: Vec<(String, usize)>,
    /// Times a decider looked at a bar and asked for nothing.
    pub stood_aside: usize,
}

/// The count `ds` holds for `name`: its entry's, or 0.
pub open spec fn count_for(ds: Seq<(String, usize)>, name: Seq<char>) -> int
    decreases ds.len(),
{
    if ds.len() == 0 {
        0
    } else if ds.last().0@ == name {
        ds.last().1 as int
    } else {
        count_for(ds.drop_last(), name)
    }
}

/// Each name at most once.
pub open spec fn names_distinct(ds: Seq<(String, usize)>) -> bool {
    forall|i: int, j: int| 0 <= i < j < ds.len() ==> (#[trigger] ds[i]).0@ != (#[trigger] ds[j]).0@
}

/// A decider table as the original keeps it: names in the order of
/// `String`'s `Ord`, each once, each with at least one entry.
pub open spec fn decisions_kept(ds: Seq<(String, usize)>) -> bool {
    &&& forall|i: int, j: int|
        0 <= i < j < ds.len() ==> crate::accounts::lex_le((#[trigger] ds[i]).0@, (#[trigger] ds[j]).0@)
            && ds[i].0@ != ds[j].0@
    &&& forall|i: int| 0 <= i < ds.len() ==> (#[trigger] ds[i]).1 >= 1
}

/// Some entry of `ds` is named `name`.
pub open spec fn listed(ds: Seq<(String, usize)>, name: Seq<char>) -> bool {
    exists|i: int| 0 <= i < ds.len() && (#[trigger] ds[i]).0@ == name
}

/// The count of the entry at `i`, when it is the only one named so.
proof fn lemma_count_at(ds: Seq<(String, usize)>, i: int)
    requires
        names_distinct(ds),
        0 <= i < ds.len(),
    ensures
        count_for(ds, ds[i].0@) == ds[i].1,
    decreases ds.len(),
{
    if i < ds.len() - 1 {
        assert(ds.last().0@ != ds[i].0@);
        assert(ds.drop_last()[i] == ds[i]);
        lemma_count_at(ds.drop_last(), i);
    }
}

/// A name no entry has counts zero.
proof fn lemma_count_absent(ds: Seq<(String, usize)>, name: Seq<char>)
    requires
        forall|i: int| 0 <= i < ds.len() ==> (#[trigger] ds[i]).0@ != name,
    ensures
        count_for(ds, name) == 0,
    decreases ds.len(),
{
    if ds.len() > 0 {
        assert(ds.last() == ds[ds.len() - 1]);
        lemma_count_absent(ds.drop_last(), name);
    }
}

/// Changing the count at `i` leaves every other name's count.
proof fn lemma_count_update(ds: Seq<(String, usize)>, i: int, c: usize, other: Seq<char>)
    requires
        names_distinct(ds),
        0 <= i < ds.len(),
    ensures
        names_distinct(ds.update(i, (ds[i].0, c))),
        count_for(ds.update(i, (ds[i].0, c)), ds[i].0@) == c,
        other != ds[i].0@ ==> count_for(ds.update(i, (ds[i].0, c)), other) == count_for(ds, other),
    decreases ds.len(),
{
    let u = ds.update(i, (ds[i].0, c));
    assert forall|a: int, b: int| 0 <= a < b < u.len() implies (#[trigger] u[a]).0@ != (#[trigger] u[b]).0@ by {
        assert(u[a].0@ == ds[a].0@ && u[b].0@ == ds[b].0@);
    }
    lemma_count_at(u, i);
    if other != ds[i].0@ && ds.len() > 0 {
        if i < ds.len() - 1 {
            assert(u.last() == ds.last());
            assert(u.drop_last() =~= ds.drop_last().update(i, (ds[i].0, c)));
            if ds.last().0@ != other {
                lemma_count_update(ds.drop_last(), i, c, other);
            }
        } else {
            assert(u.drop_last() =~= ds.drop_last());
        }
    }
}

impl Decider {
    /// Nobody yet.
    pub fn new() -> (d: Self)
        ensures
            d.last@.len() == 0,
            d.last_at == 0,
            d.decisions@.len() == 0,
            d.stood_aside == 0,
    {
        Decider { last: String::new(), last_at: 0, decisions: Vec::new(), stood_aside: 0 }
    }

    /// Record that `name` drove the book at `at`: an entry it asked for is
    /// counted against its name, a stand-aside in `stood_aside`. The table
    /// keeps its names in the order of `String`'s `Ord`, each once, and holds
    /// exactly the names that have entered.
    pub fn record(&mut self, name: &str, at: i64, entered: bool)
        requires
            decisions_kept(old(self).decisions@),
            entered ==> count_for(old(self).decisions@, name@) < usize::MAX,
            !entered ==> old(self).stood_aside < usize::MAX,
        ensures
            decisions_kept(final(self).decisions@),
            final(self).last@ == name@,
            final(self).last_at == at,
            entered ==> count_for(final(self).decisions@, name@) == count_for(old(self).decisions@, name@) + 1,
            entered ==> final(self).stood_aside == old(self).stood_aside,
            !entered ==> final(self).decisions@ == old(self).decisions@,
            !entered ==> final(self).stood_aside == old(self).stood_aside + 1,
            forall|other: Seq<char>| other != name@ ==> count_for(final(self).decisions@, other)
                == count_for(old(self).decisions@, other),
            forall|n: Seq<char>| #[trigger] listed(final(self).decisions@, n) <==> (listed(old(self).decisions@, n)
                || (entered && n == name@)),
    {
        self.last = crate::text::owned(name);
        self.last_at = at;
        if !entered {
            self.stood_aside = self.stood_aside + 1;
            return;
        }
        let ghost ds = self.decisions@;
        let x = chars_of(name);
        let mut i: usize = 0;
        while i < self.decisions.len()
            invariant
                i <= self.decisions@.len(),
                self.decisions@ == ds,
                ds == old(self).decisions@,
                decisions_kept(ds),
                count_for(ds, name@) < usize::MAX,
                self.last@ == name@,
                self.last_at == at,
                self.stood_aside == old(self).stood_aside,
                entered,
                x@ == name@,
                forall|k: int| 0 <= k < i ==> crate::accounts::lex_le((#[trigger] ds[k]).0@, name@) && ds[k].0@ != name@,
            ensures
                i <= ds.len(),
                self.decisions@ == ds,
                i < ds.len() ==> !crate::accounts::lex_le(ds[i as int].0@, name@),
                forall|k: int| 0 <= k < i ==> crate::accounts::lex_le((#[trigger] ds[k]).0@, name@) && ds[k].0@ != name@,
            decreases self.decisions@.len() - i,
        {
            let y = chars_of(self.decisions[i].0.as_str());
            if str_eq(self.decisions[i].0.as_str(), name) {
                proof {
                    lemma_count_at(ds, i as int);
                }
                let n = self.decisions[i].1 + 1;
                let key = self.decisions[i].0.clone();
                proof {
                    assert(key@ == ds[i as int].0@);
                }
                self.decisions.set(i, (key, n));
                proof {
                    assert forall|other: Seq<char>| other != name@ implies count_for(self.decisions@, other)
                        == count_for(ds, other) by {
                        lemma_count_update_clone(ds, i as int, key, n, other);
                    }
                    lemma_count_update_clone(ds, i as int, key, n, name@);
                    let u = self.decisions@;
                    assert forall|a: int, b: int| 0 <= a < b < u.len() implies crate::accounts::lex_le(
                        (#[trigger] u[a]).0@,
                        (#[trigger] u[b]).0@,
                    ) && u[a].0@ != u[b].0@ by {
                        assert(u[a].0@ == ds[a].0@ && u[b].0@ == ds[b].0@);
                    }
                    assert forall|k: int| 0 <= k < u.len() implies (#[trigger] u[k]).1 >= 1 by {
                        if k != i {
                            assert(u[k] == ds[k]);
                        }
                    }
                    assert forall|m: Seq<char>| #[trigger] listed(u, m) <==> listed(ds, m) by {
                        if listed(u, m) {
                            let k = choose|k: int| 0 <= k < u.len() && (#[trigger] u[k]).0@ == m;
                            assert(ds[k].0@ == m);
                        }
                        if listed(ds, m) {
                            let k = choose|k: int| 0 <= k < ds.len() && (#[trigger] ds[k]).0@ == m;
                            assert(u[k].0@ == m);
                        }
                    }
                }
                return;
            }
            if !crate::accounts::lex_le_chars(&y, &x) {
                break;
            }
            i = i + 1;
        }
        proof {
            if i < ds.len() {
                crate::accounts::lemma_lex_total(ds[i as int].0@, name@);
            }
            assert forall|k: int| 0 <= k < ds.len() implies (#[trigger] ds[k]).0@ != name@ by {
                if k >= i && ds[k].0@ == name@ {
                    if k > i {
                        assert(crate::accounts::lex_le(ds[i as int].0@, ds[k].0@));
                    } else {
                        crate::accounts::lemma_lex_refl(name@);
                    }
                }
            }
            lemma_count_absent(ds, name@);
        }
        self.decisions.insert(i, (crate::text::owned(name), 1));
        proof {
            let u = self.decisions@;
            let nm = u[i as int];
            assert(u =~= ds.insert(i as int, nm));
            assert forall|k: int| i < k < u.len() implies (#[trigger] u[k]) == ds[k - 1] by {}
            assert forall|k: int| 0 <= k < i implies (#[trigger] u[k]) == ds[k] by {}
            assert forall|k: int| i < k < u.len() implies crate::accounts::lex_le(name@, (#[trigger] u[k]).0@)
                && u[k].0@ != name@ by {
                crate::accounts::lemma_lex_total(ds[i as int].0@, name@);
                if k - 1 > i {
                    crate::accounts::lemma_lex_trans(name@, ds[i as int].0@, ds[k - 1].0@);
                }
            }
            assert forall|a: int, b: int| 0 <= a < b < u.len() implies crate::accounts::lex_le(
                (#[trigger] u[a]).0@,
                (#[trigger] u[b]).0@,
            ) && u[a].0@ != u[b].0@ by {
                if b < i {
                } else if b == i {
                } else if a < i {
                    crate::accounts::lemma_lex_trans(u[a].0@, name@, u[b].0@);
                    assert(u[a].0@ != u[b].0@);
                } else if a == i {
                } else {
                    assert(u[a] == ds[a - 1] && u[b] == ds[b - 1]);
                }
            }
            assert forall|k: int| 0 <= k < u.len() implies (#[trigger] u[k]).1 >= 1 by {
                if k < i {
                    assert(u[k] == ds[k]);
                } else if k > i {
                    assert(u[k] == ds[k - 1]);
                }
            }
            assert(names_distinct(u));
            lemma_count_at(u, i as int);
            assert forall|other: Seq<char>| other != name@ implies count_for(u, other) == count_for(ds, other) by {
                if listed(ds, other) {
                    let k = choose|k: int| 0 <= k < ds.len() && (#[trigger] ds[k]).0@ == other;
                    lemma_count_at(ds, k);
                    if k < i {
                        lemma_count_at(u, k);
                    } else {
                        assert(u[k + 1] == ds[k]);
                        lemma_count_at(u, k + 1);
                    }
                } else {
                    assert forall|k: int| 0 <= k < u.len() implies (#[trigger] u[k]).0@ != other by {
                        if k < i {
                            assert(u[k] == ds[k]);
                        } else if k > i {
                            assert(u[k] == ds[k - 1]);
                        }
                    }
                    lemma_count_absent(u, other);
                    assert forall|k: int| 0 <= k < ds.len() implies (#[trigger] ds[k]).0@ != other by {}
                    lemma_count_absent(ds, other);
                }
            }
            assert forall|m: Seq<char>| #[trigger] listed(u, m) <==> (listed(ds, m) || m == name@) by {
                if listed(u, m) {
                    let k = choose|k: int| 0 <= k < u.len() && (#[trigger] u[k]).0@ == m;
                    if k < i {
                        assert(ds[k] == u[k]);
                    } else if k > i {
                        assert(ds[k - 1] == u[k]);
                    }
                }
                if listed(ds, m) {
                    let k = choose|k: int| 0 <= k < ds.len() && (#[trigger] ds[k]).0@ == m;
                    if k < i {
                        assert(u[k] == ds[k]);
                    } else {
                        assert(u[k + 1] == ds[k]);
                    }
                }
                if m == name@ {
                    assert(u[i as int].0@ == m);
                }
            }
        }
    }
}

/// [`lemma_count_update`] with a key of the same text in place of the
/// entry's own.
proof fn lemma_count_update_clone(ds: Seq<(String, usize)>, i: int, key: String, c: usize, other: Seq<char>)
    requires
        names_distinct(ds),
        0 <= i < ds.len(),
        key@ == ds[i].0@,
    ensures
        names_distinct(ds.update(i, (key, c))),
        count_for(ds.update(i, (key, c)), key@) == c,
        other != key@ ==> count_for(ds.update(i, (key, c)), other) == count_for(ds, other),
    decreases ds.len(),
{
    let u = ds.update(i, (key, c));
    assert forall|a: int, b: int| 0 <= a < b < u.len() implies (#[trigger] u[a]).0@ != (#[trigger] u[b]).0@ by {
        assert(u[a].0@ == ds[a].0@ && u[b].0@ == ds[b].0@);
    }
    lemma_count_at(u, i);
    if other != key@ && ds.len() > 0 {
        if i < ds.len() - 1 {
            assert(u.last() == ds.last());
            assert(u.drop_last() =~= ds.drop_last().update(i, (key, c)));
            lemma_count_update_clone(ds.drop_last(), i, key, c, other);
        } else {
            assert(u.drop_last() =~= ds.drop_last());
        }
    }
}

/* ------------------------------------------- acting on a resting order */

/// What `pending/act` is asked to do.
#[derive(Clone, Copy, PartialEq, Eq, Structural)]
pub enum Act {
    /// Fill now at the latest tick's touched side.
    Trigger,
    /// Withdraw the order.
    Cancel,
}

/// Read an act's `action`: `trigger` or `cancel`, in any case and spacing.
pub fn parse_action(text: &str) -> (r: Result<Act, ApiError>)
    ensures
        lower_all(trim(text@)) == "trigger"@ ==> r == Ok::<Act, ApiError>(Act::Trigger),
        lower_all(trim(text@)) == "cancel"@ ==> r == Ok::<Act, ApiError>(Act::Cancel),
        lower_all(trim(text@)) != "trigger"@ && lower_all(trim(text@)) != "cancel"@ ==> (r matches Err(
            ApiError::BadRequest(m),
        ) && m@ == "action must be trigger or cancel, got `"@ + text@ + "`"@),
{
    proof {
        reveal_strlit("trigger");
        reveal_strlit("cancel");
        assert("trigger"@.len() != "cancel"@.len());
        assert("trigger"@ != "cancel"@);
    }
    let low = crate::text::string_of(&crate::text::lower_chars(&crate::text::trimmed(text)));
    if str_eq(low.as_str(), "trigger") {
        Ok(Act::Trigger)
    } else if str_eq(low.as_str(), "cancel") {
        Ok(Act::Cancel)
    } else {
        let mut m = String::new();
        push_str(&mut m, "action must be trigger or cancel, got `");
        push_str(&mut m, text);
        push_str(&mut m, "`");
        assert(m@ =~= "action must be trigger or cancel, got `"@ + text@ + "`"@);
        Err(ApiError::BadRequest(m))
    }
}

/// The reason a cancelled order's row carries: `cancelled:<why>`, or
/// `cancelled:act` when the caller gave none.
pub fn cancel_reason(why: &str) -> (r: String)
    ensures
        r@ == "cancelled:"@ + (if trim(why@).len() == 0 { "act"@ } else { trim(why@) }),
{
    let t = crate::text::trimmed(why);
    let mut r = String::new();
    push_str(&mut r, "cancelled:");
    if t.len() == 0 {
        push_str(&mut r, "act");
    } else {
        crate::text::push_chars(&mut r, &t);
    }
    r
}

/// The forming bar a trigger would price off: when the server received it,
/// and the bar it belongs to.
pub struct TickStamp {
    pub at: i64,
    pub time: i64,
}

/// Why a trigger cannot fill now, if it cannot: no tick yet, a tick older
/// than [`MAX_TRIGGER_TICK_AGE_MS`], a tick from a bar the run has already
/// closed over, a tick without the side the order fills on, or a position
/// already held.
pub fn trigger_refusal(
    now: i64,
    live: Option<TickStamp>,
    last_bar: Option<i64>,
    side_name: &str,
    touched_side: &str,
    has_quote: bool,
    holding: bool,
) -> (r: Option<String>)
    requires
        live matches Some(t) ==> i64::MIN <= now - t.at <= i64::MAX,
    ensures
        live is None ==> (r matches Some(m) && m@ == "no tick has arrived on this stream"@),
        live matches Some(t) ==> (if now - t.at > MAX_TRIGGER_TICK_AGE_MS {
            r matches Some(m) && m@ == "the last tick is "@ + signed_decimal(now - t.at) + " ms old; a trigger needs one within 10000 ms"@
        } else if last_bar is None || t.time <= last_bar->0 {
            r matches Some(m) && m@ == "the last tick belongs to bar "@ + signed_decimal(t.time as int)
                + ", which the run has already closed over"@
        } else if !has_quote {
            r matches Some(m) && m@ == "the last tick carries no "@ + touched_side@ + " to fill a "@ + side_name@ + " at"@
        } else if holding {
            r matches Some(m) && m@ == "run holds a position; the order cannot add to it"@
        } else {
            r is None
        }),
{
    let t = match live {
        None => return Some(crate::text::owned("no tick has arrived on this stream")),
        Some(t) => t,
    };
    let age = now - t.at;
    if age > MAX_TRIGGER_TICK_AGE_MS {
        let mut m = String::new();
        push_str(&mut m, "the last tick is ");
        push_i64(&mut m, age);
        push_str(&mut m, " ms old; a trigger needs one within 10000 ms");
        assert(m@ =~= "the last tick is "@ + signed_decimal(now - t.at) + " ms old; a trigger needs one within 10000 ms"@);
        return Some(m);
    }
    let closed_over = match last_bar {
        None => true,
        Some(l) => t.time <= l,
    };
    if closed_over {
        let mut m = String::new();
        push_str(&mut m, "the last tick belongs to bar ");
        push_i64(&mut m, t.time);
        push_str(&mut m, ", which the run has already closed over");
        assert(m@ =~= "the last tick belongs to bar "@ + signed_decimal(t.time as int)
            + ", which the run has already closed over"@);
        return Some(m);
    }
    if !has_quote {
        let mut m = String::new();
        push_str(&mut m, "the last tick carries no ");
        push_str(&mut m, touched_side);
        push_str(&mut m, " to fill a ");
        push_str(&mut m, side_name);
        push_str(&mut m, " at");
        assert(m@ =~= "the last tick carries no "@ + touched_side@ + " to fill a "@ + side_name@ + " at"@);
        return Some(m);
    }
    if holding {
        return Some(crate::text::owned("run holds a position; the order cannot add to it"));
    }
    None
}

/* ----------------------------------------------------------- wire shapes */

/// What one run did with a tick that reached its resting order.
pub struct TickOrderResponse {
    pub id: String,
    /// `filled`, `refused` or `cancelled`.
    pub event: &'static str,
    pub reason: Option<String>,
}

/// `POST /api/paper/tick`'s answer: the tick is stored, and what it did to
/// resting orders, when it reached any.
pub struct TickResponse {
    pub stored: bool,
    pub orders: Vec<TickOrderResponse>,
}

/// What one run did with an open.
pub struct RunOpenResponse {
    pub id: String,
    /// True when this open filled a pending entry.
    pub opened: bool,
    /// The guard or advisor that refused the entry, if one did.
    pub refused: Option<String>,
}

/// A news blackout a run's guards will act on.
pub struct BlackoutDto {
    pub time: i64,
    pub currency: String,
    pub impact: u8,
    /// The release's name; empty when the calendar did not carry one.
    pub name: String,
}

/// What the news guard knows for a run.
pub struct NewsDto {
    pub events_loaded: usize,
    pub next_blackout: Option<BlackoutDto>,
    /// The last event this run's guards would ever act on, and how far away
    /// it is in days, and which series runs out first.
    pub horizon: Option<i64>,
    pub horizon_days: Option<i64>,
    pub horizon_name: Option<String>,
}

/// `GET /api/paper/detail/{id}`'s query.
pub struct DetailQuery {
    /// Window bars to return, from the newest back.
    pub bars: Option<usize>,
}

impl DetailQuery {
    /// The bars a detail returns: the query's count, [`DEFAULT_DETAIL_BARS`]
    /// when it gives none, never more than the run's window (at least one).
    pub fn wanted(&self, window: usize) -> (n: usize)
        ensures
            n == ({
                let asked = match self.bars {
                    Some(b) => b,
                    None => DEFAULT_DETAIL_BARS,
                };
                let cap = if window > 1 { window } else { 1 };
                if asked < cap { asked } else { cap }
            }),
    {
        let asked = match self.bars {
            Some(b) => b,
            None => DEFAULT_DETAIL_BARS,
        };
        let cap = if window > 1 { window } else { 1 };
        if asked < cap { asked } else { cap }
    }
}

/// `POST /api/paper/pause`.
pub struct PauseRequest {
    pub run: String,
    pub paused: bool,
}

/// What a pause did: and whether the book was holding, because pausing
/// does not close a position.
pub struct PauseResponse {
    pub id: String,
    pub paused: bool,
    pub holding: bool,
}

/// The answer to a posted intent.
pub struct IntentResponse {
    pub accepted: bool,
    pub reason: String,
}

/// `POST /api/paper/pending/act`.
pub struct ActRequest {
    pub run: String,
    pub action: String,
    pub reason: String,
}

/// The answer to an act.
pub struct ActResponse {
    pub accepted: bool,
    pub reason: String,
}

/// `GET /api/paper/reasoning/{id}`'s query.
pub struct ReasoningQuery {
    pub limit: Option<usize>,
}

/// `GET /api/paper/broker-events/{id}`'s query.
pub struct BrokerEventsQuery {
    pub account: String,
    pub limit: Option<usize>,
}

/// How many log entries a query gets: its limit, [`DEFAULT_REASONING`] when
/// it gives none, kept between 1 and [`MAX_REASONING`].
pub fn entries_wanted(limit: Option<usize>) -> (n: usize)
    ensures
        n == ({
            let asked = match limit {
                Some(l) => l,
                None => DEFAULT_REASONING,
            };
            if asked < 1 { 1 } else if asked > MAX_REASONING { MAX_REASONING } else { asked }
        }),
{
    let asked = match limit {
        Some(l) => l,
        None => DEFAULT_REASONING,
    };
    if asked < 1 { 1 } else if asked > MAX_REASONING { MAX_REASONING } else { asked }
}

/* ---------------------------------------------------------- starting a run */

/// The timeframes the desk runs on.
pub open spec fn is_timeframe(tf: Seq<char>) -> bool {
    tf == "1m"@ || tf == "5m"@ || tf == "15m"@ || tf == "30m"@ || tf == "1h"@ || tf == "4h"@ || tf == "1d"@
}

/// Is `tf` one of the desk's timeframes?
pub fn known_timeframe(tf: &str) -> (r: bool)
    ensures
        r == is_timeframe(tf@),
{
    str_eq(tf, "1m") || str_eq(tf, "5m") || str_eq(tf, "15m") || str_eq(tf, "30m") || str_eq(tf, "1h")
        || str_eq(tf, "4h") || str_eq(tf, "1d")
}

/// A timeframe the desk does not run on is refused, by name.
pub fn check_timeframe(tf: &str) -> (r: Result<(), ApiError>)
    ensures
        r is Ok <==> is_timeframe(tf@),
        r matches Err(e) ==> e matches ApiError::BadRequest(m) && m@ == "unknown timeframe: "@ + tf@,
{
    if known_timeframe(tf) {
        Ok(())
    } else {
        let mut m = String::new();
        push_str(&mut m, "unknown timeframe: ");
        push_str(&mut m, tf);
        Err(ApiError::BadRequest(m))
    }
}

/// A run's label: trimmed, and none when that leaves nothing.
pub fn run_label(label: Option<&str>) -> (r: Option<String>)
    ensures
        r matches Some(l) ==> label is Some && l@ == trim(label->0@) && l@.len() > 0,
        r is None ==> (label is None || trim(label->0@).len() == 0),
{
    decider_name(label)
}

/// The refusal of a window too short for the strategy's warm-up.
pub open spec fn short_window_message(window: nat, strategy: Seq<char>, warmup: nat) -> Seq<char> {
    "window "@ + crate::text::decimal(window) + " is too short: "@ + strategy + " needs "@ + crate::text::decimal(
        warmup,
    ) + " warm-up bars and one more to fill on"@
}

/// A start's window: at least one bar, and long enough for the strategy's
/// `warmup` bars and one more to fill on.
pub fn start_window(window: usize, warmup: usize, strategy: &str) -> (r: Result<usize, ApiError>)
    ensures
        ({
            let w = if window > 1 { window } else { 1 };
            &&& w >= warmup + 2 ==> r == Ok::<usize, ApiError>(w)
            &&& w < warmup + 2 ==> (r matches Err(ApiError::BadRequest(m)) && m@ == short_window_message(
                w as nat,
                strategy@,
                warmup as nat,
            ))
        }),
{
    let w = if window > 1 { window } else { 1 };
    if warmup >= usize::MAX - 1 || w < warmup + 2 {
        let mut m = String::new();
        push_str(&mut m, "window ");
        crate::text::push_decimal(&mut m, w as u64);
        push_str(&mut m, " is too short: ");
        push_str(&mut m, strategy);
        push_str(&mut m, " needs ");
        crate::text::push_decimal(&mut m, warmup as u64);
        push_str(&mut m, " warm-up bars and one more to fill on");
        assert(m@ =~= short_window_message(w as nat, strategy@, warmup as nat));
        return Err(ApiError::BadRequest(m));
    }
    Ok(w)
}

/* ------------------------------------------------------- the news window */

/// A calendar event as a run's guards see it: when, whose currency, how
/// loud, what it is called, and whether it concerns the run's market (an
/// event for all currencies does).
pub struct NewsEvent {
    pub time: i64,
    pub currency: String,
    pub impact: u8,
    pub name: String,
    pub concerns: bool,
}

/// A series has a horizon only when it has this many entries: a year of a
/// monthly release. A week of the live feed, or a record of unscheduled
/// meetings, is not a schedule.
pub const RECURRING: usize = 12;

/// Milliseconds in a day.
pub const DAY_MS: i64 = 86_400_000;

/// The guards act on `e`: loud enough, and about the run's market.
pub open spec fn counts(e: NewsEvent, min_impact: u8) -> bool {
    e.impact >= min_impact && e.concerns
}

/// `e` is a blackout still to come at `now`.
pub open spec fn blacks_out(e: NewsEvent, now: i64, min_impact: u8) -> bool {
    e.time >= now && counts(e, min_impact)
}

/// `r` is the position of the first blackout still to come, in the
/// calendar's order, or `None` when there is none.
pub open spec fn is_next_blackout(es: Seq<NewsEvent>, now: i64, min_impact: u8, r: Option<usize>) -> bool {
    match r {
        Some(i) => {
            &&& i < es.len()
            &&& blacks_out(es[i as int], now, min_impact)
            &&& forall|j: int| 0 <= j < i ==> !blacks_out(#[trigger] es[j], now, min_impact)
        },
        None => forall|j: int| 0 <= j < es.len() ==> !blacks_out(#[trigger] es[j], now, min_impact),
    }
}

/// `e` is an entry of the series called `name` that the guards act on.
pub open spec fn in_series(e: NewsEvent, name: Seq<char>, min_impact: u8) -> bool {
    counts(e, min_impact) && e.name@ == name
}

/// How many entries the series called `name` has.
pub open spec fn series_len(es: Seq<NewsEvent>, name: Seq<char>, min_impact: u8) -> nat
    decreases es.len(),
{
    if es.len() == 0 {
        0
    } else {
        series_len(es.drop_last(), name, min_impact) + if in_series(es.last(), name, min_impact) {
            1nat
        } else {
            0nat
        }
    }
}

/// The time of the last entry of the series called `name`, if it has one.
pub open spec fn series_end(es: Seq<NewsEvent>, name: Seq<char>, min_impact: u8) -> Option<i64>
    decreases es.len(),
{
    if es.len() == 0 {
        None
    } else {
        let rest = series_end(es.drop_last(), name, min_impact);
        let e = es.last();
        if !in_series(e, name, min_impact) {
            rest
        } else {
            match rest {
                Some(t) => Some(if t >= e.time { t } else { e.time }),
                None => Some(e.time),
            }
        }
    }
}

/// The series called `name` still has an entry at or after `now`.
pub open spec fn series_ahead(es: Seq<NewsEvent>, name: Seq<char>, min_impact: u8, now: i64) -> bool {
    exists|i: int| 0 <= i < es.len() && in_series(#[trigger] es[i], name, min_impact) && es[i].time >= now
}

/// The series called `name` is a schedule that has not run out: it recurs,
/// and it still has an entry to come.
pub open spec fn recurring(es: Seq<NewsEvent>, name: Seq<char>, min_impact: u8, now: i64) -> bool {
    series_len(es, name, min_impact) >= RECURRING && series_ahead(es, name, min_impact, now)
}

/// `r` is the calendar's horizon at `now`: of the schedules that have not
/// run out, the one that runs out first, with the time of its last entry and
/// the whole days from `now` to it; between two that end together, the name
/// that sorts first. `None` when no schedule is left.
pub open spec fn is_horizon(
    es: Seq<NewsEvent>,
    now: i64,
    min_impact: u8,
    r: Option<(Seq<char>, i64, i64)>,
) -> bool {
    match r {
        None => forall|i: int| 0 <= i < es.len() ==> !recurring(es, (#[trigger] es[i]).name@, min_impact, now),
        Some((name, end, days)) => {
            &&& recurring(es, name, min_impact, now)
            &&& series_end(es, name, min_impact) == Some(end)
            &&& days == (end - now) / (DAY_MS as int)
            &&& forall|i: int|
                0 <= i < es.len() && recurring(es, (#[trigger] es[i]).name@, min_impact, now) ==> {
                    let other = series_end(es, es[i].name@, min_impact)->0;
                    end < other || (end == other && crate::accounts::lex_le(name, es[i].name@))
                }
        },
    }
}

/// A horizon as the contracts see it.
pub open spec fn horizon_view(r: Option<(String, i64, i64)>) -> Option<(Seq<char>, i64, i64)> {
    match r {
        Some((n, end, days)) => Some((n@, end, days)),
        None => None,
    }
}

/// The first blackout still to come at `now`, by its position.
pub fn next_blackout(events: &Vec<NewsEvent>, now: i64, min_impact: u8) -> (r: Option<usize>)
    ensures
        is_next_blackout(events@, now, min_impact, r),
{
    let mut i: usize = 0;
    while i < events.len()
        invariant
            i <= events@.len(),
            forall|j: int| 0 <= j < i ==> !blacks_out(#[trigger] events@[j], now, min_impact),
        decreases events@.len() - i,
    {
        let e = &events[i];
        if e.time >= now && e.impact >= min_impact && e.concerns {
            return Some(i);
        }
        i = i + 1;
    }
    None
}

/// The last entry of a series is at or after each of its entries.
proof fn lemma_series_end_covers(es: Seq<NewsEvent>, name: Seq<char>, min_impact: u8, i: int)
    requires
        0 <= i < es.len(),
        in_series(es[i], name, min_impact),
    ensures
        series_end(es, name, min_impact) matches Some(t) && t >= es[i].time,
    decreases es.len(),
{
    if i < es.len() - 1 {
        lemma_series_end_covers(es.drop_last(), name, min_impact, i);
    }
}

/// How many entries the series called `name` has, when its last one is,
/// and whether one is still to come at `now`.
fn series_of(events: &Vec<NewsEvent>, name: &str, min_impact: u8, now: i64) -> (r: (usize, Option<i64>, bool))
    ensures
        r.0 == series_len(events@, name@, min_impact),
        r.1 == series_end(events@, name@, min_impact),
        r.2 == series_ahead(events@, name@, min_impact, now),
{
    let mut count: usize = 0;
    let mut end: Option<i64> = None;
    let mut ahead = false;
    let mut k: usize = 0;
    while k < events.len()
        invariant
            k <= events@.len(),
            count <= k,
            count == series_len(events@.take(k as int), name@, min_impact),
            end == series_end(events@.take(k as int), name@, min_impact),
            ahead == series_ahead(events@.take(k as int), name@, min_impact, now),
        decreases events@.len() - k,
    {
        let ghost before = events@.take(k as int);
        let ghost after = events@.take(k + 1);
        assert(after.drop_last() =~= before);
        assert(after.last() == events@[k as int]);
        let e = &events[k];
        let is = e.impact >= min_impact && e.concerns && str_eq(e.name.as_str(), name);
        if is {
            count = count + 1;
            end = match end {
                Some(t) => Some(if t >= e.time { t } else { e.time }),
                None => Some(e.time),
            };
        }
        proof {
            if ahead {
                let w = choose|w: int|
                    0 <= w < before.len() && in_series(#[trigger] before[w], name@, min_impact) && before[w].time >= now;
                assert(after[w] == before[w]);
            }
            if is && e.time >= now {
                assert(in_series(after[k as int], name@, min_impact));
            }
            if series_ahead(after, name@, min_impact, now) {
                let w = choose|w: int|
                    0 <= w < after.len() && in_series(#[trigger] after[w], name@, min_impact) && after[w].time >= now;
                if w < k {
                    assert(before[w] == after[w]);
                }
            }
        }
        ahead = ahead || (is && e.time >= now);
        k = k + 1;
    }
    assert(events@.take(events@.len() as int) =~= events@);
    (count, end, ahead)
}

/// How much calendar a run has left at `now`: of the series its guards act
/// on that recur and still have an entry to come, the one whose last entry
/// comes first, with that entry's time and the whole days until it. A long
/// series does not mask a short one, and a series with nothing to come is
/// passed over rather than reported as overdue.
pub fn news_horizon(events: &Vec<NewsEvent>, now: i64, min_impact: u8) -> (r: Option<(String, i64, i64)>)
    ensures
        is_horizon(events@, now, min_impact, horizon_view(r)),
{
    let ghost es = events@;
    let mut best: Option<(String, i64)> = None;
    let mut i: usize = 0;
    while i < events.len()
        invariant
            es == events@,
            i <= es.len(),
            match best {
                None => forall|j: int|
                    0 <= j < i && counts(es[j], min_impact) ==> !recurring(es, (#[trigger] es[j]).name@, min_impact, now),
                Some((n, t)) => {
                    &&& recurring(es, n@, min_impact, now)
                    &&& series_end(es, n@, min_impact) == Some(t)
                    &&& forall|j: int|
                        0 <= j < i && counts(es[j], min_impact) && recurring(es, (#[trigger] es[j]).name@, min_impact, now) ==> {
                            let other = series_end(es, es[j].name@, min_impact)->0;
                            t < other || (t == other && crate::accounts::lex_le(n@, es[j].name@))
                        }
                },
            },
        decreases es.len() - i,
    {
        let e = &events[i];
        if e.impact >= min_impact && e.concerns {
            let (count, end, ahead) = series_of(events, e.name.as_str(), min_impact, now);
            if count >= RECURRING && ahead {
                proof {
                    lemma_series_end_covers(es, e.name@, min_impact, i as int);
                }
                let t = match end {
                    Some(t) => t,
                    None => now,
                };
                let take = match &best {
                    None => true,
                    Some((n, bt)) => {
                        if t < *bt {
                            true
                        } else if t == *bt {
                            let a = chars_of(e.name.as_str());
                            let b = chars_of(n.as_str());
                            let keep = crate::accounts::lex_le_chars(&b, &a);
                            proof {
                                crate::accounts::lemma_lex_total(n@, e.name@);
                            }
                            !keep
                        } else {
                            false
                        }
                    },
                };
                let ghost held = best;
                proof {
                    crate::accounts::lemma_lex_refl(e.name@);
                    if take {
                        if let Some((n, bt)) = held {
                            assert forall|j: int|
                                0 <= j < i && counts(es[j], min_impact) && recurring(es, (#[trigger] es[j]).name@, min_impact, now) implies {
                                    let other = series_end(es, es[j].name@, min_impact)->0;
                                    t < other || (t == other && crate::accounts::lex_le(e.name@, es[j].name@))
                                } by {
                                let other = series_end(es, es[j].name@, min_impact)->0;
                                if t == other && bt == other {
                                    crate::accounts::lemma_lex_trans(e.name@, n@, es[j].name@);
                                }
                            }
                        }
                    }
                }
                if take {
                    best = Some((e.name.clone(), t));
                }
            }
        }
        i = i + 1;
    }
    proof {
        assert forall|j: int| 0 <= j < es.len() && recurring(es, (#[trigger] es[j]).name@, min_impact, now) implies
            exists|w: int| 0 <= w < es.len() && counts(es[w], min_impact) && #[trigger] es[w].name@ == es[j].name@ by {
            let w = choose|w: int|
                0 <= w < es.len() && in_series(#[trigger] es[w], es[j].name@, min_impact) && es[w].time >= now;
            assert(counts(es[w], min_impact) && es[w].name@ == es[j].name@);
        }
    }
    match best {
        None => None,
        Some((n, t)) => {
            proof {
                let w = choose|w: int|
                    0 <= w < es.len() && in_series(#[trigger] es[w], n@, min_impact) && es[w].time >= now;
                lemma_series_end_covers(es, n@, min_impact, w);
            }
            let days = ((t as i128 - now as i128) / (DAY_MS as i128)) as i64;
            Some((n, t, days))
        },
    }
}

/// What a run's status shows of the calendar at `now`: the next blackout
/// its guards would act on, and how much calendar it has left.
pub fn news_window(events: &Vec<NewsEvent>, now: i64, min_impact: u8) -> (r: (Option<usize>, Option<(String, i64, i64)>))
    ensures
        is_next_blackout(events@, now, min_impact, r.0),
        is_horizon(events@, now, min_impact, horizon_view(r.1)),
{
    (next_blackout(events, now, min_impact), news_horizon(events, now, min_impact))
}

/// A run id is `[a-z0-9_-]{1,40}`, stated by character codes: between one
/// and forty characters, each a lowercase ASCII letter (97 to 122), an ASCII
/// digit (48 to 57), `_` (95) or `-` (45). Every such id is accepted and no
/// other; in particular every digit, `0` among them, may stand in an id.
pub proof fn lemma_run_ids_are_the_regex(id: Seq<char>)
    ensures
        valid_id(id) == (1 <= id.len() <= 40 && forall|i: int|
            0 <= i < id.len() ==> {
                let c = (#[trigger] id[i]) as int;
                (97 <= c <= 122) || (48 <= c <= 57) || c == 95 || c == 45
            }),
{
    assert forall|i: int| 0 <= i < id.len() implies id_char(#[trigger] id[i]) == {
        let c = id[i] as int;
        (97 <= c <= 122) || (48 <= c <= 57) || c == 95 || c == 45
    } by {}
}

/// An order's terms, each refusal tied to the term it names: no price above
/// zero is `NoPrice`; a price but no stop is `NoStop`; a long whose stop is
/// not below its price, or a short whose stop is not above it, is
/// `StopNotLosing`; a target given on the wrong side is `TargetNotWinning`;
/// no bar to rest for is `NoValidBars`. Taken, an order has its stop strictly
/// on the losing side, any target strictly on the winning side, and rests
/// for the bars asked, two when not asked, never none.
pub proof fn lemma_order_terms(a: OrderAsk)
    ensures
        ({
            let priced = a.price is Some && a.price->0 > 0;
            let p = a.price->0;
            let s = a.stop->0;
            let t = a.target->0;
            let long = a.side == Side::Long;
            let losing = if long { s < p } else { s > p };
            let wrong_target = a.target is Some && (if long { t <= p } else { t >= p });
            let bars = match a.valid_bars {
                Some(b) => b,
                None => 2usize,
            };
            &&& !priced ==> order_verdict(a) == Err::<usize, OrderRefusal>(OrderRefusal::NoPrice)
            &&& priced && a.stop is None ==> order_verdict(a) == Err::<usize, OrderRefusal>(OrderRefusal::NoStop)
            &&& priced && a.stop is Some && long && s >= p ==> order_verdict(a) == Err::<usize, OrderRefusal>(
                OrderRefusal::StopNotLosing,
            )
            &&& priced && a.stop is Some && !long && s <= p ==> order_verdict(a) == Err::<usize, OrderRefusal>(
                OrderRefusal::StopNotLosing,
            )
            &&& priced && a.stop is Some && losing && wrong_target ==> order_verdict(a) == Err::<
                usize,
                OrderRefusal,
            >(OrderRefusal::TargetNotWinning)
            &&& priced && a.stop is Some && losing && !wrong_target && bars == 0 ==> order_verdict(a) == Err::<
                usize,
                OrderRefusal,
            >(OrderRefusal::NoValidBars)
            &&& priced && a.stop is Some && losing && !wrong_target && bars > 0 ==> order_verdict(a) == Ok::<
                usize,
                OrderRefusal,
            >(bars)
            &&& order_verdict(a) is Ok ==> {
                &&& priced
                &&& a.stop is Some
                &&& long ==> s < p
                &&& !long ==> s > p
                &&& a.target is Some ==> (if long { t > p } else { t < p })
                &&& order_verdict(a)->Ok_0 == bars
                &&& bars >= 1
            }
        }),
{
}

} // verus!
