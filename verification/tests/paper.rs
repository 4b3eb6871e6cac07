use fd_api::error::ApiError;
use fd_api::paper::{
    arrival, cancel_reason, check_id, complete_lines, decider_name, default_run_id, entries_wanted, intent_gate,
    keep_newest, legacy_run_id, order_id, parse_action, parse_entry_type, parse_side, pending_id, push_windowed,
    resolve_stop, run_id, stream_key, tail_lines, trigger_refusal, Act, Arrival, Decider, DetailQuery, EntryKind, IntentVerdict,
    Side, StopRequest, TickStamp,
};

fn lines(window: &[u8], from_start: bool) -> Vec<String> {
    complete_lines(window, from_start)
}

#[test]
fn an_empty_file_is_no_lines() {
    assert!(lines(b"", true).is_empty());
}

#[test]
fn fewer_lines_than_the_limit_gives_what_there_is() {
    assert_eq!(lines(b"{\"at\":1}\n{\"at\":2}\n{\"at\":3}\n", true), vec!["{\"at\":1}", "{\"at\":2}", "{\"at\":3}"]);
}

#[test]
fn an_unterminated_last_line_is_dropped() {
    assert_eq!(lines(b"{\"at\":1}\n{\"at\":2}\n{\"at\":9", true), vec!["{\"at\":1}", "{\"at\":2}"]);
}

#[test]
fn a_torn_line_that_would_parse_is_still_dropped() {
    assert_eq!(lines(b"{\"at\":1}\n12345", true), vec!["{\"at\":1}"]);
}

#[test]
fn blank_lines_are_not_lines() {
    let got = lines(b"{\"at\":1}\n\n{\"at\":2}\n   \n{\"at\":3}\n\n", true);
    assert_eq!(got, vec!["{\"at\":1}", "{\"at\":2}", "{\"at\":3}"]);
}

#[test]
fn one_line_with_no_newline_at_all_is_nothing() {
    assert!(lines(b"{\"at\":1}", true).is_empty());
}

#[test]
fn a_window_inside_the_file_drops_its_head_fragment() {
    assert_eq!(lines(b"t\":1}\n{\"at\":2}\n{\"at\":3}\n", false), vec!["{\"at\":2}", "{\"at\":3}"]);
    assert!(lines(b"no newline in the middle of a long line", false).is_empty());
    assert!(lines(b"fragment\n", false).is_empty());
}

#[test]
fn bytes_that_are_not_text_give_no_lines() {
    assert!(lines(b"{\"at\":1}\n\xff\xfe\n", true).is_empty());
    assert_eq!(lines("{\"name\":\"caf\u{e9}\"}\n".as_bytes(), true), vec!["{\"name\":\"caf\u{e9}\"}"]);
}

#[test]
fn the_limit_takes_the_newest_and_keeps_them_oldest_first() {
    let mut v: Vec<u32> = (0..200).collect();
    keep_newest(&mut v, 2);
    assert_eq!(v, vec![198, 199]);
    let mut short = vec![1, 2, 3];
    keep_newest(&mut short, 50);
    assert_eq!(short, vec![1, 2, 3]);
}

#[test]
fn a_window_keeps_at_least_the_bar_just_pushed() {
    let mut v = vec![1, 2, 3];
    push_windowed(&mut v, 4, 3);
    assert_eq!(v, vec![2, 3, 4]);
    push_windowed(&mut v, 5, 0);
    assert_eq!(v, vec![5]);
}

#[test]
fn run_ids_and_stream_keys_are_spelt_out() {
    assert_eq!(legacy_run_id("xauusd", "15m"), "xauusd-15m");
    assert_eq!(default_run_id("xauusd", "15m", "ema"), "xauusd-15m-ema");
    assert_eq!(stream_key("xauusd", "15m"), "xauusd:15m");
    assert_eq!(run_id("", "btc", "1h"), "btc-1h");
    assert_eq!(run_id("mine", "btc", "1h"), "mine");
    assert_eq!(pending_id("book", Some(-5)), "book:-5");
    assert_eq!(pending_id("book", None), "book:0");
    assert_eq!(order_id("book", 1_789_650_000_000), "book:1789650000000");
}

#[test]
fn a_run_id_is_a_plain_short_name() {
    assert!(check_id("xau-ema_2").is_ok());
    assert!(check_id(&"a".repeat(40)).is_ok());
    for bad in ["", "Upper", "has space", "../escape", &"a".repeat(41)] {
        match check_id(bad) {
            Err(ApiError::BadRequest(m)) => assert_eq!(m, format!("run id `{bad}` must match [a-z0-9_-]{{1,40}}")),
            _ => panic!("{bad:?} must be refused"),
        }
    }
}

fn runs() -> Vec<(String, String)> {
    vec![
        ("a".to_string(), "xau:15m".to_string()),
        ("b".to_string(), "xau:1h".to_string()),
        ("c".to_string(), "xau:1h".to_string()),
    ]
}

fn stop(id: Option<&str>, market: Option<&str>, tf: Option<&str>) -> StopRequest {
    StopRequest { id: id.map(String::from), market: market.map(String::from), tf: tf.map(String::from) }
}

#[test]
fn a_stop_names_one_run_or_is_refused_with_the_reason() {
    assert_eq!(resolve_stop(&stop(Some("zzz"), None, None), &runs()).ok(), Some("zzz".to_string()));
    assert_eq!(resolve_stop(&stop(None, Some("xau"), Some("15m")), &runs()).ok(), Some("a".to_string()));
    match resolve_stop(&stop(None, Some("xau"), Some("1h")), &runs()) {
        Err(ApiError::Conflict(m)) => assert_eq!(m, "2 paper runs on xau:1h; say which by id: b, c"),
        _ => panic!("two runs on a stream is ambiguous"),
    }
    match resolve_stop(&stop(None, Some("btc"), Some("1h")), &runs()) {
        Err(ApiError::NotFound(m)) => assert_eq!(m, "no paper run for btc:1h"),
        _ => panic!("no run on a stream is not found"),
    }
    match resolve_stop(&stop(None, Some("xau"), None), &runs()) {
        Err(ApiError::BadRequest(m)) => assert_eq!(m, "stop needs an id, or a market and tf"),
        _ => panic!("half a stream is a bad request"),
    }
}

#[test]
fn a_bar_is_seen_refused_or_taken_with_its_gap_counted() {
    assert!(matches!(arrival(None, 100, 10), Arrival::Next { gap: None }));
    assert!(matches!(arrival(Some(100), 100, 10), Arrival::Seen));
    assert!(matches!(arrival(Some(100), 90, 10), Arrival::Older));
    assert!(matches!(arrival(Some(100), 110, 10), Arrival::Next { gap: None }));
    assert!(matches!(arrival(Some(100), 120, 10), Arrival::Next { gap: None }));
    assert!(matches!(arrival(Some(100), 150, 10), Arrival::Next { gap: Some(4) }));
}

#[test]
fn an_intent_is_read_in_any_case_and_refused_otherwise() {
    assert!(matches!(parse_side("long"), Ok(Some(Side::Long))));
    assert!(matches!(parse_side("Short"), Ok(Some(Side::Short))));
    assert!(matches!(parse_side("none"), Ok(None)));
    match parse_side("buy") {
        Err(ApiError::BadRequest(m)) => assert_eq!(m, "side must be LONG, SHORT or NONE, got `BUY`"),
        _ => panic!("buy is not a side"),
    }
    assert!(matches!(parse_entry_type(None), Ok(EntryKind::Market)));
    assert!(matches!(parse_entry_type(Some("  ")), Ok(EntryKind::Market)));
    assert!(matches!(parse_entry_type(Some(" LIMIT ")), Ok(EntryKind::Limit)));
    assert!(matches!(parse_entry_type(Some("stop")), Ok(EntryKind::Stop)));
    match parse_entry_type(Some(" Trailing ")) {
        Err(ApiError::BadRequest(m)) => assert_eq!(m, "entry.type must be market, limit or stop, got `trailing`"),
        _ => panic!("trailing is not an entry"),
    }
}

#[test]
fn an_intent_meets_its_refusals_in_order() {
    let gate = |strategy: &str, paused: bool, bar: i64, side: Option<Side>, entry: EntryKind, holding: bool| {
        intent_gate("book", strategy, paused, 100, bar, side, entry, holding)
    };
    match gate("ema", true, 100, Some(Side::Long), EntryKind::Market, false) {
        Ok(IntentVerdict::Refused(m)) => assert_eq!(m, "run is paused"),
        _ => panic!("paused"),
    }
    match gate("ema", true, 100, None, EntryKind::Market, false) {
        Err(ApiError::BadRequest(m)) => {
            assert_eq!(m, "run `book` uses strategy `ema`; only an `external` run takes posted intents")
        }
        _ => panic!("a stand-aside on a paused internal run is still the wrong strategy"),
    }
    match gate("external", false, 90, Some(Side::Long), EntryKind::Market, false) {
        Ok(IntentVerdict::Refused(m)) => assert_eq!(m, "decided on bar 90 but the run is on 100"),
        _ => panic!("late"),
    }
    match gate("external", false, 100, Some(Side::Short), EntryKind::Limit, true) {
        Ok(IntentVerdict::Refused(m)) => assert_eq!(m, "run holds a position; an order cannot add to it"),
        _ => panic!("holding"),
    }
    assert!(matches!(gate("external", false, 100, Some(Side::Short), EntryKind::Market, true), Ok(IntentVerdict::Proceed)));
    assert!(matches!(gate("external", true, 100, None, EntryKind::Limit, true), Ok(IntentVerdict::Proceed)));
}

#[test]
fn the_decider_counts_each_name_once() {
    assert_eq!(decider_name(Some("  alpha  ")), Some("alpha".to_string()));
    assert_eq!(decider_name(Some("   ")), None);
    assert_eq!(decider_name(None), None);
    let mut d = Decider::new();
    d.record("alpha", 10, true);
    d.record("beta", 20, true);
    d.record("alpha", 30, true);
    d.record("alpha", 40, false);
    assert_eq!(d.decisions, vec![("alpha".to_string(), 2), ("beta".to_string(), 1)]);
    assert_eq!(d.stood_aside, 1);
    assert_eq!(d.last, "alpha");
    assert_eq!(d.last_at, 40);
}

#[test]
fn an_act_is_trigger_or_cancel() {
    assert!(matches!(parse_action(" Trigger "), Ok(Act::Trigger)));
    assert!(matches!(parse_action("CANCEL"), Ok(Act::Cancel)));
    match parse_action(" fill ") {
        Err(ApiError::BadRequest(m)) => assert_eq!(m, "action must be trigger or cancel, got ` fill `"),
        _ => panic!("fill is not an act"),
    }
    assert_eq!(cancel_reason("  "), "cancelled:act");
    assert_eq!(cancel_reason(" too far "), "cancelled:too far");
}

#[test]
fn a_trigger_needs_a_fresh_tick_from_the_forming_bar() {
    let tick = |at: i64, time: i64| Some(TickStamp { at, time });
    assert_eq!(
        trigger_refusal(1_000, None, Some(0), "buy", "ask", true, false),
        Some("no tick has arrived on this stream".to_string())
    );
    assert_eq!(
        trigger_refusal(20_001, tick(10_000, 200), Some(100), "buy", "ask", true, false),
        Some("the last tick is 10001 ms old; a trigger needs one within 10000 ms".to_string())
    );
    assert_eq!(
        trigger_refusal(20_000, tick(10_000, 100), Some(100), "buy", "ask", true, false),
        Some("the last tick belongs to bar 100, which the run has already closed over".to_string())
    );
    assert_eq!(
        trigger_refusal(20_000, tick(10_000, 200), Some(100), "buy", "ask", false, false),
        Some("the last tick carries no ask to fill a buy at".to_string())
    );
    assert_eq!(
        trigger_refusal(20_000, tick(10_000, 200), Some(100), "buy", "ask", true, true),
        Some("run holds a position; the order cannot add to it".to_string())
    );
    assert_eq!(trigger_refusal(20_000, tick(10_000, 200), Some(100), "buy", "ask", true, false), None);
}

#[test]
fn queries_are_kept_inside_their_limits() {
    assert_eq!(entries_wanted(None), 50);
    assert_eq!(entries_wanted(Some(0)), 1);
    assert_eq!(entries_wanted(Some(10_000)), 500);
    assert_eq!(DetailQuery { bars: None }.wanted(600), 120);
    assert_eq!(DetailQuery { bars: Some(1000) }.wanted(600), 600);
    assert_eq!(DetailQuery { bars: Some(5) }.wanted(0), 1);
}

use fd_api::paper::{check_timeframe, known_timeframe, run_label, start_window};

#[test]
fn a_run_starts_only_on_a_desk_timeframe() {
    for tf in ["1m", "5m", "15m", "30m", "1h", "4h", "1d"] {
        assert!(known_timeframe(tf) && check_timeframe(tf).is_ok());
    }
    match check_timeframe("2h") {
        Err(ApiError::BadRequest(m)) => assert_eq!(m, "unknown timeframe: 2h"),
        _ => panic!("2h is not a desk timeframe"),
    }
}

#[test]
fn a_window_must_hold_the_warmup_and_one_more() {
    assert_eq!(start_window(0, 0, "ema").ok(), None);
    assert_eq!(start_window(2, 0, "ema").ok(), Some(2));
    assert_eq!(start_window(52, 50, "ema").ok(), Some(52));
    match start_window(51, 50, "ema") {
        Err(ApiError::BadRequest(m)) => {
            assert_eq!(m, "window 51 is too short: ema needs 50 warm-up bars and one more to fill on")
        }
        _ => panic!("too short"),
    }
    match start_window(0, 5, "x") {
        Err(ApiError::BadRequest(m)) => assert!(m.starts_with("window 1 is too short")),
        _ => panic!("a zero window is one bar"),
    }
    assert!(start_window(usize::MAX, usize::MAX, "x").is_err());
    assert_eq!(run_label(Some("  mine ")), Some("mine".to_string()));
    assert_eq!(run_label(Some(" ")), None);
}

use fd_api::paper::{check_order, order_reason, OrderAsk, OrderRefusal};

fn ask(side: Side, price: Option<i64>, stop: Option<i64>, target: Option<i64>, valid_bars: Option<usize>) -> OrderAsk {
    OrderAsk { side, price, stop, target, valid_bars }
}

#[test]
fn an_order_is_checked_whole_and_in_order() {
    assert!(check_order(&ask(Side::Long, None, Some(1), None, None)) == Err(OrderRefusal::NoPrice));
    assert!(check_order(&ask(Side::Long, Some(0), Some(1), None, None)) == Err(OrderRefusal::NoPrice));
    assert!(check_order(&ask(Side::Long, Some(100), None, None, None)) == Err(OrderRefusal::NoStop));
    assert!(check_order(&ask(Side::Long, Some(100), Some(100), None, None)) == Err(OrderRefusal::StopNotLosing));
    assert!(check_order(&ask(Side::Short, Some(100), Some(90), None, None)) == Err(OrderRefusal::StopNotLosing));
    assert!(check_order(&ask(Side::Long, Some(100), Some(90), Some(95), None)) == Err(OrderRefusal::TargetNotWinning));
    assert!(check_order(&ask(Side::Short, Some(100), Some(110), Some(105), None)) == Err(OrderRefusal::TargetNotWinning));
    assert!(check_order(&ask(Side::Long, Some(100), Some(90), Some(120), Some(0))) == Err(OrderRefusal::NoValidBars));
    assert!(check_order(&ask(Side::Long, Some(100), Some(90), Some(120), None)) == Ok(2));
    assert!(check_order(&ask(Side::Short, Some(100), Some(110), None, Some(5))) == Ok(5));
    assert_eq!(order_reason(""), "external");
    assert_eq!(order_reason("fvg retest"), "fvg retest");
}

#[test]
fn the_decider_table_keeps_its_names_in_order() {
    let mut d = Decider::new();
    d.record("zeta", 1, true);
    d.record("alpha", 2, true);
    d.record("mid", 3, false);
    d.record("mid", 4, true);
    d.record("zeta", 5, true);
    assert_eq!(
        d.decisions,
        vec![("alpha".to_string(), 1), ("mid".to_string(), 1), ("zeta".to_string(), 2)]
    );
    assert_eq!(d.stood_aside, 1);
    assert_eq!(d.last, "zeta");
    assert_eq!(d.last_at, 5);
}

#[test]
fn a_tail_keeps_the_newest_whole_lines_after_dropping_blanks() {
    assert_eq!(tail_lines(b"{\"at\":1}\n{\"at\":2}\n\n{\"at\":3}\n{\"at\":4}\n", true, 2), vec!["{\"at\":3}", "{\"at\":4}"]);
    assert_eq!(tail_lines(b"torn\n{\"at\":1}\n{\"at\":2", false, 5), vec!["{\"at\":1}"]);
    assert!(tail_lines(b"{\"at\":1}\n", true, 0).is_empty());
}
