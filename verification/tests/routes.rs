use fd_api::error::ApiError;
use fd_api::routes::{anchor_free, choose_source, refusal, trim_to_window, MarketQuery, Source, Stored, HOUR_MS};

const M15: i64 = 900_000;
const H4: i64 = 4 * HOUR_MS;

fn stored(step: i64, has_bars: bool) -> Stored {
    Stored { step, has_bars }
}

#[test]
fn four_hours_is_refused_when_only_a_finer_series_is_stored() {
    assert!(choose_source(&vec![stored(M15, true)], H4) == Source::Refused);
    match refusal("btc", "4h", "BTCUSDT") {
        ApiError::NoData(text) => {
            assert!(text.contains("21:00"), "the refusal explains the anchor: {text}");
            assert!(text.contains("mt5_export.py"), "and names the remedy: {text}");
            assert!(text.ends_with("--symbols BTCUSDT --timeframes H4"));
            assert!(text.starts_with("no 4h bars for btc: bars/BTCUSDT-4h.parquet has not been exported"));
        }
        _ => panic!("4h must be refused"),
    }
}

#[test]
fn an_hour_is_allowed_from_fifteens_and_lands_on_the_hour() {
    let s = vec![stored(60_000, true), stored(M15, true)];
    assert!(choose_source(&s, HOUR_MS) == Source::Resampled { from: 1, finer: Some(0) });
    assert!(anchor_free(HOUR_MS) && anchor_free(M15) && anchor_free(60_000));
    assert!(!anchor_free(H4) && !anchor_free(0) && !anchor_free(7 * 60_000));
}

#[test]
fn an_exported_file_is_served_whole_and_never_rebucketed() {
    let s = vec![stored(M15, true), stored(H4, true)];
    assert!(choose_source(&s, H4) == Source::Exact { at: 1, finer: Some(0) });
    assert!(choose_source(&vec![stored(H4, true)], H4) == Source::Exact { at: 0, finer: None });
}

#[test]
fn an_empty_file_counts_as_no_file() {
    assert!(choose_source(&vec![stored(M15, false), stored(HOUR_MS, false)], HOUR_MS) == Source::Nothing);
    assert!(choose_source(&vec![], M15) == Source::Nothing);
}

#[test]
fn the_window_keeps_the_newest_bars_and_not_the_oldest() {
    let mut bars: Vec<i64> = (0..100).collect();
    let q = MarketQuery { market: None, tf: None, n: Some(90) };
    trim_to_window(&mut bars, q.window());
    assert_eq!(bars.len(), 90);
    assert_eq!(bars[0], 10, "and the oldest ten are the ones dropped");
    assert_eq!(*bars.last().unwrap(), 99, "newest kept");
    let mut all: Vec<i64> = (0..5).collect();
    trim_to_window(&mut all, MarketQuery { market: None, tf: None, n: Some(0) }.window());
    assert_eq!(all.len(), 5, "zero asks for everything");
}

#[test]
fn a_query_falls_back_to_the_configured_market_and_timeframe() {
    let q = MarketQuery { market: None, tf: Some("4h".to_string()), n: None };
    assert_eq!(q.market("xauusd"), "xauusd");
    assert_eq!(q.timeframe("15m"), "4h");
    assert_eq!(q.window(), None);
}

use fd_api::routes::{check_params, date_bound, date_range};

#[test]
fn a_date_bound_is_a_utc_day_and_the_end_runs_to_its_last_millisecond() {
    assert_eq!(date_bound(Some("2024-01-02"), false).ok(), Some(Some(1_704_153_600_000)));
    assert_eq!(date_bound(Some(" 2024-01-02 "), true).ok(), Some(Some(1_704_153_600_000 + 86_399_999)));
    assert_eq!(date_bound(Some("1970-01-01"), false).ok(), Some(Some(0)));
    assert_eq!(date_bound(Some("1969-12-31"), false).ok(), Some(Some(-86_400_000)));
    assert_eq!(date_bound(Some("2000-02-29-extra"), false).ok(), Some(Some(951_782_400_000)));
    assert_eq!(date_bound(None, false).ok(), Some(None));
    assert_eq!(date_bound(Some("   "), true).ok(), Some(None));
}

#[test]
fn a_date_that_is_not_a_date_is_refused_by_what_was_typed() {
    for bad in ["2024-13-01", "2024-01-32", "2024-01", "yesterday", "2024-01-0x", "-2024-01-01"] {
        match date_bound(Some(bad), false) {
            Err(ApiError::BadRequest(m)) => assert_eq!(m, format!("bad date `{bad}`: expected YYYY-MM-DD")),
            _ => panic!("{bad} is not a date"),
        }
    }
    match date_bound(Some("9223372036854775807-01-01"), false) {
        Err(ApiError::BadRequest(m)) => assert!(m.starts_with("bad date")),
        _ => panic!("a year past any stamp is refused"),
    }
}

#[test]
fn a_range_must_run_forwards() {
    assert_eq!(
        date_range(Some("2024-01-01"), Some("2024-01-01")).ok(),
        Some((Some(1_704_067_200_000), Some(1_704_067_200_000 + 86_399_999)))
    );
    match date_range(Some("2024-02-01"), Some("2024-01-01")) {
        Err(ApiError::BadRequest(m)) => assert_eq!(m, "`from` is after `to`"),
        _ => panic!("backwards"),
    }
    match date_range(Some("nope"), Some("also nope")) {
        Err(ApiError::BadRequest(m)) => assert_eq!(m, "bad date `nope`: expected YYYY-MM-DD"),
        _ => panic!("from is read first"),
    }
    assert_eq!(date_range(None, Some("2024-01-01")).ok(), Some((None, Some(1_704_067_200_000 + 86_399_999))));
}

#[test]
fn an_override_the_strategy_does_not_declare_is_refused() {
    let declared = vec!["fast".to_string(), "slow".to_string()];
    assert!(check_params("ema", &declared, &vec!["slow".to_string()]).is_ok());
    assert!(check_params("ema", &declared, &vec![]).is_ok());
    match check_params("ema", &declared, &vec!["fast".to_string(), "fsat".to_string(), "zzz".to_string()]) {
        Err(ApiError::BadRequest(m)) => assert_eq!(m, "ema has no parameter `fsat`"),
        _ => panic!("a typo is not ignored"),
    }
}

use fd_api::routes::nothing_stored;

#[test]
fn nothing_stored_names_the_symbol_and_the_step() {
    match nothing_stored("BTCUSDT", "1h") {
        ApiError::NoData(m) => assert_eq!(m, "no stored bars for BTCUSDT at or below 1h"),
        _ => panic!("no data"),
    }
}
