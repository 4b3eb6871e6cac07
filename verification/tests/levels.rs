use fd_api::htf::split_by_gap;
use fd_api::levels::{last_days, mt5_name, trading_day_runs, DAY_GAP_MS, DAY_MS};

#[test]
fn the_export_hint_names_the_timeframe_that_is_missing() {
    assert_eq!(mt5_name("15m"), "M15");
    assert_eq!(mt5_name("1h"), "H1");
    assert_eq!(mt5_name("1d"), "D1");
}

#[test]
fn every_timeframe_has_its_own_export_name() {
    assert_eq!(mt5_name("1m"), "M1");
    assert_eq!(mt5_name("5m"), "M5");
    assert_eq!(mt5_name("30m"), "M30");
    assert_eq!(mt5_name("4h"), "H4");
    assert_eq!(mt5_name("2h"), "2h");
}

#[test]
fn the_window_is_counted_in_trading_days_and_not_in_milliseconds() {
    let mut t: Vec<i64> = Vec::new();
    for day in 0..3i64 {
        for i in 0..4i64 {
            t.push(day * 10 * 900_000 + i * 900_000);
        }
    }
    assert_eq!(last_days(&t, 2, 900_000), Some((4, 12)));
    assert_eq!(last_days(&t, 10, 900_000), Some((0, 12)));
    assert_eq!(last_days(&t, 0, 900_000), None);
    assert_eq!(last_days(&[], 5, 900_000), None);
}

#[test]
fn a_four_hour_bar_hides_the_daily_hole_so_the_day_is_counted_from_the_week() {
    const H4: i64 = 4 * 3_600_000;
    let mut t: Vec<i64> = Vec::new();
    for week in 0..2i64 {
        for day in 0..5i64 {
            for i in 0..6i64 {
                t.push(week * 7 * DAY_MS + day * DAY_MS + i * H4);
            }
        }
    }
    let inside: Vec<i64> = t.windows(2).map(|w| w[1] - w[0]).filter(|gap| *gap < 2 * DAY_MS).collect();
    assert!(inside.iter().all(|gap| *gap == H4), "every non-weekend gap is one bar: {inside:?}");
    assert_eq!(trading_day_runs(&t, H4).len(), 10);
    assert!(trading_day_runs(&t, H4).iter().all(|r| r.1 - r.0 == 6), "six 4h bars to a trading day");
    assert_eq!(last_days(&t, 10, H4), Some((0, 60)));
    assert_eq!(last_days(&t, 2, H4), Some((48, 60)));
}

#[test]
fn an_hour_bar_is_as_long_as_the_hole_so_the_hole_rule_would_call_every_bar_a_day() {
    const H1: i64 = 3_600_000;
    let mut t: Vec<i64> = Vec::new();
    for day in 0..5i64 {
        for i in 0..23i64 {
            t.push(day * DAY_MS + i * H1);
        }
    }
    assert_eq!(split_by_gap(&t, DAY_GAP_MS).len(), t.len(), "the premise, and it is the bug");
    assert_eq!(trading_day_runs(&t, H1).len(), 5);
}

#[test]
fn a_daily_bar_is_one_trading_day() {
    let t: Vec<i64> = (0..5i64).map(|d| d * DAY_MS).collect();
    assert_eq!(trading_day_runs(&t, DAY_MS), vec![(0, 1), (1, 2), (2, 3), (3, 4), (4, 5)]);
    assert_eq!(trading_day_runs(&[], DAY_MS), Vec::<(usize, usize)>::new());
}

use fd_api::levels::{prior_run, LevelsQuery, DEFAULT_PROFILE_DAYS, MAX_PROFILE_DAYS};

#[test]
fn a_levels_query_has_its_defaults_and_its_limits() {
    let q = |tf: Option<&str>, days: Option<usize>| LevelsQuery {
        market: "xauusd".to_string(),
        tf: tf.map(String::from),
        days,
    };
    assert_eq!(q(None, None).timeframe(), "15m");
    assert_eq!(q(Some("1h"), None).timeframe(), "1h");
    assert_eq!(q(None, None).profile_days(), DEFAULT_PROFILE_DAYS);
    assert_eq!(q(None, Some(0)).profile_days(), 1);
    assert_eq!(q(None, Some(1000)).profile_days(), MAX_PROFILE_DAYS);
    assert_eq!(q(None, Some(7)).profile_days(), 7);
}

#[test]
fn the_prior_run_is_the_one_before_the_newest() {
    assert_eq!(prior_run(&vec![(0, 3), (3, 5), (5, 9)]), Some((3, 5)));
    assert_eq!(prior_run(&vec![(0, 3)]), None);
    assert_eq!(prior_run(&vec![]), None);
}
