use fd_api::paper::{news_horizon, news_window, next_blackout, NewsEvent, DAY_MS, RECURRING};

const NOW: i64 = 1_760_000_000_000;

fn event(name: &str, time: i64, impact: u8, concerns: bool) -> NewsEvent {
    NewsEvent { time, currency: "USD".to_string(), impact, name: name.to_string(), concerns }
}

/// `n` monthly entries of `name`, the last at `last`.
fn monthly(name: &str, n: usize, last: i64) -> Vec<NewsEvent> {
    (0..n).map(|k| event(name, last - (n - 1 - k) as i64 * 30 * DAY_MS, 3, true)).collect()
}

#[test]
fn the_next_blackout_is_the_first_to_come_that_the_guards_act_on() {
    let events = vec![
        event("past", NOW - 1, 3, true),
        event("quiet", NOW + 10, 1, true),
        event("other market", NOW + 20, 3, false),
        event("US CPI", NOW + 30, 3, true),
        event("NFP", NOW + 40, 3, true),
    ];
    assert_eq!(next_blackout(&events, NOW, 3), Some(3));
    assert_eq!(next_blackout(&events, NOW, 1), Some(1), "a lower threshold takes the quiet one");
    assert_eq!(next_blackout(&events, NOW + 41, 3), None);
    assert_eq!(next_blackout(&events, NOW + 30, 3), Some(3), "an event at now still counts");
}

#[test]
fn the_series_that_runs_out_first_is_the_horizon() {
    let mut events = monthly("FOMC", 15, NOW + 449 * DAY_MS);
    events.extend(monthly("US CPI", RECURRING, NOW + 86 * DAY_MS + 5_000));
    events.extend(monthly("old series", 20, NOW - DAY_MS));
    events.push(event("weekly feed item", NOW + DAY_MS, 3, true));
    let (name, end, days) = news_horizon(&events, NOW, 3).expect("a horizon");
    assert_eq!(name, "US CPI");
    assert_eq!(end, NOW + 86 * DAY_MS + 5_000);
    assert_eq!(days, 86);
}

#[test]
fn a_series_below_the_threshold_or_too_short_has_no_horizon() {
    let mut cpi = monthly("US CPI", RECURRING, NOW + 10 * DAY_MS);
    cpi[0].impact = 2;
    assert_eq!(news_horizon(&cpi, NOW, 3), None, "eleven loud entries is not a year");
    assert!(news_horizon(&cpi, NOW, 2).is_some());
    let mut elsewhere = monthly("CA rate", 20, NOW + 10 * DAY_MS);
    for e in elsewhere.iter_mut() {
        e.concerns = false;
    }
    assert_eq!(news_horizon(&elsewhere, NOW, 3), None);
    assert_eq!(news_horizon(&Vec::new(), NOW, 3), None);
}

#[test]
fn between_two_series_ending_together_the_first_name_wins() {
    let mut events = monthly("US PPI", 13, NOW + 5 * DAY_MS);
    events.extend(monthly("US CPI", 13, NOW + 5 * DAY_MS));
    let (name, _, days) = news_horizon(&events, NOW, 3).expect("a horizon");
    assert_eq!(name, "US CPI");
    assert_eq!(days, 5);
}

#[test]
fn the_window_pairs_the_next_blackout_with_the_horizon() {
    let events = monthly("NFP", 12, NOW + 40 * DAY_MS - 1);
    let (next, horizon) = news_window(&events, NOW, 3);
    let i = next.expect("a blackout to come");
    assert!(events[i].time >= NOW);
    assert!(i == 0 || events[i - 1].time < NOW);
    assert_eq!(horizon, Some(("NFP".to_string(), NOW + 40 * DAY_MS - 1, 39)));
}
