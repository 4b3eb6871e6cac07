use fd_api::htf::{break_side, fractal_label, mt5_name, split_by_gap, weeks_of, zigzag_label, BreakSide, Structure, TWO_DAYS_MS};

const DAY: i64 = 86_400_000;

#[test]
fn weeks_split_on_the_weekend_hole_and_not_on_the_calendar() {
    let mut t: Vec<i64> = Vec::new();
    for i in 0..5 {
        t.push(i * DAY);
    }
    for i in 0..5 {
        t.push((i + 8) * DAY);
    }
    assert_eq!(weeks_of(&t), vec![(0, 5), (5, 10)]);
}

#[test]
fn two_days_apart_is_still_the_same_week() {
    assert_eq!(weeks_of(&[0, TWO_DAYS_MS, TWO_DAYS_MS + TWO_DAYS_MS + 1]), vec![(0, 2), (2, 3)]);
    assert_eq!(weeks_of(&[]), Vec::<(usize, usize)>::new());
    assert_eq!(weeks_of(&[7]), vec![(0, 1)]);
}

#[test]
fn a_split_covers_the_series_end_to_end() {
    let t = [0, 1, 2, 10, 11, 30];
    let runs = split_by_gap(&t, 5);
    assert_eq!(runs, vec![(0, 3), (3, 5), (5, 6)]);
    assert_eq!(runs[0].0, 0);
    assert_eq!(runs.last().unwrap().1, t.len());
    for w in runs.windows(2) {
        assert_eq!(w[0].1, w[1].0);
    }
}

#[test]
fn every_timeframe_this_route_serves_has_an_mt5_name() {
    assert_eq!(mt5_name("1h"), "H1");
    assert_eq!(mt5_name("4h"), "H4");
    assert_eq!(mt5_name("1d"), "D1");
}

#[test]
fn the_label_from_two_rising_legs_is_up() {
    assert!(fractal_label(true, true, false, false) == Structure::Up);
    assert!(break_side(Structure::Up) == Some(BreakSide::Below));
}

#[test]
fn the_label_from_two_falling_legs_is_down() {
    assert!(fractal_label(false, false, true, true) == Structure::Down);
    assert!(break_side(Structure::Down) == Some(BreakSide::Above));
}

#[test]
fn the_label_from_legs_that_disagree_is_a_range() {
    assert!(fractal_label(true, false, false, true) == Structure::Range);
    assert!(break_side(Structure::Range).is_none());
}

#[test]
fn the_zigzag_label_is_the_leg_in_force() {
    assert!(zigzag_label(None) == Structure::Range);
    assert!(zigzag_label(Some(true)) == Structure::Down);
    assert!(zigzag_label(Some(false)) == Structure::Up);
}

use fd_api::htf::{fractal_swings, read_fractal};

/// Highs and lows of bars at the given midpoints, each one unit either side.
fn levels(mids: &[i64]) -> (Vec<Option<i64>>, Vec<Option<i64>>) {
    (mids.iter().map(|m| Some(m + 1)).collect(), mids.iter().map(|m| Some(m - 1)).collect())
}

#[test]
fn a_fractal_needs_n_bars_on_both_sides() {
    let (highs, _) = levels(&[10, 11, 20, 11, 10]);
    assert_eq!(fractal_swings(&highs, 2, true), vec![2]);
    assert_eq!(highs[2], Some(21));
    assert!(fractal_swings(&highs[..4].to_vec(), 2, true).is_empty());
}

#[test]
fn a_flat_top_is_not_a_swing() {
    let (highs, _) = levels(&[10, 20, 20, 10, 10]);
    assert!(fractal_swings(&highs, 1, true).is_empty());
}

#[test]
fn a_level_that_is_not_a_number_beats_nothing_and_is_beaten_by_nothing() {
    let v = vec![Some(1), None, Some(5), Some(1), Some(9), Some(2)];
    assert_eq!(fractal_swings(&v, 1, true), vec![4], "the peak beside a gap in the data is not confirmed");
    let inf = vec![Some(1), Some(i64::MAX), Some(1)];
    assert!(fractal_swings(&inf, 1, true).is_empty(), "an infinite level is not a swing");
    assert!(fractal_swings(&vec![Some(1), Some(2), Some(1)], 0, true).is_empty());
}

#[test]
fn higher_highs_and_higher_lows_are_up_and_the_last_low_is_the_break() {
    let (highs, lows) = levels(&[10, 12, 9, 14, 11, 16, 13, 18, 15]);
    let r = read_fractal(&highs, &lows, 1);
    assert!(r.label == Structure::Up);
    assert_eq!((r.last_high, r.prior_high), (Some(7), Some(5)));
    assert_eq!((highs[7], highs[5]), (Some(19), Some(17)));
    assert_eq!((r.last_low, r.prior_low), (Some(6), Some(4)));
    assert_eq!((lows[6], lows[4]), (Some(12), Some(10)));
    assert_eq!(r.break_at, Some(6));
    assert!(r.break_side == Some(BreakSide::Below));
}

#[test]
fn lower_highs_and_lower_lows_are_down_and_the_last_high_is_the_break() {
    let (highs, lows) = levels(&[18, 16, 19, 14, 17, 12, 15, 10, 13]);
    let r = read_fractal(&highs, &lows, 1);
    assert!(r.label == Structure::Down);
    assert_eq!(r.break_at, r.last_high);
    assert!(r.break_side == Some(BreakSide::Above));
}

#[test]
fn a_higher_high_with_a_lower_low_is_a_range_and_has_no_break_level() {
    let (highs, lows) = levels(&[10, 14, 9, 16, 6, 18, 12]);
    let r = read_fractal(&highs, &lows, 1);
    assert!(r.label == Structure::Range);
    assert_eq!(r.break_at, None);
    assert!(r.break_side.is_none());
}

#[test]
fn the_label_is_stamped_with_the_bar_that_confirmed_it_not_the_swing() {
    let (highs, lows) = levels(&[10, 12, 9, 14, 11, 20, 13, 12]);
    let r = read_fractal(&highs, &lows, 2);
    assert_eq!(r.last_high, Some(5));
    assert_eq!(r.confirmed_at, Some(7), "confirmed two bars after the swing");
}

#[test]
fn a_later_bar_never_takes_back_a_reported_swing() {
    let (highs, _) = levels(&[10, 12, 9, 14, 11, 16, 13, 18, 15, 30, 1, 2]);
    let mut seen: Vec<usize> = Vec::new();
    for end in 1..=highs.len() {
        let now = fractal_swings(&highs[..end].to_vec(), 1, true);
        assert!(now.starts_with(&seen), "{seen:?} repainted into {now:?}");
        seen = now;
    }
    assert_eq!(seen, vec![1, 3, 5, 7, 9]);
}
