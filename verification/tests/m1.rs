use fd_api::error::ApiError;
use fd_api::m1::{judge_tick, minute_of, minutes_wanted, Fold, DEFAULT_N, RING_MINUTES};

#[test]
fn a_tick_is_folded_dropped_or_a_duplicate() {
    assert!(judge_tick(true, None, 5, false) == Fold::Folded);
    assert!(judge_tick(false, None, 5, false) == Fold::Dropped);
    assert!(judge_tick(true, Some(10), 5, false) == Fold::Dropped);
    assert!(judge_tick(true, Some(10), 10, true) == Fold::Duplicate);
    assert!(judge_tick(true, Some(10), 10, false) == Fold::Folded, "an equal stamp is in order");
}

#[test]
fn a_minute_starts_on_the_minute_before_the_epoch_too() {
    assert_eq!(minute_of(0), 0);
    assert_eq!(minute_of(59_999), 0);
    assert_eq!(minute_of(60_000), 60_000);
    assert_eq!(minute_of(1_789_664_461_000), 1_789_664_460_000);
    assert_eq!(minute_of(-1), -60_000);
    assert_eq!(minute_of(-60_000), -60_000);
    assert_eq!(minute_of(-60_001), -120_000);
}

#[test]
fn more_minutes_than_are_kept_is_refused() {
    assert_eq!(minutes_wanted(None).ok(), Some(DEFAULT_N));
    assert_eq!(minutes_wanted(Some(RING_MINUTES)).ok(), Some(720));
    match minutes_wanted(Some(721)) {
        Err(ApiError::BadRequest(m)) => assert_eq!(
            m,
            "n=721: at most 720 complete minutes are kept (twelve hours, in memory); ask for 720 or fewer"
        ),
        _ => panic!("721 is more than is kept"),
    }
}
