use fd_api::version::{built_at_from, built_at_ms, iso_utc, summary, summary_of, BUILT_AT_MS, GIT_DIRTY, GIT_HASH};

#[test]
fn the_stamp_describes_the_source_and_not_the_checkout() {
    assert!(!GIT_HASH.is_empty());
    assert!(GIT_DIRTY == "true" || GIT_DIRTY == "false");
}

#[test]
fn a_hash_is_either_a_commit_or_the_word_unknown() {
    assert!(!GIT_HASH.is_empty());
    if GIT_HASH != "unknown" {
        assert_eq!(GIT_HASH.len(), 40, "a full sha, not an abbreviation: {GIT_HASH}");
        assert!(GIT_HASH.chars().all(|c| c.is_ascii_hexdigit()));
    }
}

#[test]
fn the_build_time_is_a_real_instant_in_utc() {
    let at = built_at_ms();
    assert!(at > 1_700_000_000_000, "built_at_ms looks like seconds, not ms: {at}");
    assert_eq!(at.to_string(), BUILT_AT_MS);
}

#[test]
fn the_calendar_arithmetic_is_right_at_the_awkward_dates() {
    assert_eq!(iso_utc(1), "1970-01-01T00:00:00Z");
    assert_eq!(iso_utc(951_782_400_000), "2000-02-29T00:00:00Z");
    assert_eq!(iso_utc(4_107_542_400_000), "2100-03-01T00:00:00Z");
    assert_eq!(iso_utc(1_789_664_461_000), "2026-09-17T17:01:01Z");
    assert_eq!(iso_utc(0), "unknown");
    assert_eq!(iso_utc(-5), "unknown");
}

#[test]
fn the_last_second_of_a_year_and_the_first_of_the_next() {
    assert_eq!(iso_utc(946_684_799_999), "1999-12-31T23:59:59Z");
    assert_eq!(iso_utc(946_684_800_000), "2000-01-01T00:00:00Z");
    assert_eq!(iso_utc(1_709_164_800_000), "2024-02-29T00:00:00Z");
}

#[test]
fn the_console_line_names_the_short_hash_and_the_dirty_tree() {
    assert_eq!(
        summary_of("0123456789abcdef0123456789abcdef01234567", "true", "951782400000"),
        "built from 0123456 +uncommitted-changes, 2000-02-29T00:00:00Z UTC"
    );
    assert_eq!(summary_of("abc", "false", "1"), "built from abc, 1970-01-01T00:00:00Z UTC");
    assert_eq!(summary_of("unknown", "false", "not a number"), "built from unknown, unknown UTC");
    assert!(summary().starts_with("built from "));
    assert!(summary().ends_with(" UTC"));
}

#[test]
fn a_stamp_handed_in_is_read_like_the_built_in_one() {
    assert_eq!(built_at_from("1794954344814"), 1_794_954_344_814);
    assert_eq!(built_at_from("soon"), 0);
    assert_eq!(built_at_from(BUILT_AT_MS), built_at_ms());
}
