use std::num::NonZeroU32;
use std::time::Duration;

use base64::Engine;
use fd_api::auth::{
    gitignore_covers, is_public, set_section_keys, switches, tunnel_decision, Auth, ConfigRead, LoginError,
    StoredPassword, TomlDoc, TomlItem, TomlScalar, Tunnel, COOKIE, DEFAULT_AUTH_PORT, FREE_ATTEMPTS, LOCKOUT_BASE_SECS, LOCKOUT_MAX_SECS,
    LOGIN_PAGE, MIN_PASSWORD_LEN, PBKDF2_ITERATIONS, SECTION, SESSION_TTL_NS, TOKEN_LEN, TOKEN_TEXT_LEN,
};

const GOOD: &str = "correct horse battery staple";

/// An instant on the caller's clock, well away from zero.
const NOW: u64 = 1_000_000_000_000;

/// Nanoseconds in a second, for the caller's clock.
const SEC: u64 = 1_000_000_000;

fn stored() -> StoredPassword {
    StoredPassword::create(GOOD).expect("a verifier")
}

/// A verifier of the same password made with few iterations, read from the
/// file format: for the tests that sign in many times.
fn quick() -> StoredPassword {
    let salt = b"sixteen bytes!!!";
    let mut hash = [0u8; 32];
    ring::pbkdf2::derive(
        ring::pbkdf2::PBKDF2_HMAC_SHA256,
        NonZeroU32::new(1000).unwrap(),
        salt,
        GOOD.as_bytes(),
        &mut hash,
    );
    let std_b64 = base64::engine::general_purpose::STANDARD;
    let text = format!(
        "[auth]\npbkdf2_iterations = 1000\nsalt = \"{}\"\nhash = \"{}\"\n",
        std_b64.encode(salt),
        std_b64.encode(hash),
    );
    StoredPassword::from_toml(&text).expect("parses").expect("a section")
}

fn pairs_text(p: &StoredPassword, existing: &str) -> String {
    let pairs = p.toml_pairs();
    let refs: Vec<(&str, &str)> = pairs.iter().map(|(k, v)| (*k, v.as_str())).collect();
    set_section_keys(existing, SECTION, &refs)
}

fn token_text(bytes: [u8; TOKEN_LEN]) -> String {
    base64::engine::general_purpose::URL_SAFE_NO_PAD.encode(bytes)
}

#[test]
fn a_short_password_is_refused_and_the_minimum_is_named() {
    let err = StoredPassword::create("short").err().expect("eleven characters is not enough");
    assert!(err.contains(&MIN_PASSWORD_LEN.to_string()), "the refusal must say the minimum: {err}");
    let eleven = "a".repeat(MIN_PASSWORD_LEN - 1);
    assert!(StoredPassword::create(&eleven).is_err());
    assert!(StoredPassword::create(&"a".repeat(MIN_PASSWORD_LEN)).is_ok());
}

#[test]
fn the_right_password_verifies_and_a_wrong_one_does_not() {
    let stored = stored();
    assert!(stored.verify(GOOD));
    assert!(!stored.verify("correct horse battery stapl"));
    assert!(!stored.verify("correct horse battery staple "));
    assert!(!stored.verify(""));
}

#[test]
fn two_installs_of_the_same_password_do_not_share_a_hash() {
    let a = StoredPassword::create(GOOD).expect("a");
    let b = StoredPassword::create(GOOD).expect("b");
    let (pa, pb) = (a.toml_pairs(), b.toml_pairs());
    assert_ne!(pa[1].1, pb[1].1, "the salts");
    assert_ne!(pa[2].1, pb[2].1, "the hashes");
    assert!(a.verify(GOOD) && b.verify(GOOD));
}

#[test]
fn the_verifier_survives_a_round_trip_through_the_file_format() {
    let stored = stored();
    let text = pairs_text(&stored, "");
    let back = StoredPassword::from_toml(&text).expect("parses").expect("a section");
    assert!(back.verify(GOOD));
    assert!(!back.verify("something else"));
    assert_eq!(back.iterations(), stored.iterations());
}

#[test]
fn no_auth_section_is_absent_and_a_broken_one_is_an_error() {
    assert!(StoredPassword::from_toml("").expect("empty parses").is_none());
    assert!(StoredPassword::from_toml("[advisor]\ndeepseek_api_key = \"sk-x\"\n").expect("parses").is_none());
    for broken in [
        "[auth]\n",
        "[auth]\nsalt = \"AAAA\"\n",
        "[auth]\nsalt = \"AAAA\"\nhash = \"AAAA\"\n",
        "[auth]\nsalt = \"AAAA\"\nhash = \"AAAA\"\npbkdf2_iterations = 0\n",
        "[auth]\nsalt = \"not base64 at all!!\"\nhash = \"AAAA\"\npbkdf2_iterations = 1000\n",
    ] {
        let got = StoredPassword::from_toml(broken);
        assert!(got.is_err(), "a half-written [auth] must refuse, not read as absent: {broken:?}");
    }
}

#[test]
fn the_stored_iteration_count_is_used_rather_than_the_constant() {
    let salt = b"sixteen bytes!!!";
    let mut hash = [0u8; 32];
    ring::pbkdf2::derive(
        ring::pbkdf2::PBKDF2_HMAC_SHA256,
        NonZeroU32::new(1000).unwrap(),
        salt,
        GOOD.as_bytes(),
        &mut hash,
    );
    let std_b64 = base64::engine::general_purpose::STANDARD;
    let text = format!(
        "[auth]\npbkdf2_iterations = 1000\nsalt = \"{}\"\nhash = \"{}\"\n",
        std_b64.encode(salt),
        std_b64.encode(hash),
    );
    let stored = StoredPassword::from_toml(&text).expect("parses").expect("a section");
    assert_eq!(stored.iterations(), 1000);
    assert!(stored.verify(GOOD));
}

#[test]
fn writing_the_section_leaves_every_other_line_alone() {
    let before = "# a comment that is load bearing\n[advisor]\ndeepseek_api_key = \"sk-x\"\n\n[telegram]\nbot_token = \"t\"\n";
    let after = set_section_keys(before, SECTION, &[("salt", "\"AAAA\""), ("hash", "\"BBBB\"")]);
    assert!(after.contains("# a comment that is load bearing"));
    assert!(after.contains("deepseek_api_key = \"sk-x\""));
    assert!(after.contains("bot_token = \"t\""));
    assert!(after.contains("[auth]"));
    assert!(after.contains("salt = \"AAAA\""));
    let again = set_section_keys(&after, SECTION, &[("salt", "\"CCCC\""), ("hash", "\"DDDD\"")]);
    assert_eq!(again.matches("salt =").count(), 1, "one salt, not two");
    assert!(again.contains("salt = \"CCCC\""));
    assert!(!again.contains("AAAA"));
    assert!(again.contains("deepseek_api_key = \"sk-x\""));
    assert_eq!(again.matches("[auth]").count(), 1);
}

#[test]
fn writing_into_an_existing_auth_section_keeps_its_place_in_the_file() {
    let before = "[auth]\nsalt = \"OLD\"\n\n[telegram]\nbot_token = \"t\"\n";
    let after = set_section_keys(before, SECTION, &[("salt", "\"NEW\""), ("hash", "\"H\"")]);
    let salt_at = after.find("salt = \"NEW\"").expect("the salt");
    let telegram_at = after.find("[telegram]").expect("telegram");
    assert!(salt_at < telegram_at, "the key must stay in its own section:\n{after}");
    assert!(after.find("hash = \"H\"").expect("the hash") < telegram_at);
    assert!(after.contains("bot_token = \"t\""));
}

#[test]
fn a_new_section_goes_at_the_end_with_one_final_newline() {
    let after = set_section_keys("[advisor]\nkey = 1\n", SECTION, &[("salt", "\"S\"")]);
    assert_eq!(after, "[advisor]\nkey = 1\n\n[auth]\nsalt = \"S\"\n");
    let again = set_section_keys("[auth]\nsalt = 1\n\n\n", SECTION, &[("salt", "\"S\"")]);
    assert_eq!(again, "[auth]\nsalt = \"S\"\n");
    assert_eq!(set_section_keys("", SECTION, &[("a", "1"), ("b", "2")]), "[auth]\na = 1\nb = 2\n");
}

#[test]
fn a_session_is_accepted_only_with_its_own_cookie() {
    let mut auth = Auth::new(quick());
    assert!(!auth.is_authenticated(None, NOW), "no cookie is not a session");
    assert!(!auth.is_authenticated(Some(""), NOW));
    let token = auth.login(GOOD, NOW).ok().expect("the right password mints a session");
    assert!(auth.is_authenticated(Some(&format!("{COOKIE}={token}")), NOW));
    assert!(auth.is_authenticated(Some(&format!("theme=dark; {COOKIE}={token}; tz=7")), NOW));
    let forged = token_text([7u8; TOKEN_LEN]);
    assert!(!auth.is_authenticated(Some(&format!("{COOKIE}={forged}")), NOW));
    assert!(!auth.is_authenticated(Some(&format!("session={token}")), NOW));
    assert!(!auth.is_authenticated(Some(&format!("{COOKIE}={}", &token[..token.len() - 1])), NOW));
    assert!(!auth.is_authenticated(Some(&format!("{COOKIE}={token}A")), NOW));
    assert!(!auth.is_authenticated(Some(&format!("{COOKIE}=!!!not base64")), NOW));
}

#[test]
fn a_wrong_password_mints_nothing() {
    let mut auth = Auth::new(quick());
    assert!(auth.login("not the password at all", NOW).is_err());
    assert_eq!(auth.session_count(NOW), 0, "a failed sign-in must leave no session behind");
    assert!(auth.login("", NOW).is_err());
    assert_eq!(auth.session_count(NOW), 0);
}

#[test]
fn logging_out_drops_that_session_and_only_that_one() {
    let mut auth = Auth::new(quick());
    let first = auth.login(GOOD, NOW).ok().expect("one");
    let second = auth.login(GOOD, NOW).ok().expect("two");
    assert_eq!(auth.session_count(NOW), 2);
    auth.logout(Some(&format!("{COOKIE}={first}")), NOW);
    assert!(!auth.is_authenticated(Some(&format!("{COOKIE}={first}")), NOW));
    assert!(auth.is_authenticated(Some(&format!("{COOKIE}={second}")), NOW));
    auth.logout(None, NOW);
    auth.logout(Some(&format!("{COOKIE}={}", token_text([9u8; TOKEN_LEN]))), NOW);
    assert_eq!(auth.session_count(NOW), 1);
}

#[test]
fn failures_get_slower_and_a_success_clears_the_count() {
    assert_eq!(Auth::backoff(0), None);
    assert_eq!(Auth::backoff(FREE_ATTEMPTS), None, "the free attempts are free");
    assert_eq!(Auth::backoff(FREE_ATTEMPTS + 1), Some(Duration::from_secs(5)));
    assert_eq!(Auth::backoff(FREE_ATTEMPTS + 2), Some(Duration::from_secs(10)));
    assert_eq!(Auth::backoff(FREE_ATTEMPTS + 3), Some(Duration::from_secs(20)));
    assert_eq!(Auth::backoff(FREE_ATTEMPTS + 40), Some(Duration::from_secs(LOCKOUT_MAX_SECS)));
    assert_eq!(Auth::backoff(u32::MAX), Some(Duration::from_secs(LOCKOUT_MAX_SECS)));

    let mut auth = Auth::new(quick());
    for _ in 0..FREE_ATTEMPTS {
        assert!(matches!(auth.login("wrong wrong wrong", NOW), Err(LoginError::Wrong)));
    }
    assert!(matches!(auth.login("wrong wrong wrong", NOW), Err(LoginError::Wrong)));
    match auth.login(GOOD, NOW) {
        Err(LoginError::LockedOut(left)) => {
            assert!(left <= Duration::from_secs(LOCKOUT_BASE_SECS));
        }
        _ => panic!("the lockout must hold against the right password too, or it is not a lockout"),
    }
}

#[test]
fn the_lockout_ends_when_its_time_is_up() {
    let mut auth = Auth::new(quick());
    for _ in 0..=FREE_ATTEMPTS {
        assert!(matches!(auth.login("wrong wrong wrong", NOW), Err(LoginError::Wrong)));
    }
    match auth.login(GOOD, NOW + 2 * SEC) {
        Err(LoginError::LockedOut(left)) => assert_eq!(left, Duration::from_secs(3)),
        _ => panic!("still locked two seconds in"),
    }
    match auth.login(GOOD, NOW + 2 * SEC + 1) {
        Err(LoginError::LockedOut(left)) => assert_eq!(left, Duration::from_nanos(3 * SEC - 1)),
        _ => panic!("the wait is kept to the nanosecond"),
    }
    assert!(auth.login(GOOD, NOW + LOCKOUT_BASE_SECS * SEC).is_ok());
}

#[test]
fn a_success_resets_the_failure_count() {
    let mut auth = Auth::new(quick());
    for _ in 0..FREE_ATTEMPTS {
        assert!(auth.login("wrong wrong wrong", NOW).is_err());
    }
    let token = auth.login(GOOD, NOW).ok().expect("the free attempts must not have armed anything");
    assert_eq!(token.len(), TOKEN_TEXT_LEN);
    assert_eq!(auth.session_count(NOW), 1);
    assert!(auth.is_authenticated(Some(&format!("{COOKIE}={token}")), NOW));
    for _ in 0..FREE_ATTEMPTS {
        assert!(matches!(auth.login("wrong wrong wrong", NOW), Err(LoginError::Wrong)));
    }
}

#[test]
fn an_attempt_in_flight_turns_the_next_away_without_counting_it() {
    let mut auth = Auth::new(quick());
    assert!(auth.begin_attempt(NOW).is_ok());
    for _ in 0..16 {
        assert!(matches!(auth.login("wrong wrong wrong", NOW), Err(LoginError::Busy)));
    }
    assert!(matches!(auth.finish_attempt(false, NOW, NOW), Err(LoginError::Wrong)));
    // Sixteen turned away and one wrong: still inside the free attempts.
    for _ in 1..FREE_ATTEMPTS {
        assert!(matches!(auth.login("wrong wrong wrong", NOW), Err(LoginError::Wrong)));
    }
    assert!(auth.login(GOOD, NOW).is_ok());
}

#[test]
fn an_expired_session_stops_working() {
    let mut auth = Auth::new(quick());
    let token = auth.login(GOOD, NOW).ok().expect("a session");
    assert!(auth.is_authenticated(Some(&format!("{COOKIE}={token}")), NOW));
    let later = NOW + SESSION_TTL_NS + SEC;
    assert!(!auth.is_authenticated(Some(&format!("{COOKIE}={token}")), later));
    assert_eq!(auth.session_count(later), 0, "an expired session is swept, not kept");
}

#[test]
fn a_session_lasts_until_just_before_its_expiry() {
    let mut auth = Auth::new(quick());
    let token = auth.login(GOOD, NOW).ok().expect("a session");
    let cookie = format!("{COOKIE}={token}");
    assert!(auth.is_authenticated(Some(&cookie), NOW + SESSION_TTL_NS - 1));
    assert!(!auth.is_authenticated(Some(&cookie), NOW + SESSION_TTL_NS));
}

#[test]
fn only_three_paths_are_public() {
    assert!(is_public("/login"));
    assert!(is_public("/api/auth/login"));
    assert!(is_public("/api/auth/logout"));
    for guarded in [
        "/",
        "/index.html",
        "/api/version",
        "/api/paper/stop",
        "/api/paper/pause",
        "/api/paper/start",
        "/api/paper/open",
        "/api/paper/intent",
        "/api/paper/pending/act",
        "/api/advisor/credentials/clear",
        "/login/",
        "/LOGIN",
        "/api/auth/login/../../api/paper/stop",
    ] {
        assert!(!is_public(guarded), "{guarded} must need a session");
    }
}

#[test]
fn nobody_asking_means_no_second_listener() {
    let text = ConfigRead::Text("[advisor]\ndeepseek_api_key = \"sk-x\"\n".to_string());
    assert!(matches!(tunnel_decision("config/local.toml", text, None, false), Tunnel::Off));
    assert!(matches!(tunnel_decision("config/local.toml", ConfigRead::Missing, None, false), Tunnel::Off));
}

#[test]
fn a_missing_hash_refuses_the_listener_rather_than_opening_it() {
    for (port, flag) in [(None, true), (Some(9000), false), (Some(9000), true)] {
        match tunnel_decision("config/local.toml", ConfigRead::Missing, port, flag) {
            Tunnel::Refused { why, .. } => {
                assert!(why.contains("--set-password"), "the refusal must say the fix: {why}");
            }
            _ => panic!("no password must refuse the listener, not open it"),
        }
    }
    let text = ConfigRead::Text("[auth]\nenabled = true\n".to_string());
    match tunnel_decision("config/local.toml", text, None, false) {
        Tunnel::Refused { port, why } => {
            assert_eq!(port, DEFAULT_AUTH_PORT);
            assert!(why.contains("pbkdf2_iterations") || why.contains("salt") || why.contains("hash"), "{why}");
        }
        _ => panic!("`enabled = true` with no verifier must refuse"),
    }
}

#[test]
fn a_password_and_a_switch_open_it_on_the_configured_port() {
    let stored = stored();
    let body = pairs_text(&stored, "[auth]\nenabled = true\nport = 8200\n");
    match tunnel_decision("config/local.toml", ConfigRead::Text(body.clone()), None, false) {
        Tunnel::Ready { port, mut auth } => {
            assert_eq!(port, 8200, "the port comes from the config");
            assert!(auth.login(GOOD, NOW).is_ok());
        }
        _ => panic!("a verifier and `enabled = true` is the ready case"),
    }
    match tunnel_decision("config/local.toml", ConfigRead::Text(body), Some(8500), false) {
        Tunnel::Ready { port, .. } => assert_eq!(port, 8500),
        _ => panic!("ready"),
    }
    let quiet = pairs_text(&stored, "");
    assert!(matches!(
        tunnel_decision("config/local.toml", ConfigRead::Text(quiet.clone()), None, false),
        Tunnel::Off
    ));
    assert!(matches!(
        tunnel_decision("config/local.toml", ConfigRead::Text(quiet), None, true),
        Tunnel::Ready { .. }
    ));
}

#[test]
fn an_unreadable_config_refuses_only_when_the_listener_was_asked_for() {
    let read = || ConfigRead::Unreadable("permission denied".to_string());
    assert!(matches!(tunnel_decision("config/local.toml", read(), None, false), Tunnel::Off));
    match tunnel_decision("config/local.toml", read(), Some(9100), false) {
        Tunnel::Refused { port, why } => {
            assert_eq!(port, 9100);
            assert_eq!(why, "reading config/local.toml: permission denied");
        }
        _ => panic!("asked for and unreadable is refused"),
    }
}

#[test]
fn a_switch_of_the_wrong_type_is_refused_rather_than_read_as_off() {
    assert!(!switches("").expect("empty").0, "nothing in the file means off");
    assert_eq!(switches("[auth]\nenabled = true\n").expect("bool"), (true, None));
    assert_eq!(switches("[auth]\nport = 9001\n").expect("port"), (false, Some(9001)));
    assert!(switches("[auth]\nenabled = \"yes\"\n").is_err());
    assert!(switches("[auth]\nport = 0\n").is_err());
    assert!(switches("[auth]\nport = 99999\n").is_err());
}

#[test]
fn the_login_page_stands_on_its_own() {
    assert!(LOGIN_PAGE.contains("<form"));
    assert!(!LOGIN_PAGE.contains("<script src"), "no external script");
    assert!(!LOGIN_PAGE.contains("rel=\"stylesheet\""), "no external stylesheet");
    assert!(!LOGIN_PAGE.contains("/assets/"), "nothing from the bundle");
    assert!(LOGIN_PAGE.contains("/api/auth/login"));
}

#[test]
fn the_file_is_written_only_when_git_ignores_it() {
    let stored = stored();
    assert!(gitignore_covers("target/\nconfig/local.toml\n"));
    assert!(gitignore_covers("  /config/local.toml  \n"));
    assert!(!gitignore_covers("config/\n"));
    assert_eq!(
        stored.file_text("/srv/desk", None, ""),
        Err("refusing to write: config/local.toml is not in /srv/desk/.gitignore. Add it first \u{2014} a password verifier does not go in a tracked file.".to_string())
    );
    assert!(stored.file_text("/srv/desk", Some("target/\n"), "").is_err());
    let text = stored.file_text("/srv/desk", Some("config/local.toml\n"), "[advisor]\nk = 1\n").expect("ignored");
    assert!(text.starts_with("[advisor]\nk = 1\n"));
    let back = StoredPassword::from_toml(&text).expect("parses").expect("a section");
    assert!(back.verify(GOOD));
    assert_eq!(back.iterations(), PBKDF2_ITERATIONS);
}

#[test]
fn a_fresh_verifier_is_written_with_the_current_count() {
    let pairs = stored().toml_pairs();
    assert_eq!(pairs.len(), 3);
    assert_eq!(pairs[0], ("pbkdf2_iterations", "600000".to_string()));
    assert_eq!(pairs[1].0, "salt");
    assert_eq!(pairs[2].0, "hash");
    // A 16-byte salt is 24 characters of padded base64, and quoted.
    assert_eq!(pairs[1].1.len(), 26);
    assert!(pairs[1].1.starts_with('"') && pairs[1].1.ends_with('"'));
}

#[test]
fn writing_the_same_pairs_twice_changes_nothing() {
    let before = "# kept\n[auth]\n  salt=\"OLD\"\nnote = 1\nsalt = \"DUP\"\n\n[telegram]\nbot_token = \"t\"\n";
    let pairs = [("salt", "\"NEW\""), ("hash", "\"H\"")];
    let once = set_section_keys(before, SECTION, &pairs);
    assert_eq!(once, "# kept\n[auth]\nsalt = \"NEW\"\nnote = 1\n\nhash = \"H\"\n[telegram]\nbot_token = \"t\"\n");
    assert_eq!(set_section_keys(&once, SECTION, &pairs), once);
    let fresh = set_section_keys("[advisor]\nk = 1\n", SECTION, &pairs);
    assert_eq!(set_section_keys(&fresh, SECTION, &pairs), fresh);
}

#[test]
fn each_broken_verifier_is_refused_with_its_own_reason() {
    let cases = [
        ("[auth]\n", "[auth] is empty. Run `fd-api --set-password`, or delete the section."),
        ("[auth]\nenabled = true\n", "[auth] has no `salt`. Run `fd-api --set-password`."),
        ("[auth]\nsalt = 3\n", "[auth].salt must be a base64 string"),
        ("[auth]\nsalt = \"AAAA\"\n", "[auth] has no `hash`. Run `fd-api --set-password`."),
        ("[auth]\nsalt = \"\"\nhash = \"AAAA\"\n", "[auth].salt is empty"),
        (
            "[auth]\nsalt = \"AAAA\"\nhash = \"AAAA\"\n",
            "[auth].hash is 3 bytes; PBKDF2-HMAC-SHA256 produces 32",
        ),
    ];
    for (text, why) in cases {
        assert_eq!(StoredPassword::from_toml(text).err(), Some(why.to_string()), "{text:?}");
    }
    let hash = base64::engine::general_purpose::STANDARD.encode([7u8; 32]);
    let with = |iterations: &str| format!("[auth]\nsalt = \"AAAA\"\nhash = \"{hash}\"\n{iterations}");
    assert_eq!(
        StoredPassword::from_toml(&with("")).err(),
        Some("[auth] has no `pbkdf2_iterations`. Run `fd-api --set-password`.".to_string())
    );
    assert_eq!(
        StoredPassword::from_toml(&with("pbkdf2_iterations = \"many\"\n")).err(),
        Some("[auth].pbkdf2_iterations must be a whole number".to_string())
    );
    assert_eq!(
        StoredPassword::from_toml(&with("pbkdf2_iterations = 0\n")).err(),
        Some("[auth].pbkdf2_iterations is 0, which is not a usable count".to_string())
    );
    assert_eq!(
        StoredPassword::from_toml(&with("pbkdf2_iterations = -5\n")).err(),
        Some("[auth].pbkdf2_iterations is -5, which is not a usable count".to_string())
    );
    let bad = StoredPassword::from_toml("[auth]\nsalt = \"not base64 at all!!\"\nhash = \"AAAA\"\n").err().unwrap();
    assert!(bad.starts_with("[auth].salt is not base64: "), "{bad}");
    let parse = StoredPassword::from_toml("[auth\n").err().unwrap();
    assert!(parse.starts_with("parsing: "), "{parse}");
    let ok = StoredPassword::from_toml(&with("pbkdf2_iterations = 1000\n")).expect("parses").expect("a section");
    assert_eq!(ok.iterations(), 1000);
}

#[test]
fn each_refusal_of_the_listener_names_its_reason() {
    match tunnel_decision("config/local.toml", ConfigRead::Missing, None, true) {
        Tunnel::Refused { port, why } => {
            assert_eq!(port, DEFAULT_AUTH_PORT);
            assert_eq!(why, "config/local.toml has no [auth] password. Set one with `fd-api --set-password`.");
        }
        _ => panic!("refused"),
    }
    match tunnel_decision("config/local.toml", ConfigRead::Text("[auth]\nenabled = true\n".to_string()), None, false) {
        Tunnel::Refused { why, .. } => {
            assert_eq!(why, "config/local.toml: [auth] has no `salt`. Run `fd-api --set-password`.");
        }
        _ => panic!("refused"),
    }
    match tunnel_decision("config/local.toml", ConfigRead::Text("[auth]\nenabled = 1\n".to_string()), Some(9000), false) {
        Tunnel::Refused { port, why } => {
            assert_eq!(port, 9000);
            assert_eq!(why, "config/local.toml: [auth].enabled must be true or false");
        }
        _ => panic!("refused"),
    }
}

#[test]
fn each_bad_switch_names_the_key() {
    assert_eq!(switches("[auth]\nenabled = \"yes\"\n"), Err("[auth].enabled must be true or false".to_string()));
    assert_eq!(switches("[auth]\nport = 0\n"), Err("[auth].port must be a port number".to_string()));
    assert_eq!(switches("[auth]\nport = 70000\n"), Err("[auth].port must be a port number".to_string()));
    assert!(switches("[auth\n").unwrap_err().starts_with("parsing: "));
}

#[test]
fn a_parsed_document_is_read_the_same_way_as_its_text() {
    let not_a_table = TomlDoc { entries: vec![("auth".to_string(), TomlItem::Scalar(TomlScalar::Int(3)))] };
    assert_eq!(StoredPassword::from_doc(&not_a_table).err(), Some("[auth] is not a table".to_string()));
    let elsewhere = TomlDoc { entries: vec![("advisor".to_string(), TomlItem::Table(Vec::new()))] };
    assert!(StoredPassword::from_doc(&elsewhere).expect("no section").is_none());
    let std_b64 = base64::engine::general_purpose::STANDARD;
    let table = vec![
        ("salt".to_string(), TomlScalar::Str(std_b64.encode(b"sixteen bytes!!!"))),
        ("hash".to_string(), TomlScalar::Str(std_b64.encode([9u8; 32]))),
        ("pbkdf2_iterations".to_string(), TomlScalar::Int(1000)),
    ];
    let doc = TomlDoc { entries: vec![("auth".to_string(), TomlItem::Table(table))] };
    let read = StoredPassword::from_doc(&doc).expect("reads").expect("a section");
    assert_eq!(read.iterations(), 1000);
    assert!(!read.verify(GOOD), "nine-filled bytes are no verifier of the password");
    let wide = TomlDoc {
        entries: vec![(
            "auth".to_string(),
            TomlItem::Table(vec![
                ("salt".to_string(), TomlScalar::Str("AAAA".to_string())),
                ("hash".to_string(), TomlScalar::Str(std_b64.encode([9u8; 32]))),
                ("pbkdf2_iterations".to_string(), TomlScalar::Int(1 << 40)),
            ]),
        )],
    };
    assert_eq!(
        StoredPassword::from_doc(&wide).err(),
        Some("[auth].pbkdf2_iterations is 1099511627776, which is not a usable count".to_string())
    );
}

#[test]
fn a_session_expired_when_the_attempt_began_is_swept_by_its_success() {
    let mut auth = Auth::new(quick());
    assert!(auth.login(GOOD, NOW).is_ok());
    let expiry = NOW + SESSION_TTL_NS;
    assert!(auth.begin_attempt(expiry - 1).is_ok());
    assert!(auth.finish_attempt(true, expiry - 1, expiry + SEC).is_ok());
    assert_eq!(auth.session_count(expiry - 1), 2, "alive when the attempt began, so kept");
    assert!(auth.begin_attempt(expiry).is_ok());
    assert!(auth.finish_attempt(true, expiry, expiry).is_ok());
    assert_eq!(auth.session_count(expiry), 2, "the first one is gone, the other two stand");
}

#[test]
fn a_second_write_with_other_values_replaces_the_first() {
    let before = "[advisor]\nk = 1\n\n[auth]\nenabled = true\nsalt = \"OLD\"\n[telegram]\nt = 2\n";
    let first = set_section_keys(before, SECTION, &[("salt", "\"AAAA\""), ("hash", "\"BBBB\"")]);
    let second = set_section_keys(&first, SECTION, &[("salt", "\"CCCC\""), ("hash", "\"DDDD\"")]);
    assert_eq!(second, set_section_keys(before, SECTION, &[("salt", "\"CCCC\""), ("hash", "\"DDDD\"")]));
    assert!(!second.contains("AAAA") && !second.contains("BBBB"));
}

#[test]
fn a_login_token_is_forty_three_url_safe_characters() {
    let mut auth = Auth::new(quick());
    let token = auth.login(GOOD, NOW).ok().expect("a session");
    assert_eq!(token.len(), TOKEN_TEXT_LEN);
    assert!(token.chars().all(|c| c.is_ascii_alphanumeric() || c == '-' || c == '_'));
}

#[test]
fn the_written_pairs_read_back_as_the_same_verifier() {
    let stored = quick();
    let pairs = stored.toml_pairs();
    let unquote = |v: &str| v.trim_matches('"').to_string();
    let table = vec![
        ("salt".to_string(), TomlScalar::Str(unquote(&pairs[1].1))),
        ("hash".to_string(), TomlScalar::Str(unquote(&pairs[2].1))),
        ("pbkdf2_iterations".to_string(), TomlScalar::Int(pairs[0].1.parse().unwrap())),
    ];
    let doc = TomlDoc { entries: vec![("auth".to_string(), TomlItem::Table(table))] };
    let back = StoredPassword::from_doc(&doc).expect("reads").expect("a section");
    assert_eq!(back.iterations(), stored.iterations());
    assert!(back.verify(GOOD));
    assert_eq!(back.toml_pairs(), pairs);
}
