use fd_api::accounts::{fold_accounts, Configured, Seen, MIRROR_LAG_MS};

fn seen(run: &str, login: Option<i64>, at: i64, dry_run: Option<bool>, holding: bool) -> Seen {
    Seen { run: run.to_string(), login, at, dry_run, holding, server: None }
}

fn configured(login: i64, dry_run: bool) -> Configured {
    Configured { login, server: Some(format!("srv-{login}")), dry_run }
}

#[test]
fn a_configured_account_appears_with_nothing_running_it() {
    let out = fold_accounts(&vec![configured(7, true)], &vec![]);
    assert_eq!(out.len(), 1);
    assert_eq!(out[0].login, 7);
    assert_eq!(out[0].registry, Some(0));
    assert_eq!(out[0].numbers_from, None);
    assert_eq!(out[0].server.as_deref(), Some("srv-7"));
    assert!(out[0].dry_run, "the registry's intent stands");
    assert!(out[0].mirroring.is_empty());
    assert_eq!(out[0].at, 0);
}

#[test]
fn accounts_come_out_by_login_once_each() {
    let reg = vec![configured(30, true), configured(10, false), configured(30, false)];
    let s = vec![seen("a", Some(20), 5, None, false), seen("b", None, 9, None, false), seen("c", Some(10), 6, Some(true), false)];
    let out = fold_accounts(&reg, &s);
    let logins: Vec<i64> = out.iter().map(|a| a.login).collect();
    assert_eq!(logins, vec![10, 20, 30]);
    assert_eq!(out[2].registry, Some(0), "the first registry entry for a login wins");
    assert_eq!(out[1].registry, None);
    assert_eq!(out[1].first_seen, Some(0));
}

#[test]
fn the_freshest_snapshot_wins_the_figures_and_a_stale_book_is_dropped() {
    let now = 10_000_000;
    let s = vec![
        seen("old-book", Some(1), now - MIRROR_LAG_MS - 1, Some(false), true),
        seen("b-book", Some(1), now - 5_000, Some(true), true),
        seen("a-book", Some(1), now, Some(true), false),
    ];
    let out = fold_accounts(&vec![], &s);
    assert_eq!(out.len(), 1);
    let a = &out[0];
    assert_eq!(a.numbers_from, Some(2));
    assert_eq!(a.at, now);
    assert_eq!(a.mirroring, vec!["a-book", "b-book"], "the stale book is not mirroring, and the rest are in order");
    assert_eq!(a.positions, 1);
    assert!(a.dry_run, "every book reporting now only watches");
}

#[test]
fn one_book_sending_real_orders_makes_the_account_live() {
    let s = vec![seen("w", Some(4), 100, Some(true), false), seen("x", Some(4), 100, None, false)];
    let out = fold_accounts(&vec![configured(4, true)], &s);
    assert!(!out[0].dry_run, "a book that did not say is not a dry run");
    assert_eq!(out[0].numbers_from, Some(0), "the first of two equal stamps keeps the figures");
    assert_eq!(out[0].server.as_deref(), Some("srv-4"));
}

#[test]
fn an_unconfigured_account_takes_its_first_snapshot_and_then_the_freshest_server() {
    let mut first = seen("b", Some(5), 50, Some(true), false);
    first.server = None;
    let mut second = seen("a", Some(5), 80, Some(true), false);
    second.server = Some("live-1".to_string());
    let out = fold_accounts(&vec![], &vec![first, second]);
    assert_eq!(out[0].first_seen, Some(0));
    assert_eq!(out[0].numbers_from, Some(1));
    assert_eq!(out[0].server.as_deref(), Some("live-1"));
    assert_eq!(out[0].mirroring, vec!["a", "b"]);
}

#[test]
fn snapshots_stamped_before_the_epoch_keep_the_first_snapshots_figures() {
    let out = fold_accounts(&vec![], &vec![seen("a", Some(3), -10, Some(true), false)]);
    assert_eq!(out[0].at, 0);
    assert_eq!(out[0].numbers_from, Some(0));
    assert_eq!(out[0].mirroring, vec!["a"]);
}
