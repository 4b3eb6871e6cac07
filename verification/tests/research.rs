use fd_api::research::{
    decision_title, hypothesis_claim, hypothesis_field, hypothesis_rank, is_fatal, listing_order, parse_run, read_direction, parse_backlog, rank, status_of, BacklogItem,
    Proposal, ScoutFields, Verdict,
};

#[test]
fn the_backlog_splits_open_from_closed_and_keeps_the_reason() {
    let text = "## Open
- [ ] **ORB.** the range is where flow was absorbed
- [ ] ~~**Asia.**~~ Withdrawn
- [ ] `run_null_control` skips **options**
## Closed
- [x] **ICT.** see record
";
    let b = parse_backlog(text);
    assert!(b.open[0] == BacklogItem { title: "ORB".into(), note: "the range is where flow was absorbed".into() });
    assert!(b.open[1] == BacklogItem { title: "run_null_control skips options".into(), note: String::new() });
    assert_eq!(b.open.len(), 2, "a struck-through item is not open");
    assert_eq!(b.closed.len(), 2);
}

#[test]
fn a_withdrawn_item_keeps_its_title_and_its_reason() {
    let b = parse_backlog("  - [ ] ~~**Asia.**~~ Withdrawn\n- [x] **ICT.** see record\nplain text\n");
    assert_eq!(b.open.len(), 0);
    assert!(b.closed[0] == BacklogItem { title: "Asia".into(), note: "Withdrawn".into() });
    assert!(b.closed[1] == BacklogItem { title: "ICT".into(), note: "see record".into() });
    assert_eq!(parse_backlog("").open.len(), 0);
}

fn verdict(role: &str, said: &str) -> Verdict {
    Verdict {
        role: role.to_string(),
        verdict: said.to_string(),
        at: 0,
        note: String::new(),
        evidence: Vec::new(),
        instrument: String::new(),
        sample: String::new(),
    }
}

fn proposal(verdicts: Vec<Verdict>, registered_as: Option<&str>) -> Proposal {
    Proposal {
        id: "p1".to_string(),
        title: "an idea".to_string(),
        proposed_at: 1,
        scout: ScoutFields {
            mechanism: String::new(),
            why_unarbitraged: String::new(),
            data_needed: Vec::new(),
            falsifier_sketch: String::new(),
            closest_known: String::new(),
        },
        verdicts,
        status: "shortlisted".to_string(),
        registered_as: registered_as.map(|s| s.to_string()),
        file: "p1.json".to_string(),
    }
}

#[test]
fn one_fatal_verdict_rejects_whatever_else_was_said() {
    let p = proposal(vec![verdict("historian", "pass"), verdict("feasibility", "blocked")], None);
    assert_eq!(status_of(&p), "rejected");
    assert!(is_fatal("Closed") && is_fatal("BROKEN") && is_fatal("blocked"));
    assert!(!is_fatal("pass"));
}

#[test]
fn both_gates_must_speak_to_shortlist() {
    assert_eq!(status_of(&proposal(vec![verdict("Historian", "ok")], None)), "proposed");
    assert_eq!(
        status_of(&proposal(vec![verdict("Historian", "ok"), verdict("FEASIBILITY", "ok")], None)),
        "shortlisted"
    );
}

#[test]
fn a_registered_proposal_is_registered_and_the_file_says_nothing_about_it() {
    let p = proposal(vec![verdict("historian", "closed")], Some("H-12"));
    assert_eq!(status_of(&p), "registered");
    assert_eq!(status_of(&proposal(Vec::new(), Some(""))), "proposed");
}

#[test]
fn live_work_sorts_before_the_graveyard() {
    assert_eq!(rank("shortlisted"), 0);
    assert_eq!(rank("registered"), 1);
    assert_eq!(rank("proposed"), 2);
    assert_eq!(rank("rejected"), 3);
}

#[test]
fn the_first_line_is_the_title_and_the_claim_follows_the_colon() {
    let text = "## H-12: Asia range breaks hold  \n**Status:** decided \u{2014} killed in review\n  **Registered:** 2026-09-01\n";
    assert_eq!(decision_title(text).as_deref(), Some("H-12: Asia range breaks hold"));
    assert_eq!(hypothesis_claim(text), "Asia range breaks hold");
    assert_eq!(hypothesis_claim("# no colon here\n"), "no colon here");
    assert_eq!(hypothesis_field(text, "Status"), "decided");
    assert_eq!(hypothesis_field(text, "Registered"), "2026-09-01");
    assert_eq!(hypothesis_field(text, "Owner"), "");
    assert_eq!(decision_title(""), None);
}

#[test]
fn the_screen_lists_live_work_first_and_newest_first_within_it() {
    assert_eq!(hypothesis_rank("decided: rejected"), 1);
    assert_eq!(hypothesis_rank("running"), 0);
    assert_eq!(hypothesis_rank("Decided"), 0, "the prefix is matched as written");
    let keys = vec![(1, 50), (0, 10), (0, 30), (3, 99), (0, 30), (1, 70)];
    assert_eq!(listing_order(&keys), vec![2, 4, 1, 5, 0, 3]);
    assert!(listing_order(&Vec::new()).is_empty());
}

#[test]
fn the_hypotheses_table_is_read_row_by_row_and_the_verdict_line_closes_it() {
    let text = "\
== hypotheses `x`: 2 declared ==

hypothesis   base               trades  OOS PF  expect null p50 null p95    swap$   pct  verdict
ict-B-balanced ict-sweep-mss-fvg      62   1.261   0.145    0.888    1.058        0  100%  SURVIVES
                                MoTuWeThFr + NY 01:00-05:00  \u{2014} the expert's default preset
ict-A-tight  ict-sweep-mss-fvg      33   0.917  -0.051    0.888    1.058        0   62%  fail: profit factor 0.917 < 1.2; expectancy -0.051R < 0.05R

Survivors: ict-B-balanced/ict-sweep-mss-fvg \u{2014} worth a decision record
";
    let run = parse_run(text);
    assert_eq!(run.rows.len(), 2);
    assert_eq!(run.rows[0].label, "ict-B-balanced");
    assert_eq!(run.rows[0].trades, 62);
    assert_eq!(run.rows[0].percentile.trim_end_matches('%').parse::<f64>().unwrap(), 100.0);
    assert_eq!(run.rows[0].verdict, "SURVIVES");
    assert!(run.rows[1].verdict.starts_with("fail:"));
    assert_eq!(run.rows[1].verdict, "fail: profit factor 0.917 < 1.2; expectancy -0.051R < 0.05R");
    assert_eq!(run.rows[1].expectancy, "-0.051");
    assert_eq!(run.survivors, vec!["ict-B-balanced/ict-sweep-mss-fvg".to_string()]);
    assert!(run.concluded);

    let unfinished = parse_run("hypothesis   base trades\n");
    assert!(!unfinished.concluded && unfinished.rows.is_empty());
}

#[test]
fn the_direction_receipt_yields_the_percentile_and_the_side_of_the_null() {
    let text = "== direction control: ict-sweep-mss-fvg, 198 trades, 2000 coin-flip assignments ==\n\n  actual: 1.045  ->  79th percentile  (p = 0.210)\n\n  Inside its own null.\n";
    let d = read_direction(text).unwrap();
    assert_eq!(d.trades, Some(198));
    assert_eq!(d.actual_pf.parse::<f64>().unwrap(), 1.045);
    assert_eq!(d.percentile.trim_end_matches(char::is_alphabetic).parse::<f64>().unwrap(), 79.0);
    assert!(!d.outside);
    let outside = read_direction("  actual: 2.5 -> 99th\nOutside its own null.\n").unwrap();
    assert!(outside.outside);
    assert_eq!(outside.trades, None);
    assert!(read_direction("no figures here\n").is_none());
    assert!(read_direction("  actual: 1.0 -> none\n").is_none());
}

#[test]
fn nothing_survived_concludes_with_no_survivors() {
    let run = parse_run("hypothesis   base\nNothing survived the gates.\n");
    assert!(run.concluded);
    assert!(run.survivors.is_empty());
    let several = parse_run("Survivors: a/x, b/y , c/z\n");
    assert_eq!(several.survivors, vec!["a/x".to_string(), "b/y".to_string(), "c/z".to_string()]);
    let short = parse_run("hypothesis   base\nrow base 12 1 2 3 4 5\n");
    assert!(short.rows.is_empty(), "fewer than ten columns is no row");
}
