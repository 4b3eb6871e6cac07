use fd_api::cli::{arg, flag, opt, repo_root};

fn args(list: &[&str]) -> Vec<String> {
    list.iter().map(|s| s.to_string()).collect()
}

#[test]
fn an_option_is_its_first_spelling_and_absent_is_not_the_default() {
    let a = args(&["fd-api", "--port=9000", "--auth", "--port=9001", "--config="]);
    assert_eq!(opt(&a, "port"), Some("9000".to_string()));
    assert_eq!(opt(&a, "config"), Some(String::new()));
    assert_eq!(opt(&a, "auth"), None);
    assert_eq!(arg(&a, "market", "xauusd"), "xauusd");
    assert_eq!(arg(&a, "port", "8080"), "9000");
}

#[test]
fn a_switch_is_the_bare_name_only() {
    let a = args(&["fd-api", "--auth", "--set-password=x"]);
    assert!(flag(&a, "auth"));
    assert!(!flag(&a, "set-password"));
    assert!(!flag(&a, "au"));
}

#[test]
fn the_root_is_the_config_parent_or_here() {
    assert_eq!(repo_root(Some("/srv/flowdesk")), "/srv/flowdesk");
    assert_eq!(repo_root(Some("")), ".");
    assert_eq!(repo_root(None), ".");
}
