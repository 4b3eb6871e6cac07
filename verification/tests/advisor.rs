use fd_api::advisor::{clear_args, json_line, root_of, setup_code, store_args, store_check, test_args, ClearBody, StoreBody, TestBody};
use fd_api::error::ApiError;

#[test]
fn the_setup_code_is_six_digits_and_does_not_change_within_a_process() {
    let seed = 0x9e37_79b9_7f4a_7c15u64;
    let a = setup_code(seed);
    assert_eq!(a.len(), 6, "a six digit code is what the console prints");
    assert!(a.chars().all(|c| c.is_ascii_digit()));
    assert_eq!(a, setup_code(seed), "it must be stable or the form can never be filled in");
}

#[test]
fn a_small_seed_is_padded_and_a_large_one_is_cut_to_six_digits() {
    assert_eq!(setup_code(0), "000000");
    assert_eq!(setup_code(42), "000042");
    assert_eq!(setup_code(1_234_567), "234567");
    assert_eq!(setup_code(u64::MAX), "551615");
}

fn body(key: &str, code: &str) -> StoreBody {
    StoreBody { provider: "deepseek".to_string(), key: key.to_string(), setup_code: code.to_string() }
}

#[test]
fn a_store_needs_the_right_code_and_a_key() {
    match store_check(&body("  sk-x  ", " 123456 "), "123456") {
        Ok(k) => assert_eq!(k, "sk-x"),
        Err(_) => panic!("the right code with a key proceeds"),
    }
    match store_check(&body("sk-x", "654321"), "123456") {
        Err(ApiError::BadRequest(m)) => {
            assert_eq!(m, "wrong setup code \u{2014} it is printed on the fd-api console at startup")
        }
        _ => panic!("a wrong code is refused"),
    }
    match store_check(&body("sk-x", ""), "123456") {
        Err(ApiError::BadRequest(m)) => assert!(m.starts_with("wrong setup code")),
        _ => panic!("a missing code is refused the same way"),
    }
    match store_check(&body("   ", "123456"), "123456") {
        Err(ApiError::BadRequest(m)) => assert_eq!(m, "no key given"),
        _ => panic!("a blank key is refused"),
    }
}

#[test]
fn the_key_never_rides_on_the_command_line() {
    assert_eq!(store_args(&body("sk-secret", "1")), vec!["key", "deepseek", "--stdin"]);
    assert_eq!(
        test_args(&TestBody { provider: "openai".to_string(), model: Some("m2".to_string()) }),
        vec!["test", "openai", "--model", "m2"]
    );
    assert_eq!(test_args(&TestBody { provider: "openai".to_string(), model: None }), vec!["test", "openai"]);
    assert_eq!(clear_args(&ClearBody { provider: "deepseek".to_string() }), vec!["clear", "deepseek"]);
}

#[test]
fn the_answer_is_the_last_json_line_and_a_warning_above_it_is_ignored() {
    assert_eq!(json_line("warning: slow\n{\"ok\":false}\n  {\"ok\":true}\ntrailer\n"), "  {\"ok\":true}");
    assert_eq!(json_line("no json here\n"), "");
    assert_eq!(json_line(""), "");
}

#[test]
fn the_tool_runs_from_the_config_parent_or_here() {
    assert_eq!(root_of(Some("/srv/desk")), "/srv/desk");
    assert_eq!(root_of(Some("")), ".");
    assert_eq!(root_of(None), ".");
}
