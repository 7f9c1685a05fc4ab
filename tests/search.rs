use mylib::search::{search, search_case_insensitive, search_lines, Config};
use mylib::text::{contains_text, split_lines};

#[test]
fn new_config_pass() {
    let arr = ["zero".to_string(), "one".to_string(), "two".to_string()];
    let config = Config::new(&arr, false).unwrap_or_else(|err| {
        panic!("Error: {}", err);
    });
    assert_eq!(arr[1], config.query);
    assert_eq!(arr[2], config.filename);
}

#[test]
fn new_config_reports_too_few_arguments() {
    let arr = ["zero".to_string(), "one".to_string()];
    match Config::new(&arr, false) {
        Ok(_) => panic!("two arguments should not make a config"),
        Err(e) => assert_eq!(e, "not enough arguments"),
    }
}

#[test]
fn new_config_case_from_environment_flag() {
    let arr = ["zero".to_string(), "one".to_string(), "two".to_string()];
    assert!(Config::new(&arr, false).ok().unwrap().case_sensitive);
    assert!(!Config::new(&arr, true).ok().unwrap().case_sensitive);
}

#[test]
fn one_result() {
    let query = "duct";
    let contents = "\
Rust:
safe, fast, productive.
Pick three.";

    assert_eq!(vec!["safe, fast, productive."], search(query, contents));
}

#[test]
fn case_sensitive() {
    let query = "duct";
    let contents = "\
Rust:
safe, fast, productive.
Pick three.
Duct tape.";
    assert_eq!(vec!["safe, fast, productive."], search(query, contents));
}

#[test]
fn case_insensitive() {
    let query = "rUsT";
    let contents = "\
Rust:
safe, fast, productive.
Pick three.
Trust me.";
    assert_eq!(vec!["Rust:", "Trust me."], search_case_insensitive(query, contents));
}

#[test]
fn empty_query_returns_every_line() {
    assert_eq!(vec!["a", "b", "c"], search_lines("", "a\nb\nc", true));
}

#[test]
fn upper_case_query_with_and_without_case() {
    let text = "Rust\nTrust me.\nOther";
    assert_eq!(vec!["Rust", "Trust me."], search_lines("RUST", text, false));
    assert!(search_lines("RUST", text, true).is_empty());
}

#[test]
fn lines_drop_carriage_returns_and_final_newline() {
    assert_eq!(vec!["one", "two", "", "three\r"], split_lines("one\r\ntwo\n\nthree\r"));
    assert_eq!(vec!["x"], split_lines("x\n"));
    assert!(split_lines("").is_empty());
}

#[test]
fn matching_lines_keep_their_order_and_repeats() {
    assert_eq!(vec!["ab", "b", "ab"], search("b", "ab\nb\nc\nab"));
}

#[test]
fn case_insensitive_search_lowercases_non_ascii() {
    assert_eq!(vec!["ÉCOLE"], search_case_insensitive("école", "ÉCOLE\nautre"));
}

#[test]
fn substring_test() {
    assert!(contains_text("productive", "duct"));
    assert!(!contains_text("duc", "duct"));
    assert!(contains_text("", ""));
    assert!(contains_text("abc", ""));
}
