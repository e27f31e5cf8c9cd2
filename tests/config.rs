use minigrep::cli::Config;

fn args(items: &[&str]) -> Vec<String> {
    items.iter().map(|s| s.to_string()).collect()
}

#[test]
fn build_needs_two_arguments() {
    let r = Config::build(&args(&["prog", "query"]), false);
    assert_eq!(Some("not enough arguments"), r.err());
}

#[test]
fn build_fails_on_program_name_alone() {
    assert!(Config::build(&args(&["prog"]), true).is_err());
    assert!(Config::build(&args(&[]), false).is_err());
}

#[test]
fn build_takes_query_and_path() {
    let c = match Config::build(&args(&["prog", "duct", "poem.txt"]), false) {
        Ok(c) => c,
        Err(e) => panic!("unexpected error: {}", e),
    };
    assert_eq!("duct", c.query);
    assert_eq!("poem.txt", c.file_path);
    assert!(!c.ignore_case());
}

#[test]
fn build_ignores_extra_arguments() {
    let c = match Config::build(&args(&["prog", "a", "b", "c"]), true) {
        Ok(c) => c,
        Err(e) => panic!("unexpected error: {}", e),
    };
    assert_eq!("a", c.query);
    assert_eq!("b", c.file_path);
    assert!(c.ignore_case());
}

#[test]
fn search_in_follows_case_flag() {
    let contents = "Rust:\nsafe, fast, productive.\nPick three.\nTrust me.";
    let exact = match Config::build(&args(&["prog", "rUsT", "f"]), false) {
        Ok(c) => c,
        Err(e) => panic!("unexpected error: {}", e),
    };
    assert_eq!(vec!["No matches in the file."], exact.search_in(contents));
    let folded = match Config::build(&args(&["prog", "rUsT", "f"]), true) {
        Ok(c) => c,
        Err(e) => panic!("unexpected error: {}", e),
    };
    assert_eq!(vec!["Rust:", "Trust me."], folded.search_in(contents));
}
