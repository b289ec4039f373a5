use rust_grep::config::parameters::Parameters;
use rust_grep::run_search;
use rust_grep::search;
use rust_grep::search_case_insensitive;
use rust_grep::Config;

#[test]
fn one_result() {
    let query = String::from("duct");
    let contents = "\
Rust:
safe, fast, productive.
Pick three.";
    assert_eq!(vec!["safe, fast, productive."], search(&query, &contents));
}

#[test]
fn case_sensitive() {
    let query = "duct";
    let contents = "\
Rust:
safe, fast, productive.
Pick three.
Duct tape.";

    assert_eq!(vec!["safe, fast, productive."], search(query, contents));
}

#[test]
fn case_insensitive() {
    let query = "rUsT";
    let contents = "\
Rust:
safe, fast, productive.
Pick three.
Trust me.";

    assert_eq!(
        vec!["Rust:", "Trust me."],
        search_case_insensitive(query, contents)
    );
}

#[test]
fn empty_query_returns_every_line() {
    let contents = "Rust:\nsafe, fast, productive.\nPick three.";
    assert_eq!(
        vec!["Rust:", "safe, fast, productive.", "Pick three."],
        search("", contents)
    );
}

#[test]
fn case_sensitive_results_are_a_subsequence_of_insensitive() {
    let query = "rUsT";
    let contents = "Rust:\nsafe, fast, productive.\nPick three.\nTrust me.";
    let sensitive = search(query, contents);
    let insensitive = search_case_insensitive(query, contents);
    assert_eq!(sensitive, Vec::<&str>::new());
    assert_eq!(vec!["Rust:", "Trust me."], insensitive);

    let query = "st";
    let sensitive = search(query, contents);
    let insensitive = search_case_insensitive(query, contents);
    // Every case-sensitive match appears in the case-insensitive result,
    // in the same relative order.
    let mut pos = 0;
    for line in &sensitive {
        let found = insensitive[pos..].iter().position(|l| l == line);
        assert!(found.is_some(), "line {line:?} missing or out of order");
        pos += found.unwrap() + 1;
    }
}

#[test]
fn search_returns_lines_verbatim_in_order() {
    let contents = "aa\nab\nba\naa";
    let result = search("a", contents);
    assert_eq!(vec!["aa", "ab", "ba", "aa"], result);
    let result = search("aa", contents);
    assert_eq!(vec!["aa", "aa"], result);
    let result = search("b", contents);
    assert_eq!(vec!["ab", "ba"], result);
}

#[test]
fn insensitive_search_folds_non_ascii() {
    let contents = "GRÜSSE\nnichts";
    assert_eq!(
        vec!["GRÜSSE"],
        search_case_insensitive("grüsse", contents)
    );
}

#[test]
fn run_search_prefers_preloaded_content() {
    let config = Config {
        query: String::from("a"),
        path: String::new(),
        content: Some(String::from("abc\nxyz")),
        params: Parameters { ignore_case: false },
    };
    // The file content handed in is ignored when content was preloaded.
    assert_eq!(vec!["abc"], run_search(&config, "a file line"));
}

#[test]
fn run_search_uses_file_content_and_mode() {
    let config = Config {
        query: String::from("RUST"),
        path: String::from("some path"),
        content: None,
        params: Parameters { ignore_case: true },
    };
    assert_eq!(vec!["rust is here"], run_search(&config, "rust is here\nbut not there"));

    let config = Config {
        query: String::from("RUST"),
        path: String::from("some path"),
        content: None,
        params: Parameters { ignore_case: false },
    };
    assert_eq!(Vec::<&str>::new(), run_search(&config, "rust is here\nbut not there"));
}
