use minigrep::search;
use minigrep::search_case_insensitive;

#[test]
fn case_sensitive() {
    let query = "duct";
    let contents = "\
Rust:\n
safe, fast, productive.\n
Pick three.\n
Duct tape.";

    assert_eq!(vec!["safe, fast, productive."], search(query, contents));
}

#[test]
fn case_insensitive() {
    let query = "rUsT";
    let contents = "\
Rust:\n
safe, fast, productive.\n
Pick three.\n
Trust me.";

    assert_eq!(vec!["Rust:", "Trust me."], search_case_insensitive(query, contents));
}

#[test]
fn search_is_deterministic() {
    let query = "st";
    let contents = "Rust:\nsafe, fast, productive.\nPick three.\nTrust me.";
    let first = search(query, contents);
    let second = search(query, contents);
    assert_eq!(first, second);
    let first_ci = search_case_insensitive("RU", contents);
    let second_ci = search_case_insensitive("RU", contents);
    assert_eq!(first_ci, second_ci);
}

#[test]
fn empty_query_matches_every_line() {
    let contents = "Rust:\nsafe, fast, productive.\nPick three.";
    let expected = vec!["Rust:", "safe, fast, productive.", "Pick three."];
    assert_eq!(expected, search("", contents));
    assert_eq!(expected, search_case_insensitive("", contents));
}

#[test]
fn empty_contents_yield_nothing() {
    assert_eq!(Vec::<&str>::new(), search("x", ""));
    assert_eq!(Vec::<&str>::new(), search_case_insensitive("x", ""));
}

#[test]
fn query_longer_than_any_line_matches_nothing() {
    let contents = "one\ntwo\nthree";
    assert_eq!(Vec::<&str>::new(), search("three and then some", contents));
}

#[test]
fn carriage_returns_are_not_part_of_lines() {
    let contents = "alpha\r\nbeta\r\ngamma";
    assert_eq!(vec!["alpha", "beta", "gamma"], search("", contents));
    assert_eq!(vec!["alpha"], search("alpha", contents));
}

#[test]
fn trailing_newline_adds_no_line() {
    assert_eq!(vec!["alpha"], search("", "alpha\n"));
    assert_eq!(vec!["alpha", ""], search("", "alpha\n\n"));
}

#[test]
fn matches_keep_original_case() {
    let contents = "Whole\nwhole\nWHOLE";
    assert_eq!(vec!["Whole", "whole", "WHOLE"], search_case_insensitive("whole", contents));
}
