use minigrep::config::Config;
use minigrep::lines::lines;
use minigrep::search::{line_contains, matching_lines, search, search_case_insensitive};

const POEM: &str = "Rust:\nsafe, fast, productive.\nPick three.";

#[test]
fn one_result() {
    let query = "duct";
    let contents = "\
Rust:
safe, fast, productive.
Pick three.";

    assert_eq!(vec!["safe, fast, productive."], search(query, contents));
}

#[test]
fn case_insensitive() {
    assert_eq!(vec!["Rust:"], search_case_insensitive("RUST", POEM));
}

#[test]
fn case_sensitive_search_skips_other_case() {
    assert!(search("RUST", POEM).is_empty());
    let contents = "Rust:\nsafe, fast, productive.\nPick three.\nDuct tape.";
    assert_eq!(vec!["safe, fast, productive."], search("duct", contents));
    assert_eq!(
        vec!["safe, fast, productive.", "Duct tape."],
        search_case_insensitive("duct", contents)
    );
}

#[test]
fn empty_query_returns_every_line() {
    assert_eq!(vec!["Rust:", "safe, fast, productive.", "Pick three."], search("", POEM));
    assert_eq!(vec!["a", "", "b"], search("", "a\n\nb\n"));
}

#[test]
fn repeated_search_gives_same_result() {
    let first = search("t", POEM);
    let second = search("t", POEM);
    assert_eq!(first, second);
    assert_eq!(vec!["Rust:", "safe, fast, productive.", "Pick three."], first);
}

#[test]
fn matches_keep_text_order() {
    let contents = "one x\ntwo\nthree x\nfour x";
    assert_eq!(vec!["one x", "three x", "four x"], search("x", contents));
}

#[test]
fn query_longer_than_every_line_finds_nothing() {
    let result = search("a query longer than any line", POEM);
    assert!(result.is_empty());
}

#[test]
fn results_borrow_from_contents() {
    let result = search("Pick", POEM);
    assert_eq!(result.len(), 1);
    let start = POEM.as_ptr() as usize;
    let at = result[0].as_ptr() as usize;
    assert_eq!(at - start, POEM.len() - "Pick three.".len());
}

#[test]
fn lines_split_on_line_feed_and_crlf() {
    assert_eq!(vec!["a", "b", "c"], lines("a\r\nb\nc"));
    assert_eq!(vec!["a", "b"], lines("a\nb\n"));
    assert_eq!(vec!["a", "b"], lines("a\r\nb\r\n"));
    assert_eq!(vec!["a", "b\r"], lines("a\nb\r"));
    assert_eq!(vec!["a\rb"], lines("a\rb"));
    assert_eq!(vec!["", ""], lines("\n\n"));
    assert!(lines("").is_empty());
}

#[test]
fn crlf_contents_are_searched_by_line() {
    let contents = "Rust:\r\nsafe, fast, productive.\r\nPick three.";
    assert_eq!(vec!["safe, fast, productive."], search("duct", contents));
    assert!(search("\r", contents).is_empty());
}

#[test]
fn multibyte_text_is_sliced_on_characters() {
    let contents = "héllo\nwörld\n日本語のテキスト\nplain";
    assert_eq!(vec!["wörld"], search("ö", contents));
    assert_eq!(vec!["日本語のテキスト"], search("テキ", contents));
    assert_eq!(vec!["héllo", "wörld", "日本語のテキスト", "plain"], lines(contents));
    assert_eq!(vec!["WÖRLD"], search_case_insensitive("wö", "WÖRLD\nworld"));
}

#[test]
fn line_contains_checks_substrings() {
    assert!(line_contains("productive", "duct"));
    assert!(line_contains("abc", ""));
    assert!(line_contains("", ""));
    assert!(!line_contains("", "a"));
    assert!(!line_contains("ab", "abc"));
    assert!(line_contains("aaab", "aab"));
    assert!(!line_contains("Rust", "rust"));
}

#[test]
fn case_insensitive_keeps_original_lines() {
    let contents = "Trust me.\nRUSTY nail\nnothing";
    assert_eq!(vec!["Trust me.", "RUSTY nail"], search_case_insensitive("rUsT", contents));
}

#[test]
fn matching_lines_follows_case_flag() {
    let sensitive = Config {
        query: String::from("rust"),
        filename: String::from("poem.txt"),
        case_sensitive: true,
    };
    let insensitive = Config { case_sensitive: false, ..sensitive.clone() };
    let contents = "Rust:\nTrust me.";
    assert_eq!(vec!["Trust me."], matching_lines(&sensitive, contents));
    assert_eq!(vec!["Rust:", "Trust me."], matching_lines(&insensitive, contents));
}
