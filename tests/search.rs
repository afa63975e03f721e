use minigrep::lines::next_line;
use minigrep::{contains, find_matches, search, search_case_insensitive, ArgError, Config};

#[test]
fn one_result() {
    let query = "duct";
    let contents = "\
Rust:
safe, fast, productive.
Pick three.
Dust tape";
    assert_eq!(vec!["safe, fast, productive."], search(query, contents));
}

#[test]
fn simple_string() {
    let query = "sim";
    let contents = "\
my simple string
safe, fast, productive.
Pick three.
Dust tape";
    assert_eq!(vec!["my simple string"], search(query, contents));
}

#[test]
fn case_insensitive() {
    let query = "rUsT";
    let contents = "\
Rust:
safe, fast, productive.
Pick three.
Trust me.";

    assert_eq!(
        vec!["Rust:", "Trust me."],
        search_case_insensitive(query, contents)
    )
}

#[test]
fn search_is_case_sensitive() {
    let contents = "Rust:\nsafe, fast, productive.\nPick three.\nTrust me.";
    assert_eq!(vec!["Trust me."], search("rust", contents));
    assert_eq!(Vec::<&str>::new(), search("RUST", contents));
}

#[test]
fn every_returned_line_contains_query() {
    let contents = "abc\nbcd\ncde\nabcabc\n";
    let found = search("bc", contents);
    assert_eq!(vec!["abc", "bcd", "abcabc"], found);
    for line in found {
        assert!(line.contains("bc"));
    }
}

#[test]
fn duplicate_lines_each_kept() {
    let contents = "same\nother\nsame";
    assert_eq!(vec!["same", "same"], search("same", contents));
}

#[test]
fn case_insensitive_keeps_case_sensitive_hits() {
    let contents = "Rust:\nrust\nRUST is here\nnothing";
    let exact = search("rust", contents);
    let folded = search_case_insensitive("rust", contents);
    assert_eq!(vec!["rust"], exact);
    assert_eq!(vec!["Rust:", "rust", "RUST is here"], folded);
    for line in exact {
        assert!(folded.contains(&line));
    }
}

#[test]
fn case_insensitive_lowers_the_query() {
    assert_eq!(vec!["rust"], search_case_insensitive("RUST", "rust"));
}

#[test]
fn case_insensitive_beyond_ascii() {
    assert_eq!(vec!["café"], search_case_insensitive("CAFÉ", "tea\ncafé"));
}

#[test]
fn empty_query_returns_every_line() {
    let contents = "one\n\ntwo\nthree\n";
    assert_eq!(vec!["one", "", "two", "three"], search("", contents));
    assert_eq!(
        vec!["one", "", "two", "three"],
        search_case_insensitive("", contents)
    );
}

#[test]
fn empty_contents_has_no_lines() {
    assert_eq!(Vec::<&str>::new(), search("", ""));
    assert_eq!(Vec::<&str>::new(), search_case_insensitive("", ""));
}

#[test]
fn final_newline_adds_no_line() {
    assert_eq!(vec!["a", "b"], search("", "a\nb\n"));
    assert_eq!(vec![""], search("", "\n"));
    assert_eq!(vec!["", ""], search("", "\n\n"));
}

#[test]
fn crlf_endings_are_removed() {
    assert_eq!(vec!["a", "b", "c\r"], search("", "a\r\nb\r\nc\r"));
    assert_eq!(vec!["x\ry"], search("y", "x\ry\n"));
}

#[test]
fn contains_cases() {
    assert!(contains("productive", "duct"));
    assert!(contains("abc", ""));
    assert!(contains("", ""));
    assert!(!contains("ab", "abc"));
    assert!(!contains("abd", "bc"));
    assert!(contains("aab", "ab"));
}

#[test]
fn lines_rejoin_to_the_text() {
    let texts = ["", "a", "a\n", "a\nb", "a\n\nb\n", "\n", "one\ntwo\nthree"];
    for text in texts {
        let mut lines: Vec<&str> = Vec::new();
        let mut rest = text;
        while let Some((line, tail)) = next_line(rest) {
            lines.push(line);
            rest = tail;
        }
        let expected = text.strip_suffix('\n').unwrap_or(text);
        assert_eq!(expected, lines.join("\n"));
    }
}

#[test]
fn next_line_splits_once() {
    assert_eq!(Some(("ab", "cd\nef")), next_line("ab\ncd\nef"));
    assert_eq!(Some(("ab", "")), next_line("ab"));
    assert_eq!(Some(("ab", "x")), next_line("ab\r\nx"));
    assert_eq!(None, next_line(""));
}

fn args(items: &[&str]) -> Vec<String> {
    items.iter().map(|s| s.to_string()).collect()
}

#[test]
fn build_without_query() {
    let r = Config::build(args(&["prog"]), false);
    assert_eq!(ArgError::MissingQuery, r.unwrap_err());
    assert_eq!("Didn't get query string", ArgError::MissingQuery.message());
}

#[test]
fn build_without_args() {
    let r = Config::build(Vec::new(), false);
    assert_eq!(ArgError::MissingQuery, r.unwrap_err());
}

#[test]
fn build_without_file_path() {
    let r = Config::build(args(&["prog", "q"]), false);
    assert_eq!(ArgError::MissingFilePath, r.unwrap_err());
    assert_eq!("Didn't get a file path", ArgError::MissingFilePath.message());
}

#[test]
fn build_reads_query_and_path() {
    let c = Config::build(args(&["prog", "to", "poem.txt", "extra"]), true).unwrap();
    assert_eq!("to", c.query);
    assert_eq!("poem.txt", c.file_path);
    assert!(c.ignore_case);
    let c = Config::build(args(&["prog", "to", "poem.txt"]), false).unwrap();
    assert!(!c.ignore_case);
}

#[test]
fn find_matches_follows_config() {
    let contents = "Rust:\nTrust me.\nrust";
    let exact = Config::build(args(&["prog", "Rust", "f"]), false).unwrap();
    assert_eq!(vec!["Rust:"], find_matches(&exact, contents));
    let folded = Config::build(args(&["prog", "Rust", "f"]), true).unwrap();
    assert_eq!(vec!["Rust:", "Trust me.", "rust"], find_matches(&folded, contents));
}
