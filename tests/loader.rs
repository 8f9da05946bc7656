use dotenv_rs::parse::{parse_line, ParseErrorKind};
use dotenv_rs::{dotenv, dotenv_with_prefix, find, from_filename, merge_plan, Error, Iter, Probe, Reader};

fn s(x: &str) -> String {
    String::from(x)
}

fn pair(k: &str, v: &str) -> (String, String) {
    (s(k), s(v))
}

fn file_lines() -> Vec<String> {
    vec![s("TESTKEY=test_val"), s("TestKEY=test_val_prefix")]
}

#[test]
fn plain_line_gives_key_and_value() {
    assert_eq!(parse_line("KEY=value"), Ok(Some(pair("KEY", "value"))));
    assert_eq!(parse_line("  KEY = value  # note"), Ok(Some(pair("KEY", "value"))));
    assert_eq!(parse_line("EMPTY="), Ok(Some(pair("EMPTY", ""))));
}

#[test]
fn quoted_values_lose_their_quotes() {
    assert_eq!(parse_line("A='x # y'"), Ok(Some(pair("A", "x # y"))));
    assert_eq!(parse_line("B=\"two words\"  # c"), Ok(Some(pair("B", "two words"))));
}

#[test]
fn blank_and_comment_lines_give_nothing() {
    assert_eq!(parse_line(""), Ok(None));
    assert_eq!(parse_line("   \t "), Ok(None));
    assert_eq!(parse_line("  # KEY=value"), Ok(None));
}

#[test]
fn malformed_lines_give_their_error() {
    assert_eq!(parse_line("1KEY=v"), Err(ParseErrorKind::InvalidKey));
    assert_eq!(parse_line("=v"), Err(ParseErrorKind::InvalidKey));
    assert_eq!(parse_line("KEY value"), Err(ParseErrorKind::MissingEquals));
    assert_eq!(parse_line("KEY='open"), Err(ParseErrorKind::UnterminatedQuote));
    assert_eq!(parse_line("KEY=\"a\" b"), Err(ParseErrorKind::TrailingCharacters));
}

#[test]
fn first_bad_line_stops_the_parse() {
    let lines = vec![s("A=1"), s("# c"), s("oops"), s("B=2")];
    match Iter::new(&lines, &vec![]) {
        Err(e) => {
            assert_eq!(e.kind, ParseErrorKind::MissingEquals);
            assert_eq!(e.index, 2);
            assert_eq!(e.line, s("oops"));
        }
        Ok(_) => panic!("expected a parse error"),
    }
}

#[test]
fn test_get_vars() {
    let it = match Iter::new(&file_lines(), &vec![]) {
        Ok(it) => it,
        Err(_) => panic!("get vars error"),
    };
    assert_eq!(it.get_vars_with_prefix("TEST"), vec![pair("TESTKEY", "test_val")]);
    assert_eq!(
        it.get_vars(),
        vec![pair("TESTKEY", "test_val"), pair("TestKEY", "test_val_prefix")]
    );
}

#[test]
fn prefix_is_case_sensitive_and_untrimmed() {
    let it = match Iter::new(&file_lines(), &vec![]) {
        Ok(it) => it,
        Err(_) => panic!("parse error"),
    };
    assert_eq!(it.get_vars_with_prefix("test"), vec![]);
    assert_eq!(it.get_vars_with_prefix(" TEST"), vec![]);
}

#[test]
fn test_dotenv_prefix() {
    let levels = vec![Probe::Present(file_lines())];
    let env: Vec<(String, String)> = vec![];
    match dotenv_with_prefix(&levels, "Test", &env) {
        Ok((i, set)) => {
            assert_eq!(i, 0);
            assert_eq!(set, vec![pair("TestKEY", "test_val_prefix")]);
        }
        Err(_) => panic!("load error"),
    }
}

#[test]
fn later_load_keeps_earlier_values() {
    let levels = vec![Probe::Present(file_lines())];
    let env = vec![pair("TestKEY", "test_val_prefix")];
    match dotenv(&levels, &env) {
        Ok((_, set)) => assert_eq!(set, vec![pair("TESTKEY", "test_val")]),
        Err(_) => panic!("load error"),
    }
}

#[test]
fn merging_twice_sets_nothing_the_second_time() {
    let entries = vec![pair("A", "1"), pair("B", "2"), pair("A", "3")];
    let first = merge_plan(&entries, "", &vec![pair("B", "0")]);
    assert_eq!(first, vec![pair("A", "1")]);
    let second = merge_plan(&entries, "", &vec![pair("B", "0"), pair("A", "1")]);
    assert_eq!(second, vec![]);
}

#[test]
fn search_walks_up_to_the_nearest_file() {
    let levels = vec![Probe::Absent, Probe::Absent, Probe::Present(vec![s("K=v")])];
    assert!(matches!(find(&levels), Ok(2)));
    match from_filename(&levels, &vec![]) {
        Ok((i, set)) => {
            assert_eq!(i, 2);
            assert_eq!(set, vec![pair("K", "v")]);
        }
        Err(_) => panic!("load error"),
    }
}

#[test]
fn search_without_a_file_is_not_found() {
    let levels = vec![Probe::Absent, Probe::Absent];
    assert!(matches!(find(&levels), Err(Error::NotFound)));
    let unreadable = vec![Probe::Absent, Probe::Unreadable(s("denied"))];
    match find(&unreadable) {
        Err(Error::Io(m)) => assert_eq!(m, s("denied")),
        _ => panic!("expected an io error"),
    }
    let bad = vec![Probe::Present(vec![s("nokey")])];
    assert!(matches!(from_filename(&bad, &vec![]), Err(Error::LineParse(_))));
}

#[test]
fn later_duplicate_overwrites_in_collect() {
    let lines = vec![s("A=1"), s("B=2"), s("A=3"), s("C=4")];
    let it = match Iter::new(&lines, &vec![]) {
        Ok(it) => it,
        Err(_) => panic!("parse error"),
    };
    assert_eq!(it.get_vars(), vec![pair("A", "3"), pair("B", "2"), pair("C", "4")]);
    assert_eq!(it.get_vars_base("A"), vec![pair("A", "3")]);
}

fn collect(lines: Vec<String>, env: Vec<(String, String)>) -> Vec<(String, String)> {
    match Iter::new(&lines, &env) {
        Ok(it) => it.get_vars(),
        Err(_) => panic!("parse error"),
    }
}

#[test]
fn references_resolve_against_earlier_entries() {
    assert_eq!(collect(vec![s("A=1"), s("B=${A}2")], vec![]), vec![pair("A", "1"), pair("B", "12")]);
    assert_eq!(collect(vec![s("A=1"), s("B=\"$A-x\"")], vec![]), vec![pair("A", "1"), pair("B", "1-x")]);
}

#[test]
fn reversed_order_does_not_resolve() {
    assert_eq!(collect(vec![s("B=${A}2"), s("A=1")], vec![]), vec![pair("B", "2"), pair("A", "1")]);
}

#[test]
fn references_fall_back_to_the_environment() {
    assert_eq!(collect(vec![s("B=${A}2")], vec![pair("A", "9")]), vec![pair("B", "92")]);
    assert_eq!(collect(vec![s("A=1"), s("B=$A")], vec![pair("A", "9")]), vec![pair("A", "1"), pair("B", "1")]);
}

#[test]
fn single_quotes_keep_references_literal() {
    assert_eq!(collect(vec![s("A=1"), s("B='${A}'")], vec![]), vec![pair("A", "1"), pair("B", "${A}")]);
    assert_eq!(collect(vec![s("B=cost $5 ${")], vec![]), vec![pair("B", "cost $5 ${")]);
}

#[test]
fn reader_yields_entries_one_at_a_time() {
    let lines = vec![s("# head"), s("A=1"), s(""), s("B=${A}2"), s("bad line"), s("C=3")];
    let env: Vec<(String, String)> = vec![];
    let mut r = Reader::new(lines);
    assert!(matches!(r.next_entry(&env), Some(Ok(ref p)) if *p == pair("A", "1")));
    assert!(matches!(r.next_entry(&env), Some(Ok(ref p)) if *p == pair("B", "12")));
    match r.next_entry(&env) {
        Some(Err(e)) => {
            assert_eq!(e.index, 4);
            assert_eq!(e.kind, ParseErrorKind::MissingEquals);
        }
        _ => panic!("expected a parse error"),
    }
    assert!(matches!(r.next_entry(&env), Some(Ok(ref p)) if *p == pair("C", "3")));
    assert!(r.next_entry(&env).is_none());
    assert!(r.next_entry(&env).is_none());
}

#[test]
fn double_quoted_escapes_are_resolved() {
    assert_eq!(parse_line("K=\"a\\nb\""), Ok(Some(pair("K", "a\nb"))));
    assert_eq!(parse_line("K=\"a\\tb\""), Ok(Some(pair("K", "a\tb"))));
    assert_eq!(parse_line("K=\"a\\\"b\""), Ok(Some(pair("K", "a\"b"))));
    assert_eq!(parse_line("K=\"a\\\\b\""), Ok(Some(pair("K", "a\\b"))));
    assert_eq!(parse_line("K='a\\nb'"), Ok(Some(pair("K", "a\\nb"))));
}

#[test]
fn invalid_escape_is_an_error() {
    assert_eq!(parse_line("K=\"\\q\""), Err(ParseErrorKind::InvalidEscape));
    assert_eq!(parse_line("K=\"abc\\"), Err(ParseErrorKind::UnterminatedQuote));
}

#[test]
fn export_prefix_is_dropped() {
    assert_eq!(parse_line("  export FOO=bar  \r"), Ok(Some(pair("FOO", "bar"))));
    assert_eq!(parse_line("export=1"), Ok(Some(pair("export", "1"))));
    assert_eq!(parse_line("exportFOO=1"), Ok(Some(pair("exportFOO", "1"))));
}

#[test]
fn reader_ends_after_the_last_line() {
    let env: Vec<(String, String)> = vec![];
    let mut r = Reader::new(vec![s("K=V")]);
    assert!(matches!(r.next_entry(&env), Some(Ok(ref p)) if *p == pair("K", "V")));
    assert!(r.next_entry(&env).is_none());
}
