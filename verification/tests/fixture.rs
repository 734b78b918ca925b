use partial_mixed_markdown::fixture::{
    compare, expected_path, is_interactive, settle, source_path, Report, Step, Verdict,
};
use partial_mixed_markdown::Error;

#[test]
fn paths_of_a_fixture() {
    assert_eq!(source_path("mixed"), "tests/mixed.md");
    assert_eq!(expected_path("mixed"), "tests/mixed.html");
    assert_eq!(source_path(""), "tests/.md");
}

#[test]
fn interactive_is_set_by_one() {
    assert!(is_interactive(Some("1")));
    assert!(!is_interactive(Some("0")));
    assert!(!is_interactive(Some("")));
    assert!(!is_interactive(Some("11")));
    assert!(!is_interactive(Some("true")));
    assert!(!is_interactive(None));
}

#[test]
fn equal_html_passes() {
    assert_eq!(compare("<p>a</p>\n", "<p>a</p>\n", false), Step::Pass);
    assert_eq!(compare("<p>a</p>\n", "<p>a</p>\n", true), Step::Pass);
    assert_eq!(compare("", "", false), Step::Pass);
}

#[test]
fn different_html_asks_or_fails() {
    assert_eq!(compare("<p>a</p>\n", "<p>b</p>\n", true), Step::Ask);
    assert_eq!(compare("<p>a</p>\n", "<p>b</p>\n", false), Step::Fail);
    assert_eq!(compare("", "<p>b</p>\n", false), Step::Fail);
    assert_eq!(compare("<p>a</p>", "<p>a</p>\n", false), Step::Fail);
}

#[test]
fn only_a_yes_accepts() {
    assert_eq!(settle(true), Verdict::Accept);
    assert_eq!(settle(false), Verdict::Reject);
}

#[test]
fn fixture_that_matches() {
    let report = partial_mixed_markdown::fixture::test("# a\n\nb\n", "<h1>a</h1>\n<p>b</p>\n", false);
    assert_eq!(report, Ok(Report { actual: "<h1>a</h1>\n<p>b</p>\n".to_string(), step: Step::Pass }));
}

#[test]
fn fixture_without_expectation() {
    let report = partial_mixed_markdown::fixture::test("## a", "", true);
    assert_eq!(report, Ok(Report {
        actual: "<h2 class=\"subtitle\">a</h2>\n".to_string(),
        step: Step::Ask,
    }));
    assert_eq!(partial_mixed_markdown::fixture::test("## a", "", false).unwrap().step, Step::Fail);
    assert_eq!(partial_mixed_markdown::fixture::test("", "", false).unwrap().step, Step::Pass);
}

#[test]
fn fixture_that_does_not_convert() {
    assert_eq!(partial_mixed_markdown::fixture::test("<div", "", true), Err(Error::MalformedRawHtml));
    assert_eq!(partial_mixed_markdown::fixture::test("a\n< b", "", false), Err(Error::GrammarError { line: 2 }));
}
