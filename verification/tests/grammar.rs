use partial_mixed_markdown::grammar::{blocks, lines, Block};
use partial_mixed_markdown::Error;

fn header(level: u8, text: &str) -> Block {
    Block::Header { level, text: text.to_string() }
}

fn paragraph(text: &str) -> Block {
    Block::Paragraph { text: text.to_string() }
}

fn raw(html: &str) -> Block {
    Block::RawTag { html: html.to_string() }
}

fn text_lines(text: &str) -> Vec<String> {
    lines(text).into_iter().map(|line| line.into_iter().collect()).collect()
}

#[test]
fn lines_are_cut_at_line_feeds() {
    assert_eq!(text_lines(""), vec![""]);
    assert_eq!(text_lines("a"), vec!["a"]);
    assert_eq!(text_lines("a\nb"), vec!["a", "b"]);
    assert_eq!(text_lines("a\n"), vec!["a", ""]);
    assert_eq!(text_lines("\n\n"), vec!["", "", ""]);
}

#[test]
fn carriage_return_before_line_feed_is_dropped() {
    assert_eq!(text_lines("a\r\nb\r\n"), vec!["a", "b", ""]);
    assert_eq!(text_lines("a\r"), vec!["a"]);
    assert_eq!(text_lines("a\rb\n"), vec!["a\rb", ""]);
    assert_eq!(text_lines("a\r\r\n"), vec!["a\r", ""]);
}

#[test]
fn atx_header_keeps_the_rest_of_the_line() {
    assert_eq!(blocks("### Title"), Ok(vec![header(3, " Title")]));
    assert_eq!(blocks("#\tTitle  "), Ok(vec![header(1, "\tTitle  ")]));
    assert_eq!(blocks("###### "), Ok(vec![header(6, " ")]));
}

#[test]
fn atx_header_needs_one_to_six_hashes_and_whitespace() {
    assert_eq!(blocks("####### x"), Ok(vec![paragraph("####### x")]));
    assert_eq!(blocks("#x"), Ok(vec![paragraph("#x")]));
    assert_eq!(blocks("##"), Ok(vec![paragraph("##")]));
    assert_eq!(blocks(" # x"), Ok(vec![paragraph(" # x")]));
}

#[test]
fn setext_header_takes_its_underline() {
    assert_eq!(blocks("Title\n====="), Ok(vec![header(1, "Title")]));
    assert_eq!(blocks("Title\n-"), Ok(vec![header(2, "Title")]));
    assert_eq!(blocks("Title\n=\nmore"), Ok(vec![header(1, "Title"), paragraph("more")]));
}

#[test]
fn underline_must_be_of_one_kind() {
    assert_eq!(blocks("Title\n=-="), Ok(vec![paragraph("Title\n=-=")]));
    assert_eq!(blocks("Title\n=== "), Ok(vec![paragraph("Title\n=== ")]));
    assert_eq!(blocks("Title\n\n==="), Ok(vec![paragraph("Title"), paragraph("===")]));
}

#[test]
fn underline_alone_is_paragraph_text() {
    assert_eq!(blocks("---"), Ok(vec![paragraph("---")]));
    assert_eq!(blocks("---\n---"), Ok(vec![header(2, "---")]));
    assert_eq!(blocks("a\n---\n---"), Ok(vec![header(2, "a"), paragraph("---")]));
}

#[test]
fn header_is_looked_for_before_markup() {
    assert_eq!(blocks("<b>x</b>\n==="), Ok(vec![header(1, "<b>x</b>")]));
    assert_eq!(blocks("# a\n---"), Ok(vec![header(1, " a"), paragraph("---")]));
}

#[test]
fn paragraph_is_a_run_of_text_lines() {
    assert_eq!(blocks("one\ntwo\nthree"), Ok(vec![paragraph("one\ntwo\nthree")]));
    assert_eq!(blocks("one\n\ntwo"), Ok(vec![paragraph("one"), paragraph("two")]));
    assert_eq!(blocks("one\n# two\nthree"), Ok(vec![
        paragraph("one"),
        header(1, " two"),
        paragraph("three"),
    ]));
    assert_eq!(blocks("one\ntwo\n---\nthree"), Ok(vec![
        paragraph("one"),
        header(2, "two"),
        paragraph("three"),
    ]));
}

#[test]
fn raw_tag_block_is_a_run_of_markup_lines() {
    assert_eq!(blocks("<div>\n</div>"), Ok(vec![raw("<div>\n</div>")]));
    assert_eq!(blocks("<div>\ntext\n</div>"), Ok(vec![
        raw("<div>"),
        paragraph("text"),
        raw("</div>"),
    ]));
    assert_eq!(blocks("text\n<br>"), Ok(vec![paragraph("text"), raw("<br>")]));
    assert_eq!(blocks("<!-- c -->\n<?x y>\n</p>"), Ok(vec![raw("<!-- c -->\n<?x y>\n</p>")]));
}

#[test]
fn markup_begins_at_the_first_character() {
    assert_eq!(blocks(" <div>"), Ok(vec![paragraph(" <div>")]));
}

#[test]
fn stray_angle_bracket_is_refused() {
    assert_eq!(blocks("<"), Err(Error::GrammarError { line: 1 }));
    assert_eq!(blocks("< div>"), Err(Error::GrammarError { line: 1 }));
    assert_eq!(blocks("<3"), Err(Error::GrammarError { line: 1 }));
    assert_eq!(blocks("ok\n\n<div>\n<<\n"), Err(Error::GrammarError { line: 4 }));
    assert_eq!(blocks("<1\n<2"), Err(Error::GrammarError { line: 1 }));
}

#[test]
fn stray_angle_bracket_above_an_underline_is_a_header() {
    assert_eq!(blocks("< 3\n---"), Ok(vec![header(2, "< 3")]));
}

#[test]
fn blank_lines_make_no_block() {
    assert_eq!(blocks(""), Ok(vec![]));
    assert_eq!(blocks("\n\n"), Ok(vec![]));
    assert_eq!(blocks(" \t\n\u{a0}\r\n"), Ok(vec![]));
}

#[test]
fn blank_lines_part_blocks() {
    assert_eq!(blocks("\n\na\n\n\nb\n\n"), Ok(vec![paragraph("a"), paragraph("b")]));
    assert_eq!(blocks("<a>\n\n<b>"), Ok(vec![raw("<a>"), raw("<b>")]));
}
