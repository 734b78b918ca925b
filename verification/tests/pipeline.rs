use partial_mixed_markdown::{Document, Error};

fn html_of(input: &str) -> String {
    Document::parse(input).unwrap().to_html()
}

fn plain_html_of(input: &str) -> String {
    Document::parse_without_post_process(input).unwrap().to_html()
}

#[test]
fn atx_header_of_level_three() {
    assert_eq!(html_of("### Title"), "<h3>Title</h3>\n");
}

#[test]
fn atx_levels_one_to_six() {
    assert_eq!(plain_html_of("# a"), "<h1>a</h1>\n");
    assert_eq!(plain_html_of("## a"), "<h2>a</h2>\n");
    assert_eq!(plain_html_of("### a"), "<h3>a</h3>\n");
    assert_eq!(plain_html_of("#### a"), "<h4>a</h4>\n");
    assert_eq!(plain_html_of("##### a"), "<h5>a</h5>\n");
    assert_eq!(plain_html_of("###### a"), "<h6>a</h6>\n");
}

#[test]
fn seven_hashes_are_paragraph_text() {
    assert_eq!(html_of("####### a"), "<p>####### a</p>\n");
}

#[test]
fn hashes_without_whitespace_are_paragraph_text() {
    assert_eq!(html_of("#Title"), "<p>#Title</p>\n");
    assert_eq!(html_of("###"), "<p>###</p>\n");
}

#[test]
fn setext_header_with_dashes() {
    assert_eq!(plain_html_of("Title\n-----"), "<h2>Title</h2>\n");
}

#[test]
fn setext_header_with_equal_signs() {
    assert_eq!(html_of("Title\n====="), "<h1>Title</h1>\n");
}

#[test]
fn setext_header_with_dashes_gets_the_subtitle_class() {
    assert_eq!(html_of("Title\n-----"), "<h2 class=\"subtitle\">Title</h2>\n");
}

#[test]
fn mixed_underline_is_no_underline() {
    assert_eq!(html_of("Title\n==--"), "<p>Title ==--</p>\n");
}

#[test]
fn paragraph_lines_are_joined() {
    assert_eq!(html_of("line one\nline two"), "<p>line one line two</p>\n");
}

#[test]
fn whitespace_is_collapsed_and_text_escaped() {
    assert_eq!(html_of("#   Hi   <there>  "), "<h1>Hi &lt;there&gt;</h1>\n");
    assert_eq!(html_of("   Hi   <there>  "), "<p>Hi &lt;there&gt;</p>\n");
}

#[test]
fn only_h2_gets_the_subtitle_class() {
    let input = "# One\n\n## Two\n";
    assert_eq!(html_of(input), "<h1>One</h1>\n<h2 class=\"subtitle\">Two</h2>\n");
    assert_eq!(plain_html_of(input), "<h1>One</h1>\n<h2>Two</h2>\n");
}

#[test]
fn raw_tag_passes_through() {
    assert_eq!(html_of("<div><span>x</span></div>"), "<div><span>x</span></div>\n");
}

#[test]
fn raw_h2_gets_the_subtitle_class() {
    assert_eq!(html_of("<h2>x</h2>"), "<h2 class=\"subtitle\">x</h2>\n");
    assert_eq!(html_of("<div><h2 class=\"a\">x</h2></div>"), "<div><h2 class=\"subtitle\">x</h2></div>\n");
    assert_eq!(plain_html_of("<h2>x</h2>"), "<h2>x</h2>\n");
}

#[test]
fn serializing_twice_gives_the_same_bytes() {
    let document = Document::parse("# a\n\ntext\n\n<div>x</div>\n").unwrap();
    let mut first = Vec::new();
    document.to_writer(&mut first);
    let mut second = Vec::new();
    document.to_writer(&mut second);
    assert_eq!(first, second);
    assert_eq!(first, b"<h1>a</h1>\n<p>text</p>\n<div>x</div>\n".to_vec());
}

#[test]
fn unterminated_tag_is_malformed() {
    assert!(matches!(Document::parse("<div"), Err(Error::MalformedRawHtml)));
    assert!(matches!(Document::parse("# a\n\n<div>x</div\n"), Err(Error::MalformedRawHtml)));
    assert!(matches!(
        Document::parse_without_post_process("<div"),
        Err(Error::MalformedRawHtml)
    ));
}

#[test]
fn stray_angle_bracket_is_a_grammar_error() {
    assert!(matches!(Document::parse("< 3"), Err(Error::GrammarError { line: 1 })));
    assert!(matches!(Document::parse("a\n\n<"), Err(Error::GrammarError { line: 3 })));
    assert!(matches!(Document::parse("# a\n<1>\n< 2"), Err(Error::GrammarError { line: 2 })));
}

#[test]
fn blank_input_has_no_nodes() {
    for input in ["", "\n", "  \n\t\n\r\n", "   "] {
        let document = Document::parse(input).unwrap();
        assert_eq!(document.nodes().len(), 0);
        assert_eq!(document.to_html(), "");
    }
}

#[test]
fn blocks_come_in_reading_order() {
    let input = "# Head\n\nfirst\nsecond\n\n<p id=\"x\">raw</p>\nSub\n---\nlast\n";
    assert_eq!(
        html_of(input),
        "<h1>Head</h1>\n<p>first second</p>\n<p id=\"x\">raw</p>\n<h2 class=\"subtitle\">Sub</h2>\n<p>last</p>\n"
    );
}

#[test]
fn carriage_returns_belong_to_the_line_end() {
    assert_eq!(html_of("Title\r\n=====\r\n\r\ntext\r\n"), "<h1>Title</h1>\n<p>text</p>\n");
}

#[test]
fn quotes_and_ampersands_are_escaped() {
    assert_eq!(html_of("a & \"b\" 'c'"), "<p>a &amp; &quot;b&quot; &#39;c&#39;</p>\n");
}

#[test]
fn long_text_is_converted_block_by_block() {
    let mut input = String::new();
    let mut expected = String::new();
    for i in 0..300 {
        input.push_str(&format!("# Header {}\n\nfirst line of {}\nsecond   line\n\n", i, i));
        input.push_str(&format!("<div id=\"d{}\"><p>raw</p></div>\n\nSub {}\n-----\n\n", i, i));
        expected.push_str(&format!("<h1>Header {}</h1>\n<p>first line of {} second line</p>\n", i, i));
        expected.push_str(&format!("<div id=\"d{}\"><p>raw</p></div>\n", i));
        expected.push_str(&format!("<h2 class=\"subtitle\">Sub {}</h2>\n", i));
    }
    let document = Document::parse(&input).unwrap();
    assert_eq!(document.nodes().len(), 1200);
    assert_eq!(document.to_html(), expected);
}
