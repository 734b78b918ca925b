use partial_mixed_markdown::document::new_element;
use partial_mixed_markdown::dom::{Attribute, Node};
use partial_mixed_markdown::{Document, Error};

fn text_element(name: &str, content: &str) -> Node {
    Node::Element {
        name: name.to_string(),
        attributes: vec![],
        children: vec![Node::Text(content.to_string())],
    }
}

#[test]
fn new_document_is_empty() {
    let document = Document::new();
    assert_eq!(document.nodes().len(), 0);
    assert_eq!(document.to_html(), "");
}

#[test]
fn add_header_appends_one_element() {
    let mut document = Document::new();
    document.add_header(3, "  A   <b>  ");
    assert_eq!(document.nodes(), &vec![text_element("h3", "A &lt;b&gt;")]);
}

#[test]
fn add_header_keeps_the_level_within_one_and_six() {
    let mut document = Document::new();
    document.add_header(0, "a");
    document.add_header(1, "b");
    document.add_header(6, "c");
    document.add_header(7, "d");
    document.add_header(255, "e");
    assert_eq!(document.to_html(), "<h1>a</h1>\n<h1>b</h1>\n<h6>c</h6>\n<h6>d</h6>\n<h6>e</h6>\n");
}

#[test]
fn add_paragraph_joins_normalized_lines() {
    let mut document = Document::new();
    document.add_paragraph("  line   one \n\tline two\r\n three");
    assert_eq!(document.nodes(), &vec![text_element("p", "line one line two three")]);
}

#[test]
fn add_paragraph_escapes() {
    let mut document = Document::new();
    document.add_paragraph("a < b & \"c\"");
    assert_eq!(document.to_html(), "<p>a &lt; b &amp; &quot;c&quot;</p>\n");
}

#[test]
fn add_html_appends_the_content() {
    let mut document = Document::new();
    document.add_header(1, "a");
    assert_eq!(document.add_html("<p>x</p><hr>"), Ok(()));
    assert_eq!(document.nodes().len(), 3);
    assert_eq!(document.to_html(), "<h1>a</h1>\n<p>x</p>\n<hr>\n");
}

#[test]
fn add_html_refuses_an_open_tag_and_keeps_the_document() {
    let mut document = Document::new();
    document.add_paragraph("a");
    assert_eq!(document.add_html("<p>x</p><div"), Err(Error::MalformedRawHtml));
    assert_eq!(document.to_html(), "<p>a</p>\n");
}

#[test]
fn add_html_does_not_escape_again() {
    let mut document = Document::new();
    document.add_html("<p>a &amp; b</p>").unwrap();
    assert_eq!(document.to_html(), "<p>a &amp; b</p>\n");
}

#[test]
fn process_appends_to_what_is_there() {
    let mut document = Document::new();
    document.add_paragraph("first");
    assert_eq!(document.process("# a\n\nb"), Ok(()));
    assert_eq!(document.to_html(), "<p>first</p>\n<h1>a</h1>\n<p>b</p>\n");
}

#[test]
fn process_leaves_the_document_where_the_grammar_refuses() {
    let mut document = Document::new();
    document.add_paragraph("first");
    assert_eq!(document.process("# a\n\n< b"), Err(Error::GrammarError { line: 3 }));
    assert_eq!(document.to_html(), "<p>first</p>\n");
}

#[test]
fn post_process_sets_the_class_of_h2() {
    let mut document = Document::new();
    document.add_header(1, "a");
    document.add_header(2, "b");
    document.add_html("<h2 class=\"old\" id=\"i\">c</h2><div><h2>d</h2></div>").unwrap();
    document.post_process();
    assert_eq!(
        document.to_html(),
        "<h1>a</h1>\n<h2 class=\"subtitle\">b</h2>\n<h2 class=\"subtitle\" id=\"i\">c</h2>\n<div><h2 class=\"subtitle\">d</h2></div>\n"
    );
    let h2 = &document.nodes()[1];
    assert_eq!(h2, &Node::Element {
        name: "h2".to_string(),
        attributes: vec![Attribute { name: "class".to_string(), value: "subtitle".to_string() }],
        children: vec![Node::Text("b".to_string())],
    });
}

#[test]
fn post_process_twice_is_post_process_once() {
    let mut document = Document::parse_without_post_process("## a\n\n<h2>b</h2>\n\nc").unwrap();
    document.post_process();
    let once = document.to_html();
    document.post_process();
    assert_eq!(document.to_html(), once);
    assert_eq!(Document::parse("## a\n\n<h2>b</h2>\n\nc").unwrap().to_html(), once);
}

#[test]
fn to_writer_appends_utf8() {
    let mut document = Document::new();
    document.add_paragraph("é ü");
    let mut out = b"x".to_vec();
    document.to_writer(&mut out);
    assert_eq!(out, "x<p>é ü</p>\n".as_bytes().to_vec());
    assert_eq!(document.to_html(), "<p>é ü</p>\n");
}

#[test]
fn one_line_for_each_top_level_node() {
    let document = Document::parse("# a\n\nb\nc\n\n<p>d</p><p>e</p>\n").unwrap();
    assert_eq!(document.nodes().len(), 4);
    assert_eq!(document.to_html().matches('\n').count(), 4);
    assert_eq!(document.to_html(), "<h1>a</h1>\n<p>b c</p>\n<p>d</p>\n<p>e</p>\n");
}

#[test]
fn raw_block_of_an_end_tag_brings_nothing() {
    let document = Document::parse("a\n\n</div>\n\nb").unwrap();
    assert_eq!(document.to_html(), "<p>a</p>\n<p>b</p>\n");
}

#[test]
fn failure_gives_no_document() {
    assert!(Document::parse("# a\n\n<div>\n\n<span").is_err());
    assert!(Document::parse_without_post_process("a\n<\n").is_err());
}

#[test]
fn new_element_takes_its_content_as_markup() {
    let node = new_element("p", "<b>");
    assert_eq!(node, text_element("p", "<b>"));
}

#[test]
fn post_processing_adds_no_failure_and_hides_none() {
    for input in ["", "# a", "a\n\n<p>x</p>", "<div", "a\n< b", "<p>x</p>\n\n<", "## a\n\n<h2>b</h2>", "<p\n\n< x"] {
        let with = Document::parse(input);
        let without = Document::parse_without_post_process(input);
        match (with, without) {
            (Ok(with), Ok(mut without)) => {
                without.post_process();
                assert_eq!(with, without);
            }
            (Err(with), Err(without)) => assert_eq!(with, without),
            _ => panic!("the two conversions differ on {:?}", input),
        }
    }
}

#[test]
fn conversion_fails_for_the_grammar_or_an_open_tag_alone() {
    assert_eq!(Document::parse("a\n\n<p>x</p>\n\n<br>\n").map(|d| d.to_html()), Ok("<p>a</p>\n<p>x</p>\n<br>\n".to_string()));
    assert_eq!(Document::parse("a\n\n<p>x</p>\n\n<br\n"), Err(Error::MalformedRawHtml));
    assert_eq!(Document::parse("a\n\n<p>x</p>\n\n<\n"), Err(Error::GrammarError { line: 5 }));
    assert_eq!(Document::parse("<p\n\n<\n"), Err(Error::GrammarError { line: 3 }));
}

#[test]
fn conversion_gives_the_same_outcome_each_time() {
    for input in ["# a\n\n<p>x</p>\n\nb", "<div", "< x"] {
        assert_eq!(Document::parse(input), Document::parse(input));
    }
}

#[test]
fn process_stops_at_the_first_refused_block() {
    let mut document = Document::new();
    document.add_paragraph("first");
    assert_eq!(document.process("# a\n\n<p>x</p>\n\n<div\n\nb\n\n<span"), Err(Error::MalformedRawHtml));
    assert_eq!(document.to_html(), "<p>first</p>\n<h1>a</h1>\n<p>x</p>\n");
}

#[test]
fn no_element_of_a_document_has_two_attributes_of_one_name() {
    let document = Document::parse("<h2 class=a class=b id=x ID=y>t</h2>").unwrap();
    assert_eq!(document.to_html(), "<h2 class=\"subtitle\" id=\"x\">t</h2>\n");
}

#[test]
fn document_without_h2_is_the_same_with_and_without_post_processing() {
    let input = "# a\n\nb\n\n<div><h3 class=\"c\">d</h3><br></div>";
    assert_eq!(
        Document::parse(input).unwrap().to_html(),
        Document::parse_without_post_process(input).unwrap().to_html()
    );
}
