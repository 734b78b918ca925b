use kuchiki::traits::TendrilSink;
use partial_mixed_markdown::dom::{write_nodes, Attribute, Node};
use partial_mixed_markdown::fragment::{
    children, content, encode, forest, fragment, graft, has_attribute, has_open_tag,
    html_namespace, prefix_of,
    raw_text_element, void_element, Payload, RawAttribute, Token,
};
use partial_mixed_markdown::Error;

const HTML: &str = "http://www.w3.org/1999/xhtml";
const SVG: &str = "http://www.w3.org/2000/svg";
const XML: &str = "http://www.w3.org/XML/1998/namespace";
const XMLNS: &str = "http://www.w3.org/2000/xmlns/";
const XLINK: &str = "http://www.w3.org/1999/xlink";

fn open_in(namespace: &str, name: &str) -> Token {
    Token::Open(Payload::Element {
        namespace: namespace.to_string(),
        name: name.to_string(),
        attributes: vec![],
    })
}

fn open(name: &str) -> Token {
    open_in(HTML, name)
}

fn open_text(text: &str) -> Token {
    Token::Open(Payload::Text(text.to_string()))
}

fn element(name: &str, children: Vec<Node>) -> Node {
    Node::Element { name: name.to_string(), attributes: vec![], children }
}

fn text(content: &str) -> Node {
    Node::Text(content.to_string())
}

fn html(nodes: &Vec<Node>) -> String {
    let mut out = String::new();
    write_nodes(nodes, &mut out);
    out
}

#[test]
fn encode_text() {
    assert_eq!(encode("a < b > c & d \"e\" 'f'\u{a0}", false), "a &lt; b &gt; c &amp; d \"e\" 'f'&nbsp;");
}

#[test]
fn encode_attribute_value() {
    assert_eq!(encode("a < b > c & d \"e\" 'f'\u{a0}", true), "a < b > c &amp; d &quot;e&quot; 'f'&nbsp;");
}

#[test]
fn raw_text_elements_by_name() {
    for name in ["style", "script", "xmp", "iframe", "noembed", "noframes", "plaintext", "noscript"] {
        assert!(raw_text_element(&name.to_string()));
    }
    for name in ["p", "pre", "textarea", "title", "SCRIPT"] {
        assert!(!raw_text_element(&name.to_string()));
    }
}

#[test]
fn forest_follows_the_tokens() {
    let tokens = vec![
        open("a"), open_text("x"), Token::Close, open("b"), Token::Close, Token::Close,
        open_text("y"), Token::Close,
    ];
    assert_eq!(forest(tokens), vec![element("a", vec![text("x"), element("b", vec![])]), text("y")]);
}

#[test]
fn forest_of_no_tokens_is_empty() {
    assert_eq!(forest(vec![]), vec![]);
}

#[test]
fn forest_ends_what_is_left_open() {
    assert_eq!(forest(vec![open("a"), open("b"), open_text("x")]), vec![
        element("a", vec![element("b", vec![text("x")])]),
    ]);
}

#[test]
fn forest_passes_over_a_close_without_an_open() {
    assert_eq!(forest(vec![Token::Close, open("a"), Token::Close, Token::Close]), vec![element("a", vec![])]);
}

#[test]
fn forest_drops_other_nodes() {
    let tokens = vec![
        Token::Open(Payload::Other), Token::Close, open("a"), Token::Open(Payload::Other),
        open("lost"), Token::Close, Token::Close, Token::Close,
    ];
    assert_eq!(forest(tokens), vec![element("a", vec![])]);
}

#[test]
fn forest_encodes_text_but_not_in_raw_text_elements() {
    let tokens = vec![
        open("p"), open_text("a<b"), Token::Close, Token::Close, open("script"),
        open_text("a<b"), Token::Close, Token::Close, open_text("&"), Token::Close,
    ];
    assert_eq!(forest(tokens), vec![
        element("p", vec![text("a&lt;b")]),
        element("script", vec![text("a<b")]),
        text("&amp;"),
    ]);
}

#[test]
fn forest_encodes_text_in_elements_of_other_namespaces() {
    let tokens = vec![
        open_in(SVG, "style"), open_text("a>b&c"), Token::Close, Token::Close,
        open_in("", "script"), open_text("<"), Token::Close, Token::Close,
    ];
    assert_eq!(forest(tokens), vec![
        element("style", vec![text("a&gt;b&amp;c")]),
        element("script", vec![text("&lt;")]),
    ]);
}

#[test]
fn forest_makes_void_elements_of_html_elements_alone() {
    let tokens = vec![
        open("br"), Token::Close, open("hr"), open_text("lost"), Token::Close, Token::Close,
        open_in(SVG, "link"), Token::Close, open("p"), Token::Close,
    ];
    assert_eq!(forest(tokens), vec![
        Node::Void { name: "br".to_string(), attributes: vec![] },
        Node::Void { name: "hr".to_string(), attributes: vec![] },
        element("link", vec![]),
        element("p", vec![]),
    ]);
}

#[test]
fn void_elements_by_name() {
    for name in ["area", "base", "basefont", "bgsound", "br", "col", "embed", "frame", "hr", "img",
        "input", "keygen", "link", "meta", "param", "source", "track", "wbr"]
    {
        assert!(void_element(&name.to_string()));
    }
    for name in ["p", "div", "h2", "BR", "", "b"] {
        assert!(!void_element(&name.to_string()));
    }
}

#[test]
fn html_namespace_by_name() {
    assert!(html_namespace(&HTML.to_string()));
    assert!(!html_namespace(&SVG.to_string()));
    assert!(!html_namespace(&String::new()));
}

#[test]
fn forest_keeps_comments() {
    let tokens = vec![Token::Open(Payload::Comment(" a<b ".to_string())), Token::Close];
    assert_eq!(forest(tokens), vec![Node::Comment(" a<b ".to_string())]);
}

#[test]
fn forest_writes_attribute_names_with_the_prefix_of_their_namespace() {
    let attributes = vec![
        RawAttribute { namespace: String::new(), name: "title".to_string(), value: "a \"b\" <c> &".to_string() },
        RawAttribute { namespace: XLINK.to_string(), name: "href".to_string(), value: "#x".to_string() },
    ];
    let tokens = vec![
        Token::Open(Payload::Element {
            namespace: SVG.to_string(),
            name: "a".to_string(),
            attributes,
        }),
        Token::Close,
    ];
    assert_eq!(forest(tokens), vec![Node::Element {
        name: "a".to_string(),
        attributes: vec![
            Attribute { name: "title".to_string(), value: "a &quot;b&quot; <c> &amp;".to_string() },
            Attribute { name: "xlink:href".to_string(), value: "#x".to_string() },
        ],
        children: vec![],
    }]);
}

#[test]
fn forest_keeps_the_first_of_attributes_with_one_name() {
    let raw = |namespace: &str, name: &str, value: &str| RawAttribute {
        namespace: namespace.to_string(),
        name: name.to_string(),
        value: value.to_string(),
    };
    let attributes = vec![
        raw("", "id", "first"),
        raw("", "class", "a"),
        raw("", "id", "second"),
        raw(XML, "lang", "en"),
        raw("", "xml:lang", "de"),
        raw(XLINK, "id", "other"),
    ];
    let tokens = vec![
        Token::Open(Payload::Element {
            namespace: HTML.to_string(),
            name: "p".to_string(),
            attributes,
        }),
        Token::Close,
    ];
    let kept = |name: &str, value: &str| Attribute { name: name.to_string(), value: value.to_string() };
    assert_eq!(forest(tokens), vec![Node::Element {
        name: "p".to_string(),
        attributes: vec![
            kept("id", "first"),
            kept("class", "a"),
            kept("xml:lang", "en"),
            kept("xlink:id", "other"),
        ],
        children: vec![],
    }]);
}

#[test]
fn prefix_goes_by_the_namespace() {
    let prefix = |namespace: &str, name: &str| prefix_of(&namespace.to_string(), &name.to_string());
    assert_eq!(prefix("", "href"), "");
    assert_eq!(prefix(XML, "lang"), "xml:");
    assert_eq!(prefix(XMLNS, "xlink"), "xmlns:");
    assert_eq!(prefix(XMLNS, "xmlns"), "");
    assert_eq!(prefix(XLINK, "href"), "xlink:");
    assert_eq!(prefix(SVG, "href"), "unknown_namespace:");
    assert_eq!(prefix(HTML, "href"), "unknown_namespace:");
}

#[test]
fn has_attribute_goes_by_the_name() {
    let attributes = vec![
        Attribute { name: "id".to_string(), value: "x".to_string() },
        Attribute { name: "class".to_string(), value: "id".to_string() },
    ];
    assert!(has_attribute(&attributes, &"id".to_string()));
    assert!(has_attribute(&attributes, &"class".to_string()));
    assert!(!has_attribute(&attributes, &"x".to_string()));
    assert!(!has_attribute(&vec![], &"id".to_string()));
}

#[test]
fn children_of_elements_in_order() {
    let nodes = vec![
        element("a", vec![text("1"), element("x", vec![text("deep")])]),
        text("skipped"),
        element("b", vec![]),
        Node::Comment("skipped".to_string()),
        element("c", vec![text("2")]),
    ];
    assert_eq!(children(nodes), vec![text("1"), element("x", vec![text("deep")]), text("2")]);
    assert_eq!(children(vec![]), vec![]);
}

#[test]
fn content_lies_two_levels_down() {
    let tokens = vec![
        open("html"), open("head"), open("title"), Token::Close, Token::Close, open("body"),
        open("div"), open_text("x"), Token::Close, Token::Close, Token::Close, Token::Close,
    ];
    assert_eq!(content(tokens), vec![element("title", vec![]), element("div", vec![text("x")])]);
}

#[test]
fn open_tag_is_a_bracket_that_is_never_closed() {
    assert!(has_open_tag("<div"));
    assert!(has_open_tag("<div>x</div"));
    assert!(has_open_tag("<"));
    assert!(has_open_tag("a > b < c"));
    assert!(!has_open_tag(""));
    assert!(!has_open_tag("plain"));
    assert!(!has_open_tag(">"));
    assert!(!has_open_tag("<div>"));
    assert!(!has_open_tag("<p>1 < 2</p>"));
}

#[test]
fn graft_takes_the_content_of_parsed_tokens() {
    let tokens = vec![
        open("html"), open("head"), Token::Close, open("body"), open("p"), Token::Close,
        Token::Close, Token::Close,
    ];
    assert_eq!(graft(Ok(tokens)), Ok(vec![element("p", vec![])]));
}

#[test]
fn graft_turns_a_parser_failure_into_malformed_raw_html() {
    let failure = std::io::Error::new(std::io::ErrorKind::Other, "unreadable");
    assert_eq!(graft(Err(failure)), Err(Error::MalformedRawHtml));
}

#[test]
fn fragment_of_nested_elements() {
    let nodes = fragment("<div><span>x</span></div>").unwrap();
    assert_eq!(nodes, vec![element("div", vec![element("span", vec![text("x")])])]);
}

#[test]
fn fragment_has_no_wrapper_elements() {
    let nodes = fragment("<p>a</p><p>b</p>").unwrap();
    assert_eq!(html(&nodes), "<p>a</p><p>b</p>");
    assert_eq!(nodes.len(), 2);
}

#[test]
fn fragment_takes_what_the_parser_puts_in_the_head() {
    let nodes = fragment("<title>t</title><p>a</p>").unwrap();
    assert_eq!(html(&nodes), "<title>t</title><p>a</p>");
}

#[test]
fn fragment_passes_over_what_stands_before_the_wrapper() {
    assert_eq!(html(&fragment("<!-- top --><p>x</p>").unwrap()), "<p>x</p>");
    assert_eq!(html(&fragment("<!DOCTYPE html><p>x</p>").unwrap()), "<p>x</p>");
}

#[test]
fn fragment_of_an_end_tag_alone_is_empty() {
    assert_eq!(fragment("</div>"), Ok(vec![]));
}

#[test]
fn fragment_fails_for_an_open_tag_and_for_nothing_else() {
    for html in ["", "plain", ">", "</p>", "<p>", "<p>1 < 2</p>", "<!-- c -->", "<br/>", "<p a=\">\">"] {
        assert!(!has_open_tag(html));
        assert!(fragment(html).is_ok());
    }
    for html in ["<", "<p", "<p>x</p", "a > b < c", "<p><"] {
        assert!(has_open_tag(html));
        assert_eq!(fragment(html), Err(Error::MalformedRawHtml));
    }
}

#[test]
fn fragment_with_an_open_tag_is_refused() {
    assert_eq!(fragment("<div"), Err(Error::MalformedRawHtml));
    assert_eq!(fragment("<div><span"), Err(Error::MalformedRawHtml));
}

#[test]
fn fragment_keeps_attributes_entities_and_void_elements() {
    let source = "<p id=\"a\" title=\"x &amp; &quot;y&quot;\">1 &lt; 2 &amp; 3<br><img src=\"i.png\"></p>";
    assert_eq!(html(&fragment(source).unwrap()), source);
}

#[test]
fn fragment_keeps_comments_and_raw_text() {
    let source = "<div><!-- a < b --><script>if (a < b && c) {}</script><style>p > a {}</style></div>";
    assert_eq!(html(&fragment(source).unwrap()), source);
}

#[test]
fn fragment_agrees_with_the_parser_own_serializer() {
    for source in [
        "<div><span>x</span></div>",
        "<p class=b id=a>it's \"q\" &amp; &lt;\u{a0}</p>",
        "<ul><li>a<li>b</ul>",
        "<table><tr><td>x</table>",
        "<svg viewBox=\"0 0 1 1\"><a xlink:href=\"#x\"><circle r=\"1\"/></a></svg>",
        "<input value='a\"b' disabled><textarea>\n<b></textarea>",
        "<h2 id=x>a</h2><noscript><p>n</p></noscript>",
        "<svg><style>a &gt; b &amp;amp; c</style><script>x &lt; y</script><link/><title>t</title></svg>",
        "<math><mi xlink:href=\"u\">x</mi><annotation-xml><p>a<br>b</p></annotation-xml></math>",
        "<p>a<br>b<img src=i alt='\"'><wbr>c</p><hr><input>",
        "<!-- top --><p>x</p><!-- tail -->",
        "<template><p>inside</p></template><p>outside</p>",
        "<svg xmlns=\"http://www.w3.org/2000/svg\" xmlns:xlink=\"http://www.w3.org/1999/xlink\" xml:lang=\"en\"><use xlink:href=\"#a\" xml:space=\"preserve\"/></svg>",
        "<p xml:lang=\"en\" xlink:href=\"#a\" xmlns:x=\"u\">html attributes with colons</p>",
        "<!DOCTYPE html><p>after a doctype</p>",
        "<div><!DOCTYPE html>doctype inside</div>",
        "<p>a<?php echo 1 ?>b</p><?xml version=\"1.0\"?>",
    ] {
        let document = kuchiki::parse_html().one(source);
        let mut expected = String::new();
        for wrapper in document.children() {
            for part in wrapper.children() {
                for node in part.children() {
                    expected.push_str(&node.to_string());
                }
            }
        }
        assert_eq!(html(&fragment(source).unwrap()), expected);
    }
}
