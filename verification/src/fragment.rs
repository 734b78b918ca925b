//! Raw markup: the HTML parser reads it, and what it found is brought into the
//! library's own tree.
//!
//! The parser hands out a document as a flat list of tokens, one when a node
//! opens and one when it closes. The tree is put together from that list here.

use vstd::prelude::*;
use kuchiki::traits::TendrilSink;
use crate::dom::{
    all_well_formed, attribute_views, distinct_names, has_name, is_text,
    lemma_well_formed_joined, node_views, well_formed, Attribute, AttributeView, Node, NodeView,
};
use crate::error::Error;

verus! {

/// An attribute as the parser holds it: its namespace, which is empty for most
/// attributes, its local name and its value, not escaped.
#[derive(Debug, PartialEq, Eq)]
pub struct RawAttribute {
    pub namespace: String,
    pub name: String,
    pub value: String,
}

/// What a node of the parser holds.
#[derive(Debug, PartialEq, Eq)]
pub enum Payload {
    /// An element: its namespace, its local name and its attributes.
    Element { namespace: String, name: String, attributes: Vec<RawAttribute> },
    /// Text, not escaped.
    Text(String),
    /// A comment.
    Comment(String),
    /// A node of another kind: a document, a doctype, a processing instruction.
    /// The parser puts none of them into the content of a document.
    Other,
}

/// One step of the walk through the parser's tree.
#[derive(Debug, PartialEq, Eq)]
pub enum Token {
    /// A node begins.
    Open(Payload),
    /// The node that began last and has not ended yet ends.
    Close,
}

/// A parsed attribute as a mathematical value.
pub ghost struct RawAttributeView {
    pub namespace: Seq<char>,
    pub name: Seq<char>,
    pub value: Seq<char>,
}

/// A payload as a mathematical value.
pub ghost enum PayloadView {
    Element { namespace: Seq<char>, name: Seq<char>, attributes: Seq<RawAttributeView> },
    Text(Seq<char>),
    Comment(Seq<char>),
    Other,
}

/// A token as a mathematical value.
pub ghost enum TokenView {
    Open(PayloadView),
    Close,
}

impl View for RawAttribute {
    type V = RawAttributeView;

    open spec fn view(&self) -> RawAttributeView {
        RawAttributeView {
            namespace: self.namespace@,
            name: self.name@,
            value: self.value@,
        }
    }
}

impl View for Payload {
    type V = PayloadView;

    open spec fn view(&self) -> PayloadView {
        match self {
            Payload::Element { namespace, name, attributes } => PayloadView::Element {
                namespace: namespace@,
                name: name@,
                attributes: Seq::new(attributes@.len(), |i: int| attributes@[i]@),
            },
            Payload::Text(text) => PayloadView::Text(text@),
            Payload::Comment(text) => PayloadView::Comment(text@),
            Payload::Other => PayloadView::Other,
        }
    }
}

impl View for Token {
    type V = TokenView;

    open spec fn view(&self) -> TokenView {
        match self {
            Token::Open(payload) => TokenView::Open(payload@),
            Token::Close => TokenView::Close,
        }
    }
}

/// The views of a sequence of tokens.
pub open spec fn token_views(tokens: Seq<Token>) -> Seq<TokenView> {
    Seq::new(tokens.len(), |i: int| tokens[i]@)
}

/// The tokens of the document that the HTML parser makes of `html`: the walk
/// through all that is below the document node, in tree order.
pub uninterp spec fn document_tokens(html: Seq<char>) -> Seq<TokenView>;

/// kuchiki's `NodeRef`, a handle on a node of the parser's tree. Nothing of what
/// it holds is seen here.
#[verifier::external_type_specification]
#[verifier::external_body]
pub struct ExNodeRef(kuchiki::NodeRef);

/// kuchiki's `NodeEdge`, the item of a walk through its tree: the start or the
/// end of a node.
#[verifier::external_type_specification]
#[verifier::external_body]
#[verifier::reject_recursive_types(T)]
pub struct ExNodeEdge<T>(kuchiki::iter::NodeEdge<T>);

/// `std::io::Error`, the error of a reader that fails.
#[verifier::external_type_specification]
#[verifier::external_body]
pub struct ExIoError(std::io::Error);

/// Tells the two variants of kuchiki's `NodeEdge` apart: the node of a `Start`
/// edge, nothing for an `End` edge. Nothing is claimed of the result.
#[verifier::external_body]
fn opened(edge: kuchiki::iter::NodeEdge<kuchiki::NodeRef>) -> (r: Option<kuchiki::NodeRef>) {
    match edge {
        kuchiki::iter::NodeEdge::Start(node) => Some(node),
        kuchiki::iter::NodeEdge::End(_) => None,
    }
}

/// Reads kuchiki's `NodeRef::data`: the namespace, the local name and the
/// attributes of an element, each with its namespace, local name and value; the
/// content of a text or comment node. Nothing is claimed of the result.
#[verifier::external_body]
fn payload_of(node: &kuchiki::NodeRef) -> (r: Payload) {
    match node.data() {
        kuchiki::NodeData::Element(e) => Payload::Element {
            namespace: e.name.ns.to_string(),
            name: e.name.local.to_string(),
            attributes: e.attributes.borrow().map.iter().map(|(k, v)| RawAttribute {
                namespace: k.ns.to_string(),
                name: k.local.to_string(),
                value: v.value.clone(),
            }).collect(),
        },
        kuchiki::NodeData::Text(text) => Payload::Text(text.borrow().clone()),
        kuchiki::NodeData::Comment(text) => Payload::Comment(text.borrow().clone()),
        _ => Payload::Other,
    }
}

/// The token that stands for one edge of the walk.
fn token_of(edge: kuchiki::iter::NodeEdge<kuchiki::NodeRef>) -> Token {
    token_for(opened(edge))
}

/// The token for what an edge gave: the opening of the node that begins there,
/// with what the node holds, or the closing where no node begins.
fn token_for(started: Option<kuchiki::NodeRef>) -> (r: Token)
    ensures
        started is Some <==> r is Open,
        started is None <==> r is Close,
{
    match started {
        Some(node) => Token::Open(payload_of(&node)),
        None => Token::Close,
    }
}

/// Calls kuchiki's `parse_html` on `html`, read as UTF-8 from memory, and walks
/// the document with `NodeRef::traverse`. The parser is deterministic, so the
/// tokens are a function of `html`; no more is claimed of them. The call
/// succeeds: the parser takes any text, and `read_from` fails only where the
/// reader does, which here is a cursor over the text in memory.
#[verifier::external_body]
fn parse_markup(html: &str) -> (r: Result<Vec<Token>, std::io::Error>)
    ensures
        r is Ok,
        r matches Ok(tokens) ==> token_views(tokens@) == document_tokens(html@),
{
    let mut source = html;
    let reader = &mut std::io::Cursor::new(&mut source);
    let document = kuchiki::parse_html().from_utf8().read_from(reader)?;
    Ok(document.traverse().map(|edge| token_of(edge)).collect())
}

/// What one character of parsed text becomes when it is written out again:
/// `&` and the no-break space become entities everywhere, `"` in an attribute
/// value, `<` and `>` in text.
pub open spec fn encoded_char(c: char, attribute: bool) -> Seq<char> {
    if c == '&' {
        seq!['&', 'a', 'm', 'p', ';']
    } else if c == '\u{a0}' {
        seq!['&', 'n', 'b', 's', 'p', ';']
    } else if c == '"' && attribute {
        seq!['&', 'q', 'u', 'o', 't', ';']
    } else if c == '<' && !attribute {
        seq!['&', 'l', 't', ';']
    } else if c == '>' && !attribute {
        seq!['&', 'g', 't', ';']
    } else {
        seq![c]
    }
}

/// Parsed text as it is written out again, in an attribute value or in text.
pub open spec fn encoded(text: Seq<char>, attribute: bool) -> Seq<char>
    decreases text.len(),
{
    if text.len() == 0 {
        text
    } else {
        encoded(text.drop_last(), attribute) + encoded_char(text.last(), attribute)
    }
}

/// Encoded text holds no `<` and no `>`; an encoded attribute value holds no
/// `"`.
pub proof fn lemma_encoded_is_plain(text: Seq<char>, attribute: bool)
    ensures
        forall|i: int|
            0 <= i < encoded(text, attribute).len() ==> {
                let c = #[trigger] encoded(text, attribute)[i];
                if attribute {
                    c != '"'
                } else {
                    c != '<' && c != '>'
                }
            },
    decreases text.len(),
{
    if text.len() > 0 {
        lemma_encoded_is_plain(text.drop_last(), attribute);
        let before = encoded(text.drop_last(), attribute);
        let last = encoded_char(text.last(), attribute);
        assert forall|k: int| 0 <= k < last.len() implies {
            let c = #[trigger] last[k];
            if attribute {
                c != '"'
            } else {
                c != '<' && c != '>'
            }
        } by {}
        assert forall|i: int| 0 <= i < encoded(text, attribute).len() implies {
            let c = #[trigger] encoded(text, attribute)[i];
            if attribute {
                c != '"'
            } else {
                c != '<' && c != '>'
            }
        } by {
            if i < before.len() {
                assert(encoded(text, attribute)[i] == before[i]);
            } else {
                assert(encoded(text, attribute)[i] == last[i - before.len()]);
            }
        }
    }
}

/// Whether `namespace` is the namespace of HTML.
pub open spec fn is_html(namespace: Seq<char>) -> bool {
    namespace == "http://www.w3.org/1999/xhtml"@
}

/// Whether an HTML element of this name is void: it has no content and no end
/// tag.
pub open spec fn is_void(name: Seq<char>) -> bool {
    ||| name == "area"@
    ||| name == "base"@
    ||| name == "basefont"@
    ||| name == "bgsound"@
    ||| name == "br"@
    ||| name == "col"@
    ||| name == "embed"@
    ||| name == "frame"@
    ||| name == "hr"@
    ||| name == "img"@
    ||| name == "input"@
    ||| name == "keygen"@
    ||| name == "link"@
    ||| name == "meta"@
    ||| name == "param"@
    ||| name == "source"@
    ||| name == "track"@
    ||| name == "wbr"@
}

/// Whether the text in an HTML element of this name is written out as it is.
pub open spec fn is_raw_text(name: Seq<char>) -> bool {
    ||| name == "style"@
    ||| name == "script"@
    ||| name == "xmp"@
    ||| name == "iframe"@
    ||| name == "noembed"@
    ||| name == "noframes"@
    ||| name == "plaintext"@
    ||| name == "noscript"@
}

/// What stands before the local name of an attribute where it is written out.
/// An attribute without namespace has nothing before its name, and neither has
/// the attribute `xmlns` itself; the namespaces of XML, of namespace
/// declarations and of XLink have their usual prefix; any other namespace is
/// marked as unknown.
pub open spec fn name_prefix(namespace: Seq<char>, name: Seq<char>) -> Seq<char> {
    if namespace == ""@ {
        ""@
    } else if namespace == "http://www.w3.org/XML/1998/namespace"@ {
        "xml:"@
    } else if namespace == "http://www.w3.org/2000/xmlns/"@ {
        if name == "xmlns"@ {
            ""@
        } else {
            "xmlns:"@
        }
    } else if namespace == "http://www.w3.org/1999/xlink"@ {
        "xlink:"@
    } else {
        "unknown_namespace:"@
    }
}

/// The name of a parsed attribute as it is written out: its prefix and its
/// local name.
pub open spec fn qualified_name(attribute: RawAttributeView) -> Seq<char> {
    name_prefix(attribute.namespace, attribute.name) + attribute.name
}

/// A parsed attribute as the tree holds it.
pub open spec fn attribute_of(attribute: RawAttributeView) -> AttributeView {
    AttributeView { name: qualified_name(attribute), value: encoded(attribute.value, true) }
}

/// Parsed attributes as the tree holds them, in order. Names in the tree are
/// distinct: of attributes that are written with one name, the first stays.
pub open spec fn attributes_of(attributes: Seq<RawAttributeView>) -> Seq<AttributeView>
    decreases attributes.len(),
{
    if attributes.len() == 0 {
        Seq::empty()
    } else {
        let before = attributes_of(attributes.drop_last());
        let last = attribute_of(attributes.last());
        if has_name(before, last.name) {
            before
        } else {
            before.push(last)
        }
    }
}

/// The attributes that the tree holds have distinct names.
pub proof fn lemma_attributes_distinct(attributes: Seq<RawAttributeView>)
    ensures
        distinct_names(attributes_of(attributes)),
    decreases attributes.len(),
{
    if attributes.len() > 0 {
        lemma_attributes_distinct(attributes.drop_last());
        let before = attributes_of(attributes.drop_last());
        let last = attribute_of(attributes.last());
        let after = attributes_of(attributes);
        if !has_name(before, last.name) {
            assert forall|i: int, j: int| 0 <= i < j < after.len() implies (#[trigger] after[i]).name
                != (#[trigger] after[j]).name by {
                assert(after[i] == before[i]);
                if j < before.len() {
                    assert(after[j] == before[j]);
                }
            }
        }
    }
}

/// A node that has begun and not ended yet, with the children it has so far.
pub struct Frame {
    pub payload: Payload,
    pub children: Vec<Node>,
}

/// A frame as a mathematical value.
pub ghost struct FrameView {
    pub payload: PayloadView,
    pub children: Seq<NodeView>,
}

impl View for Frame {
    type V = FrameView;

    open spec fn view(&self) -> FrameView {
        FrameView { payload: self.payload@, children: node_views(self.children@) }
    }
}

/// The views of a sequence of frames.
pub open spec fn frame_views(frames: Seq<Frame>) -> Seq<FrameView> {
    Seq::new(frames.len(), |i: int| frames[i]@)
}

/// Where the putting together of a tree stands: the nodes that are open, the
/// outermost first, and the finished nodes of the top level.
pub ghost struct Assembly {
    pub open: Seq<FrameView>,
    pub done: Seq<NodeView>,
}

/// Whether `payload` is an HTML element whose text is written out as it is.
pub open spec fn holds_raw_text(payload: PayloadView) -> bool {
    payload matches PayloadView::Element { namespace, name, .. } && is_html(namespace)
        && is_raw_text(name)
}

/// The node that a frame becomes when it ends, where it becomes one. An HTML
/// element with the name of a void element becomes a void element. Text is
/// encoded unless `literal` says that its parent keeps text as it is. A node that
/// is neither element, text nor comment leaves nothing.
pub open spec fn finished(frame: FrameView, literal: bool) -> Option<NodeView> {
    match frame.payload {
        PayloadView::Element { namespace, name, attributes } => Some(
            if is_html(namespace) && is_void(name) {
                NodeView::Void { name, attributes: attributes_of(attributes) }
            } else {
                NodeView::Element {
                    name,
                    attributes: attributes_of(attributes),
                    children: frame.children,
                }
            },
        ),
        PayloadView::Text(text) => Some(
            NodeView::Text(
                if literal {
                    text
                } else {
                    encoded(text, false)
                },
            ),
        ),
        PayloadView::Comment(text) => Some(NodeView::Comment(text)),
        PayloadView::Other => None,
    }
}

/// `node` added to what is open: it becomes the last child of the innermost open
/// node, or a finished node of the top level where nothing is open.
pub open spec fn placed(open: Seq<FrameView>, done: Seq<NodeView>, node: NodeView) -> Assembly {
    if open.len() == 0 {
        Assembly { open, done: done.push(node) }
    } else {
        Assembly {
            open: open.drop_last().push(
                FrameView {
                    payload: open.last().payload,
                    children: open.last().children.push(node),
                },
            ),
            done,
        }
    }
}

/// The assembly after the innermost open node has ended. Where nothing is open
/// it stays as it is.
pub open spec fn ended(assembly: Assembly) -> Assembly {
    if assembly.open.len() == 0 {
        assembly
    } else {
        let frame = assembly.open.last();
        let outer = assembly.open.drop_last();
        let literal = outer.len() > 0 && holds_raw_text(outer.last().payload);
        match finished(frame, literal) {
            Some(node) => placed(outer, assembly.done, node),
            None => Assembly { open: outer, done: assembly.done },
        }
    }
}

/// The assembly after one more token.
pub open spec fn advanced(assembly: Assembly, token: TokenView) -> Assembly {
    match token {
        TokenView::Open(payload) => Assembly {
            open: assembly.open.push(FrameView { payload, children: Seq::empty() }),
            done: assembly.done,
        },
        TokenView::Close => ended(assembly),
    }
}

/// The assembly after all of `tokens`, read from the left.
pub open spec fn assembled(tokens: Seq<TokenView>) -> Assembly
    decreases tokens.len(),
{
    if tokens.len() == 0 {
        Assembly { open: Seq::empty(), done: Seq::empty() }
    } else {
        advanced(assembled(tokens.drop_last()), tokens.last())
    }
}

/// The finished nodes once every node that is still open has ended.
pub open spec fn completed(assembly: Assembly) -> Seq<NodeView>
    decreases assembly.open.len(),
{
    if assembly.open.len() == 0 {
        assembly.done
    } else if ended(assembly).open.len() < assembly.open.len() {
        completed(ended(assembly))
    } else {
        assembly.done
    }
}

/// The trees that `tokens` describe: each `Open` begins a node below the
/// innermost open one, each `Close` ends the innermost open node.
pub open spec fn forest_of(tokens: Seq<TokenView>) -> Seq<NodeView> {
    completed(assembled(tokens))
}

/// The children of the elements among `nodes`, in order.
pub open spec fn children_of(nodes: Seq<NodeView>) -> Seq<NodeView>
    decreases nodes.len(),
{
    if nodes.len() == 0 {
        Seq::empty()
    } else {
        children_of(nodes.drop_last()) + (match nodes.last() {
            NodeView::Element { children, .. } => children,
            _ => Seq::empty(),
        })
    }
}

/// The content of a parsed document: the parser wraps what it read in an `html`
/// element with a head and a body, so the content is what lies two levels below
/// the top.
pub open spec fn content_of(forest: Seq<NodeView>) -> Seq<NodeView> {
    children_of(children_of(forest))
}

/// The nodes that `html` brings into a document.
pub open spec fn fragment_nodes(html: Seq<char>) -> Seq<NodeView> {
    content_of(forest_of(document_tokens(html)))
}

/// Whether all that an assembly holds is well formed: the children of every
/// open node and the finished nodes.
pub open spec fn assembly_well_formed(assembly: Assembly) -> bool {
    &&& all_well_formed(assembly.done)
    &&& forall|k: int|
        0 <= k < assembly.open.len() ==> all_well_formed((#[trigger] assembly.open[k]).children)
}

/// A node put behind well formed nodes leaves them well formed, where it is well
/// formed itself.
proof fn lemma_well_formed_pushed(nodes: Seq<NodeView>, node: NodeView)
    requires
        all_well_formed(nodes),
        well_formed(node),
    ensures
        all_well_formed(nodes.push(node)),
{
    assert(nodes.push(node).drop_last() =~= nodes);
}

/// Ending a node keeps a well formed assembly well formed.
pub proof fn lemma_ended_well_formed(assembly: Assembly)
    requires
        assembly_well_formed(assembly),
    ensures
        assembly_well_formed(ended(assembly)),
{
    if assembly.open.len() > 0 {
        let frame = assembly.open.last();
        let outer = assembly.open.drop_last();
        let literal = outer.len() > 0 && holds_raw_text(outer.last().payload);
        assert(all_well_formed(frame.children));
        assert forall|k: int| 0 <= k < outer.len() implies all_well_formed(
            (#[trigger] outer[k]).children,
        ) by {
            assert(outer[k] == assembly.open[k]);
        }
        match finished(frame, literal) {
            Some(node) => {
                match frame.payload {
                    PayloadView::Element { namespace, name, attributes } => {
                        lemma_attributes_distinct(attributes);
                    },
                    _ => {},
                }
                assert(well_formed(node));
                if outer.len() == 0 {
                    lemma_well_formed_pushed(assembly.done, node);
                } else {
                    lemma_well_formed_pushed(outer.last().children, node);
                    let after = ended(assembly);
                    assert forall|k: int| 0 <= k < after.open.len() implies all_well_formed(
                        (#[trigger] after.open[k]).children,
                    ) by {
                        if k < outer.len() - 1 {
                            assert(after.open[k] == outer[k]);
                        }
                    }
                }
            },
            None => {},
        }
    }
}

/// Whatever the tokens, the assembly after them is well formed.
pub proof fn lemma_assembled_well_formed(tokens: Seq<TokenView>)
    ensures
        assembly_well_formed(assembled(tokens)),
    decreases tokens.len(),
{
    if tokens.len() > 0 {
        lemma_assembled_well_formed(tokens.drop_last());
        let before = assembled(tokens.drop_last());
        match tokens.last() {
            TokenView::Open(payload) => {
                let after = assembled(tokens);
                assert forall|k: int| 0 <= k < after.open.len() implies all_well_formed(
                    (#[trigger] after.open[k]).children,
                ) by {
                    if k < before.open.len() {
                        assert(after.open[k] == before.open[k]);
                    }
                }
            },
            TokenView::Close => {
                lemma_ended_well_formed(before);
            },
        }
    }
}

/// Completing a well formed assembly gives well formed nodes.
pub proof fn lemma_completed_well_formed(assembly: Assembly)
    requires
        assembly_well_formed(assembly),
    ensures
        all_well_formed(completed(assembly)),
    decreases assembly.open.len(),
{
    if assembly.open.len() > 0 && ended(assembly).open.len() < assembly.open.len() {
        lemma_ended_well_formed(assembly);
        lemma_completed_well_formed(ended(assembly));
    }
}

/// The children of well formed nodes are well formed.
pub proof fn lemma_children_well_formed(nodes: Seq<NodeView>)
    requires
        all_well_formed(nodes),
    ensures
        all_well_formed(children_of(nodes)),
    decreases nodes.len(),
{
    if nodes.len() > 0 {
        lemma_children_well_formed(nodes.drop_last());
        match nodes.last() {
            NodeView::Element { children, .. } => {
                assert(well_formed(nodes.last()));
                assert(all_well_formed(children));
                lemma_well_formed_joined(children_of(nodes.drop_last()), children);
            },
            _ => {
                assert(children_of(nodes.drop_last()) + Seq::<NodeView>::empty() =~= children_of(
                    nodes.drop_last(),
                ));
            },
        }
    }
}

/// Whatever the tokens, the trees that they describe are well formed, and so is
/// the content that they bring into a document.
pub proof fn lemma_forest_well_formed(tokens: Seq<TokenView>)
    ensures
        all_well_formed(forest_of(tokens)),
        all_well_formed(content_of(forest_of(tokens))),
{
    lemma_assembled_well_formed(tokens);
    lemma_completed_well_formed(assembled(tokens));
    lemma_children_well_formed(forest_of(tokens));
    lemma_children_well_formed(children_of(forest_of(tokens)));
}

/// A tree as the parser holds it: what a node holds, and the trees below it.
pub ghost struct Parsed {
    pub payload: PayloadView,
    pub children: Seq<Parsed>,
}

/// The walk through a tree: the opening of its node, the walks through the
/// trees below it, and the closing of its node.
pub open spec fn walk(tree: Parsed) -> Seq<TokenView>
    decreases tree, 0int,
{
    seq![TokenView::Open(tree.payload)] + walk_all(tree.children) + seq![TokenView::Close]
}

/// The walks through the trees, one after the other.
pub open spec fn walk_all(trees: Seq<Parsed>) -> Seq<TokenView>
    decreases trees, 1int,
{
    if trees.len() == 0 {
        Seq::empty()
    } else {
        walk_all(trees.drop_last()) + walk(trees.last())
    }
}

/// The node that a parsed tree becomes, where it becomes one: what its node
/// holds becomes the node, and the trees below it become its children. Text is
/// encoded unless `literal` says that its parent keeps text as it is.
pub open spec fn node_of(tree: Parsed, literal: bool) -> Option<NodeView>
    decreases tree, 0int,
{
    finished(
        FrameView {
            payload: tree.payload,
            children: nodes_of(tree.children, holds_raw_text(tree.payload)),
        },
        literal,
    )
}

/// The nodes that parsed trees become, in order.
pub open spec fn nodes_of(trees: Seq<Parsed>, literal: bool) -> Seq<NodeView>
    decreases trees, 1int,
{
    if trees.len() == 0 {
        Seq::empty()
    } else {
        match node_of(trees.last(), literal) {
            Some(node) => nodes_of(trees.drop_last(), literal).push(node),
            None => nodes_of(trees.drop_last(), literal),
        }
    }
}

/// The assembly after `tokens` more.
pub open spec fn advanced_through(assembly: Assembly, tokens: Seq<TokenView>) -> Assembly
    decreases tokens.len(),
{
    if tokens.len() == 0 {
        assembly
    } else {
        advanced(advanced_through(assembly, tokens.drop_last()), tokens.last())
    }
}

/// Whether text that comes next in an assembly is kept as it is.
pub open spec fn keeps_next_text(assembly: Assembly) -> bool {
    assembly.open.len() > 0 && holds_raw_text(assembly.open.last().payload)
}

/// `nodes` added to what is open, one after the other.
pub open spec fn placed_all(assembly: Assembly, nodes: Seq<NodeView>) -> Assembly {
    if assembly.open.len() == 0 {
        Assembly { open: assembly.open, done: assembly.done + nodes }
    } else {
        Assembly {
            open: assembly.open.drop_last().push(
                FrameView {
                    payload: assembly.open.last().payload,
                    children: assembly.open.last().children + nodes,
                },
            ),
            done: assembly.done,
        }
    }
}

/// Going through tokens in two parts is going through them in one.
pub proof fn lemma_advanced_in_parts(assembly: Assembly, first: Seq<TokenView>, second: Seq<TokenView>)
    ensures
        advanced_through(assembly, first + second) == advanced_through(
            advanced_through(assembly, first),
            second,
        ),
    decreases second.len(),
{
    if second.len() == 0 {
        assert(first + second =~= first);
    } else {
        lemma_advanced_in_parts(assembly, first, second.drop_last());
        assert((first + second).drop_last() =~= first + second.drop_last());
        assert((first + second).last() == second.last());
    }
}

/// Going through the walk of a tree places the node that the tree becomes, and
/// nothing where it becomes none.
pub proof fn lemma_walk_places_node(assembly: Assembly, tree: Parsed)
    ensures
        advanced_through(assembly, walk(tree)) == match node_of(tree, keeps_next_text(assembly)) {
            Some(node) => placed(assembly.open, assembly.done, node),
            None => assembly,
        },
    decreases tree, 0int,
{
    let opening = seq![TokenView::Open(tree.payload)];
    let closing = seq![TokenView::Close];
    let inner = walk_all(tree.children);
    let frame = FrameView { payload: tree.payload, children: Seq::empty() };
    let opened = Assembly { open: assembly.open.push(frame), done: assembly.done };
    assert(advanced_through(assembly, opening) == opened) by {
        assert(opening.drop_last() =~= Seq::<TokenView>::empty());
        assert(advanced_through(assembly, opening.drop_last()) == assembly);
    }
    lemma_walk_places_nodes(opened, tree.children);
    let below = nodes_of(tree.children, holds_raw_text(tree.payload));
    assert(opened.open.last() == frame);
    assert(keeps_next_text(opened) == holds_raw_text(tree.payload));
    let filled = advanced_through(opened, inner);
    assert(filled == placed_all(opened, below));
    assert(opened.open.drop_last() =~= assembly.open);
    assert(frame.children + below =~= below);
    let full = FrameView { payload: tree.payload, children: below };
    assert(filled.open =~= assembly.open.push(full));
    assert(filled.done == assembly.done);
    assert(filled.open.last() == full);
    assert(filled.open.drop_last() =~= assembly.open);
    lemma_advanced_in_parts(assembly, opening, inner);
    lemma_advanced_in_parts(assembly, opening + inner, closing);
    assert(advanced_through(filled, closing) == ended(filled)) by {
        assert(closing.drop_last() =~= Seq::<TokenView>::empty());
        assert(advanced_through(filled, closing.drop_last()) == filled);
    }
    assert(walk(tree) == opening + inner + closing);
    match node_of(tree, keeps_next_text(assembly)) {
        Some(node) => {
            assert(ended(filled) == placed(assembly.open, assembly.done, node));
        },
        None => {
            assert(ended(filled).open =~= assembly.open);
            assert(ended(filled) == assembly);
        },
    }
}

/// Going through the walks of trees places the nodes that the trees become.
pub proof fn lemma_walk_places_nodes(assembly: Assembly, trees: Seq<Parsed>)
    ensures
        advanced_through(assembly, walk_all(trees)) == placed_all(
            assembly,
            nodes_of(trees, keeps_next_text(assembly)),
        ),
    decreases trees, 1int,
{
    let literal = keeps_next_text(assembly);
    if trees.len() == 0 {
        assert(assembly.done + Seq::<NodeView>::empty() =~= assembly.done);
        if assembly.open.len() > 0 {
            let last = assembly.open.last();
            assert(last.children + Seq::<NodeView>::empty() =~= last.children);
            assert(assembly.open.drop_last().push(last) =~= assembly.open);
        }
        assert(placed_all(assembly, Seq::<NodeView>::empty()) == assembly);
    } else {
        let before = trees.drop_last();
        lemma_walk_places_nodes(assembly, before);
        let earlier = nodes_of(before, literal);
        let middle = placed_all(assembly, earlier);
        assert(keeps_next_text(middle) == literal);
        lemma_walk_places_node(middle, trees.last());
        lemma_advanced_in_parts(assembly, walk_all(before), walk(trees.last()));
        match node_of(trees.last(), literal) {
            Some(node) => {
                let after = placed(middle.open, middle.done, node);
                if assembly.open.len() == 0 {
                    assert(assembly.done + earlier.push(node) =~= (assembly.done + earlier).push(
                        node,
                    ));
                } else {
                    let last = assembly.open.last();
                    assert(last.children + earlier.push(node) =~= (last.children + earlier).push(
                        node,
                    ));
                    assert(middle.open.drop_last() =~= assembly.open.drop_last());
                }
                assert(after == placed_all(assembly, earlier.push(node)));
            },
            None => {},
        }
    }
}

/// The assembly after all tokens is what going through them from nothing gives.
pub proof fn lemma_assembled_from_nothing(tokens: Seq<TokenView>)
    ensures
        assembled(tokens) == advanced_through(
            Assembly { open: Seq::empty(), done: Seq::empty() },
            tokens,
        ),
    decreases tokens.len(),
{
    if tokens.len() > 0 {
        lemma_assembled_from_nothing(tokens.drop_last());
    }
}

/// Putting together undoes the walk: the trees that the walk through parsed
/// trees describes are the nodes that those trees become, in order and node for
/// node. So for the tokens of every walk, which open and close in pairs,
/// `forest_of` is the direct reading of the trees.
pub proof fn lemma_forest_of_walk(trees: Seq<Parsed>)
    ensures
        forest_of(walk_all(trees)) == nodes_of(trees, false),
{
    let nothing = Assembly { open: Seq::empty(), done: Seq::empty() };
    lemma_assembled_from_nothing(walk_all(trees));
    lemma_walk_places_nodes(nothing, trees);
    assert(nothing.done + nodes_of(trees, false) =~= nodes_of(trees, false));
}

/// Where the tokens of a raw tag block are the walk through parsed trees, the
/// nodes that the block brings are the nodes that those trees become, two levels
/// down.
pub proof fn lemma_fragment_of_walk(html: Seq<char>, trees: Seq<Parsed>)
    requires
        document_tokens(html) == walk_all(trees),
    ensures
        fragment_nodes(html) == content_of(nodes_of(trees, false)),
{
    lemma_forest_of_walk(trees);
}

/// Writes parsed text as it stands in an attribute value or in text.
pub fn encode(text: &str, attribute: bool) -> (r: String)
    ensures
        r@ == encoded(text@, attribute),
{
    proof {
        reveal_strlit("&amp;");
        reveal_strlit("&nbsp;");
        reveal_strlit("&quot;");
        reveal_strlit("&lt;");
        reveal_strlit("&gt;");
        assert("&amp;"@ =~= seq!['&', 'a', 'm', 'p', ';']);
        assert("&nbsp;"@ =~= seq!['&', 'n', 'b', 's', 'p', ';']);
        assert("&quot;"@ =~= seq!['&', 'q', 'u', 'o', 't', ';']);
        assert("&lt;"@ =~= seq!['&', 'l', 't', ';']);
        assert("&gt;"@ =~= seq!['&', 'g', 't', ';']);
    }
    let mut out = String::new();
    for c in it: text.chars()
        invariant
            it.seq() == text@,
            out@ == encoded(text@.take(it.index()), attribute),
            "&amp;"@ == seq!['&', 'a', 'm', 'p', ';'],
            "&nbsp;"@ == seq!['&', 'n', 'b', 's', 'p', ';'],
            "&quot;"@ == seq!['&', 'q', 'u', 'o', 't', ';'],
            "&lt;"@ == seq!['&', 'l', 't', ';'],
            "&gt;"@ == seq!['&', 'g', 't', ';'],
    {
        let ghost done = text@.take(it.index());
        let ghost next = text@.take(it.index() + 1);
        assert(next.drop_last() =~= done);
        assert(next.last() == c);
        if c == '&' {
            out.append("&amp;");
        } else if c == '\u{a0}' {
            out.append("&nbsp;");
        } else if c == '"' && attribute {
            out.append("&quot;");
        } else if c == '<' && !attribute {
            out.append("&lt;");
        } else if c == '>' && !attribute {
            out.append("&gt;");
        } else {
            out.push(c);
        }
        assert(out@ =~= encoded(done, attribute) + encoded_char(c, attribute));
    }
    assert(text@.take(text@.len() as int) =~= text@);
    out
}

/// Whether `namespace` is the namespace of HTML.
pub fn html_namespace(namespace: &String) -> (r: bool)
    ensures
        r == is_html(namespace@),
{
    is_text(namespace, "http://www.w3.org/1999/xhtml")
}

/// Whether an HTML element named `name` is void.
pub fn void_element(name: &String) -> (r: bool)
    ensures
        r == is_void(name@),
{
    is_text(name, "area") || is_text(name, "base") || is_text(name, "basefont") || is_text(
        name,
        "bgsound",
    ) || is_text(name, "br") || is_text(name, "col") || is_text(name, "embed") || is_text(
        name,
        "frame",
    ) || is_text(name, "hr") || is_text(name, "img") || is_text(name, "input") || is_text(
        name,
        "keygen",
    ) || is_text(name, "link") || is_text(name, "meta") || is_text(name, "param") || is_text(
        name,
        "source",
    ) || is_text(name, "track") || is_text(name, "wbr")
}

/// Whether the text in an HTML element named `name` is written out as it is.
pub fn raw_text_element(name: &String) -> (r: bool)
    ensures
        r == is_raw_text(name@),
{
    is_text(name, "style") || is_text(name, "script") || is_text(name, "xmp") || is_text(
        name,
        "iframe",
    ) || is_text(name, "noembed") || is_text(name, "noframes") || is_text(name, "plaintext")
        || is_text(name, "noscript")
}

/// What stands before the local name of an attribute where it is written out.
pub fn prefix_of(namespace: &String, name: &String) -> (r: String)
    ensures
        r@ == name_prefix(namespace@, name@),
{
    if is_text(namespace, "") {
        String::from_str("")
    } else if is_text(namespace, "http://www.w3.org/XML/1998/namespace") {
        String::from_str("xml:")
    } else if is_text(namespace, "http://www.w3.org/2000/xmlns/") {
        if is_text(name, "xmlns") {
            String::from_str("")
        } else {
            String::from_str("xmlns:")
        }
    } else if is_text(namespace, "http://www.w3.org/1999/xlink") {
        String::from_str("xlink:")
    } else {
        String::from_str("unknown_namespace:")
    }
}

/// Brings one parsed attribute into the form that the tree holds.
fn convert_attribute(attribute: RawAttribute) -> (r: Attribute)
    ensures
        r@ == attribute_of(attribute@),
{
    let value = encode(attribute.value.as_str(), true);
    let mut name = prefix_of(&attribute.namespace, &attribute.name);
    name.append(attribute.name.as_str());
    Attribute { name, value }
}

/// Whether one of the attributes is named `name`.
pub fn has_attribute(attributes: &Vec<Attribute>, name: &String) -> (r: bool)
    ensures
        r == has_name(attribute_views(attributes@), name@),
{
    let mut i: usize = 0;
    while i < attributes.len()
        invariant
            i <= attributes.len(),
            forall|k: int| 0 <= k < i ==> (#[trigger] attribute_views(attributes@)[k]).name != name@,
        decreases attributes.len() - i,
    {
        if attributes[i].name == *name {
            assert(attribute_views(attributes@)[i as int].name == name@);
            return true;
        }
        i += 1;
    }
    false
}

/// Brings parsed attributes into the form that the tree holds.
fn convert_attributes(attributes: Vec<RawAttribute>) -> (r: Vec<Attribute>)
    ensures
        attribute_views(r@) == attributes_of(Seq::new(attributes@.len(), |i: int| attributes@[i]@)),
{
    let ghost raw = Seq::new(attributes@.len(), |i: int| attributes@[i]@);
    let mut out: Vec<Attribute> = Vec::new();
    assert(raw.take(0) =~= Seq::<RawAttributeView>::empty());
    assert(attribute_views(out@) =~= Seq::<AttributeView>::empty());
    for attribute in it: attributes
        invariant
            it.seq() == attributes@,
            raw == Seq::new(attributes@.len(), |i: int| attributes@[i]@),
            attribute_views(out@) == attributes_of(raw.take(it.index())),
    {
        let ghost next = raw.take(it.index() + 1);
        assert(next.drop_last() =~= raw.take(it.index()));
        assert(next.last() == attribute@);
        let ghost before = attribute_views(out@);
        let converted = convert_attribute(attribute);
        if !has_attribute(&out, &converted.name) {
            out.push(converted);
            assert(attribute_views(out@) =~= before.push(converted@));
        }
    }
    assert(raw.take(raw.len() as int) =~= raw);
    out
}

/// The node that `frame` becomes when it ends, where it becomes one.
fn finish(frame: Frame, literal: bool) -> (r: Option<Node>)
    ensures
        match finished(frame@, literal) {
            Some(node) => r is Some && r->0@ == node,
            None => r is None,
        },
{
    let Frame { payload, children } = frame;
    match payload {
        Payload::Element { namespace, name, attributes } => {
            let attributes = convert_attributes(attributes);
            if html_namespace(&namespace) && void_element(&name) {
                Some(Node::Void { name, attributes })
            } else {
                let node = Node::Element { name, attributes, children };
                proof {
                    crate::dom::lemma_element_view(node);
                }
                Some(node)
            }
        },
        Payload::Text(text) => {
            if literal {
                Some(Node::Text(text))
            } else {
                Some(Node::Text(encode(text.as_str(), false)))
            }
        },
        Payload::Comment(text) => Some(Node::Comment(text)),
        Payload::Other => None,
    }
}

/// Whether `payload` is an element whose text is written out as it is.
fn keeps_text(payload: &Payload) -> (r: bool)
    ensures
        r == holds_raw_text(payload@),
{
    match payload {
        Payload::Element { namespace, name, attributes } => html_namespace(namespace)
            && raw_text_element(name),
        _ => false,
    }
}

/// Ends the innermost open node, where there is one.
fn end(open: &mut Vec<Frame>, done: &mut Vec<Node>)
    ensures
        (Assembly { open: frame_views(final(open)@), done: node_views(final(done)@) }) == ended(
            Assembly { open: frame_views(old(open)@), done: node_views(old(done)@) },
        ),
        final(open).len() == if old(open).len() == 0 {
            0
        } else {
            old(open).len() - 1
        },
{
    let ghost before = Assembly { open: frame_views(old(open)@), done: node_views(old(done)@) };
    match open.pop() {
        None => {
            assert(frame_views(open@) =~= before.open);
        },
        Some(frame) => {
            assert(frame@ == before.open.last());
            assert(frame_views(open@) =~= before.open.drop_last());
            let n = open.len();
            let literal = n > 0 && keeps_text(&open[n - 1].payload);
            match finish(frame, literal) {
                None => {},
                Some(node) => {
                    if n == 0 {
                        done.push(node);
                        assert(node_views(done@) =~= before.done.push(node@));
                    } else {
                        let ghost outer = frame_views(open@);
                        open[n - 1].children.push(node);
                        assert(open@[n - 1]@ == (FrameView {
                            payload: outer.last().payload,
                            children: outer.last().children.push(node@),
                        })) by {
                            assert(node_views(open@[n - 1].children@) =~= outer.last().children.push(
                                node@,
                            ));
                        }
                        assert(frame_views(open@) =~= outer.drop_last().push(open@[n - 1]@));
                    }
                },
            }
        },
    }
}

/// Puts the trees together that `tokens` describe.
pub fn forest(tokens: Vec<Token>) -> (r: Vec<Node>)
    ensures
        node_views(r@) == forest_of(token_views(tokens@)),
        all_well_formed(node_views(r@)),
{
    proof {
        lemma_forest_well_formed(token_views(tokens@));
    }
    let ghost all = token_views(tokens@);
    let mut open: Vec<Frame> = Vec::new();
    let mut done: Vec<Node> = Vec::new();
    assert(frame_views(open@) =~= Seq::<FrameView>::empty());
    assert(node_views(done@) =~= Seq::<NodeView>::empty());
    assert(all.take(0) =~= Seq::<TokenView>::empty());
    for token in it: tokens
        invariant
            it.seq() == tokens@,
            all == token_views(tokens@),
            (Assembly { open: frame_views(open@), done: node_views(done@) }) == assembled(
                all.take(it.index()),
            ),
    {
        let ghost next = all.take(it.index() + 1);
        assert(next.drop_last() =~= all.take(it.index()));
        assert(next.last() == token@);
        match token {
            Token::Open(payload) => {
                let ghost outer = frame_views(open@);
                open.push(Frame { payload, children: Vec::new() });
                assert(node_views(Seq::<Node>::empty()) =~= Seq::<NodeView>::empty());
                assert(frame_views(open@) =~= outer.push(
                    FrameView { payload: payload@, children: Seq::empty() },
                ));
            },
            Token::Close => {
                end(&mut open, &mut done);
            },
        }
    }
    assert(all.take(all.len() as int) =~= all);
    while open.len() > 0
        invariant
            completed(Assembly { open: frame_views(open@), done: node_views(done@) }) == forest_of(
                all,
            ),
        decreases open.len(),
    {
        end(&mut open, &mut done);
    }
    done
}

/// Takes the children out of the elements among `nodes`, in order.
pub fn children(nodes: Vec<Node>) -> (r: Vec<Node>)
    ensures
        node_views(r@) == children_of(node_views(nodes@)),
        all_well_formed(node_views(nodes@)) ==> all_well_formed(node_views(r@)),
{
    proof {
        if all_well_formed(node_views(nodes@)) {
            lemma_children_well_formed(node_views(nodes@));
        }
    }
    let ghost all = node_views(nodes@);
    let mut out: Vec<Node> = Vec::new();
    assert(all.take(0) =~= Seq::<NodeView>::empty());
    assert(node_views(out@) =~= Seq::<NodeView>::empty());
    for node in it: nodes
        invariant
            it.seq() == nodes@,
            all == node_views(nodes@),
            node_views(out@) == children_of(all.take(it.index())),
    {
        let ghost next = all.take(it.index() + 1);
        assert(next.drop_last() =~= all.take(it.index()));
        assert(next.last() == node@);
        let ghost before = node_views(out@);
        proof {
            if node is Element {
                crate::dom::lemma_element_view(node);
            }
        }
        match node {
            Node::Element { name, attributes, children } => {
                let ghost inner = node_views(children@);
                for child in at: children
                    invariant
                        at.seq() == children@,
                        inner == node_views(children@),
                        node_views(out@) == before + inner.take(at.index()),
                {
                    let ghost earlier = node_views(out@);
                    out.push(child);
                    assert(node_views(out@) =~= earlier.push(child@));
                    assert(inner.take(at.index() + 1) =~= inner.take(at.index()).push(child@));
                    assert(node_views(out@) =~= before + inner.take(at.index() + 1));
                }
                assert(inner.take(inner.len() as int) =~= inner);
            },
            _ => {
                assert(before + Seq::<NodeView>::empty() =~= before);
            },
        }
    }
    assert(all.take(all.len() as int) =~= all);
    out
}

/// The nodes that the tokens of a parsed document bring into a tree: what lies
/// two levels below the top.
pub fn content(tokens: Vec<Token>) -> (r: Vec<Node>)
    ensures
        node_views(r@) == content_of(forest_of(token_views(tokens@))),
        all_well_formed(node_views(r@)),
{
    children(children(forest(tokens)))
}

/// Whether `html` holds a tag that is never closed: a `<` with no `>` after it.
pub open spec fn unterminated(html: Seq<char>) -> bool {
    exists|i: int|
        0 <= i < html.len() && #[trigger] html[i] == '<' && forall|j: int|
            i < j < html.len() ==> html[j] != '>'
}

/// Whether `html` holds a tag that is never closed.
pub fn has_open_tag(html: &str) -> (r: bool)
    ensures
        r == unterminated(html@),
{
    let mut open = false;
    assert(html@.take(0) =~= Seq::<char>::empty());
    for c in it: html.chars()
        invariant
            it.seq() == html@,
            open == unterminated(html@.take(it.index())),
    {
        let ghost before = html@.take(it.index());
        let ghost after = html@.take(it.index() + 1);
        assert(after =~= before.push(c));
        if c == '<' {
            open = true;
            assert(unterminated(after)) by {
                assert(after[it.index()] == '<');
            }
        } else if c == '>' {
            open = false;
            assert(!unterminated(after)) by {
                assert(after[it.index()] == '>');
            }
        } else {
            proof {
                if unterminated(before) {
                    let i = choose|i: int|
                        0 <= i < before.len() && #[trigger] before[i] == '<' && forall|j: int|
                            i < j < before.len() ==> before[j] != '>';
                    assert(after[i] == '<');
                    assert forall|j: int| i < j < after.len() implies after[j] != '>' by {
                        if j < before.len() {
                            assert(after[j] == before[j]);
                        }
                    }
                }
                if unterminated(after) {
                    let i = choose|i: int|
                        0 <= i < after.len() && #[trigger] after[i] == '<' && forall|j: int|
                            i < j < after.len() ==> after[j] != '>';
                    assert(i < before.len());
                    assert(before[i] == '<');
                    assert forall|j: int| i < j < before.len() implies before[j] != '>' by {
                        assert(after[j] == before[j]);
                    }
                }
            }
        }
    }
    assert(html@.take(html@.len() as int) =~= html@);
    open
}

/// What the parser's answer for a raw tag block brings into a document: the
/// content of the parsed document, or `MalformedRawHtml` where the answer is
/// the failure of a reader.
pub fn graft(parsed: Result<Vec<Token>, std::io::Error>) -> (r: Result<Vec<Node>, Error>)
    ensures
        match parsed {
            Ok(tokens) => r is Ok && node_views(r->Ok_0@) == content_of(
                forest_of(token_views(tokens@)),
            ),
            Err(_) => r == Err::<Vec<Node>, Error>(Error::MalformedRawHtml),
        },
        r matches Ok(nodes) ==> all_well_formed(node_views(nodes@)),
{
    match parsed {
        Ok(tokens) => Ok(content(tokens)),
        Err(_) => Err(Error::MalformedRawHtml),
    }
}

/// Parses a raw tag block and returns the nodes that it brings into a document.
///
/// A block with a tag that is never closed is refused, and no other block is.
/// Every other block is handed to the HTML parser; the nodes are the content of
/// the document that it makes of the block, without the `html`, `head` and
/// `body` elements that it puts around it.
pub fn fragment(html: &str) -> (r: Result<Vec<Node>, Error>)
    ensures
        r is Err <==> unterminated(html@),
        r matches Ok(nodes) ==> node_views(nodes@) == fragment_nodes(html@) && all_well_formed(
            node_views(nodes@),
        ),
        r matches Err(e) ==> e == Error::MalformedRawHtml,
{
    if has_open_tag(html) {
        return Err(Error::MalformedRawHtml);
    }
    graft(parse_markup(html))
}

} // verus!
