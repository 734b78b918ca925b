//! The element tree of a document, its markup, and the subtitle rule.
//!
//! The tree holds what is written out. A text node and an attribute value hold
//! markup text, escaped by whoever built the node, and whether an element has
//! content and an end tag is settled when the node is made. Writing a tree out
//! is then putting its parts one after the other.

use vstd::prelude::*;

verus! {

/// One attribute of an element: a name and a value, as they are written out.
#[derive(Debug, PartialEq, Eq)]
pub struct Attribute {
    pub name: String,
    pub value: String,
}

/// A node of the tree.
#[derive(Debug, PartialEq, Eq)]
pub enum Node {
    /// An element with its attributes and its children, in order.
    Element { name: String, attributes: Vec<Attribute>, children: Vec<Node> },
    /// A void element: one that has attributes but neither content nor end tag,
    /// as `br` and `img`.
    Void { name: String, attributes: Vec<Attribute> },
    /// Text, already escaped.
    Text(String),
    /// A comment, without its delimiters.
    Comment(String),
}

/// An attribute as a mathematical value.
pub ghost struct AttributeView {
    pub name: Seq<char>,
    pub value: Seq<char>,
}

/// A node as a mathematical value.
pub ghost enum NodeView {
    Element { name: Seq<char>, attributes: Seq<AttributeView>, children: Seq<NodeView> },
    Void { name: Seq<char>, attributes: Seq<AttributeView> },
    Text(Seq<char>),
    Comment(Seq<char>),
}

impl View for Attribute {
    type V = AttributeView;

    open spec fn view(&self) -> AttributeView {
        AttributeView { name: self.name@, value: self.value@ }
    }
}

/// The views of a sequence of attributes.
pub open spec fn attribute_views(attributes: Seq<Attribute>) -> Seq<AttributeView> {
    Seq::new(attributes.len(), |i: int| attributes[i]@)
}

impl Node {
    /// The node as a mathematical value.
    pub open spec fn model(&self) -> NodeView
        decreases self,
        via Self::model_decreases
    {
        match self {
            Node::Element { name, attributes, children } => NodeView::Element {
                name: name@,
                attributes: attribute_views(attributes@),
                children: Seq::new(
                    children@.len(),
                    |i: int|
                        if 0 <= i < children@.len() {
                            children[i].model()
                        } else {
                            NodeView::Text(Seq::empty())
                        },
                ),
            },
            Node::Void { name, attributes } => NodeView::Void {
                name: name@,
                attributes: attribute_views(attributes@),
            },
            Node::Text(text) => NodeView::Text(text@),
            Node::Comment(text) => NodeView::Comment(text@),
        }
    }

    #[via_fn]
    proof fn model_decreases(&self) {
        broadcast use vstd::std_specs::vec::axiom_vec_index_decreases;

    }
}

impl View for Node {
    type V = NodeView;

    open spec fn view(&self) -> NodeView {
        self.model()
    }
}

/// The views of a sequence of nodes.
pub open spec fn node_views(nodes: Seq<Node>) -> Seq<NodeView> {
    Seq::new(nodes.len(), |i: int| nodes[i]@)
}

/// The children of an element, seen as values, are the views of its children.
pub proof fn lemma_element_view(node: Node)
    requires
        node is Element,
    ensures
        node@ == (NodeView::Element {
            name: node->Element_name@,
            attributes: attribute_views(node->Element_attributes@),
            children: node_views(node->Element_children@),
        }),
{
    assert(node@->Element_children =~= node_views(node->Element_children@));
}

/// The HTML of one node alone is the HTML of that node, and the subtitle rule on
/// one node alone is the rule on that node.
pub proof fn lemma_one_node(node: NodeView)
    ensures
        markup_all(seq![node]) == markup(node),
        subtitled_all(seq![node]) == seq![subtitled(node)],
{
    let nodes = seq![node];
    assert(nodes.drop_last() =~= Seq::<NodeView>::empty());
    assert(nodes.last() == node);
    assert(markup_all(nodes.drop_last()) =~= Seq::<char>::empty());
    assert(markup_all(nodes) =~= markup_all(nodes.drop_last()) + markup(nodes.last()));
    assert(markup_all(nodes) =~= markup(node));
    assert(subtitled_all(nodes.drop_last()) =~= Seq::<NodeView>::empty());
    assert(subtitled_all(nodes) =~= subtitled_all(nodes.drop_last()).push(subtitled(nodes.last())));
    assert(subtitled_all(nodes) =~= seq![subtitled(node)]);
}

/// Whether one of the attributes is named `name`.
pub open spec fn has_name(attributes: Seq<AttributeView>, name: Seq<char>) -> bool {
    exists|i: int| 0 <= i < attributes.len() && (#[trigger] attributes[i]).name == name
}

/// Whether no two of the attributes have the same name.
pub open spec fn distinct_names(attributes: Seq<AttributeView>) -> bool {
    forall|i: int, j: int|
        0 <= i < j < attributes.len() ==> (#[trigger] attributes[i]).name != (
        #[trigger] attributes[j]).name
}

/// Whether `node` is well formed: no element in it, the node itself included,
/// has two attributes of one name.
pub open spec fn well_formed(node: NodeView) -> bool
    decreases node, 0int,
{
    match node {
        NodeView::Element { name, attributes, children } => distinct_names(attributes)
            && all_well_formed(children),
        NodeView::Void { name, attributes } => distinct_names(attributes),
        _ => true,
    }
}

/// Whether each of `nodes` is well formed.
pub open spec fn all_well_formed(nodes: Seq<NodeView>) -> bool
    decreases nodes, 1int,
{
    nodes.len() > 0 ==> all_well_formed(nodes.drop_last()) && well_formed(nodes.last())
}

/// Nodes are all well formed exactly where the node at every place is.
pub proof fn lemma_all_well_formed(nodes: Seq<NodeView>)
    ensures
        all_well_formed(nodes) <==> forall|i: int|
            0 <= i < nodes.len() ==> well_formed(#[trigger] nodes[i]),
    decreases nodes.len(),
{
    if nodes.len() > 0 {
        let before = nodes.drop_last();
        lemma_all_well_formed(before);
        if all_well_formed(nodes) {
            assert forall|i: int| 0 <= i < nodes.len() implies well_formed(#[trigger] nodes[i]) by {
                if i < before.len() {
                    assert(nodes[i] == before[i]);
                }
            }
        }
        if forall|i: int| 0 <= i < nodes.len() ==> well_formed(#[trigger] nodes[i]) {
            assert forall|i: int| 0 <= i < before.len() implies well_formed(#[trigger] before[i]) by {
                assert(before[i] == nodes[i]);
            }
            assert(well_formed(nodes[nodes.len() - 1]));
        }
    }
}

/// Well formed nodes put after well formed nodes are well formed nodes.
pub proof fn lemma_well_formed_joined(first: Seq<NodeView>, second: Seq<NodeView>)
    requires
        all_well_formed(first),
        all_well_formed(second),
    ensures
        all_well_formed(first + second),
{
    lemma_all_well_formed(first);
    lemma_all_well_formed(second);
    lemma_all_well_formed(first + second);
    assert forall|i: int| 0 <= i < (first + second).len() implies well_formed(
        #[trigger] (first + second)[i],
    ) by {
        if i < first.len() {
            assert((first + second)[i] == first[i]);
        } else {
            assert((first + second)[i] == second[i - first.len()]);
        }
    }
}

/// One attribute as it stands in a start tag: a space, the name, and the value
/// in double quotes.
pub open spec fn attribute_markup(attribute: AttributeView) -> Seq<char> {
    seq![' '] + attribute.name + seq!['=', '"'] + attribute.value + seq!['"']
}

/// The attributes as they stand in a start tag, in order.
pub open spec fn attributes_markup(attributes: Seq<AttributeView>) -> Seq<char>
    decreases attributes.len(),
{
    if attributes.len() == 0 {
        Seq::empty()
    } else {
        attributes_markup(attributes.drop_last()) + attribute_markup(attributes.last())
    }
}

/// The start tag of an element.
pub open spec fn start_tag(name: Seq<char>, attributes: Seq<AttributeView>) -> Seq<char> {
    seq!['<'] + name + attributes_markup(attributes) + seq!['>']
}

/// The end tag of an element.
pub open spec fn end_tag(name: Seq<char>) -> Seq<char> {
    seq!['<', '/'] + name + seq!['>']
}

/// The HTML of a node: an element is its start tag, the HTML of its children
/// and its end tag, a void element its start tag alone; text stands as it is; a
/// comment stands between `<!--` and `-->`.
pub open spec fn markup(node: NodeView) -> Seq<char>
    decreases node, 0int,
{
    match node {
        NodeView::Element { name, attributes, children } => start_tag(name, attributes)
            + markup_all(children) + end_tag(name),
        NodeView::Void { name, attributes } => start_tag(name, attributes),
        NodeView::Text(text) => text,
        NodeView::Comment(text) => seq!['<', '!', '-', '-'] + text + seq!['-', '-', '>'],
    }
}

/// The HTML of the nodes, one after the other.
pub open spec fn markup_all(nodes: Seq<NodeView>) -> Seq<char>
    decreases nodes, 1int,
{
    if nodes.len() == 0 {
        Seq::empty()
    } else {
        markup_all(nodes.drop_last()) + markup(nodes.last())
    }
}

/// The HTML of the nodes, each followed by a line feed.
pub open spec fn markup_lines(nodes: Seq<NodeView>) -> Seq<char>
    decreases nodes.len(),
{
    if nodes.len() == 0 {
        Seq::empty()
    } else {
        markup_lines(nodes.drop_last()) + markup(nodes.last()) + seq!['\n']
    }
}

/// Whether `text` equals the literal `literal`.
pub fn is_text(text: &String, literal: &str) -> (r: bool)
    ensures
        r == (text@ == literal@),
{
    *text == String::from_str(literal)
}

/// Appends the attributes to `out` as they stand in a start tag.
fn write_attributes(attributes: &Vec<Attribute>, out: &mut String)
    ensures
        final(out)@ == old(out)@ + attributes_markup(attribute_views(attributes@)),
{
    proof {
        reveal_strlit(" ");
        reveal_strlit("=\"");
        reveal_strlit("\"");
    }
    let mut i: usize = 0;
    while i < attributes.len()
        invariant
            i <= attributes.len(),
            out@ == old(out)@ + attributes_markup(attribute_views(attributes@).take(i as int)),
            " "@ =~= seq![' '],
            "=\""@ =~= seq!['=', '"'],
            "\""@ =~= seq!['"'],
        decreases attributes.len() - i,
    {
        let ghost before = attribute_views(attributes@).take(i as int);
        let ghost after = attribute_views(attributes@).take(i + 1);
        assert(after.drop_last() =~= before);
        assert(after.last() == attributes@[i as int]@);
        out.append(" ");
        out.append(attributes[i].name.as_str());
        out.append("=\"");
        out.append(attributes[i].value.as_str());
        out.append("\"");
        assert(out@ =~= old(out)@ + attributes_markup(after));
        i += 1;
    }
    assert(attribute_views(attributes@).take(attributes.len() as int) =~= attribute_views(
        attributes@,
    ));
}

/// Appends the HTML of `node` to `out`.
pub fn write_node(node: &Node, out: &mut String)
    ensures
        final(out)@ == old(out)@ + markup(node@),
    decreases node, 0int,
{
    proof {
        reveal_strlit("<");
        reveal_strlit(">");
        reveal_strlit("</");
        reveal_strlit("<!--");
        reveal_strlit("-->");
        assert("<"@ =~= seq!['<']);
        assert(">"@ =~= seq!['>']);
        assert("</"@ =~= seq!['<', '/']);
        assert("<!--"@ =~= seq!['<', '!', '-', '-']);
        assert("-->"@ =~= seq!['-', '-', '>']);
    }
    match node {
        Node::Element { name, attributes, children } => {
            proof {
                lemma_element_view(*node);
            }
            out.append("<");
            out.append(name.as_str());
            write_attributes(attributes, out);
            out.append(">");
            assert(out@ =~= old(out)@ + start_tag(name@, attribute_views(attributes@)));
            write_nodes(children, out);
            out.append("</");
            out.append(name.as_str());
            out.append(">");
            assert(out@ =~= old(out)@ + markup(node@));
        },
        Node::Void { name, attributes } => {
            out.append("<");
            out.append(name.as_str());
            write_attributes(attributes, out);
            out.append(">");
            assert(out@ =~= old(out)@ + start_tag(name@, attribute_views(attributes@)));
        },
        Node::Text(text) => {
            out.append(text.as_str());
        },
        Node::Comment(text) => {
            out.append("<!--");
            out.append(text.as_str());
            out.append("-->");
            assert(out@ =~= old(out)@ + markup(node@));
        },
    }
}

/// Appends the HTML of `nodes` to `out`, one node after the other.
pub fn write_nodes(nodes: &Vec<Node>, out: &mut String)
    ensures
        final(out)@ == old(out)@ + markup_all(node_views(nodes@)),
    decreases nodes, 1int,
{
    let mut i: usize = 0;
    assert(node_views(nodes@).take(0) =~= Seq::<NodeView>::empty());
    while i < nodes.len()
        invariant
            i <= nodes.len(),
            out@ == old(out)@ + markup_all(node_views(nodes@).take(i as int)),
        decreases nodes.len() - i,
    {
        proof {
            vstd::std_specs::vec::axiom_vec_index_decreases(*nodes, i as int);
            let before = node_views(nodes@).take(i as int);
            let after = node_views(nodes@).take(i + 1);
            assert(after.drop_last() =~= before);
            assert(after.last() == nodes@[i as int]@);
        }
        write_node(&nodes[i], out);
        assert(out@ =~= old(out)@ + markup_all(node_views(nodes@).take(i + 1)));
        i += 1;
    }
    assert(node_views(nodes@).take(nodes.len() as int) =~= node_views(nodes@));
}

/// Whether one of the attributes is named `class`.
pub open spec fn has_class(attributes: Seq<AttributeView>) -> bool {
    exists|i: int| 0 <= i < attributes.len() && (#[trigger] attributes[i]).name == "class"@
}

/// The attribute `class="subtitle"`.
pub open spec fn subtitle_class() -> AttributeView {
    AttributeView { name: "class"@, value: "subtitle"@ }
}

/// The attributes with the class set to `subtitle`: an attribute named `class`
/// gets that value, whatever it had; where there is none, one is added at the
/// end.
pub open spec fn with_subtitle(attributes: Seq<AttributeView>) -> Seq<AttributeView> {
    if has_class(attributes) {
        Seq::new(
            attributes.len(),
            |i: int|
                if attributes[i].name == "class"@ {
                    subtitle_class()
                } else {
                    attributes[i]
                },
        )
    } else {
        attributes.push(subtitle_class())
    }
}

/// The node after the subtitle rule: every element named `h2` in it, void or
/// not, the node itself included, has its class set to `subtitle`; nothing else
/// differs.
pub open spec fn subtitled(node: NodeView) -> NodeView
    decreases node, 0int,
{
    match node {
        NodeView::Element { name, attributes, children } => NodeView::Element {
            name,
            attributes: if name == "h2"@ {
                with_subtitle(attributes)
            } else {
                attributes
            },
            children: subtitled_all(children),
        },
        NodeView::Void { name, attributes } => NodeView::Void {
            name,
            attributes: if name == "h2"@ {
                with_subtitle(attributes)
            } else {
                attributes
            },
        },
        other => other,
    }
}

/// The nodes after the subtitle rule, each for itself.
pub open spec fn subtitled_all(nodes: Seq<NodeView>) -> Seq<NodeView>
    decreases nodes, 1int,
{
    if nodes.len() == 0 {
        Seq::empty()
    } else {
        subtitled_all(nodes.drop_last()).push(subtitled(nodes.last()))
    }
}

/// The subtitle rule keeps the number of nodes and works on each node alone.
pub proof fn lemma_subtitled_all(nodes: Seq<NodeView>)
    ensures
        subtitled_all(nodes).len() == nodes.len(),
        forall|i: int| 0 <= i < nodes.len() ==> #[trigger] subtitled_all(nodes)[i] == subtitled(nodes[i]),
    decreases nodes.len(),
{
    if nodes.len() > 0 {
        lemma_subtitled_all(nodes.drop_last());
    }
}

/// Whether the attributes hold a class and every class among them is
/// `subtitle`.
pub open spec fn classed(attributes: Seq<AttributeView>) -> bool {
    &&& has_class(attributes)
    &&& forall|i: int|
        0 <= i < attributes.len() && (#[trigger] attributes[i]).name == "class"@ ==> attributes[i]
            == subtitle_class()
}

/// Whether the attributes `after` are the attributes `before` but for the class:
/// every attribute that is no class stands where it stood, and at most one
/// attribute has come, at the end.
pub open spec fn same_but_class(before: Seq<AttributeView>, after: Seq<AttributeView>) -> bool {
    &&& before.len() <= after.len() <= before.len() + 1
    &&& forall|i: int|
        0 <= i < before.len() && (#[trigger] before[i]).name != "class"@ ==> after[i] == before[i]
    &&& forall|i: int|
        0 <= i < after.len() && (#[trigger] after[i]).name != "class"@ ==> i < before.len()
            && after[i] == before[i]
}

/// Whether every `h2` element in `node`, the node itself included, has a class
/// and no class but `subtitle`.
pub open spec fn subtitles_set(node: NodeView) -> bool
    decreases node, 0int,
{
    match node {
        NodeView::Element { name, attributes, children } => (name == "h2"@ ==> classed(attributes))
            && all_subtitles_set(children),
        NodeView::Void { name, attributes } => name == "h2"@ ==> classed(attributes),
        _ => true,
    }
}

/// Whether `subtitles_set` holds of each of `nodes`.
pub open spec fn all_subtitles_set(nodes: Seq<NodeView>) -> bool
    decreases nodes, 1int,
{
    nodes.len() > 0 ==> all_subtitles_set(nodes.drop_last()) && subtitles_set(nodes.last())
}

/// Whether `after` is `before` but for the classes of `h2` elements: names,
/// text, comments and the order of children are the same; an element that is no
/// `h2` has the same attributes; an `h2` has the same attributes but for the
/// class.
pub open spec fn same_but_subtitles(before: NodeView, after: NodeView) -> bool
    decreases before, 0int,
{
    match before {
        NodeView::Element { name, attributes, children } => {
            &&& after is Element
            &&& after->Element_name == name
            &&& if name == "h2"@ {
                same_but_class(attributes, after->Element_attributes)
            } else {
                after->Element_attributes == attributes
            }
            &&& all_same_but_subtitles(children, after->Element_children)
        },
        NodeView::Void { name, attributes } => {
            &&& after is Void
            &&& after->Void_name == name
            &&& if name == "h2"@ {
                same_but_class(attributes, after->Void_attributes)
            } else {
                after->Void_attributes == attributes
            }
        },
        other => after == other,
    }
}

/// Whether `same_but_subtitles` holds of each of `before` and the node at its
/// place in `after`.
pub open spec fn all_same_but_subtitles(before: Seq<NodeView>, after: Seq<NodeView>) -> bool
    decreases before, 1int,
{
    &&& before.len() == after.len()
    &&& before.len() > 0 ==> all_same_but_subtitles(before.drop_last(), after.drop_last())
        && same_but_subtitles(before.last(), after.last())
}

/// Setting the class gives a class and leaves none but `subtitle`; it changes
/// no other attribute; doing it again changes nothing; and names that were
/// distinct stay distinct.
pub proof fn lemma_with_subtitle(attributes: Seq<AttributeView>)
    ensures
        classed(with_subtitle(attributes)),
        same_but_class(attributes, with_subtitle(attributes)),
        with_subtitle(with_subtitle(attributes)) == with_subtitle(attributes),
        distinct_names(attributes) ==> distinct_names(with_subtitle(attributes)),
{
    let after = with_subtitle(attributes);
    if distinct_names(attributes) {
        assert forall|i: int, j: int| 0 <= i < j < after.len() implies (#[trigger] after[i]).name != (
        #[trigger] after[j]).name by {
            if has_class(attributes) {
                assert(after[i].name == attributes[i].name);
                assert(after[j].name == attributes[j].name);
            } else if j < attributes.len() {
                assert(after[i] == attributes[i]);
                assert(after[j] == attributes[j]);
            } else {
                assert(after[i] == attributes[i]);
            }
        }
    }
    if has_class(attributes) {
        let i = choose|i: int| 0 <= i < attributes.len() && (#[trigger] attributes[i]).name == "class"@;
        assert(after[i].name == "class"@);
    } else {
        assert(after[attributes.len() as int].name == "class"@);
        assert forall|i: int| 0 <= i < after.len() && (#[trigger] after[i]).name == "class"@ implies after[i]
            == subtitle_class() by {
            if i < attributes.len() {
                assert(attributes[i].name == "class"@);
            }
        }
    }
    assert(has_class(after));
    assert(with_subtitle(after) =~= after);
}

/// After the subtitle rule every `h2` has the class `subtitle` and no other;
/// nothing but the classes of `h2` elements differs from before; the rule
/// applied again changes nothing; and a well formed node stays well formed.
pub proof fn lemma_subtitled(node: NodeView)
    ensures
        subtitles_set(subtitled(node)),
        same_but_subtitles(node, subtitled(node)),
        subtitled(subtitled(node)) == subtitled(node),
        well_formed(node) ==> well_formed(subtitled(node)),
    decreases node, 0int,
{
    match node {
        NodeView::Element { name, attributes, children } => {
            lemma_with_subtitle(attributes);
            lemma_subtitled_every(children);
        },
        NodeView::Void { name, attributes } => {
            lemma_with_subtitle(attributes);
        },
        _ => {},
    }
}

/// What `lemma_subtitled` says, of each of `nodes`.
pub proof fn lemma_subtitled_every(nodes: Seq<NodeView>)
    ensures
        all_subtitles_set(subtitled_all(nodes)),
        all_same_but_subtitles(nodes, subtitled_all(nodes)),
        subtitled_all(subtitled_all(nodes)) == subtitled_all(nodes),
        all_well_formed(nodes) ==> all_well_formed(subtitled_all(nodes)),
    decreases nodes, 1int,
{
    if nodes.len() > 0 {
        lemma_subtitled_every(nodes.drop_last());
        lemma_subtitled(nodes.last());
        let after = subtitled_all(nodes);
        assert(after.drop_last() =~= subtitled_all(nodes.drop_last()));
        assert(after.last() == subtitled(nodes.last()));
    }
}

/// Whether no element in `node`, the node itself included, is named `h2`.
pub open spec fn no_h2(node: NodeView) -> bool
    decreases node, 0int,
{
    match node {
        NodeView::Element { name, attributes, children } => name != "h2"@ && none_is_h2(children),
        NodeView::Void { name, attributes } => name != "h2"@,
        _ => true,
    }
}

/// Whether `no_h2` holds of each of `nodes`.
pub open spec fn none_is_h2(nodes: Seq<NodeView>) -> bool
    decreases nodes, 1int,
{
    nodes.len() > 0 ==> none_is_h2(nodes.drop_last()) && no_h2(nodes.last())
}

/// The subtitle rule leaves a node without an `h2` as it is.
pub proof fn lemma_without_h2(node: NodeView)
    requires
        no_h2(node),
    ensures
        subtitled(node) == node,
    decreases node, 0int,
{
    match node {
        NodeView::Element { name, attributes, children } => {
            lemma_without_h2_every(children);
        },
        _ => {},
    }
}

/// The subtitle rule leaves nodes without an `h2` as they are.
pub proof fn lemma_without_h2_every(nodes: Seq<NodeView>)
    requires
        none_is_h2(nodes),
    ensures
        subtitled_all(nodes) == nodes,
    decreases nodes, 1int,
{
    if nodes.len() > 0 {
        lemma_without_h2_every(nodes.drop_last());
        lemma_without_h2(nodes.last());
        assert(subtitled_all(nodes) =~= nodes.drop_last().push(nodes.last()));
        assert(nodes.drop_last().push(nodes.last()) =~= nodes);
    } else {
        assert(subtitled_all(nodes) =~= nodes);
    }
}

/// Sets the class of the attributes to `subtitle`.
pub fn set_subtitle(attributes: &mut Vec<Attribute>)
    ensures
        attribute_views(final(attributes)@) == with_subtitle(attribute_views(old(attributes)@)),
        distinct_names(attribute_views(old(attributes)@)) ==> distinct_names(
            attribute_views(final(attributes)@),
        ),
{
    proof {
        lemma_with_subtitle(attribute_views(old(attributes)@));
    }
    let ghost before = attribute_views(old(attributes)@);
    let mut found = false;
    let mut i: usize = 0;
    while i < attributes.len()
        invariant
            i <= attributes.len(),
            attributes.len() == before.len(),
            before == attribute_views(old(attributes)@),
            found == (exists|k: int| 0 <= k < i && (#[trigger] before[k]).name == "class"@),
            forall|k: int|
                0 <= k < i ==> (#[trigger] attributes@[k])@ == (if before[k].name == "class"@ {
                    subtitle_class()
                } else {
                    before[k]
                }),
            forall|k: int| i <= k < attributes.len() ==> (#[trigger] attributes@[k])@ == before[k],
        decreases attributes.len() - i,
    {
        if is_text(&attributes[i].name, "class") {
            let name = String::from_str("class");
            let value = String::from_str("subtitle");
            attributes[i] = Attribute { name, value };
            found = true;
        }
        i += 1;
    }
    if !found {
        let name = String::from_str("class");
        let value = String::from_str("subtitle");
        attributes.push(Attribute { name, value });
        assert(!has_class(before));
        assert(attribute_views(attributes@) =~= before.push(subtitle_class()));
    } else {
        assert(has_class(before));
        assert(attribute_views(attributes@) =~= with_subtitle(before));
    }
}

/// Applies the subtitle rule to `node` and all that is below it.
pub fn subtitle_node(node: &mut Node)
    ensures
        final(node)@ == subtitled(old(node)@),
        well_formed(old(node)@) ==> well_formed(final(node)@),
    decreases *old(node), 0int,
{
    proof {
        lemma_subtitled(old(node)@);
        if *node is Element {
            lemma_element_view(*node);
        }
    }
    match node {
        Node::Element { name, attributes, children } => {
            if is_text(name, "h2") {
                set_subtitle(attributes);
            }
            subtitle_nodes(children);
        },
        Node::Void { name, attributes } => {
            if is_text(name, "h2") {
                set_subtitle(attributes);
            }
        },
        _ => {},
    }
    proof {
        if *node is Element {
            lemma_element_view(*node);
        }
    }
}

/// Applies the subtitle rule to each of `nodes` and all that is below them.
pub fn subtitle_nodes(nodes: &mut Vec<Node>)
    ensures
        node_views(final(nodes)@) == subtitled_all(node_views(old(nodes)@)),
        all_well_formed(node_views(old(nodes)@)) ==> all_well_formed(node_views(final(nodes)@)),
    decreases *old(nodes), 1int,
{
    let ghost before = node_views(old(nodes)@);
    proof {
        lemma_subtitled_every(before);
        lemma_subtitled_all(before);
    }
    let mut i: usize = 0;
    while i < nodes.len()
        invariant
            i <= nodes.len(),
            nodes.len() == before.len(),
            before == node_views(old(nodes)@),
            forall|k: int| 0 <= k < i ==> (#[trigger] nodes@[k])@ == subtitled(before[k]),
            forall|k: int| i <= k < nodes.len() ==> #[trigger] nodes@[k] == old(nodes)@[k],
        decreases nodes.len() - i,
    {
        proof {
            vstd::std_specs::vec::axiom_vec_index_decreases(*old(nodes), i as int);
        }
        subtitle_node(&mut nodes[i]);
        i += 1;
    }
    assert(node_views(nodes@) =~= subtitled_all(before));
}

} // verus!
