//! The document: built from the blocks of a text, post-processed, and written
//! out as HTML.

use vstd::prelude::*;
use crate::dom::{
    attribute_markup, attributes_markup, end_tag, has_class, lemma_element_view, lemma_one_node,
    lemma_subtitled_every, lemma_well_formed_joined, lemma_without_h2_every, markup,
    markup_lines, none_is_h2, all_well_formed, lemma_all_well_formed, well_formed, node_views, start_tag, subtitle_class,
    subtitle_nodes, subtitled, subtitled_all, with_subtitle, write_node, AttributeView, Node,
    NodeView,
};
use crate::error::Error;
use crate::fragment::{
    document_tokens, fragment, fragment_nodes, lemma_forest_well_formed, unterminated,
};
use crate::grammar::{
    blank, block_views, blocks, blocks_of, joined, lemma_blank_lines, lines, lines_of, push_chars,
    rows, Block, BlockView,
};
use crate::text::{escape, escaped, normalized, Normalizer};

verus! {

/// An element without attributes whose only child is the text `content`.
pub open spec fn text_element(tag: Seq<char>, content: Seq<char>) -> NodeView {
    NodeView::Element {
        name: tag,
        attributes: Seq::empty(),
        children: seq![NodeView::Text(content)],
    }
}

/// The tag of a header of level `level`. A level below 1 counts as 1, one above
/// 6 as 6.
pub open spec fn header_tag(level: nat) -> Seq<char> {
    if level <= 1 {
        "h1"@
    } else if level == 2 {
        "h2"@
    } else if level == 3 {
        "h3"@
    } else if level == 4 {
        "h4"@
    } else if level == 5 {
        "h5"@
    } else {
        "h6"@
    }
}

/// The element that a header becomes: its text, normalised and escaped, in an
/// `h1` to `h6`.
pub open spec fn header_node(level: nat, text: Seq<char>) -> NodeView {
    text_element(header_tag(level), escaped(normalized(text)))
}

/// `lines`, each in its normal form.
pub open spec fn normalized_lines(lines: Seq<Seq<char>>) -> Seq<Seq<char>> {
    Seq::new(lines.len(), |i: int| normalized(lines[i]))
}

/// The text of a paragraph: its lines, each in its normal form, with one space
/// between each two.
pub open spec fn paragraph_content(text: Seq<char>) -> Seq<char> {
    joined(normalized_lines(lines_of(text)), ' ')
}

/// The element that a paragraph becomes: its text, escaped, in a `p`.
pub open spec fn paragraph_node(text: Seq<char>) -> NodeView {
    text_element("p"@, escaped(paragraph_content(text)))
}

/// The nodes that a block brings into a document, or nothing where the block is
/// raw markup with a tag that is never closed.
pub open spec fn block_nodes(block: BlockView) -> Option<Seq<NodeView>> {
    match block {
        BlockView::Header { level, text } => Some(seq![header_node(level, text)]),
        BlockView::Paragraph { text } => Some(seq![paragraph_node(text)]),
        BlockView::RawTag { html } => if unterminated(html) {
            None
        } else {
            Some(fragment_nodes(html))
        },
    }
}

/// The top-level nodes that the blocks make, in order, or nothing where one of
/// them is refused.
pub open spec fn built(blocks: Seq<BlockView>) -> Option<Seq<NodeView>>
    decreases blocks.len(),
{
    if blocks.len() == 0 {
        Some(Seq::empty())
    } else {
        match (built(blocks.drop_last()), block_nodes(blocks.last())) {
            (Some(before), Some(nodes)) => Some(before + nodes),
            _ => None,
        }
    }
}

/// Whether one of the blocks is raw markup.
pub open spec fn has_raw_tag(blocks: Seq<BlockView>) -> bool {
    exists|i: int| 0 <= i < blocks.len() && #[trigger] blocks[i] is RawTag
}

/// Whether one of the blocks is raw markup with a tag that is never closed.
pub open spec fn has_open_raw_tag(blocks: Seq<BlockView>) -> bool {
    exists|i: int| 0 <= i < blocks.len() && block_nodes(#[trigger] blocks[i]) is None
}

/// The nodes of the blocks that stand before the first refused one; of all
/// blocks, where none is refused.
pub open spec fn built_before_refusal(blocks: Seq<BlockView>) -> Seq<NodeView>
    decreases blocks.len(),
{
    if blocks.len() == 0 {
        Seq::empty()
    } else {
        match built(blocks.drop_last()) {
            Some(before) => match block_nodes(blocks.last()) {
                Some(nodes) => before + nodes,
                None => before,
            },
            None => built_before_refusal(blocks.drop_last()),
        }
    }
}

/// Whether `text` is made of blank lines only.
pub open spec fn all_blank(text: Seq<char>) -> bool {
    forall|i: int| 0 <= i < lines_of(text).len() ==> blank(#[trigger] lines_of(text)[i])
}

/// The outcome of converting `input`, with the subtitle rule or without.
///
/// - Where the grammar refuses `input`, the outcome is its error.
/// - Where a raw tag block holds a tag that is never closed, the outcome is
///   `MalformedRawHtml`.
/// - Every other text is converted: the outcome is the nodes of its blocks,
///   after the subtitle rule where that is asked for.
pub open spec fn conversion(input: Seq<char>, post_processed: bool) -> Result<
    Seq<NodeView>,
    Error,
> {
    match blocks_of(input) {
        Err(e) => Err(e),
        Ok(blocks) => match built(blocks) {
            None => Err(Error::MalformedRawHtml),
            Some(nodes) => Ok(
                if post_processed {
                    subtitled_all(nodes)
                } else {
                    nodes
                },
            ),
        },
    }
}

/// The outcome of a conversion with the document as a mathematical value.
pub open spec fn outcome_of(result: Result<Document, Error>) -> Result<Seq<NodeView>, Error> {
    match result {
        Ok(document) => Ok(document@),
        Err(e) => Err(e),
    }
}

/// Makes an element named `tag` without attributes whose only child is the text
/// `content`. The text is taken as markup: it is written out as it is.
pub fn new_element(tag: &str, content: &str) -> (r: Node)
    ensures
        r@ == text_element(tag@, content@),
        well_formed(r@),
{
    proof {
        lemma_text_element_well_formed(tag@, content@);
    }
    let mut children: Vec<Node> = Vec::new();
    children.push(Node::Text(String::from_str(content)));
    let node = Node::Element {
        name: String::from_str(tag),
        attributes: Vec::new(),
        children,
    };
    proof {
        lemma_element_view(node);
        assert(node@->Element_attributes =~= Seq::empty());
        assert(node@->Element_children =~= seq![NodeView::Text(content@)]);
    }
    node
}

/// A document: the top-level nodes that its blocks made, in reading order.
#[derive(Debug, PartialEq, Eq)]
pub struct Document {
    nodes: Vec<Node>,
}

impl View for Document {
    type V = Seq<NodeView>;

    closed spec fn view(&self) -> Seq<NodeView> {
        node_views(self.nodes@)
    }
}

impl Document {
    #[verifier::type_invariant]
    spec fn holds_well_formed_nodes(self) -> bool {
        all_well_formed(node_views(self.nodes@))
    }

    /// A document without nodes.
    pub fn new() -> (r: Document)
        ensures
            r@ == Seq::<NodeView>::empty(),
    {
        let r = Document { nodes: Vec::new() };
        assert(r@ =~= Seq::<NodeView>::empty());
        r
    }

    /// The top-level nodes. They are well formed: no element of the document has
    /// two attributes of one name.
    pub fn nodes(&self) -> (r: &Vec<Node>)
        ensures
            node_views(r@) == self@,
            all_well_formed(self@),
    {
        proof {
            use_type_invariant(self);
        }
        &self.nodes
    }

    /// Converts `input`: cuts it into blocks, builds the tree and applies the
    /// subtitle rule.
    ///
    /// It fails with the grammar error of the first line that fits no block, and
    /// with `MalformedRawHtml` where a raw tag block holds a tag that is never
    /// closed. Every other text is converted.
    pub fn parse(input: &str) -> (r: Result<Document, Error>)
        ensures
            outcome_of(r) == conversion(input@, true),
            r matches Ok(document) ==> all_well_formed(document@),
            all_blank(input@) ==> r is Ok && r->Ok_0@.len() == 0,
    {
        proof {
            lemma_conversion_well_formed(input@, true);
            lemma_conversion_well_formed(input@, false);
            if all_blank(input@) {
                lemma_blank_text(input@);
            }
        }
        let mut document = Document::new();
        match document.process(input) {
            Ok(()) => {},
            Err(e) => {
                return Err(e);
            },
        }
        document.post_process();
        proof {
            let nodes = built(blocks_of(input@)->Ok_0)->0;
            assert(Seq::<NodeView>::empty() + nodes =~= nodes);
        }
        Ok(document)
    }

    /// Converts `input` as `parse` does, but leaves the subtitle rule out.
    pub fn parse_without_post_process(input: &str) -> (r: Result<Document, Error>)
        ensures
            outcome_of(r) == conversion(input@, false),
            r matches Ok(document) ==> all_well_formed(document@),
            all_blank(input@) ==> r is Ok && r->Ok_0@.len() == 0,
    {
        proof {
            lemma_conversion_well_formed(input@, true);
            lemma_conversion_well_formed(input@, false);
            if all_blank(input@) {
                lemma_blank_text(input@);
            }
        }
        let mut document = Document::new();
        match document.process(input) {
            Ok(()) => {},
            Err(e) => {
                return Err(e);
            },
        }
        proof {
            let nodes = built(blocks_of(input@)->Ok_0)->0;
            assert(Seq::<NodeView>::empty() + nodes =~= nodes);
        }
        Ok(document)
    }

    /// Cuts `input` into blocks and appends the nodes of each block, in order.
    ///
    /// Where the grammar refuses `input` the document stays as it was. Where a
    /// raw tag block holds a tag that is never closed, the call fails there, and
    /// the nodes of the blocks before it have been appended.
    pub fn process(&mut self, input: &str) -> (r: Result<(), Error>)
        ensures
            match blocks_of(input@) {
                Err(e) => r == Err::<(), Error>(e) && final(self)@ == old(self)@,
                Ok(blocks) => {
                    &&& r is Ok <==> built(blocks) is Some
                    &&& r matches Err(e) ==> e == Error::MalformedRawHtml
                    &&& final(self)@ == old(self)@ + built_before_refusal(blocks)
                },
            },
    {
        let found = match blocks(input) {
            Ok(found) => found,
            Err(e) => {
                return Err(e);
            },
        };
        let normalizer = Normalizer::new();
        let ghost all = block_views(found@);
        let mut i: usize = 0;
        assert(all.take(0) =~= Seq::<BlockView>::empty());
        assert(self@ + Seq::<NodeView>::empty() =~= self@);
        while i < found.len()
            invariant
                i <= found.len(),
                all == block_views(found@),
                blocks_of(input@) == Ok::<Seq<BlockView>, Error>(all),
                built(all.take(i as int)) is Some,
                self@ == old(self)@ + built(all.take(i as int))->0,
            decreases found.len() - i,
        {
            let ghost before = all.take(i as int);
            let ghost after = all.take(i + 1);
            assert(after.drop_last() =~= before);
            assert(after.last() == found@[i as int]@);
            match &found[i] {
                Block::Header { level, text } => {
                    self.push_header(&normalizer, *level, text.as_str());
                    assert(self@ =~= old(self)@ + (built(before)->0 + seq![
                        header_node(*level as nat, text@),
                    ]));
                },
                Block::Paragraph { text } => {
                    self.push_paragraph(&normalizer, text.as_str());
                    assert(self@ =~= old(self)@ + (built(before)->0 + seq![paragraph_node(text@)]));
                },
                Block::RawTag { html } => {
                    match self.add_html(html.as_str()) {
                        Ok(()) => {},
                        Err(e) => {
                            proof {
                                lemma_refused_block(all, i as int);
                            }
                            return Err(e);
                        },
                    }
                    proof {
                        if unterminated(html@) {
                            assert(false);
                        }
                        assert(self@ =~= old(self)@ + (built(before)->0 + fragment_nodes(html@)));
                    }
                },
            }
            i += 1;
        }
        assert(all.take(found.len() as int) =~= all);
        Ok(())
    }

    /// Applies the subtitle rule: every `h2` element of the tree gets the class
    /// `subtitle`, and nothing else changes.
    pub fn post_process(&mut self)
        ensures
            final(self)@ == subtitled_all(old(self)@),
    {
        proof {
            use_type_invariant(&*self);
        }
        let mut nodes: Vec<Node> = Vec::new();
        assert(node_views(nodes@) =~= Seq::<NodeView>::empty());
        std::mem::swap(&mut self.nodes, &mut nodes);
        subtitle_nodes(&mut nodes);
        self.nodes = nodes;
    }

    /// The HTML of the document: the HTML of each top-level node, followed by a
    /// line feed.
    pub fn to_html(&self) -> (r: String)
        ensures
            r@ == markup_lines(self@),
    {
        let mut out = String::new();
        let mut i: usize = 0;
        assert(self@.take(0) =~= Seq::<NodeView>::empty());
        while i < self.nodes.len()
            invariant
                i <= self.nodes.len(),
                out@ == markup_lines(self@.take(i as int)),
            decreases self.nodes.len() - i,
        {
            let ghost before = self@.take(i as int);
            let ghost after = self@.take(i + 1);
            assert(after.drop_last() =~= before);
            assert(after.last() == self.nodes@[i as int]@);
            write_node(&self.nodes[i], &mut out);
            out.push('\n');
            assert(out@ =~= markup_lines(after));
            i += 1;
        }
        assert(self@.take(self.nodes.len() as int) =~= self@);
        out
    }

    /// Appends the HTML of the document, as UTF-8, to `writer`.
    pub fn to_writer(&self, writer: &mut Vec<u8>)
        ensures
            final(writer)@ == old(writer)@ + vstd::utf8::encode_utf8(markup_lines(self@)),
    {
        let html = self.to_html();
        let mut bytes = html.as_str().as_bytes_vec();
        writer.append(&mut bytes);
    }

    /// Appends a header of level `level` with the text `text`. A level below 1
    /// counts as 1, one above 6 as 6.
    pub fn add_header(&mut self, level: u8, text: &str)
        ensures
            final(self)@ == old(self)@.push(header_node(level as nat, text@)),
    {
        self.push_header(&Normalizer::new(), level, text);
    }

    /// Appends a paragraph with the text `text`.
    pub fn add_paragraph(&mut self, text: &str)
        ensures
            final(self)@ == old(self)@.push(paragraph_node(text@)),
    {
        self.push_paragraph(&Normalizer::new(), text);
    }

    /// Appends a well formed node.
    fn push_node(&mut self, node: Node)
        requires
            well_formed(node@),
        ensures
            final(self)@ == old(self)@.push(node@),
    {
        proof {
            use_type_invariant(&*self);
        }
        let mut nodes: Vec<Node> = Vec::new();
        assert(node_views(nodes@) =~= Seq::<NodeView>::empty());
        std::mem::swap(&mut self.nodes, &mut nodes);
        let ghost earlier = node_views(nodes@);
        nodes.push(node);
        assert(node_views(nodes@) =~= earlier.push(node@));
        assert(node_views(nodes@).drop_last() =~= earlier);
        self.nodes = nodes;
    }

    /// Appends a header, with a normaliser that is at hand.
    fn push_header(&mut self, normalizer: &Normalizer, level: u8, text: &str)
        ensures
            final(self)@ == old(self)@.push(header_node(level as nat, text@)),
    {
        let tag = if level <= 1 {
            "h1"
        } else if level == 2 {
            "h2"
        } else if level == 3 {
            "h3"
        } else if level == 4 {
            "h4"
        } else if level == 5 {
            "h5"
        } else {
            "h6"
        };
        let content = escape(normalizer.normalize(text).as_str());
        let ghost earlier = self@;
        self.push_node(new_element(tag, content.as_str()));
        assert(self@ =~= earlier.push(header_node(level as nat, text@)));
    }

    /// Appends a paragraph, with a normaliser that is at hand.
    fn push_paragraph(&mut self, normalizer: &Normalizer, text: &str)
        ensures
            final(self)@ == old(self)@.push(paragraph_node(text@)),
    {
        let found = lines(text);
        let ghost all = normalized_lines(rows(found@));
        let mut content = String::new();
        let mut i: usize = 0;
        assert(all.take(0) =~= Seq::<Seq<char>>::empty());
        while i < found.len()
            invariant
                i <= found.len(),
                all == normalized_lines(rows(found@)),
                content@ == joined(all.take(i as int), ' '),
            decreases found.len() - i,
        {
            let ghost before = all.take(i as int);
            let ghost after = all.take(i + 1);
            assert(after.drop_last() =~= before);
            assert(after.last() == normalized(found@[i as int]@));
            let mut line = String::new();
            push_chars(&mut line, &found[i], 0);
            assert(found@[i as int]@.skip(0) =~= found@[i as int]@);
            let clean = normalizer.normalize(line.as_str());
            if i > 0 {
                content.push(' ');
            }
            content.append(clean.as_str());
            assert(content@ =~= joined(after, ' '));
            i += 1;
        }
        assert(all.take(found.len() as int) =~= all);
        let content = escape(content.as_str());
        let ghost earlier = self@;
        self.push_node(new_element("p", content.as_str()));
        assert(self@ =~= earlier.push(paragraph_node(text@)));
    }

    /// Appends the nodes that the raw tag block `html` brings.
    ///
    /// A block with a tag that is never closed is refused, and no other block
    /// is; the document then stays as it was.
    pub fn add_html(&mut self, html: &str) -> (r: Result<(), Error>)
        ensures
            r is Err <==> unterminated(html@),
            r is Ok ==> final(self)@ == old(self)@ + fragment_nodes(html@),
            r matches Err(e) ==> e == Error::MalformedRawHtml && final(self)@ == old(self)@,
    {
        let nodes = match fragment(html) {
            Ok(nodes) => nodes,
            Err(e) => {
                return Err(e);
            },
        };
        let ghost added = node_views(nodes@);
        assert(added.take(0) =~= Seq::<NodeView>::empty());
        assert(self@ + Seq::<NodeView>::empty() =~= self@);
        for node in it: nodes
            invariant
                it.seq() == nodes@,
                added == node_views(nodes@),
                all_well_formed(added),
                self@ == old(self)@ + added.take(it.index()),
        {
            let ghost earlier = self@;
            proof {
                lemma_all_well_formed(added);
                assert(node@ == added[it.index()]);
            }
            self.push_node(node);
            assert(added.take(it.index() + 1) =~= added.take(it.index()).push(node@));
        }
        assert(added.take(added.len() as int) =~= added);
        Ok(())
    }
}

/// Where block `i` is the first refused one, the blocks as a whole are refused,
/// and the nodes before the refusal are those of the blocks before block `i`.
pub proof fn lemma_refused_block(blocks: Seq<BlockView>, i: int)
    requires
        0 <= i < blocks.len(),
        built(blocks.take(i)) is Some,
        block_nodes(blocks[i]) is None,
    ensures
        built(blocks) is None,
        built_before_refusal(blocks) == built(blocks.take(i))->0,
    decreases blocks.len(),
{
    if i == blocks.len() - 1 {
        assert(blocks.drop_last() =~= blocks.take(i));
    } else {
        assert(blocks.drop_last().take(i) =~= blocks.take(i));
        assert(blocks.drop_last()[i] == blocks[i]);
        lemma_refused_block(blocks.drop_last(), i);
    }
}

/// An element without attributes around text is well formed.
pub proof fn lemma_text_element_well_formed(tag: Seq<char>, content: Seq<char>)
    ensures
        well_formed(text_element(tag, content)),
{
    let children = seq![NodeView::Text(content)];
    assert(children.drop_last() =~= Seq::<NodeView>::empty());
    assert(all_well_formed(children.drop_last()));
    assert(well_formed(children.last()));
    assert(all_well_formed(children));
}

/// The nodes that blocks make are well formed.
pub proof fn lemma_built_well_formed(blocks: Seq<BlockView>)
    requires
        built(blocks) is Some,
    ensures
        all_well_formed(built(blocks)->0),
    decreases blocks.len(),
{
    if blocks.len() > 0 {
        lemma_built_well_formed(blocks.drop_last());
        let nodes = block_nodes(blocks.last())->0;
        match blocks.last() {
            BlockView::Header { level, text } => {
                lemma_text_element_well_formed(header_tag(level), escaped(normalized(text)));
                assert(nodes.drop_last() =~= Seq::<NodeView>::empty());
                assert(all_well_formed(nodes.drop_last()));
                assert(well_formed(nodes.last()));
                assert(all_well_formed(nodes));
            },
            BlockView::Paragraph { text } => {
                lemma_text_element_well_formed("p"@, escaped(paragraph_content(text)));
                assert(nodes.drop_last() =~= Seq::<NodeView>::empty());
                assert(all_well_formed(nodes.drop_last()));
                assert(well_formed(nodes.last()));
                assert(all_well_formed(nodes));
            },
            BlockView::RawTag { html } => {
                lemma_forest_well_formed(document_tokens(html));
            },
        }
        lemma_well_formed_joined(built(blocks.drop_last())->0, nodes);
    }
}

/// Every document that a conversion gives is well formed: no element of it has
/// two attributes of one name.
pub proof fn lemma_conversion_well_formed(input: Seq<char>, post_processed: bool)
    ensures
        conversion(input, post_processed) matches Ok(nodes) ==> all_well_formed(nodes),
{
    if conversion(input, post_processed) is Ok {
        let blocks = blocks_of(input)->Ok_0;
        lemma_built_well_formed(blocks);
        lemma_subtitled_every(built(blocks)->0);
    }
}

/// Blocks are refused as a whole exactly where one of them is raw markup with a
/// tag that is never closed.
pub proof fn lemma_refusal(blocks: Seq<BlockView>)
    ensures
        built(blocks) is None <==> has_open_raw_tag(blocks),
    decreases blocks.len(),
{
    if blocks.len() > 0 {
        let before = blocks.drop_last();
        lemma_refusal(before);
        if has_open_raw_tag(before) {
            let i = choose|i: int| 0 <= i < before.len() && block_nodes(#[trigger] before[i]) is None;
            assert(block_nodes(blocks[i]) is None);
        }
        if block_nodes(blocks.last()) is None {
            assert(block_nodes(blocks[blocks.len() - 1]) is None);
        }
        if has_open_raw_tag(blocks) {
            let i = choose|i: int| 0 <= i < blocks.len() && block_nodes(#[trigger] blocks[i]) is None;
            if i < before.len() {
                assert(block_nodes(before[i]) is None);
            }
        }
    }
}

/// A conversion fails exactly where the grammar refuses the text or a raw tag
/// block of it holds a tag that is never closed. The error is the grammar's in
/// the first case and `MalformedRawHtml` in the second alone.
pub proof fn lemma_conversion_fails(input: Seq<char>, post_processed: bool)
    ensures
        conversion(input, post_processed) is Err <==> (blocks_of(input) is Err || has_open_raw_tag(
            blocks_of(input)->Ok_0,
        )),
        blocks_of(input) matches Err(e) ==> conversion(input, post_processed) == Err::<
            Seq<NodeView>,
            Error,
        >(e),
        blocks_of(input) is Ok && has_open_raw_tag(blocks_of(input)->Ok_0) ==> conversion(
            input,
            post_processed,
        ) == Err::<Seq<NodeView>, Error>(Error::MalformedRawHtml),
{
    if blocks_of(input) is Ok {
        lemma_refusal(blocks_of(input)->Ok_0);
    }
}

/// Post-processing adds no failure and hides none: a text is converted with
/// the subtitle rule exactly where it is converted without, the errors are the
/// same, and the document with the rule is the document without it after the
/// rule.
pub proof fn lemma_post_processing(input: Seq<char>)
    ensures
        match conversion(input, false) {
            Ok(nodes) => conversion(input, true) == Ok::<Seq<NodeView>, Error>(subtitled_all(nodes)),
            Err(e) => conversion(input, true) == Err::<Seq<NodeView>, Error>(e),
        },
{
}

/// A document without an `h2` is written out the same with the subtitle rule
/// and without.
pub proof fn lemma_no_h2_same_html(nodes: Seq<NodeView>)
    requires
        none_is_h2(nodes),
    ensures
        markup_lines(subtitled_all(nodes)) == markup_lines(nodes),
{
    lemma_without_h2_every(nodes);
}

/// A text of blank lines only has no blocks, and so no nodes: it is converted
/// to the document without nodes.
pub proof fn lemma_blank_text(text: Seq<char>)
    requires
        all_blank(text),
    ensures
        blocks_of(text) == Ok::<Seq<BlockView>, Error>(Seq::empty()),
        forall|post_processed: bool|
            #[trigger] conversion(text, post_processed) == Ok::<Seq<NodeView>, Error>(Seq::empty()),
{
    lemma_blank_lines(lines_of(text), 0);
    let none = Seq::<BlockView>::empty();
    assert(built(none) == Some(Seq::<NodeView>::empty()));
    assert(subtitled_all(Seq::<NodeView>::empty()) =~= Seq::<NodeView>::empty());
}

/// The digit of a header of level `level`, which counts as 1 below 1 and as 6
/// above 6.
pub open spec fn header_digit(level: nat) -> char {
    if level <= 1 {
        '1'
    } else if level == 2 {
        '2'
    } else if level == 3 {
        '3'
    } else if level == 4 {
        '4'
    } else if level == 5 {
        '5'
    } else {
        '6'
    }
}

/// The tag of a header is `h` and the digit of its level. It is `h2` for level
/// 2 alone.
pub proof fn lemma_header_tag(level: nat)
    ensures
        header_tag(level) == seq!['h', header_digit(level)],
        header_tag(level) == "h2"@ <==> level == 2,
{
    reveal_strlit("h1");
    reveal_strlit("h2");
    reveal_strlit("h3");
    reveal_strlit("h4");
    reveal_strlit("h5");
    reveal_strlit("h6");
    let tag = header_tag(level);
    assert(tag =~= seq!['h', header_digit(level)]);
    assert("h2"@[1] == '2');
}

/// The tag `p` is no `h2`.
pub proof fn lemma_paragraph_tag()
    ensures
        "p"@ == seq!['p'],
        "p"@ != "h2"@,
{
    reveal_strlit("p");
    reveal_strlit("h2");
    assert("p"@ =~= seq!['p']);
    assert("p"@.len() == 1);
    assert("h2"@.len() == 2);
}

/// The HTML of an element without attributes around text: the text between
/// the start tag and the end tag.
pub proof fn lemma_text_element_markup(tag: Seq<char>, content: Seq<char>)
    ensures
        markup(text_element(tag, content)) == seq!['<'] + tag + seq!['>'] + content + seq!['<', '/']
            + tag + seq!['>'],
{
    lemma_one_node(NodeView::Text(content));
    assert(attributes_markup(Seq::<AttributeView>::empty()) =~= Seq::<char>::empty());
    assert(markup(text_element(tag, content)) =~= seq!['<'] + tag + seq!['>'] + content + seq![
        '<',
        '/',
    ] + tag + seq!['>']);
}

/// The HTML of a header: its text, normalised and escaped, between `<hN>` and
/// `</hN>`, where `N` is the digit of its level. The subtitle rule adds
/// ` class="subtitle"` to the start tag of a header of level 2 and leaves every
/// other header as it is.
pub proof fn lemma_header_html(level: nat, text: Seq<char>)
    ensures
        markup(header_node(level, text)) == seq!['<', 'h', header_digit(level), '>'] + escaped(
            normalized(text),
        ) + seq!['<', '/', 'h', header_digit(level), '>'],
        level == 2 ==> markup(subtitled(header_node(level, text))) == "<h2 class=\"subtitle\">"@
            + escaped(normalized(text)) + "</h2>"@,
        level != 2 ==> subtitled(header_node(level, text)) == header_node(level, text),
{
    let tag = header_tag(level);
    let content = escaped(normalized(text));
    let node = header_node(level, text);
    let children = seq![NodeView::Text(content)];
    lemma_header_tag(level);
    lemma_text_element_markup(tag, content);
    assert(seq!['<'] + tag + seq!['>'] =~= seq!['<', 'h', header_digit(level), '>']);
    assert(seq!['<', '/'] + tag + seq!['>'] =~= seq!['<', '/', 'h', header_digit(level), '>']);
    lemma_one_node(NodeView::Text(content));
    assert(subtitled_all(children) =~= children);
    if level == 2 {
        reveal_strlit("<h2 class=\"subtitle\">");
        reveal_strlit("</h2>");
        reveal_strlit("class");
        reveal_strlit("subtitle");
        let none = Seq::<AttributeView>::empty();
        assert(!has_class(none));
        let attributes = with_subtitle(none);
        assert(attributes =~= seq![subtitle_class()]);
        assert(attributes.drop_last() =~= none);
        assert(attributes_markup(attributes.drop_last()) =~= Seq::<char>::empty());
        assert(attributes_markup(attributes) =~= attribute_markup(subtitle_class()));
        assert(start_tag(tag, attributes) =~= "<h2 class=\"subtitle\">"@);
        assert(end_tag(tag) =~= "</h2>"@);
        assert(subtitled(node) == (NodeView::Element { name: tag, attributes, children }));
    }
}

/// The HTML of a paragraph: its text, escaped, between `<p>` and `</p>`. The
/// subtitle rule leaves it as it is.
pub proof fn lemma_paragraph_html(text: Seq<char>)
    ensures
        markup(paragraph_node(text)) == seq!['<', 'p', '>'] + escaped(paragraph_content(text)) + seq![
            '<',
            '/',
            'p',
            '>',
        ],
        subtitled(paragraph_node(text)) == paragraph_node(text),
{
    let content = escaped(paragraph_content(text));
    let children = seq![NodeView::Text(content)];
    lemma_paragraph_tag();
    lemma_text_element_markup("p"@, content);
    assert(seq!['<'] + "p"@ + seq!['>'] =~= seq!['<', 'p', '>']);
    assert(seq!['<', '/'] + "p"@ + seq!['>'] =~= seq!['<', '/', 'p', '>']);
    lemma_one_node(NodeView::Text(content));
    assert(subtitled_all(children) =~= children);
}

/// Headers and paragraphs make one top-level node each: blocks without raw
/// markup are all accepted and make as many nodes as there are blocks.
pub proof fn lemma_one_node_for_each_block(blocks: Seq<BlockView>)
    requires
        !has_raw_tag(blocks),
    ensures
        built(blocks) is Some,
        built(blocks)->0.len() == blocks.len(),
    decreases blocks.len(),
{
    if blocks.len() > 0 {
        let before = blocks.drop_last();
        assert forall|i: int| 0 <= i < before.len() implies !(#[trigger] before[i] is RawTag) by {
            assert(before[i] == blocks[i]);
        }
        lemma_one_node_for_each_block(before);
        assert(!(blocks[blocks.len() - 1] is RawTag));
    }
}

/// The HTML of a document depends on its nodes alone: documents with the same
/// nodes are written out as the same bytes, however often.
pub proof fn lemma_same_nodes_same_html(first: Document, second: Document)
    requires
        first@ == second@,
    ensures
        markup_lines(first@) == markup_lines(second@),
        vstd::utf8::encode_utf8(markup_lines(first@)) == vstd::utf8::encode_utf8(
            markup_lines(second@),
        ),
{
}

} // verus!
