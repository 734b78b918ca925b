//! The block grammar: a text is cut into lines, and the lines are gathered into
//! header, paragraph and raw tag blocks.

use vstd::prelude::*;
use crate::error::Error;
use crate::text::{is_space, is_whitespace};

verus! {

/// One block of a document, in reading order.
#[derive(Debug, PartialEq, Eq)]
pub enum Block {
    /// A header of level 1 to 6 with the text of its line.
    Header { level: u8, text: String },
    /// A paragraph: its lines, joined by line feeds.
    Paragraph { text: String },
    /// Literal markup: its lines, joined by line feeds.
    RawTag { html: String },
}

/// A block as a mathematical value.
pub ghost enum BlockView {
    Header { level: nat, text: Seq<char> },
    Paragraph { text: Seq<char> },
    RawTag { html: Seq<char> },
}

impl View for Block {
    type V = BlockView;

    open spec fn view(&self) -> BlockView {
        match self {
            Block::Header { level, text } => BlockView::Header { level: *level as nat, text: text@ },
            Block::Paragraph { text } => BlockView::Paragraph { text: text@ },
            Block::RawTag { html } => BlockView::RawTag { html: html@ },
        }
    }
}

/// The views of a sequence of blocks.
pub open spec fn block_views(blocks: Seq<Block>) -> Seq<BlockView> {
    blocks.map_values(|b: Block| b@)
}

/// What a line is, seen together with the line that follows it.
#[derive(Clone, Copy, Debug, PartialEq, Eq, Structural)]
pub enum LineKind {
    /// Only whitespace, or nothing.
    Blank,
    /// One to six `#`, then whitespace: a header of that level.
    Atx(u8),
    /// A line above an underline of `=` (level 1) or `-` (level 2).
    Setext(u8),
    /// A line that begins with the start of a tag.
    Markup,
    /// A line that begins with `<` but with no start of a tag.
    Stray,
    /// Any other line: paragraph text.
    Text,
}

/// `text` cut at every line feed. A text with `n` line feeds has `n + 1` pieces.
pub open spec fn split_lines(text: Seq<char>) -> Seq<Seq<char>>
    decreases text.len(),
{
    if text.len() == 0 {
        seq![Seq::empty()]
    } else {
        let before = split_lines(text.drop_last());
        if text.last() == '\n' {
            before.push(Seq::empty())
        } else {
            before.drop_last().push(before.last().push(text.last()))
        }
    }
}

/// `line` without the carriage return at its end, if it has one.
pub open spec fn without_cr(line: Seq<char>) -> Seq<char> {
    if line.len() > 0 && line.last() == '\r' {
        line.drop_last()
    } else {
        line
    }
}

/// The lines of `text`: it is cut at every line feed, and a carriage return
/// before the line feed belongs to the line end.
pub open spec fn lines_of(text: Seq<char>) -> Seq<Seq<char>> {
    stripped(split_lines(text))
}

/// `lines`, each without the carriage return at its end.
pub open spec fn stripped(lines: Seq<Seq<char>>) -> Seq<Seq<char>> {
    Seq::new(lines.len(), |i: int| without_cr(lines[i]))
}

/// Whether `line` holds nothing but whitespace.
pub open spec fn blank(line: Seq<char>) -> bool {
    forall|i: int| 0 <= i < line.len() ==> is_space(#[trigger] line[i])
}

/// The number of `#` at the start of `line`.
pub open spec fn hash_run(line: Seq<char>) -> nat
    decreases line.len(),
{
    if line.len() > 0 && line[0] == '#' {
        1 + hash_run(line.drop_first())
    } else {
        0
    }
}

/// The level of `line` as an ATX header: the length of its run of `#`, where
/// that is 1 to 6 and whitespace follows the run.
pub open spec fn atx_level(line: Seq<char>) -> Option<nat> {
    let run = hash_run(line);
    if 1 <= run <= 6 && run < line.len() && is_space(line[run as int]) {
        Some(run)
    } else {
        None
    }
}

/// Whether `line` is one or more `c` and nothing else.
pub open spec fn uniform(line: Seq<char>, c: char) -> bool {
    line.len() > 0 && forall|i: int| 0 <= i < line.len() ==> #[trigger] line[i] == c
}

/// The level that `line` gives to the line above it: 1 for `=`, 2 for `-`.
pub open spec fn underline_level(line: Seq<char>) -> Option<nat> {
    if uniform(line, '=') {
        Some(1)
    } else if uniform(line, '-') {
        Some(2)
    } else {
        None
    }
}

/// Whether `c` is an ASCII letter.
pub open spec fn is_letter(c: char) -> bool {
    ('a' as u32 <= c as u32 <= 'z' as u32) || ('A' as u32 <= c as u32 <= 'Z' as u32)
}

/// Whether `line` begins as a tag does: `<`, then a letter, `/`, `!` or `?`.
pub open spec fn opens_markup(line: Seq<char>) -> bool {
    line.len() >= 2 && line[0] == '<' && (is_letter(line[1]) || line[1] == '/' || line[1] == '!'
        || line[1] == '?')
}

/// The kind of line `i`. A header is looked for first, then markup, and what is
/// left is paragraph text.
pub open spec fn kind_at(lines: Seq<Seq<char>>, i: int) -> LineKind {
    let line = lines[i];
    if blank(line) {
        LineKind::Blank
    } else if atx_level(line) is Some {
        LineKind::Atx(atx_level(line)->0 as u8)
    } else if i + 1 < lines.len() && underline_level(lines[i + 1]) is Some {
        LineKind::Setext(underline_level(lines[i + 1])->0 as u8)
    } else if line[0] == '<' {
        if opens_markup(line) {
            LineKind::Markup
        } else {
            LineKind::Stray
        }
    } else {
        LineKind::Text
    }
}

/// How many lines from line `i` on are of kind `kind`, one after the other.
pub open spec fn run_len(lines: Seq<Seq<char>>, i: int, kind: LineKind) -> nat
    decreases lines.len() - i,
{
    if 0 <= i < lines.len() && kind_at(lines, i) == kind {
        1 + run_len(lines, i + 1, kind)
    } else {
        0
    }
}

/// The line after the run of lines of kind `kind` that line `i` begins, where
/// line `i` is of that kind.
pub open spec fn run_end(lines: Seq<Seq<char>>, i: int, kind: LineKind) -> int {
    let end = i + 1 + run_len(lines, i + 1, kind);
    if i < end <= lines.len() {
        end
    } else {
        i + 1
    }
}

/// `lines` with `between` between each two.
pub open spec fn joined(lines: Seq<Seq<char>>, between: char) -> Seq<char>
    decreases lines.len(),
{
    if lines.len() == 0 {
        Seq::empty()
    } else if lines.len() == 1 {
        lines[0]
    } else {
        joined(lines.drop_last(), between) + seq![between] + lines.last()
    }
}

/// The number of line `i`, counted from 1.
pub open spec fn line_number(i: int) -> usize {
    if 0 <= i < usize::MAX {
        (i + 1) as usize
    } else {
        usize::MAX
    }
}

/// `first` put before the blocks of `rest`, where there are any.
pub open spec fn preceded(first: BlockView, rest: Result<Seq<BlockView>, Error>) -> Result<
    Seq<BlockView>,
    Error,
> {
    match rest {
        Ok(blocks) => Ok(seq![first] + blocks),
        Err(e) => Err(e),
    }
}

/// The blocks of the lines from line `i` on, or the first line that fits no
/// block.
///
/// Blank lines are passed over. A header line makes a block of its own; a setext
/// header takes its underline with it. A run of markup lines is one raw tag
/// block, a run of text lines one paragraph.
pub open spec fn blocks_from(lines: Seq<Seq<char>>, i: int) -> Result<Seq<BlockView>, Error>
    decreases lines.len() - i,
{
    if i < 0 || i >= lines.len() {
        Ok(Seq::empty())
    } else {
        match kind_at(lines, i) {
            LineKind::Blank => blocks_from(lines, i + 1),
            LineKind::Atx(level) => preceded(
                BlockView::Header { level: level as nat, text: lines[i].skip(level as int) },
                blocks_from(lines, i + 1),
            ),
            LineKind::Setext(level) => preceded(
                BlockView::Header { level: level as nat, text: lines[i] },
                blocks_from(lines, i + 2),
            ),
            LineKind::Stray => Err(Error::GrammarError { line: line_number(i) }),
            LineKind::Markup => {
                let end = run_end(lines, i, LineKind::Markup);
                preceded(
                    BlockView::RawTag { html: joined(lines.subrange(i, end), '\n') },
                    blocks_from(lines, end),
                )
            },
            LineKind::Text => {
                let end = run_end(lines, i, LineKind::Text);
                preceded(
                    BlockView::Paragraph { text: joined(lines.subrange(i, end), '\n') },
                    blocks_from(lines, end),
                )
            },
        }
    }
}

/// The blocks of `text`, or the first line of it that fits no block.
pub open spec fn blocks_of(text: Seq<char>) -> Result<Seq<BlockView>, Error> {
    blocks_from(lines_of(text), 0)
}

/// The lines held by `lines`, each as a sequence of characters.
pub open spec fn rows(lines: Seq<Vec<char>>) -> Seq<Seq<char>> {
    lines.map_values(|line: Vec<char>| line@)
}

/// `blocks` put before the blocks of `rest`, where there are any.
pub open spec fn continued(blocks: Seq<BlockView>, rest: Result<Seq<BlockView>, Error>) -> Result<
    Seq<BlockView>,
    Error,
> {
    match rest {
        Ok(more) => Ok(blocks + more),
        Err(e) => Err(e),
    }
}

/// Blank lines make no block.
pub proof fn lemma_blank_lines(lines: Seq<Seq<char>>, i: int)
    requires
        forall|k: int| 0 <= k < lines.len() ==> blank(#[trigger] lines[k]),
    ensures
        blocks_from(lines, i) == Ok::<Seq<BlockView>, Error>(Seq::empty()),
    decreases lines.len() - i,
{
    if 0 <= i < lines.len() {
        assert(blank(lines[i]));
        lemma_blank_lines(lines, i + 1);
    }
}

/// The level of an ATX header is the length of its run of `#`, which is 1 to 6,
/// and its text is what follows the run.
pub proof fn lemma_atx_header(lines: Seq<Seq<char>>, i: int)
    requires
        0 <= i < lines.len(),
        atx_level(lines[i]) is Some,
    ensures
        1 <= hash_run(lines[i]) <= 6,
        kind_at(lines, i) == LineKind::Atx(hash_run(lines[i]) as u8),
        blocks_from(lines, i) == preceded(
            BlockView::Header {
                level: hash_run(lines[i]),
                text: lines[i].skip(hash_run(lines[i]) as int),
            },
            blocks_from(lines, i + 1),
        ),
{
    let line = lines[i];
    assert(line[0] == '#');
    assert(!is_space(line[0]));
    assert(!blank(line));
}

/// Whether no line of `lines` begins with `<` without beginning a tag.
pub open spec fn no_stray_bracket(lines: Seq<Seq<char>>) -> bool {
    forall|k: int|
        0 <= k < lines.len() && (#[trigger] lines[k]).len() > 0 && lines[k][0] == '<'
            ==> opens_markup(lines[k])
}

/// Lines of which none begins with `<` without beginning a tag are always cut
/// into blocks.
pub proof fn lemma_accepted(lines: Seq<Seq<char>>, i: int)
    requires
        no_stray_bracket(lines),
    ensures
        blocks_from(lines, i) is Ok,
    decreases lines.len() - i,
{
    if 0 <= i < lines.len() {
        let line = lines[i];
        match kind_at(lines, i) {
            LineKind::Blank => {
                lemma_accepted(lines, i + 1);
            },
            LineKind::Atx(_) => {
                lemma_accepted(lines, i + 1);
            },
            LineKind::Setext(_) => {
                lemma_accepted(lines, i + 2);
            },
            LineKind::Stray => {
                assert(!blank(line));
                assert(line.len() > 0);
            },
            LineKind::Markup => {
                lemma_run_end(lines, i, LineKind::Markup);
                lemma_accepted(lines, run_end(lines, i, LineKind::Markup));
            },
            LineKind::Text => {
                lemma_run_end(lines, i, LineKind::Text);
                lemma_accepted(lines, run_end(lines, i, LineKind::Text));
            },
        }
    }
}

/// Where the lines from line `i` on are refused, the error names a line from
/// there on that begins with `<` without beginning a tag and is no header.
pub proof fn lemma_refused(lines: Seq<Seq<char>>, i: int)
    requires
        0 <= i,
        blocks_from(lines, i) is Err,
    ensures
        exists|k: int|
            i <= k < lines.len() && #[trigger] kind_at(lines, k) == LineKind::Stray && blocks_from(
                lines,
                i,
            ) == Err::<Seq<BlockView>, Error>(Error::GrammarError { line: line_number(k) }),
    decreases lines.len() - i,
{
    if i < lines.len() {
        let next = match kind_at(lines, i) {
            LineKind::Blank => i + 1,
            LineKind::Atx(_) => i + 1,
            LineKind::Setext(_) => i + 2,
            LineKind::Stray => i,
            LineKind::Markup => run_end(lines, i, LineKind::Markup),
            LineKind::Text => run_end(lines, i, LineKind::Text),
        };
        if kind_at(lines, i) == LineKind::Stray {
            assert(kind_at(lines, i) == LineKind::Stray);
        } else {
            lemma_run_end(lines, i, LineKind::Markup);
            lemma_run_end(lines, i, LineKind::Text);
            assert(blocks_from(lines, next) is Err);
            lemma_refused(lines, next);
            let k = choose|k: int|
                next <= k < lines.len() && #[trigger] kind_at(lines, k) == LineKind::Stray
                    && blocks_from(lines, next) == Err::<Seq<BlockView>, Error>(
                    Error::GrammarError { line: line_number(k) },
                );
            assert(kind_at(lines, k) == LineKind::Stray);
        }
    }
}

/// A run of lines of one kind ends within the lines, so the line after the run
/// that line `i` begins is `i + 1` and the length of the run from there.
pub proof fn lemma_run_end(lines: Seq<Seq<char>>, i: int, kind: LineKind)
    requires
        0 <= i < lines.len(),
    ensures
        run_end(lines, i, kind) == i + 1 + run_len(lines, i + 1, kind),
        i < run_end(lines, i, kind) <= lines.len(),
{
    lemma_run_len_bound(lines, i + 1, kind);
}

/// A run of lines of one kind ends within the lines.
proof fn lemma_run_len_bound(lines: Seq<Seq<char>>, i: int, kind: LineKind)
    requires
        0 <= i <= lines.len(),
    ensures
        i + run_len(lines, i, kind) <= lines.len(),
    decreases lines.len() - i,
{
    if i < lines.len() && kind_at(lines, i) == kind {
        lemma_run_len_bound(lines, i + 1, kind);
    }
}

/// Cuts `text` into its lines.
pub fn lines(text: &str) -> (r: Vec<Vec<char>>)
    ensures
        rows(r@) == lines_of(text@),
{
    let mut done: Vec<Vec<char>> = Vec::new();
    let mut current: Vec<char> = Vec::new();
    for c in it: text.chars()
        invariant
            it.seq() == text@,
            split_lines(text@.take(it.index())).len() == done.len() + 1,
            rows(done@) =~= stripped(split_lines(text@.take(it.index())).drop_last()),
            current@ == split_lines(text@.take(it.index())).last(),
    {
        let ghost before = split_lines(text@.take(it.index()));
        let ghost next = text@.take(it.index() + 1);
        assert(next.drop_last() =~= text@.take(it.index()));
        assert(next.last() == c);
        if c == '\n' {
            let ghost earlier = rows(done@);
            strip_cr(&mut current);
            done.push(current);
            current = Vec::new();
            assert(split_lines(next) =~= before.push(Seq::empty()));
            assert(split_lines(next).drop_last() =~= before);
            assert(rows(done@) =~= earlier.push(without_cr(before.last())));
            assert(rows(done@) =~= stripped(before));
        } else {
            current.push(c);
            assert(split_lines(next) =~= before.drop_last().push(before.last().push(c)));
            assert(split_lines(next).drop_last() =~= before.drop_last());
        }
    }
    assert(text@.take(text@.len() as int) =~= text@);
    let ghost all = split_lines(text@);
    let ghost earlier = rows(done@);
    strip_cr(&mut current);
    done.push(current);
    assert(rows(done@) =~= earlier.push(without_cr(all.last())));
    assert(rows(done@) =~= stripped(all));
    done
}

/// Takes the carriage return from the end of `line`, if there is one.
fn strip_cr(line: &mut Vec<char>)
    ensures
        final(line)@ == without_cr(old(line)@),
{
    let n = line.len();
    if n > 0 && line[n - 1] == '\r' {
        line.pop();
    }
}

/// Whether `line` holds nothing but whitespace.
fn is_blank(line: &Vec<char>) -> (r: bool)
    ensures
        r == blank(line@),
{
    let mut i: usize = 0;
    while i < line.len()
        invariant
            i <= line.len(),
            forall|k: int| 0 <= k < i ==> is_space(#[trigger] line@[k]),
        decreases line.len() - i,
    {
        if !is_whitespace(line[i]) {
            return false;
        }
        i += 1;
    }
    true
}

/// Whether `line` is one or more `c` and nothing else.
fn is_uniform(line: &Vec<char>, c: char) -> (r: bool)
    ensures
        r == uniform(line@, c),
{
    if line.len() == 0 {
        return false;
    }
    let mut i: usize = 0;
    while i < line.len()
        invariant
            i <= line.len(),
            forall|k: int| 0 <= k < i ==> #[trigger] line@[k] == c,
        decreases line.len() - i,
    {
        if line[i] != c {
            return false;
        }
        i += 1;
    }
    true
}

/// The number of `#` at the start of `line`.
fn leading_hashes(line: &Vec<char>) -> (r: usize)
    ensures
        r == hash_run(line@),
        r <= line.len(),
{
    let mut i: usize = 0;
    assert(line@.skip(0) =~= line@);
    while i < line.len() && line[i] == '#'
        invariant
            i <= line.len(),
            hash_run(line@) == i + hash_run(line@.skip(i as int)),
        decreases line.len() - i,
    {
        assert(line@.skip(i as int).drop_first() =~= line@.skip(i + 1));
        i += 1;
    }
    i
}

/// The level of `line` as an ATX header, if it is one.
fn atx(line: &Vec<char>) -> (r: Option<u8>)
    ensures
        r is Some == atx_level(line@) is Some,
        r matches Some(level) ==> level == atx_level(line@)->0 && 1 <= level <= 6,
{
    let run = leading_hashes(line);
    if 1 <= run && run <= 6 && run < line.len() && is_whitespace(line[run]) {
        Some(run as u8)
    } else {
        None
    }
}

/// The level that `line` gives to the line above it, if it is an underline.
fn underline(line: &Vec<char>) -> (r: Option<u8>)
    ensures
        r is Some == underline_level(line@) is Some,
        r matches Some(level) ==> level == underline_level(line@)->0 && 1 <= level <= 2,
{
    if is_uniform(line, '=') {
        Some(1)
    } else if is_uniform(line, '-') {
        Some(2)
    } else {
        None
    }
}

/// Whether `c` is an ASCII letter.
fn is_ascii_letter(c: char) -> (r: bool)
    ensures
        r == is_letter(c),
{
    let u: u32 = c as u32;
    (0x61 <= u && u <= 0x7a) || (0x41 <= u && u <= 0x5a)
}

/// The kind of line `i` of `lines`.
fn classify(lines: &Vec<Vec<char>>, i: usize) -> (r: LineKind)
    requires
        i < lines.len(),
    ensures
        r == kind_at(rows(lines@), i as int),
{
    let line = &lines[i];
    assert(rows(lines@)[i as int] == line@);
    if is_blank(line) {
        return LineKind::Blank;
    }
    if let Some(level) = atx(line) {
        return LineKind::Atx(level);
    }
    if i + 1 < lines.len() {
        assert(rows(lines@)[i + 1] == lines@[i + 1]@);
        if let Some(level) = underline(&lines[i + 1]) {
            return LineKind::Setext(level);
        }
    }
    assert(line@.len() > 0);
    if line[0] == '<' {
        if line.len() >= 2 && (is_ascii_letter(line[1]) || line[1] == '/' || line[1] == '!'
            || line[1] == '?') {
            LineKind::Markup
        } else {
            LineKind::Stray
        }
    } else {
        LineKind::Text
    }
}

/// Appends the characters of `chars` from index `from` on to `out`.
pub fn push_chars(out: &mut String, chars: &Vec<char>, from: usize)
    requires
        from <= chars.len(),
    ensures
        final(out)@ == old(out)@ + chars@.skip(from as int),
{
    let mut i: usize = from;
    while i < chars.len()
        invariant
            from <= i <= chars.len(),
            out@ == old(out)@ + chars@.subrange(from as int, i as int),
        decreases chars.len() - i,
    {
        out.push(chars[i]);
        assert(chars@.subrange(from as int, i + 1) =~= chars@.subrange(from as int, i as int).push(
            chars@[i as int],
        ));
        i += 1;
    }
    assert(chars@.subrange(from as int, chars.len() as int) =~= chars@.skip(from as int));
}

/// The lines `from` to `to` of `lines`, with a line feed between each two.
fn join(lines: &Vec<Vec<char>>, from: usize, to: usize) -> (r: String)
    requires
        from <= to <= lines.len(),
    ensures
        r@ == joined(rows(lines@).subrange(from as int, to as int), '\n'),
{
    let mut out = String::new();
    let mut i: usize = from;
    while i < to
        invariant
            from <= i <= to <= lines.len(),
            out@ == joined(rows(lines@).subrange(from as int, i as int), '\n'),
        decreases to - i,
    {
        let ghost before = rows(lines@).subrange(from as int, i as int);
        let ghost after = rows(lines@).subrange(from as int, i + 1);
        assert(after.drop_last() =~= before);
        assert(after.last() == lines@[i as int]@);
        if i > from {
            out.push('\n');
        }
        push_chars(&mut out, &lines[i], 0);
        assert(lines@[i as int]@.skip(0) =~= lines@[i as int]@);
        assert(out@ =~= joined(after, '\n'));
        i += 1;
    }
    out
}

/// Cuts `input` into its blocks, or names the first line that fits no block.
pub fn blocks(input: &str) -> (r: Result<Vec<Block>, Error>)
    ensures
        match blocks_of(input@) {
            Ok(expected) => r is Ok && block_views(r->Ok_0@) == expected,
            Err(e) => r == Err::<Vec<Block>, Error>(e),
        },
{
    let lines = lines(input);
    let ghost all = rows(lines@);
    let mut out: Vec<Block> = Vec::new();
    let mut i: usize = 0;
    assert(continued(block_views(out@), blocks_from(all, 0)) =~= blocks_from(all, 0)) by {
        match blocks_from(all, 0) {
            Ok(more) => {
                assert(block_views(out@) + more =~= more);
            },
            Err(_) => {},
        }
    }
    while i < lines.len()
        invariant
            i <= lines.len(),
            all == rows(lines@),
            all == lines_of(input@),
            blocks_from(all, 0) == continued(block_views(out@), blocks_from(all, i as int)),
        decreases lines.len() - i,
    {
        let ghost done = block_views(out@);
        match classify(&lines, i) {
            LineKind::Blank => {
                i += 1;
            },
            LineKind::Atx(level) => {
                let mut text = String::new();
                assert(atx_level(all[i as int]) is Some);
                push_chars(&mut text, &lines[i], level as usize);
                let ghost block = BlockView::Header {
                    level: level as nat,
                    text: all[i as int].skip(level as int),
                };
                out.push(Block::Header { level, text });
                proof {
                    lemma_continued_step(done, block, blocks_from(all, i + 1));
                    assert(block_views(out@) =~= done.push(block));
                }
                i += 1;
            },
            LineKind::Setext(level) => {
                let mut text = String::new();
                push_chars(&mut text, &lines[i], 0);
                assert(all[i as int].skip(0) =~= all[i as int]);
                let ghost block = BlockView::Header { level: level as nat, text: all[i as int] };
                out.push(Block::Header { level, text });
                proof {
                    lemma_continued_step(done, block, blocks_from(all, i + 2));
                    assert(block_views(out@) =~= done.push(block));
                }
                i += 2;
            },
            LineKind::Stray => {
                return Err(Error::GrammarError { line: i + 1 });
            },
            LineKind::Markup => {
                let end = end_of_run(&lines, i, LineKind::Markup);
                let html = join(&lines, i, end);
                let ghost block = BlockView::RawTag { html: html@ };
                out.push(Block::RawTag { html });
                proof {
                    lemma_continued_step(done, block, blocks_from(all, end as int));
                    assert(block_views(out@) =~= done.push(block));
                }
                i = end;
            },
            LineKind::Text => {
                let end = end_of_run(&lines, i, LineKind::Text);
                let text = join(&lines, i, end);
                let ghost block = BlockView::Paragraph { text: text@ };
                out.push(Block::Paragraph { text });
                proof {
                    lemma_continued_step(done, block, blocks_from(all, end as int));
                    assert(block_views(out@) =~= done.push(block));
                }
                i = end;
            },
        }
    }
    proof {
        assert(block_views(out@) + Seq::<BlockView>::empty() =~= block_views(out@));
    }
    Ok(out)
}

/// The line after the run of lines of kind `kind` that line `i` begins.
fn end_of_run(lines: &Vec<Vec<char>>, i: usize, kind: LineKind) -> (r: usize)
    requires
        i < lines.len(),
    ensures
        r == run_end(rows(lines@), i as int, kind),
        i < r <= lines.len(),
{
    let mut j: usize = i + 1;
    while j < lines.len() && classify(lines, j) == kind
        invariant
            i < j <= lines.len(),
            run_len(rows(lines@), i + 1, kind) == (j - (i + 1)) + run_len(rows(lines@), j as int, kind),
        decreases lines.len() - j,
    {
        j += 1;
    }
    j
}

/// Putting a block behind those already found is putting it before the rest.
proof fn lemma_continued_step(
    done: Seq<BlockView>,
    block: BlockView,
    rest: Result<Seq<BlockView>, Error>,
)
    ensures
        continued(done, preceded(block, rest)) == continued(done.push(block), rest),
{
    match rest {
        Ok(more) => {
            assert(done + (seq![block] + more) =~= done.push(block) + more);
        },
        Err(_) => {},
    }
}

} // verus!
