//! Text as it goes into an element: whitespace normalisation and HTML escaping.
//!
//! All functions are stated over `Seq<char>`, the view of a string.

use vstd::prelude::*;

verus! {

/// The characters that count as whitespace: those with the Unicode property
/// `White_Space`. Space, tab, line feed and carriage return are among them.
pub open spec fn is_space(c: char) -> bool {
    let u = c as u32;
    ||| 0x09 <= u <= 0x0d
    ||| u == 0x20
    ||| u == 0x85
    ||| u == 0xa0
    ||| u == 0x1680
    ||| 0x2000 <= u <= 0x200a
    ||| u == 0x2028
    ||| u == 0x2029
    ||| u == 0x202f
    ||| u == 0x205f
    ||| u == 0x3000
}

/// `text` with every maximal run of whitespace replaced by `with`.
///
/// Read from the left, a whitespace character that does not follow another one
/// opens a run and becomes `with`; the other characters of the run vanish; every
/// other character stays.
pub open spec fn replaced_runs(text: Seq<char>, with: Seq<char>) -> Seq<char>
    decreases text.len(),
{
    if text.len() == 0 {
        text
    } else {
        let before = replaced_runs(text.drop_last(), with);
        if !is_space(text.last()) {
            before.push(text.last())
        } else if text.len() >= 2 && is_space(text[text.len() - 2]) {
            before
        } else {
            before + with
        }
    }
}

/// `text` with every maximal run of whitespace replaced by one space.
pub open spec fn collapsed(text: Seq<char>) -> Seq<char> {
    replaced_runs(text, seq![' '])
}

/// `text` without its leading whitespace.
pub open spec fn trim_start(text: Seq<char>) -> Seq<char>
    decreases text.len(),
{
    if text.len() > 0 && is_space(text[0]) {
        trim_start(text.drop_first())
    } else {
        text
    }
}

/// `text` without its trailing whitespace.
pub open spec fn trim_end(text: Seq<char>) -> Seq<char>
    decreases text.len(),
{
    if text.len() > 0 && is_space(text.last()) {
        trim_end(text.drop_last())
    } else {
        text
    }
}

/// `text` without its leading and trailing whitespace.
pub open spec fn trimmed(text: Seq<char>) -> Seq<char> {
    trim_end(trim_start(text))
}

/// The normal form of `text`: whitespace runs collapsed to one space each, then
/// the space at either end removed.
pub open spec fn normalized(text: Seq<char>) -> Seq<char> {
    trimmed(collapsed(text))
}

/// The pattern that matches one maximal run of whitespace.
pub open spec fn whitespace_run_pattern() -> Seq<char> {
    seq!['\\', 's', '+']
}

/// What one character becomes in escaped text.
pub open spec fn entity(c: char) -> Seq<char> {
    if c == '&' {
        seq!['&', 'a', 'm', 'p', ';']
    } else if c == '<' {
        seq!['&', 'l', 't', ';']
    } else if c == '>' {
        seq!['&', 'g', 't', ';']
    } else if c == '"' {
        seq!['&', 'q', 'u', 'o', 't', ';']
    } else if c == '\'' {
        seq!['&', '#', '3', '9', ';']
    } else {
        seq![c]
    }
}

/// `text` with `&`, `<`, `>` and both quotes replaced by their entities.
pub open spec fn escaped(text: Seq<char>) -> Seq<char>
    decreases text.len(),
{
    if text.len() == 0 {
        text
    } else {
        escaped(text.drop_last()) + entity(text.last())
    }
}

/// Whether the whitespace of `text` is single spaces: each whitespace character
/// is a space and does not follow another whitespace character.
pub open spec fn single_spaced(text: Seq<char>) -> bool {
    forall|i: int|
        0 <= i < text.len() && is_space(#[trigger] text[i]) ==> text[i] == ' ' && (i > 0
            ==> !is_space(text[i - 1]))
}

/// Whether `text` neither begins nor ends with whitespace.
pub open spec fn tight(text: Seq<char>) -> bool {
    text.len() > 0 ==> !is_space(text[0]) && !is_space(text.last())
}

/// Collapsed text is single-spaced, and ends in whitespace exactly when the text
/// it was made of does.
pub proof fn lemma_collapsed_single_spaced(text: Seq<char>)
    ensures
        single_spaced(collapsed(text)),
        (collapsed(text).len() > 0 && is_space(collapsed(text).last())) <==> (text.len() > 0
            && is_space(text.last())),
    decreases text.len(),
{
    if text.len() > 0 {
        let rest = text.drop_last();
        lemma_collapsed_single_spaced(rest);
        let before = collapsed(rest);
        if !is_space(text.last()) {
            assert(collapsed(text) =~= before.push(text.last()));
        } else if text.len() >= 2 && is_space(text[text.len() - 2]) {
            assert(rest.last() == text[text.len() - 2]);
            assert(collapsed(text) =~= before);
        } else {
            assert(text.len() >= 2 ==> rest.last() == text[text.len() - 2]);
            assert(collapsed(text) =~= before.push(' '));
        }
    }
}

/// Collapsing leaves single-spaced text as it is.
pub proof fn lemma_single_spaced_is_collapsed(text: Seq<char>)
    requires
        single_spaced(text),
    ensures
        collapsed(text) == text,
    decreases text.len(),
{
    if text.len() > 0 {
        let rest = text.drop_last();
        assert(single_spaced(rest)) by {
            assert forall|i: int| 0 <= i < rest.len() && is_space(#[trigger] rest[i]) implies rest[i]
                == ' ' && (i > 0 ==> !is_space(rest[i - 1])) by {
                assert(rest[i] == text[i]);
            }
        }
        lemma_single_spaced_is_collapsed(rest);
        let last = text.len() - 1;
        assert(is_space(text[last]) ==> text[last] == ' ' && (last > 0 ==> !is_space(
            text[last - 1],
        )));
        assert(text =~= rest.push(text.last()));
        assert(rest.push(' ') =~= rest + seq![' ']);
    }
}

/// Trimming at the front keeps single-spaced text single-spaced, and leaves
/// nothing or a first character that is no whitespace.
pub proof fn lemma_trim_start(text: Seq<char>)
    ensures
        single_spaced(text) ==> single_spaced(trim_start(text)),
        trim_start(text).len() > 0 ==> !is_space(trim_start(text)[0]),
        trim_start(text).len() > 0 ==> text.len() > 0 && trim_start(text).last() == text.last(),
    decreases text.len(),
{
    if text.len() > 0 && is_space(text[0]) {
        let rest = text.drop_first();
        lemma_trim_start(rest);
        if single_spaced(text) {
            assert forall|i: int| 0 <= i < rest.len() && is_space(#[trigger] rest[i]) implies rest[i]
                == ' ' && (i > 0 ==> !is_space(rest[i - 1])) by {
                assert(rest[i] == text[i + 1]);
            }
        }
    }
}

/// Trimming at the back keeps single-spaced text single-spaced, keeps the first
/// character, and leaves nothing or a last character that is no whitespace.
pub proof fn lemma_trim_end(text: Seq<char>)
    ensures
        single_spaced(text) ==> single_spaced(trim_end(text)),
        trim_end(text).len() > 0 ==> !is_space(trim_end(text).last()),
        trim_end(text).len() > 0 ==> text.len() > 0 && trim_end(text)[0] == text[0],
    decreases text.len(),
{
    if text.len() > 0 && is_space(text.last()) {
        let rest = text.drop_last();
        lemma_trim_end(rest);
        if single_spaced(text) {
            assert forall|i: int| 0 <= i < rest.len() && is_space(#[trigger] rest[i]) implies rest[i]
                == ' ' && (i > 0 ==> !is_space(rest[i - 1])) by {
                assert(rest[i] == text[i]);
            }
        }
    }
}

/// Normal text is single-spaced and has no whitespace at either end.
pub proof fn lemma_normalized_shape(text: Seq<char>)
    ensures
        single_spaced(normalized(text)),
        tight(normalized(text)),
{
    lemma_collapsed_single_spaced(text);
    lemma_trim_start(collapsed(text));
    lemma_trim_end(trim_start(collapsed(text)));
}

/// Normalising is idempotent: the normal form of a normal form is itself.
pub proof fn lemma_normalize_idempotent(text: Seq<char>)
    ensures
        normalized(normalized(text)) == normalized(text),
{
    let once = normalized(text);
    lemma_normalized_shape(text);
    lemma_single_spaced_is_collapsed(once);
}

/// Escaped text holds none of `<`, `>`, `"` and `'`: it cannot begin or end a
/// tag or an attribute value.
pub proof fn lemma_escaped_is_plain(text: Seq<char>)
    ensures
        forall|i: int|
            0 <= i < escaped(text).len() ==> {
                let c = #[trigger] escaped(text)[i];
                c != '<' && c != '>' && c != '"' && c != '\''
            },
    decreases text.len(),
{
    if text.len() > 0 {
        lemma_escaped_is_plain(text.drop_last());
        let before = escaped(text.drop_last());
        let last = entity(text.last());
        assert forall|k: int| 0 <= k < last.len() implies {
            let c = #[trigger] last[k];
            c != '<' && c != '>' && c != '"' && c != '\''
        } by {}
        assert forall|i: int| 0 <= i < escaped(text).len() implies {
            let c = #[trigger] escaped(text)[i];
            c != '<' && c != '>' && c != '"' && c != '\''
        } by {
            if i < before.len() {
                assert(escaped(text)[i] == before[i]);
            } else {
                assert(escaped(text)[i] == last[i - before.len()]);
            }
        }
    }
}

/// `String::push` appends one character.
pub assume_specification[ String::push ](s: &mut String, c: char)
    ensures
        final(s)@ == old(s)@.push(c),
;

/// `str::trim` returns the slice without leading and trailing whitespace, where
/// whitespace is what the Unicode property `White_Space` says.
pub assume_specification[ str::trim ](s: &str) -> (r: &str)
    ensures
        r@ == trimmed(s@),
;

/// The regex crate's `Regex`: a compiled pattern.
#[verifier::external_type_specification]
#[verifier::external_body]
pub struct ExRegex(regex::Regex);

/// The pattern that a regex was compiled from, which is what `Regex::as_str`
/// returns.
pub uninterp spec fn pattern_of(regex: regex::Regex) -> Seq<char>;

/// `Regex::new` of the regex crate, for the one pattern `\s+`, which compiles.
/// The regex holds the pattern it was made from.
#[verifier::external_body]
fn compile(pattern: &str) -> (r: regex::Regex)
    requires
        pattern@ == whitespace_run_pattern(),
    ensures
        pattern_of(r) == pattern@,
{
    regex::Regex::new(pattern).unwrap()
}

/// `Regex::replace_all` of the regex crate, for the one pattern `\s+`: every
/// match, that is every maximal run of `White_Space` characters, is replaced by
/// `with`, which holds no `$` and is therefore taken literally.
#[verifier::external_body]
fn replace_all(regex: &regex::Regex, text: &str, with: &str) -> (r: String)
    requires
        pattern_of(*regex) == whitespace_run_pattern(),
        !with@.contains('$'),
    ensures
        r@ == replaced_runs(text@, with@),
{
    regex.replace_all(text, with).into_owned()
}

/// Whether `c` is whitespace.
pub fn is_whitespace(c: char) -> (r: bool)
    ensures
        r == is_space(c),
{
    let u: u32 = c as u32;
    (0x09 <= u && u <= 0x0d) || u == 0x20 || u == 0x85 || u == 0xa0 || u == 0x1680 || (0x2000 <= u
        && u <= 0x200a) || u == 0x2028 || u == 0x2029 || u == 0x202f || u == 0x205f || u == 0x3000
}

/// Brings text into its normal form. It holds the compiled pattern for runs of
/// whitespace, so that many texts are normalised with one compilation.
pub struct Normalizer {
    runs: regex::Regex,
}

impl Normalizer {
    #[verifier::type_invariant]
    spec fn holds_the_pattern(self) -> bool {
        pattern_of(self.runs) == whitespace_run_pattern()
    }

    /// The pattern that the normaliser holds in compiled form.
    pub closed spec fn pattern(&self) -> Seq<char> {
        pattern_of(self.runs)
    }

    /// Compiles the pattern for one maximal run of whitespace.
    pub fn new() -> (r: Normalizer)
        ensures
            r.pattern() == whitespace_run_pattern(),
    {
        proof {
            reveal_strlit("\\s+");
        }
        assert("\\s+"@ =~= whitespace_run_pattern());
        Normalizer { runs: compile("\\s+") }
    }

    /// Collapses every run of whitespace in `text` to one space and trims the
    /// ends.
    pub fn normalize(&self, text: &str) -> (r: String)
        ensures
            r@ == normalized(text@),
    {
        proof {
            use_type_invariant(self);
            reveal_strlit(" ");
        }
        assert(" "@ =~= seq![' ']);
        let collapsed = replace_all(&self.runs, text, " ");
        collapsed.as_str().trim().to_owned()
    }
}

/// Collapses every run of whitespace in `text` to one space and trims the ends.
pub fn normalize(text: &str) -> (r: String)
    ensures
        r@ == normalized(text@),
{
    Normalizer::new().normalize(text)
}

/// Replaces `&`, `<`, `>`, `"` and `'` in `text` by their entities.
pub fn escape(text: &str) -> (r: String)
    ensures
        r@ == escaped(text@),
{
    proof {
        reveal_strlit("&amp;");
        reveal_strlit("&lt;");
        reveal_strlit("&gt;");
        reveal_strlit("&quot;");
        reveal_strlit("&#39;");
        assert("&amp;"@ =~= entity('&'));
        assert("&lt;"@ =~= entity('<'));
        assert("&gt;"@ =~= entity('>'));
        assert("&quot;"@ =~= entity('"'));
        assert("&#39;"@ =~= entity('\''));
    }
    let mut out = String::new();
    for c in it: text.chars()
        invariant
            it.seq() == text@,
            out@ == escaped(text@.take(it.index())),
            "&amp;"@ == entity('&'),
            "&lt;"@ == entity('<'),
            "&gt;"@ == entity('>'),
            "&quot;"@ == entity('"'),
            "&#39;"@ == entity('\''),
    {
        let ghost done = text@.take(it.index());
        let ghost next = text@.take(it.index() + 1);
        assert(next.drop_last() =~= done);
        assert(next.last() == c);
        if c == '&' {
            out.append("&amp;");
        } else if c == '<' {
            out.append("&lt;");
        } else if c == '>' {
            out.append("&gt;");
        } else if c == '"' {
            out.append("&quot;");
        } else if c == '\'' {
            out.append("&#39;");
        } else {
            out.push(c);
        }
        assert(out@ =~= escaped(done) + entity(c));
    }
    assert(text@.take(text@.len() as int) =~= text@);
    out
}

} // verus!
