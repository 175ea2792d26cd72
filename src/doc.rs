//! Parsing of a documentation hunk into entries: an optional leading brief,
//! then `@name content` entries.
use vstd::prelude::*;
use crate::source::{classified, classify_lines, meld_neighbors, merged, models, HunkModel, SourceHunk};
use crate::text::{
    chars_of, lemma_skip_space_bounds, skip_space, skip_whitespace, string_from, sub_vec, trim,
    trim_vec,
};

verus! {

/// Whether `c` has Unicode's Alphabetic property.
pub uninterp spec fn alphabetic(c: char) -> bool;

/// Relies on char::is_alphabetic: true exactly for the characters with
/// Unicode's Alphabetic property, a function of the character alone.
#[verifier::external_body]
fn is_letter(c: char) -> (r: bool)
    ensures
        r == alphabetic(c),
{
    c.is_alphabetic()
}

/// One entry of a documentation hunk.
#[derive(Clone, Debug, PartialEq, Eq)]
pub struct DocEntry {
    pub name: String,
    pub content: String,
}

/// Why a documentation hunk could not be parsed; each carries the index
/// (in characters) where the parse stopped.
#[derive(Clone, Copy, Debug, PartialEq, Eq)]
pub enum DocError {
    /// An `@` is not followed by a letter.
    MissingName(usize),
    /// A tag's name is not followed by whitespace.
    MissingSeparator(usize),
}

/// An entry as its name and content.
pub type EntryModel = (Seq<char>, Seq<char>);

impl DocEntry {
    pub open spec fn model(&self) -> EntryModel {
        (self.name@, self.content@)
    }
}

/// The models of a sequence of entries.
pub open spec fn entry_models(s: Seq<DocEntry>) -> Seq<EntryModel> {
    s.map_values(|e: DocEntry| e.model())
}

/// The outcome of a parse, over models.
pub open spec fn outcome(r: Result<Vec<DocEntry>, DocError>) -> Result<Seq<EntryModel>, DocError> {
    match r {
        Ok(v) => Ok(entry_models(v@)),
        Err(e) => Err(e),
    }
}

/// The name given to the text before the first tag.
pub open spec fn brief_name() -> Seq<char> {
    seq!['b', 'r', 'i', 'e', 'f']
}

/// Whether each character of `s` is alphabetic.
pub open spec fn letters_of(s: Seq<char>) -> Seq<bool> {
    s.map_values(|c: char| alphabetic(c))
}

/// The first index at or after `i` that holds `@`, or the length.
pub open spec fn next_tag(s: Seq<char>, i: int) -> int
    decreases s.len() - i,
{
    if i < 0 || i >= s.len() {
        s.len() as int
    } else if s[i] == '@' {
        i
    } else {
        next_tag(s, i + 1)
    }
}

/// The first index at or after `i` that `letters` does not mark, or the length.
pub open spec fn name_end(letters: Seq<bool>, i: int) -> int
    decreases letters.len() - i,
{
    if i < 0 || i >= letters.len() {
        letters.len() as int
    } else if letters[i] {
        name_end(letters, i + 1)
    } else {
        i
    }
}

proof fn lemma_next_tag(s: Seq<char>, i: int)
    requires
        0 <= i <= s.len(),
    ensures
        i <= next_tag(s, i) <= s.len(),
        forall|k: int| i <= k < next_tag(s, i) ==> #[trigger] s[k] != '@',
    decreases s.len() - i,
{
    if i < s.len() && s[i] != '@' {
        lemma_next_tag(s, i + 1);
    }
}

proof fn lemma_name_end(letters: Seq<bool>, i: int)
    requires
        0 <= i <= letters.len(),
    ensures
        i <= name_end(letters, i) <= letters.len(),
    decreases letters.len() - i,
{
    if i < letters.len() && letters[i] {
        lemma_name_end(letters, i + 1);
    }
}

/// The tags of `s` from the `@` at index `i` on: each is `@`, a name of
/// letters, whitespace, and a content that runs to the next `@` or the end,
/// without its trailing whitespace.
pub open spec fn parse_tags(s: Seq<char>, letters: Seq<bool>, i: int) -> Result<
    Seq<EntryModel>,
    DocError,
>
    decreases s.len() - i via parse_tags_decreases
{
    if i < 0 || i >= s.len() || letters.len() != s.len() {
        Ok(Seq::empty())
    } else {
        let n = name_end(letters, i + 1);
        if n == i + 1 {
            Err(DocError::MissingName((i + 1) as usize))
        } else {
            let w = skip_space(s, n);
            if w == n {
                Err(DocError::MissingSeparator(n as usize))
            } else {
                let e = next_tag(s, w);
                match parse_tags(s, letters, e) {
                    Ok(rest) => Ok(seq![(s.subrange(i + 1, n), trim(s.subrange(w, e)))] + rest),
                    Err(x) => Err(x),
                }
            }
        }
    }
}

#[via_fn]
proof fn parse_tags_decreases(s: Seq<char>, letters: Seq<bool>, i: int) {
    if 0 <= i < s.len() && letters.len() == s.len() {
        lemma_name_end(letters, i + 1);
        let n = name_end(letters, i + 1);
        lemma_skip_space_bounds(s, n);
        lemma_next_tag(s, skip_space(s, n));
    }
}

/// `acc` followed by what `r` holds, or the error of `r`.
pub open spec fn after(acc: Seq<EntryModel>, r: Result<Seq<EntryModel>, DocError>) -> Result<
    Seq<EntryModel>,
    DocError,
> {
    match r {
        Ok(rest) => Ok(acc + rest),
        Err(e) => Err(e),
    }
}

/// A documentation hunk parsed, under the given letter classification: the
/// text before the first `@`, trimmed, as an entry named "brief" where it is
/// not empty, then the tags.
pub open spec fn parse_doc(s: Seq<char>, letters: Seq<bool>) -> Result<Seq<EntryModel>, DocError> {
    let f = next_tag(s, 0);
    let b = trim(s.subrange(0, f));
    let brief = if b.len() > 0 {
        seq![(brief_name(), b)]
    } else {
        Seq::empty()
    };
    after(brief, parse_tags(s, letters, f))
}

fn find_tag(v: &Vec<char>, i: usize) -> (r: usize)
    requires
        i <= v@.len(),
    ensures
        r as int == next_tag(v@, i as int),
{
    let mut j: usize = i;
    while j < v.len() && v[j] != '@'
        invariant
            i <= j <= v@.len(),
            next_tag(v@, i as int) == next_tag(v@, j as int),
        decreases v.len() - j,
    {
        j = j + 1;
    }
    j
}

fn find_name_end(letters: &Vec<bool>, i: usize) -> (r: usize)
    requires
        i <= letters@.len(),
    ensures
        r as int == name_end(letters@, i as int),
{
    let mut j: usize = i;
    while j < letters.len() && letters[j]
        invariant
            i <= j <= letters@.len(),
            name_end(letters@, i as int) == name_end(letters@, j as int),
        decreases letters.len() - j,
    {
        j = j + 1;
    }
    j
}

fn parse_chars(v: &Vec<char>, letters: &Vec<bool>) -> (r: Result<Vec<DocEntry>, DocError>)
    requires
        letters@.len() == v@.len(),
    ensures
        outcome(r) == parse_doc(v@, letters@),
{
    let ghost s = v@;
    let ghost target = parse_doc(s, letters@);
    let n = v.len();
    assert(s.subrange(0, n as int) =~= s);
    let mut out: Vec<DocEntry> = Vec::new();
    let f = find_tag(v, 0);
    proof {
        lemma_next_tag(s, 0);
    }
    let head = sub_vec(v, 0, f);
    let b = trim_vec(&head);
    if b.len() > 0 {
        proof {
            reveal_strlit("brief");
        }
        let name = "brief".to_owned();
        assert(name@ =~= brief_name());
        out.push(DocEntry { name, content: string_from(&b, 0, b.len()) });
    }
    proof {
        assert(b@.subrange(0, b@.len() as int) =~= b@);
        assert(entry_models(out@) =~= (if b@.len() > 0 {
            seq![(brief_name(), b@)]
        } else {
            Seq::empty()
        }));
    }
    let mut i: usize = f;
    while i < n
        invariant
            s == v@,
            n == s.len(),
            letters@.len() == n,
            i <= n,
            target == parse_doc(s, letters@),
            target == after(entry_models(out@), parse_tags(s, letters@, i as int)),
        decreases n - i,
    {
        let e1 = find_name_end(letters, i + 1);
        if e1 == i + 1 {
            return Err(DocError::MissingName(i + 1));
        }
        proof {
            lemma_name_end(letters@, i + 1);
        }
        let w = skip_whitespace(v, e1, n);
        proof {
            assert(s.subrange(0, n as int) =~= s);
            lemma_skip_space_bounds(s, e1 as int);
        }
        if w == e1 {
            return Err(DocError::MissingSeparator(e1));
        }
        let e = find_tag(v, w);
        proof {
            lemma_next_tag(s, w as int);
        }
        let raw = sub_vec(v, w, e);
        let c = trim_vec(&raw);
        assert(c@.subrange(0, c@.len() as int) =~= c@);
        let entry = DocEntry { name: string_from(v, i + 1, e1), content: string_from(&c, 0, c.len()) };
        let ghost before = entry_models(out@);
        out.push(entry);
        proof {
            assert(entry_models(out@) =~= before.push(entry.model()));
            match parse_tags(s, letters@, e as int) {
                Ok(rest) => {
                    assert(before + (seq![entry.model()] + rest) =~= before.push(entry.model()) + rest);
                },
                Err(x) => {},
            }
        }
        i = e;
    }
    Ok(out)
}

impl DocEntry {
    /// Parses a documentation hunk, with `letters[k]` standing for whether
    /// the `k`-th character of `text` may stand in a tag's name.
    pub fn parse_classified(text: &str, letters: &Vec<bool>) -> (r: Result<Vec<DocEntry>, DocError>)
        requires
            letters@.len() == text@.len(),
        ensures
            outcome(r) == parse_doc(text@, letters@),
    {
        let v = chars_of(text);
        parse_chars(&v, letters)
    }

    /// Parses a documentation hunk: the text before the first `@`, trimmed,
    /// becomes an entry named "brief" where it is not empty; each
    /// `@name content` becomes an entry, with the whitespace around the
    /// content dropped. A tag
    /// without a name, or whose name is not followed by whitespace, fails
    /// the whole hunk.
    pub fn parse_from(text: &str) -> (r: Result<Vec<DocEntry>, DocError>)
        ensures
            outcome(r) == parse_doc(text@, letters_of(text@)),
    {
        let v = chars_of(text);
        let mut letters: Vec<bool> = Vec::new();
        let mut i: usize = 0;
        while i < v.len()
            invariant
                i <= v@.len(),
                letters@ == letters_of(v@).take(i as int),
            decreases v.len() - i,
        {
            letters.push(is_letter(v[i]));
            i = i + 1;
            assert(letters@ =~= letters_of(v@).take(i as int));
        }
        assert(letters@ =~= letters_of(v@));
        parse_chars(&v, &letters)
    }
}

/// A hunk with its documentation parsed.
#[derive(Clone, Debug, PartialEq, Eq)]
pub enum Entry {
    /// A code hunk's text.
    Code(String),
    /// A documentation hunk's entries.
    Doc(Vec<DocEntry>),
    /// A documentation hunk that could not be parsed: its text, and why.
    Malformed(String, DocError),
}

/// Whether `e` is what the hunk `h` becomes: code stays as it is; the text
/// of documentation is parsed, and kept with the error where that fails.
pub open spec fn describes(e: Entry, h: HunkModel) -> bool {
    if !h.0 {
        e is Code && e->Code_0@ == h.1
    } else {
        match parse_doc(h.1, letters_of(h.1)) {
            Ok(es) => e is Doc && entry_models(e->Doc_0@) == es,
            Err(x) => e is Malformed && e->Malformed_0@ == h.1 && e->Malformed_1 == x,
        }
    }
}

impl Entry {
    /// The entry that a hunk becomes.
    pub fn from(hunk: SourceHunk) -> (r: Entry)
        ensures
            describes(r, hunk.model()),
    {
        match hunk {
            SourceHunk::Code(text) => Entry::Code(text),
            SourceHunk::Doc(text) => match DocEntry::parse_from(text.as_str()) {
                Ok(entries) => Entry::Doc(entries),
                Err(error) => Entry::Malformed(text, error),
            },
        }
    }
}

/// The whole extraction: `source_text` split into lines, classified under
/// `marker`, merged into hunks, and each hunk turned into an entry. A hunk
/// that fails to parse is reported in its own place; the others are kept.
pub fn extract(source_text: &str, marker: &str) -> (r: Vec<Entry>)
    ensures
        r@.len() == merged(classified(source_text@, marker@)).len(),
        forall|i: int|
            0 <= i < r@.len() ==> describes(#[trigger] r@[i], merged(classified(source_text@, marker@))[i]),
{
    let hunks = meld_neighbors(classify_lines(source_text, marker));
    let ghost m = merged(classified(source_text@, marker@));
    assert(models(hunks@).len() == hunks@.len());
    let mut out: Vec<Entry> = Vec::new();
    let ghost hs = hunks@;
    for h in it: hunks
        invariant
            models(hs) == m,
            it.seq() == hs,
            out@.len() == it.index(),
            forall|i: int| 0 <= i < out@.len() ==> describes(#[trigger] out@[i], m[i]),
    {
        assert(h.model() == m[out@.len() as int]);
        out.push(Entry::from(h));
    }
    out
}

} // verus!
