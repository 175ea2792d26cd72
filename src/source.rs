//! Classification of source lines as code or documentation, and the merge
//! of neighbouring lines of one kind into hunks.
use vstd::prelude::*;
use crate::text::{begins_with, chars_of, has_prefix, push_all, push_char, string_from, sub_vec, trim, trim_vec};

verus! {

/// A line, or a run of lines, of one kind.
#[derive(Clone, Debug, PartialEq, Eq)]
pub enum SourceHunk {
    Code(String),
    Doc(String),
}

/// A hunk as a kind (true for documentation) and its text.
pub type HunkModel = (bool, Seq<char>);

impl SourceHunk {
    pub open spec fn model(&self) -> HunkModel {
        match self {
            SourceHunk::Code(t) => (false, t@),
            SourceHunk::Doc(t) => (true, t@),
        }
    }
}

/// The models of a sequence of hunks.
pub open spec fn models(s: Seq<SourceHunk>) -> Seq<HunkModel> {
    s.map_values(|h: SourceHunk| h.model())
}

/// The marker that opens a documentation line unless another one is given.
pub open spec fn default_marker() -> Seq<char> {
    seq!['#', '#']
}

/// The first index at or after `i` that holds a line feed, or the length.
pub open spec fn next_newline(s: Seq<char>, i: int) -> int
    decreases s.len() - i,
{
    if i < 0 || i >= s.len() {
        s.len() as int
    } else if s[i] == '\n' {
        i
    } else {
        next_newline(s, i + 1)
    }
}

/// `p` without one carriage return at its end.
pub open spec fn strip_cr(p: Seq<char>) -> Seq<char> {
    if p.len() > 0 && p.last() == '\r' {
        p.drop_last()
    } else {
        p
    }
}

/// The lines of `s` from index `i` on: split at each "\n" or "\r\n", the
/// endings dropped, with no empty line after a final ending.
pub open spec fn lines_from(s: Seq<char>, i: int) -> Seq<Seq<char>>
    decreases s.len() - i via lines_from_decreases
{
    if i < 0 || i >= s.len() {
        Seq::empty()
    } else {
        let k = next_newline(s, i);
        if k >= s.len() {
            seq![s.subrange(i, s.len() as int)]
        } else {
            seq![strip_cr(s.subrange(i, k))] + lines_from(s, k + 1)
        }
    }
}

#[via_fn]
proof fn lines_from_decreases(s: Seq<char>, i: int) {
    if 0 <= i < s.len() {
        lemma_next_newline(s, i);
    }
}

/// The lines of `s`.
pub open spec fn lines(s: Seq<char>) -> Seq<Seq<char>> {
    lines_from(s, 0)
}

/// One line classified: documentation, with the marker and the surrounding
/// whitespace taken off, when its trimmed text begins with the marker; else
/// code, as it stands.
pub open spec fn classify_line(l: Seq<char>, marker: Seq<char>) -> HunkModel {
    let t = trim(l);
    if begins_with(t, marker) {
        (true, trim(t.subrange(marker.len() as int, t.len() as int)))
    } else {
        (false, l)
    }
}

/// The lines of `s`, each classified.
pub open spec fn classified(s: Seq<char>, marker: Seq<char>) -> Seq<HunkModel> {
    lines(s).map_values(|l: Seq<char>| classify_line(l, marker))
}

proof fn lemma_next_newline(s: Seq<char>, i: int)
    requires
        0 <= i <= s.len(),
    ensures
        i <= next_newline(s, i) <= s.len(),
        next_newline(s, i) < s.len() ==> s[next_newline(s, i)] == '\n',
    decreases s.len() - i,
{
    if i < s.len() && s[i] != '\n' {
        lemma_next_newline(s, i + 1);
    }
}

/// Index of the first line feed at or after `i`, or the length.
fn find_newline(v: &Vec<char>, i: usize) -> (r: usize)
    requires
        i <= v@.len(),
    ensures
        r as int == next_newline(v@, i as int),
{
    let mut j: usize = i;
    while j < v.len() && v[j] != '\n'
        invariant
            i <= j <= v@.len(),
            next_newline(v@, i as int) == next_newline(v@, j as int),
        decreases v.len() - j,
    {
        j = j + 1;
    }
    j
}

/// Classifies one line.
fn classify(line: &Vec<char>, marker: &Vec<char>) -> (r: SourceHunk)
    ensures
        r.model() == classify_line(line@, marker@),
{
    let t = trim_vec(line);
    if has_prefix(&t, marker) {
        let rest = sub_vec(&t, marker.len(), t.len());
        let d = trim_vec(&rest);
        SourceHunk::Doc(string_from(&d, 0, d.len()))
    } else {
        assert(line@.subrange(0, line@.len() as int) =~= line@);
        SourceHunk::Code(string_from(line, 0, line.len()))
    }
}

/// Splits `source_text` into lines and classifies each under the default
/// marker "##".
pub fn to_source_elements(source_text: String) -> (r: Vec<SourceHunk>)
    ensures
        models(r@) == classified(source_text@, default_marker()),
        source_text@.len() == 0 ==> r@.len() == 0,
{
    proof {
        reveal_strlit("##");
    }
    let marker = "##";
    assert(marker@ =~= default_marker());
    let r = classify_lines(source_text.as_str(), marker);
    assert(models(r@).len() == r@.len());
    r
}

/// Splits `text` into lines and classifies each: a line whose trimmed text
/// begins with `marker` is documentation, any other is code.
pub fn classify_lines(text: &str, marker: &str) -> (r: Vec<SourceHunk>)
    ensures
        models(r@) == classified(text@, marker@),
{
    let v = chars_of(text);
    let m = chars_of(marker);
    let n = v.len();
    let mut out: Vec<SourceHunk> = Vec::new();
    let ghost mut done: Seq<Seq<char>> = Seq::empty();
    let mut i: usize = 0;
    while i < n
        invariant
            n == v@.len(),
            v@ == text@,
            m@ == marker@,
            i <= n,
            lines(v@) == done + lines_from(v@, i as int),
            models(out@) == done.map_values(|l: Seq<char>| classify_line(l, marker@)),
        decreases n - i,
    {
        let k = find_newline(&v, i);
        proof {
            lemma_next_newline(v@, i as int);
        }
        let mut e = k;
        if k < n && e > i && v[e - 1] == '\r' {
            e = e - 1;
        }
        let line = sub_vec(&v, i, e);
        let h = classify(&line, &m);
        let ghost piece = if k < n {
            strip_cr(v@.subrange(i as int, k as int))
        } else {
            v@.subrange(i as int, n as int)
        };
        assert(line@ =~= piece);
        assert(lines_from(v@, i as int) =~= seq![piece] + lines_from(v@, k + 1));
        let ghost before = out@;
        out.push(h);
        proof {
            assert(models(out@) =~= models(before).push(h.model()));
            assert(done.push(piece).map_values(|l: Seq<char>| classify_line(l, marker@))
                =~= done.map_values(|l: Seq<char>| classify_line(l, marker@)).push(classify_line(piece, marker@)));
            assert(done.push(piece) + lines_from(v@, k + 1) =~= done + lines_from(v@, i as int));
            done = done.push(piece);
            assert(models(out@) =~= done.map_values(|l: Seq<char>| classify_line(l, marker@)));
        }
        i = if k < n { k + 1 } else { n };
    }
    assert(done =~= lines(v@));
    out
}

/// `x` appended to the text `buf` of a run, with a line feed between them
/// only where `buf` is not empty.
pub open spec fn append_line(buf: Seq<char>, x: Seq<char>) -> Seq<char> {
    if buf.len() == 0 {
        x
    } else {
        buf + seq!['\n'] + x
    }
}

/// The hunks of `l`: each maximal run of lines of one kind becomes one hunk
/// of that kind, whose text is the run's lines joined by `append_line`.
pub open spec fn merged(l: Seq<HunkModel>) -> Seq<HunkModel>
    decreases l.len(),
{
    if l.len() == 0 {
        Seq::empty()
    } else {
        let m = merged(l.drop_last());
        let x = l.last();
        if m.len() > 0 && m.last().0 == x.0 {
            m.update(m.len() - 1, (x.0, append_line(m.last().1, x.1)))
        } else {
            m.push(x)
        }
    }
}

/// No two neighbouring hunks of `m` are of one kind.
pub open spec fn alternating(m: Seq<HunkModel>) -> bool {
    forall|i: int| 0 <= i < m.len() - 1 ==> #[trigger] m[i].0 != m[i + 1].0
}

fn hunk_of(doc: bool, t: String) -> (r: SourceHunk)
    ensures
        r.model() == (doc, t@),
{
    if doc {
        SourceHunk::Doc(t)
    } else {
        SourceHunk::Code(t)
    }
}

fn parts_of(h: &SourceHunk) -> (r: (bool, &String))
    ensures
        h.model() == (r.0, r.1@),
{
    match h {
        SourceHunk::Code(t) => (false, t),
        SourceHunk::Doc(t) => (true, t),
    }
}

/// Merges each maximal run of neighbouring lines of one kind into one hunk
/// of that kind, in order.
pub fn meld_neighbors(source_lines: Vec<SourceHunk>) -> (r: Vec<SourceHunk>)
    ensures
        models(r@) == merged(models(source_lines@)),
        alternating(models(r@)),
        source_lines@.len() == 0 <==> r@.len() == 0,
{
    let ghost l = models(source_lines@);
    let n = source_lines.len();
    let mut out: Vec<SourceHunk> = Vec::new();
    if n == 0 {
        proof {
            assert(models(out@) =~= Seq::<HunkModel>::empty());
        }
        return out;
    }
    let (first_doc, first_text) = parts_of(&source_lines[0]);
    let mut doc = first_doc;
    let mut part = first_text.clone();
    proof {
        assert(l.take(1).drop_last() =~= Seq::<HunkModel>::empty());
        assert(merged(l.take(1).drop_last()) =~= Seq::<HunkModel>::empty());
        assert(l.take(1).last() == (doc, part@));
        assert(merged(l.take(1)) =~= models(out@).push((doc, part@)));
    }
    let mut i: usize = 1;
    while i < n
        invariant
            n == source_lines@.len(),
            l == models(source_lines@),
            1 <= i <= n,
            merged(l.take(i as int)) == models(out@).push((doc, part@)),
        decreases n - i,
    {
        let (d, t) = parts_of(&source_lines[i]);
        let ghost before = models(out@).push((doc, part@));
        proof {
            assert(l.take(i + 1).drop_last() =~= l.take(i as int));
            assert(l.take(i + 1).last() == (d, t@));
        }
        if d == doc {
            let ghost old_part = part@;
            if !part.as_str().is_empty() {
                push_char(&mut part, '\n');
            }
            push_all(&mut part, t.as_str());
            proof {
                assert(part@ =~= append_line(old_part, t@));
                assert(before.last() == (doc, old_part));
                assert(before.update(before.len() - 1, (doc, part@)) =~= models(out@).push((doc, part@)));
                assert(merged(l.take(i + 1)) =~= models(out@).push((doc, part@)));
            }
        } else {
            let ghost out_before = out@;
            let done = hunk_of(doc, part);
            out.push(done);
            part = t.clone();
            doc = d;
            proof {
                assert(models(out@) =~= models(out_before).push(done.model()));
                assert(merged(l.take(i + 1)) =~= models(out@).push((doc, part@)));
            }
        }
        i = i + 1;
    }
    let ghost out_before = out@;
    let last = hunk_of(doc, part);
    out.push(last);
    proof {
        assert(models(out@) =~= models(out_before).push(last.model()));
        assert(l.take(n as int) =~= l);
        lemma_merged_alternating(l);
    }
    out
}

/// Merged hunks alternate in kind, and the last one has the kind of the
/// last line.
pub proof fn lemma_merged_alternating(l: Seq<HunkModel>)
    ensures
        alternating(merged(l)),
        l.len() > 0 ==> merged(l).len() > 0 && merged(l).last().0 == l.last().0,
        l.len() == 0 <==> merged(l).len() == 0,
    decreases l.len(),
{
    if l.len() > 0 {
        lemma_merged_alternating(l.drop_last());
        let m = merged(l.drop_last());
        let r = merged(l);
        if m.len() > 0 && m.last().0 == l.last().0 {
            assert forall|i: int| 0 <= i < r.len() - 1 implies #[trigger] r[i].0 != r[i + 1].0 by {
                assert(m[i].0 != m[i + 1].0);
            }
        } else {
            assert forall|i: int| 0 <= i < r.len() - 1 implies #[trigger] r[i].0 != r[i + 1].0 by {
                if i < m.len() - 1 {
                    assert(m[i].0 != m[i + 1].0);
                }
            }
        }
    }
}

/// The texts of `s` joined by line feeds.
pub open spec fn join_lines(s: Seq<Seq<char>>) -> Seq<char>
    decreases s.len(),
{
    if s.len() == 0 {
        Seq::empty()
    } else if s.len() == 1 {
        s[0]
    } else {
        join_lines(s.drop_last()) + seq!['\n'] + s.last()
    }
}

/// The texts of a sequence of hunks.
pub open spec fn texts(m: Seq<HunkModel>) -> Seq<Seq<char>> {
    m.map_values(|h: HunkModel| h.1)
}

/// No run of two or more lines of one kind opens with an empty line (the
/// merge drops the line feed after such a line).
pub open spec fn no_blank_run_start(l: Seq<HunkModel>) -> bool {
    forall|i: int|
        0 <= i < l.len() - 1 && (#[trigger] l[i]).1.len() == 0 && l[i + 1].0 == l[i].0 ==> i > 0
            && l[i - 1].0 == l[i].0
}

proof fn lemma_prefix_no_blank_run_start(l: Seq<HunkModel>)
    requires
        l.len() > 0,
        no_blank_run_start(l),
    ensures
        no_blank_run_start(l.drop_last()),
{
    let p = l.drop_last();
    assert forall|i: int|
        0 <= i < p.len() - 1 && (#[trigger] p[i]).1.len() == 0 && p[i + 1].0 == p[i].0 implies i > 0
            && p[i - 1].0 == p[i].0 by {
        assert(l[i] == p[i]);
    }
}

/// Inside a run of two or more lines the merged text is not empty.
proof fn lemma_run_text_nonempty(l: Seq<HunkModel>)
    requires
        no_blank_run_start(l),
        l.len() >= 2,
        l[l.len() - 2].0 == l[l.len() - 1].0,
    ensures
        merged(l).last().1.len() > 0,
    decreases l.len(),
{
    let p = l.drop_last();
    let m = merged(p);
    lemma_merged_alternating(p);
    lemma_prefix_no_blank_run_start(l);
    if m.last().1.len() == 0 {
        if p.len() >= 2 && p[p.len() - 2].0 == p[p.len() - 1].0 {
            lemma_run_text_nonempty(p);
        } else {
            if p.len() >= 2 {
                lemma_merged_alternating(p.drop_last());
                assert(merged(p.drop_last()).last().0 == p[p.len() - 2].0);
            } else {
                assert(p.drop_last().len() == 0);
            }
            assert(m.last() == p.last());
            let i = p.len() - 1;
            assert(l[i] == p.last());
        }
    }
}

/// Joining the merged hunks' texts with line feeds gives the classified
/// lines' texts joined with line feeds, wherever no run of two or more lines
/// opens with an empty line: no line is dropped or repeated.
pub proof fn lemma_merge_keeps_lines(l: Seq<HunkModel>)
    requires
        no_blank_run_start(l),
    ensures
        join_lines(texts(merged(l))) == join_lines(texts(l)),
    decreases l.len(),
{
    if l.len() > 0 {
        let p = l.drop_last();
        let x = l.last();
        let m = merged(p);
        lemma_prefix_no_blank_run_start(l);
        lemma_merge_keeps_lines(p);
        lemma_merged_alternating(p);
        assert(texts(l).drop_last() =~= texts(p));
        if p.len() == 0 {
            assert(merged(l) =~= seq![x]);
            assert(texts(l) =~= seq![x.1]);
            assert(texts(seq![x]) =~= seq![x.1]);
        } else if m.last().0 == x.0 {
            let t = m.last().1;
            if t.len() == 0 {
                if p.len() >= 2 && p[p.len() - 2].0 == p[p.len() - 1].0 {
                    lemma_run_text_nonempty(p);
                } else {
                    if p.len() >= 2 {
                        lemma_merged_alternating(p.drop_last());
                    } else {
                        assert(p.drop_last().len() == 0);
                    }
                    assert(m.last() == p.last());
                    let i = p.len() - 1;
                    assert(l[i] == p.last());
                }
            }
            let r = merged(l);
            assert(r =~= m.update(m.len() - 1, (x.0, t + seq!['\n'] + x.1)));
            assert(texts(r).drop_last() =~= texts(m).drop_last());
            assert(texts(r).last() == t + seq!['\n'] + x.1);
            assert(texts(m).last() == t);
            if m.len() == 1 {
                assert(join_lines(texts(m)) == t);
            }
            assert(join_lines(texts(r)) =~= join_lines(texts(m)) + seq!['\n'] + x.1);
        } else {
            let r = merged(l);
            assert(r == m.push(x));
            assert(texts(r).drop_last() =~= texts(m));
            assert(texts(r).last() == x.1);
        }
    }
}

proof fn lemma_join_prepend(a: Seq<char>, rest: Seq<Seq<char>>)
    ensures
        join_lines(seq![a] + rest) == if rest.len() == 0 {
            a
        } else {
            a + seq!['\n'] + join_lines(rest)
        },
    decreases rest.len(),
{
    let s = seq![a] + rest;
    if rest.len() == 0 {
        assert(s =~= seq![a]);
    } else if rest.len() == 1 {
        assert(s.drop_last() =~= seq![a]);
        assert(s.last() == rest[0]);
        assert(join_lines(seq![a]) == a);
        assert(join_lines(rest) == rest[0]);
        assert(join_lines(s) == join_lines(s.drop_last()) + seq!['\n'] + s.last());
    } else {
        assert(s.drop_last() =~= seq![a] + rest.drop_last());
        assert(s.last() == rest.last());
        assert(join_lines(s) == join_lines(s.drop_last()) + seq!['\n'] + s.last());
        assert(join_lines(rest) == join_lines(rest.drop_last()) + seq!['\n'] + rest.last());
        lemma_join_prepend(a, rest.drop_last());
        assert(a + seq!['\n'] + join_lines(rest.drop_last()) + seq!['\n'] + rest.last() =~= a
            + seq!['\n'] + (join_lines(rest.drop_last()) + seq!['\n'] + rest.last()));
    }
}

/// Without "\r\n" and without a final line feed, the lines of `t[i..]`
/// joined by line feeds give `t[i..]` back.
proof fn lemma_lines_join(t: Seq<char>, i: int)
    requires
        0 <= i < t.len(),
        t.last() != '\n',
        forall|k: int| 0 <= k < t.len() - 1 && #[trigger] t[k] == '\r' ==> t[k + 1] != '\n',
    ensures
        join_lines(lines_from(t, i)) == t.subrange(i, t.len() as int),
        lines_from(t, i).len() > 0,
        lines_from(t, i)[0] == t.subrange(i, next_newline(t, i)),
    decreases t.len() - i,
{
    let k = next_newline(t, i);
    lemma_next_newline(t, i);
    if k < t.len() {
        let piece = t.subrange(i, k);
        if k > i {
            assert(t[k - 1] != '\r');
        }
        assert(strip_cr(piece) == piece);
        assert(k + 1 < t.len());
        lemma_lines_join(t, k + 1);
        lemma_join_prepend(piece, lines_from(t, k + 1));
        assert(piece + seq!['\n'] + t.subrange(k + 1, t.len() as int) =~= t.subrange(i, t.len() as int));
    }
}

proof fn lemma_merged_all_code(l: Seq<HunkModel>)
    requires
        forall|i: int| 0 <= i < l.len() ==> !(#[trigger] l[i]).0,
    ensures
        forall|i: int| 0 <= i < merged(l).len() ==> !(#[trigger] merged(l)[i]).0,
    decreases l.len(),
{
    if l.len() > 0 {
        let p = l.drop_last();
        assert forall|i: int| 0 <= i < p.len() implies !(#[trigger] p[i]).0 by {
            assert(p[i] == l[i]);
        }
        lemma_merged_all_code(p);
        let m = merged(p);
        let r = merged(l);
        assert(!l.last().0);
        assert forall|i: int| 0 <= i < r.len() implies !(#[trigger] r[i]).0 by {
            if i < m.len() {
                assert(!m[i].0);
            }
        }
    }
}

/// A non-empty text with no documentation line, not opening with a line
/// feed, not ending with one and holding no "\r\n", classified and merged,
/// is one code hunk whose text is the whole text.
pub proof fn lemma_code_text_round_trip(t: Seq<char>, marker: Seq<char>)
    requires
        t.len() > 0,
        t[0] != '\n',
        t.last() != '\n',
        forall|k: int| 0 <= k < t.len() - 1 && #[trigger] t[k] == '\r' ==> t[k + 1] != '\n',
        forall|i: int| 0 <= i < classified(t, marker).len() ==> !(#[trigger] classified(t, marker)[i]).0,
    ensures
        merged(classified(t, marker)) == seq![(false, t)],
{
    let ls = lines(t);
    let l = classified(t, marker);
    lemma_lines_join(t, 0);
    assert(t.subrange(0, t.len() as int) =~= t);
    assert forall|i: int| 0 <= i < l.len() implies (#[trigger] l[i]) == (false, ls[i]) by {
        assert(!l[i].0);
    }
    assert(texts(l) =~= ls);
    lemma_next_newline(t, 0);
    assert(ls[0].len() > 0 || ls.len() == 1) by {
        if ls[0].len() == 0 {
            assert(next_newline(t, 0) == 0);
            assert(next_newline(t, 0) >= t.len());
        }
    }
    assert forall|i: int|
        0 <= i < l.len() - 1 && (#[trigger] l[i]).1.len() == 0 && l[i + 1].0 == l[i].0 implies i > 0
            && l[i - 1].0 == l[i].0 by {
        if i == 0 {
            assert(l[0].1 == ls[0]);
        } else {
            assert(!l[i - 1].0);
        }
    }
    lemma_merge_keeps_lines(l);
    lemma_merged_alternating(l);
    lemma_merged_all_code(l);
    let m = merged(l);
    if m.len() > 1 {
        assert(m[0].0 != m[1].0);
    }
    assert(m.len() == 1);
    assert(texts(m) =~= seq![m[0].1]);
    assert(m =~= seq![(false, t)]);
}

} // verus!
