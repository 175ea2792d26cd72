use exodocia::doc::{extract, DocEntry, DocError, Entry};
use exodocia::source::{classify_lines, meld_neighbors, to_source_elements, SourceHunk};

fn code(s: &str) -> SourceHunk {
    SourceHunk::Code(s.to_string())
}

fn doc(s: &str) -> SourceHunk {
    SourceHunk::Doc(s.to_string())
}

fn entry(name: &str, content: &str) -> DocEntry {
    DocEntry { name: name.to_string(), content: content.to_string() }
}

fn hunk_text(h: &SourceHunk) -> &str {
    match h {
        SourceHunk::Code(t) => t,
        SourceHunk::Doc(t) => t,
    }
}

fn is_doc(h: &SourceHunk) -> bool {
    matches!(h, SourceHunk::Doc(_))
}

#[test]
fn empty_input_gives_no_lines_and_no_hunks() {
    assert_eq!(to_source_elements(String::new()), vec![]);
    assert_eq!(meld_neighbors(vec![]), vec![]);
    assert_eq!(extract("", "##"), vec![]);
}

#[test]
fn classifier_examples() {
    assert_eq!(to_source_elements("".to_string()), vec![]);
    assert_eq!(to_source_elements("plain code".to_string()), vec![code("plain code")]);
    assert_eq!(to_source_elements("## hello".to_string()), vec![doc("hello")]);
}

#[test]
fn classifier_trims_doc_lines_and_keeps_code_lines() {
    let lines = to_source_elements("   ##   indented note  \n  x = 1  ".to_string());
    assert_eq!(lines, vec![doc("indented note"), code("  x = 1  ")]);
}

#[test]
fn classifier_removes_the_marker_once() {
    assert_eq!(to_source_elements("#### four".to_string()), vec![doc("## four")]);
}

#[test]
fn classifier_line_endings() {
    assert_eq!(to_source_elements("a\r\nb".to_string()), vec![code("a"), code("b")]);
    assert_eq!(to_source_elements("a\n".to_string()), vec![code("a")]);
    assert_eq!(to_source_elements("\n".to_string()), vec![code("")]);
    assert_eq!(to_source_elements("a\n\nb".to_string()), vec![code("a"), code(""), code("b")]);
    assert_eq!(to_source_elements("a\rb".to_string()), vec![code("a\rb")]);
}

#[test]
fn classifier_with_another_marker() {
    assert_eq!(
        classify_lines("// note\nlet x;\n## not a note", "//"),
        vec![doc("note"), code("let x;"), code("## not a note")]
    );
}

#[test]
fn merge_example() {
    let merged = meld_neighbors(vec![code("a"), code("b"), doc("x")]);
    assert_eq!(merged, vec![code("a\nb"), doc("x")]);
}

#[test]
fn merge_flushes_with_the_previous_kind() {
    let merged = meld_neighbors(vec![doc("d1"), doc("d2"), code("c"), doc("d3")]);
    assert_eq!(merged, vec![doc("d1\nd2"), code("c"), doc("d3")]);
}

#[test]
fn merge_skips_the_line_feed_after_an_empty_buffer() {
    assert_eq!(meld_neighbors(vec![code(""), code("b")]), vec![code("b")]);
    assert_eq!(meld_neighbors(vec![code("a"), code(""), code("b")]), vec![code("a\n\nb")]);
}

#[test]
fn merged_hunks_alternate() {
    let text = "a\n## d\n## e\nb\nc\n## f\ng";
    let hunks = meld_neighbors(to_source_elements(text.to_string()));
    assert_eq!(hunks.len(), 5);
    for w in hunks.windows(2) {
        assert_ne!(is_doc(&w[0]), is_doc(&w[1]));
    }
}

#[test]
fn merged_hunks_keep_every_line() {
    let text = "a\n## d\n## e\nb\n\nc\n## f\ng";
    let lines = to_source_elements(text.to_string());
    let joined_lines: Vec<&str> = lines.iter().map(hunk_text).collect();
    let hunks = meld_neighbors(lines.clone());
    let joined_hunks: Vec<&str> = hunks.iter().map(hunk_text).collect();
    assert_eq!(joined_hunks.join("\n"), joined_lines.join("\n"));
    assert_eq!(joined_hunks.join("\n"), "a\nd\ne\nb\n\nc\nf\ng");
}

#[test]
fn code_text_round_trip() {
    let text = "fn main() {\n## Entry point.\n    let x = 1;\n}";
    let hunks = meld_neighbors(to_source_elements(text.to_string()));
    let code_only: Vec<&str> = hunks.iter().filter(|h| !is_doc(h)).map(hunk_text).collect();
    let rebuilt = code_only.join("\n");
    assert_eq!(rebuilt, "fn main() {\n    let x = 1;\n}");
    assert_eq!(meld_neighbors(to_source_elements(rebuilt.clone())), vec![code(&rebuilt)]);
}

#[test]
fn parse_brief_and_tags() {
    let entries = DocEntry::parse_from("intro text@param x the value@return nothing").unwrap();
    assert_eq!(
        entries,
        vec![entry("brief", "intro text"), entry("param", "x the value"), entry("return", "nothing")]
    );
}

#[test]
fn parse_bad_tag_is_an_error_of_the_hunk() {
    assert_eq!(DocEntry::parse_from("@bad2tag stuff"), Err(DocError::MissingSeparator(4)));
}

#[test]
fn parse_errors() {
    assert_eq!(DocEntry::parse_from("@ x"), Err(DocError::MissingName(1)));
    assert_eq!(DocEntry::parse_from("brief@1 x"), Err(DocError::MissingName(6)));
    assert_eq!(DocEntry::parse_from("@return"), Err(DocError::MissingSeparator(7)));
    assert_eq!(DocEntry::parse_from("@a x@b"), Err(DocError::MissingSeparator(6)));
}

#[test]
fn parse_edge_cases() {
    assert_eq!(DocEntry::parse_from(""), Ok(vec![]));
    assert_eq!(DocEntry::parse_from("just text"), Ok(vec![entry("brief", "just text")]));
    assert_eq!(DocEntry::parse_from("@a "), Ok(vec![entry("a", "")]));
    assert_eq!(
        DocEntry::parse_from("some text \n@param x \n"),
        Ok(vec![entry("brief", "some text"), entry("param", "x")])
    );
    assert_eq!(DocEntry::parse_from(" \n@a x"), Ok(vec![entry("a", "x")]));
    assert_eq!(
        DocEntry::parse_from("@param \t  x\nmore"),
        Ok(vec![entry("param", "x\nmore")])
    );
}

#[test]
fn parse_accepts_non_ascii_letters() {
    assert_eq!(DocEntry::parse_from("@été chaud"), Ok(vec![entry("été", "chaud")]));
}

#[test]
fn parse_with_given_letters() {
    let text = "@a1 x";
    let all = vec![true; 5];
    assert_eq!(
        DocEntry::parse_classified(text, &vec![false, true, true, false, false]),
        Ok(vec![entry("a1", "x")])
    );
    assert_eq!(DocEntry::parse_classified(text, &all), Err(DocError::MissingSeparator(5)));
}

#[test]
fn entries_from_hunks() {
    assert_eq!(Entry::from(code("x = 1")), Entry::Code("x = 1".to_string()));
    assert_eq!(
        Entry::from(doc("sum@param a first")),
        Entry::Doc(vec![entry("brief", "sum"), entry("param", "a first")])
    );
    assert_eq!(
        Entry::from(doc("@bad2tag stuff")),
        Entry::Malformed("@bad2tag stuff".to_string(), DocError::MissingSeparator(4))
    );
}

#[test]
fn extract_reports_each_hunk() {
    let text = "## Adds.\n## @param a first\nadd() {\n## @bad2\n}";
    let entries = extract(text, "##");
    assert_eq!(
        entries,
        vec![
            Entry::Doc(vec![entry("brief", "Adds."), entry("param", "a first")]),
            Entry::Code("add() {".to_string()),
            Entry::Malformed("@bad2".to_string(), DocError::MissingSeparator(4)),
            Entry::Code("}".to_string()),
        ]
    );
}
