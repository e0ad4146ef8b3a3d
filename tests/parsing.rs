use commit_lint::parser::{parse_commit, Commit};

const SAMPLE: &str = "feat(nice): add cool feature\n\nsome body\n\nsecond body line\n\nsome footer";

fn slice(c: &Commit, start: usize, end: usize) -> &str {
    &c.raw[start..end]
}

#[test]
fn sample_message_parses_into_parts() {
    let c = parse_commit(SAMPLE);
    let t = c.type_.as_ref().unwrap();
    assert_eq!(t.value, "feat");
    assert_eq!((t.span.start, t.span.end), (0, 4));
    let s = c.scope.as_ref().unwrap();
    assert_eq!(s.value, "nice");
    assert_eq!((s.span.start, s.span.end), (5, 9));
    assert!(!c.breaking);
    assert_eq!(c.description.value, "add cool feature");
    assert_eq!((c.description.span.start, c.description.span.end), (12, 28));
    let body = c.body.as_ref().unwrap();
    assert!(body.contains("some body"));
    assert!(body.contains("second body line"));
    assert_eq!(body, "some body\n\nsecond body line\n\nsome footer");
    assert!(c.footers.is_empty());
    assert_eq!(c.raw, SAMPLE);
}

#[test]
fn bang_marks_breaking() {
    let c = parse_commit("feat!: breaking change");
    assert!(c.breaking);
    assert_eq!(c.type_.as_ref().unwrap().value, "feat");
    assert!(c.scope.is_none());
    assert_eq!(c.description.value, "breaking change");
}

#[test]
fn breaking_footer_marks_breaking() {
    let c = parse_commit("feat: x\n\nBREAKING CHANGE: y");
    assert!(c.breaking);
    assert_eq!(c.footers.len(), 1);
    assert_eq!(c.footers[0].value.token, "BREAKING CHANGE");
    assert_eq!(c.footers[0].value.value, "y");
    assert_eq!((c.footers[0].span.start, c.footers[0].span.end), (9, 27));
    assert!(c.body.is_none());
}

#[test]
fn plain_header_is_not_breaking() {
    let c = parse_commit("feat: x");
    assert!(!c.breaking);
    assert!(c.footers.is_empty());
    assert!(c.body.is_none());
}

#[test]
fn hyphenated_breaking_footer_in_any_case() {
    let c = parse_commit("fix: y\n\nbreaking-change: api gone");
    assert!(c.breaking);
    let c = parse_commit("fix: y\n\nbreaking change: api gone");
    assert!(c.breaking);
    assert_eq!(c.footers[0].value.token, "breaking change");
}

#[test]
fn scope_and_bang_together() {
    let c = parse_commit("refactor(core)!: drop old api");
    assert!(c.breaking);
    assert_eq!(c.scope.as_ref().unwrap().value, "core");
    assert_eq!(c.description.value, "drop old api");
}

#[test]
fn header_without_separator_is_all_description() {
    let c = parse_commit("just some words");
    assert!(c.type_.is_none());
    assert!(c.scope.is_none());
    assert_eq!(c.description.value, "just some words");
    assert_eq!((c.description.span.start, c.description.span.end), (0, 15));
}

#[test]
fn unbalanced_scope_falls_back() {
    let c = parse_commit("feat(a(b)): x");
    assert!(c.type_.is_none());
    assert!(c.scope.is_none());
    assert_eq!(c.description.value, "feat(a(b)): x");
    let c = parse_commit("feat(ab: x");
    assert!(c.type_.is_none());
    assert_eq!(c.description.value, "feat(ab: x");
}

#[test]
fn empty_message_has_empty_description() {
    let c = parse_commit("");
    assert!(c.type_.is_none());
    assert_eq!(c.description.value, "");
    assert_eq!((c.description.span.start, c.description.span.end), (0, 0));
    assert!(c.body.is_none());
    assert!(c.footers.is_empty());
}

#[test]
fn footers_follow_body() {
    let raw = "fix(parser): handle tabs\n\nThe lexer choked.\nNow it does not.\n\n\n\nRefs #123\nReviewed-by: Sam";
    let c = parse_commit(raw);
    assert_eq!(c.body.as_deref(), Some("The lexer choked.\nNow it does not."));
    assert_eq!(c.footers.len(), 2);
    assert_eq!(c.footers[0].value.token, "Refs");
    assert_eq!(c.footers[0].value.value, "123");
    assert_eq!(c.footers[1].value.token, "Reviewed-by");
    assert_eq!(c.footers[1].value.value, "Sam");
    assert_eq!(slice(&c, c.footers[1].span.start, c.footers[1].span.end), "Reviewed-by: Sam");
    assert!(!c.breaking);
}

#[test]
fn footer_paragraph_must_be_all_footers() {
    let c = parse_commit("fix: a\n\nRefs: 1\nnot a footer line");
    assert!(c.footers.is_empty());
    assert_eq!(c.body.as_deref(), Some("Refs: 1\nnot a footer line"));
}

#[test]
fn spans_slice_back_to_their_text() {
    let raw = "feat(\u{e9}t\u{e9}): caf\u{e9} \u{2713}\n\nbody \u{e9}\n\nRefs: \u{2713}1";
    let c = parse_commit(raw);
    let t = c.type_.as_ref().unwrap();
    assert_eq!(slice(&c, t.span.start, t.span.end), t.value);
    let s = c.scope.as_ref().unwrap();
    assert_eq!(s.value, "\u{e9}t\u{e9}");
    assert_eq!(slice(&c, s.span.start, s.span.end), s.value);
    assert_eq!((s.span.start, s.span.end), (5, 10));
    assert_eq!(slice(&c, c.description.span.start, c.description.span.end), c.description.value);
    let f = &c.footers[0];
    assert_eq!(f.value.value, "\u{2713}1");
    let line = slice(&c, f.span.start, f.span.end);
    assert!(line.starts_with(&f.value.token));
    assert!(line.ends_with(&f.value.value));
}

#[test]
fn parsing_twice_gives_equal_commits() {
    let raw = "feat(x)!: y\n\nbody\n\nRefs #9";
    let a = parse_commit(raw);
    let b = parse_commit(raw);
    assert_eq!(format!("{:?}", a), format!("{:?}", b));
}

#[test]
fn trailing_newline_yields_no_body() {
    let c = parse_commit("feat: x\n");
    assert!(c.body.is_none());
    assert!(c.footers.is_empty());
    assert_eq!(c.description.value, "x");
}

#[test]
fn blank_lines_between_paragraphs_collapse() {
    let c = parse_commit("feat: x\n\nfirst\nstill first\n\n\n  \t\nsecond\n\n");
    assert_eq!(c.body.as_deref(), Some("first\nstill first\n\nsecond"));
    assert!(c.footers.is_empty());
}

#[test]
fn body_right_after_header_line() {
    let c = parse_commit("docs: readme\nno blank line here");
    assert_eq!(c.body.as_deref(), Some("no blank line here"));
    assert_eq!(c.description.value, "readme");
}
