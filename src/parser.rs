//! Parsing a raw commit message into a `Commit`.
use vstd::prelude::*;
use crate::diagnostic::Span;
use vstd::utf8::{encode_utf8, encode_utf8_decode_utf8};
use crate::text::{cut, is_cut};
use crate::header::{find_byte, header_model, split_header, NEWLINE};
use crate::body::{body_exec, body_model, collect_footers, collect_lines, footer_breaking, footer_model, footer_start_exec, rest_lines};

verus! {

/// A value paired with the span of the raw message it was lexed from.
#[derive(Clone, Debug)]
pub struct Scoped<T> {
    pub value: T,
    pub span: Span,
}

/// A trailing `Token: value` or `Token #value` pair.
#[derive(Clone, Debug)]
pub struct Footer {
    pub token: String,
    pub value: String,
}

/// A commit message split into its conventional parts.
#[derive(Clone, Debug)]
pub struct Commit {
    /// The message as given.
    pub raw: String,
    /// The type token, absent where the header does not follow the grammar.
    pub type_: Option<Scoped<String>>,
    /// The parenthesized scope, if any.
    pub scope: Option<Scoped<String>>,
    /// A `!` before the separator, or a breaking-change footer.
    pub breaking: bool,
    /// The text after `": "`, or the whole header line.
    pub description: Scoped<String>,
    /// The paragraphs before the footers, joined by blank lines.
    pub body: Option<String>,
    /// The footer lines of the trailing footer paragraphs, in order.
    pub footers: Vec<Scoped<Footer>>,
}

/// `text` is the UTF-8 text of the bytes `[s, e)` of `b`.
pub open spec fn is_text_of(b: Seq<u8>, text: Seq<char>, s: int, e: int) -> bool {
    0 <= s <= e <= b.len() && encode_utf8(text) == b.subrange(s, e)
}

/// A scoped string holds the text of its span.
pub open spec fn scoped_round_trip(b: Seq<u8>, v: Scoped<String>) -> bool {
    is_text_of(b, v.value@, v.span.start as int, v.span.end as int)
}

/// An optional scoped string is present exactly where the model has a
/// range, with that span and its text.
pub open spec fn scoped_as(b: Seq<u8>, v: Option<Scoped<String>>, m: Option<(int, int)>) -> bool {
    match (v, m) {
        (None, None) => true,
        (Some(x), Some(r)) => x.span.start == r.0 && x.span.end == r.1 && scoped_round_trip(b, x),
        _ => false,
    }
}

/// A footer holds the token and the value of the model's line.
pub open spec fn footer_as(b: Seq<u8>, f: Scoped<Footer>, m: (int, int, int, int)) -> bool {
    &&& f.span.start == m.0
    &&& f.span.end == m.3
    &&& is_text_of(b, f.value.token@, m.0, m.1)
    &&& is_text_of(b, f.value.value@, m.2, m.3)
}

/// `c` is what parsing the message `raw` gives.
pub open spec fn parsed(raw: Seq<char>, c: Commit) -> bool {
    let b = encode_utf8(raw);
    let hm = header_model(b);
    let fm = footer_model(b);
    &&& c.raw@ == raw
    &&& scoped_as(b, c.type_, hm.type_)
    &&& scoped_as(b, c.scope, hm.scope)
    &&& scoped_as(b, Some(c.description), Some(hm.description))
    &&& match (c.body, body_model(b)) {
        (None, None) => true,
        (Some(t), Some(m)) => encode_utf8(t@) == m,
        _ => false,
    }
    &&& c.footers@.len() == fm.len()
    &&& forall|i: int| 0 <= i < fm.len() ==> footer_as(b, #[trigger] c.footers@[i], fm[i])
    &&& c.breaking == (hm.bang || footer_breaking(b))
}

/// Every span of `c` lies in the raw message, and slicing the message at it
/// gives back the text it annotates; a footer's span starts with its token
/// and ends with its value.
pub open spec fn spans_round_trip(c: Commit) -> bool {
    let b = encode_utf8(c.raw@);
    &&& (c.type_ matches Some(t) ==> scoped_round_trip(b, t))
    &&& (c.scope matches Some(t) ==> scoped_round_trip(b, t))
    &&& scoped_round_trip(b, c.description)
    &&& forall|i: int|
        0 <= i < c.footers@.len() ==> {
            let f = #[trigger] c.footers@[i];
            &&& f.span.start <= f.span.end <= b.len()
            &&& f.span.start + encode_utf8(f.value.token@).len() <= f.span.end
            &&& encode_utf8(f.value.token@) == b.subrange(
                f.span.start as int,
                f.span.start + encode_utf8(f.value.token@).len(),
            )
            &&& encode_utf8(f.value.value@) == b.subrange(
                f.span.end - encode_utf8(f.value.value@).len(),
                f.span.end as int,
            )
        }
}

/// The span and text of an optional scoped string.
pub open spec fn scoped_text(s: Option<Scoped<String>>) -> Option<(Span, Seq<char>)> {
    match s {
        Some(v) => Some((v.span, v.value@)),
        None => None,
    }
}

fn scoped_cut(raw: &str, range: Option<(usize, usize)>) -> (r: Option<Scoped<String>>)
    requires
        range matches Some(p) ==> p.0 <= p.1 <= encode_utf8(raw@).len() && is_cut(
            encode_utf8(raw@),
            p.0 as int,
        ) && is_cut(encode_utf8(raw@), p.1 as int),
    ensures
        scoped_as(
            encode_utf8(raw@),
            r,
            match range {
                Some(p) => Some((p.0 as int, p.1 as int)),
                None => None::<(int, int)>,
            },
        ),
{
    match range {
        Some((s, e)) => Some(Scoped { value: cut(raw, s, e), span: Span { start: s, end: e } }),
        None => None,
    }
}

/// Splits a raw commit message into header fields, body and footers. Every
/// message parses: one that does not follow the conventional grammar is all
/// description.
pub fn parse_commit(raw: &str) -> (c: Commit)
    ensures
        parsed(raw@, c),
        spans_round_trip(c),
{
    let b = raw.as_bytes();
    let ghost bs = encode_utf8(raw@);
    assert(b@ == bs);
    let h = find_byte(b, NEWLINE, 0, b.len());
    let (type_range, scope_range, bang, desc) = split_header(b, h);
    let type_ = scoped_cut(raw, type_range);
    let scope = scoped_cut(raw, scope_range);
    let description = Scoped { value: cut(raw, desc.0, desc.1), span: Span { start: desc.0, end: desc.1 } };
    let mut body: Option<String> = None;
    let mut footers: Vec<Scoped<Footer>> = Vec::new();
    let mut footer_brk = false;
    if h < b.len() {
        let lines = collect_lines(b, h + 1);
        let f = footer_start_exec(b, &lines);
        body = body_exec(raw, b, &lines, f);
        let (fs, fb) = collect_footers(raw, b, &lines, f);
        footers = fs;
        footer_brk = fb;
    } else {
        proof {
            assert(rest_lines(bs) =~= Seq::<(int, int)>::empty());
            assert(footer_model(bs) =~= Seq::<(int, int, int, int)>::empty());
        }
    }
    let c = Commit {
        raw: raw.to_owned(),
        type_,
        scope,
        breaking: bang || footer_brk,
        description,
        body,
        footers,
    };
    proof {
        let fm = footer_model(bs);
        assert forall|i: int| 0 <= i < c.footers@.len() implies {
            let f = #[trigger] c.footers@[i];
            &&& f.span.start <= f.span.end <= bs.len()
            &&& f.span.start + encode_utf8(f.value.token@).len() <= f.span.end
            &&& encode_utf8(f.value.token@) == bs.subrange(
                f.span.start as int,
                f.span.start + encode_utf8(f.value.token@).len(),
            )
            &&& encode_utf8(f.value.value@) == bs.subrange(
                f.span.end - encode_utf8(f.value.value@).len(),
                f.span.end as int,
            )
        } by {
            assert(footer_as(bs, c.footers@[i], fm[i]));
        }
    }
    c
}

/// A commit as plain values.
pub struct CommitView {
    pub raw: Seq<char>,
    pub type_: Option<(Span, Seq<char>)>,
    pub scope: Option<(Span, Seq<char>)>,
    pub breaking: bool,
    pub description: (Span, Seq<char>),
    pub body: Option<Seq<char>>,
    pub footers: Seq<(Span, Seq<char>, Seq<char>)>,
}

impl View for Commit {
    type V = CommitView;

    open spec fn view(&self) -> CommitView {
        CommitView {
            raw: self.raw@,
            type_: scoped_text(self.type_),
            scope: scoped_text(self.scope),
            breaking: self.breaking,
            description: (self.description.span, self.description.value@),
            body: match self.body {
                Some(t) => Some(t@),
                None => None,
            },
            footers: self.footers@.map_values(
                |f: Scoped<Footer>| (f.span, f.value.token@, f.value.value@),
            ),
        }
    }
}

proof fn lemma_encode_injective(a: Seq<char>, b: Seq<char>)
    requires
        encode_utf8(a) == encode_utf8(b),
    ensures
        a == b,
{
    encode_utf8_decode_utf8(a);
    encode_utf8_decode_utf8(b);
}

proof fn lemma_scoped_unique(b: Seq<u8>, x: Option<Scoped<String>>, y: Option<Scoped<String>>, m: Option<(int, int)>)
    requires
        scoped_as(b, x, m),
        scoped_as(b, y, m),
    ensures
        scoped_text(x) == scoped_text(y),
{
    if let (Some(u), Some(v)) = (x, y) {
        lemma_encode_injective(u.value@, v.value@);
    }
}

/// Parsing is a function of the message: two parses of the same input give
/// structurally equal commits.
pub proof fn lemma_parse_idempotent(raw: Seq<char>, c1: Commit, c2: Commit)
    requires
        parsed(raw, c1),
        parsed(raw, c2),
    ensures
        c1@ == c2@,
{
    let b = encode_utf8(raw);
    let hm = header_model(b);
    let fm = footer_model(b);
    lemma_scoped_unique(b, c1.type_, c2.type_, hm.type_);
    lemma_scoped_unique(b, c1.scope, c2.scope, hm.scope);
    lemma_scoped_unique(b, Some(c1.description), Some(c2.description), Some(hm.description));
    if let (Some(t1), Some(t2)) = (c1.body, c2.body) {
        lemma_encode_injective(t1@, t2@);
    }
    assert forall|i: int| 0 <= i < fm.len() implies c1@.footers[i] == c2@.footers[i] by {
        assert(footer_as(b, c1.footers@[i], fm[i]));
        assert(footer_as(b, c2.footers@[i], fm[i]));
        lemma_encode_injective(c1.footers@[i].value.token@, c2.footers@[i].value.token@);
        lemma_encode_injective(c1.footers@[i].value.value@, c2.footers@[i].value.value@);
    }
    assert(c1@.footers =~= c2@.footers);
}

} // verus!
