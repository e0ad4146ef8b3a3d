//! The lines after the header: body paragraphs and footers.
use vstd::prelude::*;
use vstd::string::StringExecFns;
use vstd::utf8::encode_utf8;
use crate::header::{header_end, find_from, COLON, HYPHEN, HASH, NEWLINE, SPACE};
use crate::parser::{footer_as, Footer, Scoped};
use crate::diagnostic::Span;
use crate::text::{cut, is_cut};

verus! {

pub const TAB: u8 = 9;
pub const CARRIAGE_RETURN: u8 = 13;

/// The lines from offset `s` on, where the current line started at `s` and
/// the scan stands at `i`; each line is a `[start, end)` range without its
/// newline.
pub open spec fn lines_acc(b: Seq<u8>, s: int, i: int) -> Seq<(int, int)>
    decreases b.len() - i,
{
    if i >= b.len() {
        seq![(s, b.len() as int)]
    } else if b[i] == NEWLINE {
        seq![(s, i)] + lines_acc(b, i + 1, i + 1)
    } else {
        lines_acc(b, s, i + 1)
    }
}

/// The lines after the header; none where the message has a single line.
pub open spec fn rest_lines(b: Seq<u8>) -> Seq<(int, int)> {
    let h = header_end(b);
    if h < b.len() {
        lines_acc(b, h + 1, h + 1)
    } else {
        Seq::empty()
    }
}

/// Whitespace within a line.
pub open spec fn is_blank_byte(x: u8) -> bool {
    x == SPACE || x == TAB || x == CARRIAGE_RETURN
}

/// The range holds only whitespace.
pub open spec fn is_blank(b: Seq<u8>, line: (int, int)) -> bool {
    forall|k: int| line.0 <= k < line.1 ==> is_blank_byte(#[trigger] b[k])
}

/// A byte that may stand in a footer token: a letter, a digit or a hyphen.
pub open spec fn is_token_byte(x: u8) -> bool {
    (48 <= x <= 57) || (65 <= x <= 90) || (97 <= x <= 122) || x == HYPHEN
}

/// The first offset in `[from, hi)` that is not a token byte, or `hi`.
pub open spec fn find_token_end(b: Seq<u8>, from: int, hi: int) -> int
    decreases hi - from,
{
    if from >= hi {
        hi
    } else if !is_token_byte(b[from]) {
        from
    } else {
        find_token_end(b, from + 1, hi)
    }
}

/// `breaking change`, in lower case, with `sep` between the two words.
pub open spec fn breaking_word(sep: u8) -> Seq<u8> {
    seq![98u8, 114u8, 101u8, 97u8, 107u8, 105u8, 110u8, 103u8, sep, 99u8, 104u8, 97u8, 110u8, 103u8, 101u8]
}

/// An ASCII upper-case letter turned to lower case; other bytes unchanged.
pub open spec fn ascii_lower(x: u8) -> u8 {
    if 65 <= x <= 90 {
        (x + 32) as u8
    } else {
        x
    }
}

/// The bytes `[s, e)` spell `w` (given in lower case), ignoring ASCII case.
pub open spec fn equals_ignoring_case(b: Seq<u8>, s: int, e: int, w: Seq<u8>) -> bool {
    &&& e - s == w.len()
    &&& forall|k: int| 0 <= k < w.len() ==> ascii_lower(#[trigger] b[s + k]) == w[k]
}

/// The token `[s, e)` declares a breaking change.
pub open spec fn is_breaking_token(b: Seq<u8>, s: int, e: int) -> bool {
    equals_ignoring_case(b, s, e, breaking_word(SPACE)) || equals_ignoring_case(b, s, e, breaking_word(HYPHEN))
}

/// Where a line `Token: value` or `Token #value` has its token end and its
/// value start; the token is a run of letters, digits and hyphens, or the
/// phrase `BREAKING CHANGE` in any case.
pub open spec fn footer_parts(b: Seq<u8>, line: (int, int)) -> Option<(int, int)> {
    let (s, e) = line;
    let t = find_token_end(b, s, e);
    if t > s && t < e && t + 1 < e && b[t] == COLON && b[t + 1] == SPACE {
        Some((t, t + 2))
    } else if t > s && t + 1 < e && b[t] == SPACE && b[t + 1] == HASH {
        Some((t, t + 2))
    } else if s + 16 < e && equals_ignoring_case(b, s, s + 15, breaking_word(SPACE)) && b[s + 15]
        == COLON && b[s + 16] == SPACE {
        Some((s + 15, s + 17))
    } else {
        None
    }
}

/// Lines from `k` on can all stand in the footer section, which may begin
/// at `k`: at the start, at the end, or after a blank line.
pub open spec fn footers_may_start(b: Seq<u8>, lines: Seq<(int, int)>, k: int) -> bool {
    &&& 0 <= k <= lines.len()
    &&& (k == 0 || k == lines.len() || is_blank(b, lines[k - 1]))
    &&& forall|j: int|
        k <= j < lines.len() ==> is_blank(b, #[trigger] lines[j]) || footer_parts(
            b,
            lines[j],
        ) is Some
}

/// The first line, from `k` on, where the footer section may begin.
pub open spec fn first_footer_start(b: Seq<u8>, lines: Seq<(int, int)>, k: int) -> int
    decreases lines.len() - k,
{
    if k >= lines.len() {
        lines.len() as int
    } else if footers_may_start(b, lines, k) {
        k
    } else {
        first_footer_start(b, lines, k + 1)
    }
}

/// The line where the footer section begins: the trailing paragraphs whose
/// lines are all footers.
pub open spec fn footer_start(b: Seq<u8>) -> int {
    first_footer_start(b, rest_lines(b), 0)
}

/// Footers among the lines `[f, k)`, each as (line start, token end, value
/// start, line end).
pub open spec fn footers_upto(b: Seq<u8>, lines: Seq<(int, int)>, f: int, k: int) -> Seq<
    (int, int, int, int),
>
    decreases k - f,
{
    if k <= f {
        Seq::empty()
    } else {
        footers_upto(b, lines, f, k - 1) + match footer_parts(b, lines[k - 1]) {
            Some((t, v)) => seq![(lines[k - 1].0, t, v, lines[k - 1].1)],
            None => Seq::empty(),
        }
    }
}

/// The footers of the message.
pub open spec fn footer_model(b: Seq<u8>) -> Seq<(int, int, int, int)> {
    footers_upto(b, rest_lines(b), footer_start(b), rest_lines(b).len() as int)
}

/// The paragraphs among the lines `[0, k)`: each a byte range from the
/// first to the last line of a run of lines with text.
pub open spec fn body_paragraphs(b: Seq<u8>, lines: Seq<(int, int)>, k: int) -> Seq<(int, int)>
    decreases k,
{
    if k <= 0 {
        Seq::empty()
    } else {
        let before = body_paragraphs(b, lines, k - 1);
        let line = lines[k - 1];
        if is_blank(b, line) {
            before
        } else if k >= 2 && !is_blank(b, lines[k - 2]) {
            before.drop_last().push((before.last().0, line.1))
        } else {
            before.push(line)
        }
    }
}

/// The bytes of the paragraphs `ps` of `b`, with a blank line between each
/// two.
pub open spec fn joined_paragraphs(b: Seq<u8>, ps: Seq<(int, int)>) -> Seq<u8>
    decreases ps.len(),
{
    if ps.len() == 0 {
        Seq::empty()
    } else if ps.len() == 1 {
        b.subrange(ps[0].0, ps[0].1)
    } else {
        joined_paragraphs(b, ps.drop_last()) + seq![NEWLINE, NEWLINE] + b.subrange(
            ps.last().0,
            ps.last().1,
        )
    }
}

/// The body, as bytes: the paragraphs before the footers, joined by blank
/// lines; none where there is no such paragraph.
pub open spec fn body_model(b: Seq<u8>) -> Option<Seq<u8>> {
    let ps = body_paragraphs(b, rest_lines(b), footer_start(b));
    if ps.len() == 0 {
        None
    } else {
        Some(joined_paragraphs(b, ps))
    }
}

/// Some footer of `fm` has a token that declares a breaking change.
pub open spec fn any_breaking(b: Seq<u8>, fm: Seq<(int, int, int, int)>) -> bool {
    exists|i: int| 0 <= i < fm.len() && is_breaking_token(b, (#[trigger] fm[i]).0, fm[i].1)
}

/// Some footer of the message declares a breaking change.
pub open spec fn footer_breaking(b: Seq<u8>) -> bool {
    any_breaking(b, footer_model(b))
}

/// The ranges of `v` with integer bounds.
pub open spec fn as_ranges(v: Seq<(usize, usize)>) -> Seq<(int, int)> {
    v.map_values(|p: (usize, usize)| (p.0 as int, p.1 as int))
}

/// A line of the message after the header: it starts after a newline and
/// ends at a newline or at the end.
pub open spec fn is_rest_line(b: Seq<u8>, line: (int, int)) -> bool {
    &&& 1 <= line.0 <= line.1 <= b.len()
    &&& b[line.0 - 1] == NEWLINE
    &&& (line.1 == b.len() || b[line.1] == NEWLINE)
}

pub(crate) fn collect_lines(b: &[u8], start: usize) -> (r: Vec<(usize, usize)>)
    requires
        1 <= start <= b@.len(),
        b@[start - 1] == NEWLINE,
    ensures
        as_ranges(r@) == lines_acc(b@, start as int, start as int),
        forall|j: int| 0 <= j < r@.len() ==> is_rest_line(b@, #[trigger] as_ranges(r@)[j]),
        forall|j: int, k: int|
            0 <= j < k < r@.len() ==> (#[trigger] as_ranges(r@)[j]).1 < (#[trigger] as_ranges(
                r@,
            )[k]).0,
{
    let mut r: Vec<(usize, usize)> = Vec::new();
    let mut s = start;
    let mut i = start;
    while i < b.len()
        invariant
            1 <= s <= i <= b@.len(),
            b@[s - 1] == NEWLINE,
            as_ranges(r@) + lines_acc(b@, s as int, i as int) == lines_acc(
                b@,
                start as int,
                start as int,
            ),
            forall|j: int| 0 <= j < r@.len() ==> is_rest_line(b@, #[trigger] as_ranges(r@)[j]),
            forall|j: int| 0 <= j < r@.len() ==> (#[trigger] as_ranges(r@)[j]).1 < s,
            forall|j: int, k: int|
                0 <= j < k < r@.len() ==> (#[trigger] as_ranges(r@)[j]).1 < (#[trigger] as_ranges(
                    r@,
                )[k]).0,
        decreases b@.len() - i,
    {
        if b[i] == NEWLINE {
            let ghost old_r = as_ranges(r@);
            r.push((s, i));
            proof {
                assert(as_ranges(r@) =~= old_r.push((s as int, i as int)));
                assert(as_ranges(r@) + lines_acc(b@, i + 1, i + 1) =~= old_r + lines_acc(
                    b@,
                    s as int,
                    i as int,
                ));
            }
            s = i + 1;
        }
        i = i + 1;
    }
    let ghost old_r = as_ranges(r@);
    r.push((s, i));
    proof {
        assert(as_ranges(r@) =~= old_r + lines_acc(b@, s as int, i as int));
    }
    r
}

fn is_blank_exec(b: &[u8], s: usize, e: usize) -> (r: bool)
    requires
        s <= e <= b@.len(),
    ensures
        r == is_blank(b@, (s as int, e as int)),
{
    let mut k = s;
    while k < e
        invariant
            s <= k <= e <= b@.len(),
            forall|j: int| s <= j < k ==> is_blank_byte(#[trigger] b@[j]),
        decreases e - k,
    {
        if !(b[k] == SPACE || b[k] == TAB || b[k] == CARRIAGE_RETURN) {
            return false;
        }
        k = k + 1;
    }
    true
}

proof fn lemma_find_token_end_bounds(b: Seq<u8>, from: int, hi: int)
    requires
        from <= hi,
    ensures
        from <= find_token_end(b, from, hi) <= hi,
        find_token_end(b, from, hi) < hi ==> !is_token_byte(b[find_token_end(b, from, hi)]),
    decreases hi - from,
{
    if from < hi && is_token_byte(b[from]) {
        lemma_find_token_end_bounds(b, from + 1, hi);
    }
}

fn find_token_end_exec(b: &[u8], from: usize, hi: usize) -> (r: usize)
    requires
        from <= hi <= b@.len(),
    ensures
        r == find_token_end(b@, from as int, hi as int),
        from <= r <= hi,
{
    proof {
        lemma_find_token_end_bounds(b@, from as int, hi as int);
    }
    let mut i = from;
    while i < hi
        invariant
            from <= i <= hi <= b@.len(),
            find_token_end(b@, from as int, hi as int) == find_token_end(b@, i as int, hi as int),
        decreases hi - i,
    {
        let x = b[i];
        if !((48 <= x && x <= 57) || (65 <= x && x <= 90) || (97 <= x && x <= 122) || x == HYPHEN) {
            return i;
        }
        i = i + 1;
    }
    i
}

fn breaking_word_exec(sep: u8) -> (r: Vec<u8>)
    ensures
        r@ == breaking_word(sep),
{
    let r: Vec<u8> = vec![98, 114, 101, 97, 107, 105, 110, 103, sep, 99, 104, 97, 110, 103, 101];
    assert(r@ =~= breaking_word(sep));
    r
}

fn equals_ignoring_case_exec(b: &[u8], s: usize, e: usize, w: &Vec<u8>) -> (r: bool)
    requires
        s <= e <= b@.len(),
    ensures
        r == equals_ignoring_case(b@, s as int, e as int, w@),
{
    if e - s != w.len() {
        return false;
    }
    let mut k: usize = 0;
    while k < w.len()
        invariant
            k <= w@.len(),
            e - s == w@.len(),
            s <= e <= b@.len(),
            forall|j: int| 0 <= j < k ==> ascii_lower(#[trigger] b@[s + j]) == w@[j],
        decreases w@.len() - k,
    {
        let x = b[s + k];
        let lower = if 65 <= x && x <= 90 {
            x + 32
        } else {
            x
        };
        if lower != w[k] {
            return false;
        }
        k = k + 1;
    }
    true
}

fn footer_parts_exec(b: &[u8], s: usize, e: usize) -> (r: Option<(usize, usize)>)
    requires
        s <= e <= b@.len(),
    ensures
        footer_parts(b@, (s as int, e as int)) == (match r {
            Some(p) => Some((p.0 as int, p.1 as int)),
            None => None::<(int, int)>,
        }),
        r matches Some(p) ==> s < p.0 && p.0 + 2 == p.1 && p.1 <= e && b@[p.0 as int] < 128 && b@[p.0 + 1] < 128,
{
    let t = find_token_end_exec(b, s, e);
    if t > s && t < e && t + 1 < e && b[t] == COLON && b[t + 1] == SPACE {
        return Some((t, t + 2));
    }
    if t > s && t < e && t + 1 < e && b[t] == SPACE && b[t + 1] == HASH {
        return Some((t, t + 2));
    }
    if e > 16 && s < e - 16 {
        let w = breaking_word_exec(SPACE);
        if equals_ignoring_case_exec(b, s, s + 15, &w) && b[s + 15] == COLON && b[s + 16] == SPACE {
            return Some((s + 15, s + 17));
        }
    }
    None
}

proof fn lemma_first_footer_start(b: Seq<u8>, lines: Seq<(int, int)>, k: int, best: int)
    requires
        0 <= k <= best <= lines.len(),
        footers_may_start(b, lines, best),
        forall|m: int| k <= m < best ==> !footers_may_start(b, lines, m),
    ensures
        first_footer_start(b, lines, k) == best,
    decreases best - k,
{
    if k < best {
        lemma_first_footer_start(b, lines, k + 1, best);
    }
}

/// The index of the line where the footer section begins.
pub(crate) fn footer_start_exec(b: &[u8], lines: &Vec<(usize, usize)>) -> (f: usize)
    requires
        forall|j: int| 0 <= j < lines@.len() ==> is_rest_line(b@, #[trigger] as_ranges(lines@)[j]),
    ensures
        f == first_footer_start(b@, as_ranges(lines@), 0),
        f <= lines@.len(),
{
    let ghost ls = as_ranges(lines@);
    let n = lines.len();
    let mut k = n;
    let mut best = n;
    loop
        invariant
            ls == as_ranges(lines@),
            n == lines@.len(),
            forall|j: int| 0 <= j < n ==> is_rest_line(b@, #[trigger] ls[j]),
            k <= best <= n,
            footers_may_start(b@, ls, best as int),
            forall|m: int| k <= m < best ==> !footers_may_start(b@, ls, m),
            forall|j: int| k <= j < n ==> is_blank(b@, #[trigger] ls[j]) || footer_parts(b@, ls[j]) is Some,
        ensures
            best <= n,
            footers_may_start(b@, ls, best as int),
            forall|m: int| 0 <= m < best ==> !footers_may_start(b@, ls, m),
        decreases k,
    {
        if k == 0 {
            break;
        }
        let (s, e) = lines[k - 1];
        assert(ls[k - 1] == (s as int, e as int));
        let fits = is_blank_exec(b, s, e) || footer_parts_exec(b, s, e).is_some();
        if !fits {
            proof {
                assert forall|m: int| 0 <= m < k implies !footers_may_start(b@, ls, m) by {
                    assert(m <= k - 1 < n);
                }
            }
            break;
        }
        k = k - 1;
        if k == 0 {
            best = k;
        } else {
            let (ps, pe) = lines[k - 1];
            assert(ls[k - 1] == (ps as int, pe as int));
            if is_blank_exec(b, ps, pe) {
                best = k;
            }
        }
    }
    proof {
        lemma_first_footer_start(b@, ls, 0, best as int);
    }
    best
}

proof fn lemma_any_breaking_push(b: Seq<u8>, fm: Seq<(int, int, int, int)>, x: (int, int, int, int))
    ensures
        any_breaking(b, fm.push(x)) == (any_breaking(b, fm) || is_breaking_token(b, x.0, x.1)),
{
    let g = fm.push(x);
    if any_breaking(b, fm) {
        let i = choose|i: int| 0 <= i < fm.len() && is_breaking_token(b, (#[trigger] fm[i]).0, fm[i].1);
        assert(g[i] == fm[i]);
    }
    if is_breaking_token(b, x.0, x.1) {
        assert(g[fm.len() as int] == x);
    }
    if any_breaking(b, g) {
        let i = choose|i: int| 0 <= i < g.len() && is_breaking_token(b, (#[trigger] g[i]).0, g[i].1);
        if i < fm.len() {
            assert(g[i] == fm[i]);
        }
    }
}

/// The footers among the lines from `f` on, and whether one of them
/// declares a breaking change.
pub(crate) fn collect_footers(raw: &str, b: &[u8], lines: &Vec<(usize, usize)>, f: usize) -> (r: (
    Vec<Scoped<Footer>>,
    bool,
))
    requires
        b@ == encode_utf8(raw@),
        f <= lines@.len(),
        forall|j: int| 0 <= j < lines@.len() ==> is_rest_line(b@, #[trigger] as_ranges(lines@)[j]),
    ensures
        r.0@.len() == footers_upto(b@, as_ranges(lines@), f as int, lines@.len() as int).len(),
        forall|i: int|
            0 <= i < r.0@.len() ==> footer_as(
                b@,
                #[trigger] r.0@[i],
                footers_upto(b@, as_ranges(lines@), f as int, lines@.len() as int)[i],
            ),
        r.1 == any_breaking(b@, footers_upto(b@, as_ranges(lines@), f as int, lines@.len() as int)),
        forall|i: int|
            0 <= i < r.0@.len() ==> (#[trigger] footers_upto(
                b@,
                as_ranges(lines@),
                f as int,
                lines@.len() as int,
            )[i]).1 <= footers_upto(b@, as_ranges(lines@), f as int, lines@.len() as int)[i].2,
{
    let ghost ls = as_ranges(lines@);
    let mut out: Vec<Scoped<Footer>> = Vec::new();
    let mut breaking = false;
    let mut j = f;
    let w_space = breaking_word_exec(SPACE);
    let w_hyphen = breaking_word_exec(HYPHEN);
    while j < lines.len()
        invariant
            ls == as_ranges(lines@),
            b@ == encode_utf8(raw@),
            f <= j <= lines@.len(),
            w_space@ == breaking_word(SPACE),
            w_hyphen@ == breaking_word(HYPHEN),
            forall|k: int| 0 <= k < lines@.len() ==> is_rest_line(b@, #[trigger] ls[k]),
            out@.len() == footers_upto(b@, ls, f as int, j as int).len(),
            forall|i: int|
                0 <= i < out@.len() ==> footer_as(
                    b@,
                    #[trigger] out@[i],
                    footers_upto(b@, ls, f as int, j as int)[i],
                ),
            breaking == any_breaking(b@, footers_upto(b@, ls, f as int, j as int)),
            forall|i: int|
                0 <= i < out@.len() ==> (#[trigger] footers_upto(b@, ls, f as int, j as int)[i]).1
                    <= footers_upto(b@, ls, f as int, j as int)[i].2,
        decreases lines@.len() - j,
    {
        let (s, e) = lines[j];
        assert(ls[j as int] == (s as int, e as int));
        assert(is_rest_line(b@, ls[j as int]));
        let ghost before = footers_upto(b@, ls, f as int, j as int);
        match footer_parts_exec(b, s, e) {
            Some((t, v)) => {
                let token = cut(raw, s, t);
                let value = cut(raw, v, e);
                let x = Scoped { value: Footer { token, value }, span: Span { start: s, end: e } };
                let ghost m = (s as int, t as int, v as int, e as int);
                proof {
                    assert(footers_upto(b@, ls, f as int, j + 1) =~= before.push(m));
                    lemma_any_breaking_push(b@, before, m);
                }
                let this_breaking = equals_ignoring_case_exec(b, s, t, &w_space)
                    || equals_ignoring_case_exec(b, s, t, &w_hyphen);
                breaking = breaking || this_breaking;
                out.push(x);
            },
            None => {
                proof {
                    assert(footers_upto(b@, ls, f as int, j + 1) =~= before);
                }
            },
        }
        j = j + 1;
    }
    (out, breaking)
}

proof fn lemma_encode_concat(x: Seq<char>, y: Seq<char>)
    ensures
        encode_utf8(x + y) == encode_utf8(x) + encode_utf8(y),
    decreases x.len(),
{
    if x.len() == 0 {
        assert(x + y =~= y);
    } else {
        lemma_encode_concat(x.drop_first(), y);
        assert((x + y).drop_first() =~= x.drop_first() + y);
        assert((x + y)[0] == x[0]);
    }
}

proof fn lemma_blank_line_bytes(sep: Seq<char>)
    requires
        sep == seq!['\n', '\n'],
    ensures
        encode_utf8(sep) == seq![NEWLINE, NEWLINE],
{
    assert((10u32 & 0x7Fu32) == 10u32) by (bit_vector);
    assert(sep.drop_first() =~= seq!['\n']);
    assert(sep.drop_first().drop_first() =~= Seq::<char>::empty());
    reveal_with_fuel(encode_utf8, 3);
    assert(encode_utf8(sep) =~= seq![NEWLINE, NEWLINE]);
}

/// The ranges `ps` are each a cut-bounded range of `b`.
pub open spec fn cut_ranges(b: Seq<u8>, ps: Seq<(int, int)>) -> bool {
    forall|i: int|
        0 <= i < ps.len() ==> {
            let p = #[trigger] ps[i];
            &&& 0 <= p.0 <= p.1 <= b.len()
            &&& is_cut(b, p.0)
            &&& is_cut(b, p.1)
        }
}

/// The body text: the paragraphs before line `f`, joined by blank lines.
pub(crate) fn body_exec(raw: &str, b: &[u8], lines: &Vec<(usize, usize)>, f: usize) -> (r: Option<String>)
    requires
        b@ == encode_utf8(raw@),
        f <= lines@.len(),
        forall|j: int| 0 <= j < lines@.len() ==> is_rest_line(b@, #[trigger] as_ranges(lines@)[j]),
        forall|j: int, k: int|
            0 <= j < k < lines@.len() ==> (#[trigger] as_ranges(lines@)[j]).1 < (
            #[trigger] as_ranges(lines@)[k]).0,
    ensures
        ({
            let ps = body_paragraphs(b@, as_ranges(lines@), f as int);
            match r {
                None => ps.len() == 0,
                Some(t) => ps.len() > 0 && encode_utf8(t@) == joined_paragraphs(b@, ps),
            }
        }),
{
    let ghost ls = as_ranges(lines@);
    let mut ps: Vec<(usize, usize)> = Vec::new();
    let mut prev_filled = false;
    let mut j: usize = 0;
    while j < f
        invariant
            ls == as_ranges(lines@),
            j <= f <= lines@.len(),
            forall|k: int| 0 <= k < lines@.len() ==> is_rest_line(b@, #[trigger] ls[k]),
            forall|x: int, y: int| 0 <= x < y < lines@.len() ==> (#[trigger] ls[x]).1 < (#[trigger] ls[y]).0,
            as_ranges(ps@) == body_paragraphs(b@, ls, j as int),
            cut_ranges(b@, as_ranges(ps@)),
            prev_filled == (j > 0 && !is_blank(b@, ls[j - 1])),
            prev_filled ==> ps@.len() > 0 && ps@.last().1 == ls[j - 1].1,
            forall|i: int| 0 <= i < ps@.len() ==> (#[trigger] ps@[i]).1 <= (if j > 0 { ls[j - 1].1 } else { 0 }),
        decreases f - j,
    {
        let (s, e) = lines[j];
        assert(ls[j as int] == (s as int, e as int));
        assert(is_rest_line(b@, ls[j as int]));
        let ghost before = as_ranges(ps@);
        if is_blank_exec(b, s, e) {
            prev_filled = false;
            proof {
                assert forall|i: int| 0 <= i < ps@.len() implies (#[trigger] ps@[i]).1 <= ls[j as int].1 by {
                    if j > 0 {
                        assert(ls[j - 1].1 < ls[j as int].0);
                    }
                }
            }
        } else if prev_filled {
            let last = ps.pop().unwrap();
            proof {
                assert(ls[j - 1].1 < ls[j as int].0);
                assert(before.last() == (last.0 as int, last.1 as int));
                assert(before[before.len() - 1] == before.last());
            }
            ps.push((last.0, e));
            proof {
                assert(as_ranges(ps@) =~= before.drop_last().push((before.last().0, e as int)));
                assert forall|i: int| 0 <= i < ps@.len() implies (#[trigger] ps@[i]).1 <= ls[j as int].1 by {
                    if i < ps@.len() - 1 {
                        assert(ls[j - 1].1 < ls[j as int].0);
                    }
                }
            }
            prev_filled = true;
        } else {
            ps.push((s, e));
            proof {
                assert(as_ranges(ps@) =~= before.push((s as int, e as int)));
                assert forall|i: int| 0 <= i < ps@.len() implies (#[trigger] ps@[i]).1 <= ls[j as int].1 by {
                    if i < ps@.len() - 1 && j > 0 {
                        assert(ls[j - 1].1 < ls[j as int].0);
                    }
                }
            }
            prev_filled = true;
        }
        j = j + 1;
    }
    if ps.len() == 0 {
        return None;
    }
    let ghost all = as_ranges(ps@);
    let sep = String::from_str("\n\n");
    proof {
        reveal_strlit("\n\n");
        assert(sep@ =~= seq!['\n', '\n']);
        lemma_blank_line_bytes(sep@);
    }
    let mut text = String::new();
    let mut i: usize = 0;
    while i < ps.len()
        invariant
            all == as_ranges(ps@),
            b@ == encode_utf8(raw@),
            cut_ranges(b@, all),
            encode_utf8(sep@) == seq![NEWLINE, NEWLINE],
            i <= ps@.len(),
            i == 0 ==> text@.len() == 0,
            i > 0 ==> encode_utf8(text@) == joined_paragraphs(b@, all.subrange(0, i as int)),
        decreases ps@.len() - i,
    {
        let (s, e) = ps[i];
        assert(all[i as int] == (s as int, e as int));
        let piece = cut(raw, s, e);
        let ghost old_text = text@;
        if i > 0 {
            text.append(sep.as_str());
        }
        text.append(piece.as_str());
        proof {
            let sub = all.subrange(0, i + 1);
            assert(sub.drop_last() =~= all.subrange(0, i as int));
            assert(sub.last() == all[i as int]);
            if i > 0 {
                lemma_encode_concat(old_text, sep@);
                lemma_encode_concat(old_text + sep@, piece@);
            } else {
                assert(old_text =~= Seq::<char>::empty());
                assert(text@ =~= piece@);
            }
        }
        i = i + 1;
    }
    proof {
        assert(all.subrange(0, i as int) =~= all);
    }
    Some(text)
}

} // verus!
