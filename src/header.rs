//! The header line: `type(scope)!: description`.
use vstd::prelude::*;
use crate::text::is_cut;

verus! {

// Bytes of the message grammar.
pub const NEWLINE: u8 = 10;
pub const COLON: u8 = 58;
pub const SPACE: u8 = 32;
pub const OPEN_PAREN: u8 = 40;
pub const CLOSE_PAREN: u8 = 41;
pub const BANG: u8 = 33;
pub const HASH: u8 = 35;
pub const HYPHEN: u8 = 45;

/// The first offset in `[i, hi)` that holds `x`, or `hi` where none does.
pub open spec fn find_from(b: Seq<u8>, x: u8, i: int, hi: int) -> int
    decreases hi - i,
{
    if i >= hi {
        hi
    } else if b[i] == x {
        i
    } else {
        find_from(b, x, i + 1, hi)
    }
}

/// The first offset `i` in `[from, hi - 1)` with `": "` at `i`, or `hi` where
/// there is none.
pub open spec fn find_separator(b: Seq<u8>, from: int, hi: int) -> int
    decreases hi - from,
{
    if from + 1 >= hi {
        hi
    } else if b[from] == COLON && b[from + 1] == SPACE {
        from
    } else {
        find_separator(b, from + 1, hi)
    }
}

/// A byte that ends the type of a header.
pub open spec fn is_type_delimiter(x: u8) -> bool {
    x == OPEN_PAREN || x == COLON || x == BANG
}

/// The first offset in `[from, hi)` that holds a type delimiter, or `hi`.
pub open spec fn find_type_end(b: Seq<u8>, from: int, hi: int) -> int
    decreases hi - from,
{
    if from >= hi {
        hi
    } else if is_type_delimiter(b[from]) {
        from
    } else {
        find_type_end(b, from + 1, hi)
    }
}

/// The parts of a header line, as byte ranges of the raw message.
pub struct HeaderModel {
    pub type_: Option<(int, int)>,
    pub scope: Option<(int, int)>,
    pub bang: bool,
    pub description: (int, int),
}

/// The end of the header: the first newline, or the end of the message.
pub open spec fn header_end(b: Seq<u8>) -> int {
    find_from(b, NEWLINE, 0, b.len() as int)
}

/// How the header of the message `b` splits into type, scope, breaking
/// marker and description. A header that does not follow the grammar
/// `type(scope)!: description` is all description.
pub open spec fn header_model(b: Seq<u8>) -> HeaderModel {
    let h = header_end(b);
    let c = find_separator(b, 0, h);
    let t = find_type_end(b, 0, c);
    let plain = HeaderModel { type_: None, scope: None, bang: false, description: (0, h) };
    let desc = (c + 2, h);
    if c >= h || t == 0 {
        plain
    } else if t == c {
        HeaderModel { type_: Some((0, t)), scope: None, bang: false, description: desc }
    } else if t + 1 == c && b[t] == BANG {
        HeaderModel { type_: Some((0, t)), scope: None, bang: true, description: desc }
    } else if b[t] == OPEN_PAREN {
        let close = find_from(b, CLOSE_PAREN, t + 1, c);
        let inner_open = find_from(b, OPEN_PAREN, t + 1, c);
        if close >= c || inner_open < close {
            plain
        } else if close + 1 == c {
            HeaderModel {
                type_: Some((0, t)),
                scope: Some((t + 1, close)),
                bang: false,
                description: desc,
            }
        } else if close + 2 == c && b[close + 1] == BANG {
            HeaderModel {
                type_: Some((0, t)),
                scope: Some((t + 1, close)),
                bang: true,
                description: desc,
            }
        } else {
            plain
        }
    } else {
        plain
    }
}

proof fn lemma_find_from_bounds(b: Seq<u8>, x: u8, i: int, hi: int)
    requires
        i <= hi,
    ensures
        i <= find_from(b, x, i, hi) <= hi,
        find_from(b, x, i, hi) < hi ==> b[find_from(b, x, i, hi)] == x,
    decreases hi - i,
{
    if i < hi && b[i] != x {
        lemma_find_from_bounds(b, x, i + 1, hi);
    }
}

proof fn lemma_find_separator_bounds(b: Seq<u8>, from: int, hi: int)
    requires
        from <= hi,
    ensures
        from <= find_separator(b, from, hi) <= hi,
        find_separator(b, from, hi) < hi ==> find_separator(b, from, hi) + 1 < hi
            && b[find_separator(b, from, hi)] == COLON && b[find_separator(b, from, hi) + 1] == SPACE,
    decreases hi - from,
{
    if from + 1 < hi && !(b[from] == COLON && b[from + 1] == SPACE) {
        lemma_find_separator_bounds(b, from + 1, hi);
    }
}

proof fn lemma_find_type_end_bounds(b: Seq<u8>, from: int, hi: int)
    requires
        from <= hi,
    ensures
        from <= find_type_end(b, from, hi) <= hi,
        find_type_end(b, from, hi) < hi ==> is_type_delimiter(b[find_type_end(b, from, hi)]),
    decreases hi - from,
{
    if from < hi && !is_type_delimiter(b[from]) {
        lemma_find_type_end_bounds(b, from + 1, hi);
    }
}

pub(crate) fn find_byte(b: &[u8], x: u8, from: usize, hi: usize) -> (r: usize)
    requires
        from <= hi <= b@.len(),
    ensures
        r == find_from(b@, x, from as int, hi as int),
        from <= r <= hi,
        r < hi ==> b@[r as int] == x,
{
    proof {
        lemma_find_from_bounds(b@, x, from as int, hi as int);
    }
    let mut i = from;
    while i < hi
        invariant
            from <= i <= hi <= b@.len(),
            find_from(b@, x, from as int, hi as int) == find_from(b@, x, i as int, hi as int),
        decreases hi - i,
    {
        if b[i] == x {
            return i;
        }
        i = i + 1;
    }
    i
}

fn find_separator_exec(b: &[u8], hi: usize) -> (r: usize)
    requires
        hi <= b@.len(),
    ensures
        r == find_separator(b@, 0, hi as int),
        r <= hi,
        r < hi ==> r + 1 < hi && b@[r as int] == COLON && b@[r + 1] == SPACE,
{
    proof {
        lemma_find_separator_bounds(b@, 0, hi as int);
    }
    let mut i: usize = 0;
    while i < hi && i + 1 < hi
        invariant
            i <= hi <= b@.len(),
            find_separator(b@, 0, hi as int) == find_separator(b@, i as int, hi as int),
        decreases hi - i,
    {
        if b[i] == COLON && b[i + 1] == SPACE {
            return i;
        }
        i = i + 1;
    }
    hi
}

fn find_type_end_exec(b: &[u8], hi: usize) -> (r: usize)
    requires
        hi <= b@.len(),
    ensures
        r == find_type_end(b@, 0, hi as int),
        r <= hi,
        r < hi ==> is_type_delimiter(b@[r as int]),
{
    proof {
        lemma_find_type_end_bounds(b@, 0, hi as int);
    }
    let mut i: usize = 0;
    while i < hi
        invariant
            i <= hi <= b@.len(),
            find_type_end(b@, 0, hi as int) == find_type_end(b@, i as int, hi as int),
        decreases hi - i,
    {
        if b[i] == OPEN_PAREN || b[i] == COLON || b[i] == BANG {
            return i;
        }
        i = i + 1;
    }
    i
}

/// The parts of the header line that ends at `h`, as byte ranges: type,
/// scope, breaking marker and description.
pub(crate) fn split_header(b: &[u8], h: usize) -> (r: (Option<(usize, usize)>, Option<(usize, usize)>, bool, (usize, usize)))
    requires
        h == header_end(b@),
        h <= b@.len(),
    ensures
        header_model(b@).type_ == (match r.0 { Some(p) => Some((p.0 as int, p.1 as int)), None => None::<(int, int)> }),
        header_model(b@).scope == (match r.1 { Some(p) => Some((p.0 as int, p.1 as int)), None => None::<(int, int)> }),
        header_model(b@).bang == r.2,
        header_model(b@).description == (r.3.0 as int, r.3.1 as int),
        r.0 matches Some(p) ==> p.0 <= p.1 <= b@.len() && is_cut(b@, p.0 as int) && is_cut(b@, p.1 as int),
        r.1 matches Some(p) ==> p.0 <= p.1 <= b@.len() && is_cut(b@, p.0 as int) && is_cut(b@, p.1 as int),
        r.3.0 <= r.3.1 <= b@.len() && is_cut(b@, r.3.0 as int) && is_cut(b@, r.3.1 as int),
{
    proof {
        lemma_find_from_bounds(b@, NEWLINE, 0, b@.len() as int);
    }
    let c = find_separator_exec(b, h);
    let plain = (None, None, false, (0, h));
    if c >= h {
        return plain;
    }
    let t = find_type_end_exec(b, c);
    if t == 0 {
        return plain;
    }
    let desc = (c + 2, h);
    if t == c {
        return (Some((0, t)), None, false, desc);
    }
    if t + 1 == c && b[t] == BANG {
        return (Some((0, t)), None, true, desc);
    }
    if b[t] != OPEN_PAREN {
        return plain;
    }
    let close = find_byte(b, CLOSE_PAREN, t + 1, c);
    let inner_open = find_byte(b, OPEN_PAREN, t + 1, c);
    if close >= c || inner_open < close {
        plain
    } else if close + 1 == c {
        (Some((0, t)), Some((t + 1, close)), false, desc)
    } else if close + 2 == c && b[close + 1] == BANG {
        (Some((0, t)), Some((t + 1, close)), true, desc)
    } else {
        plain
    }
}

} // verus!
