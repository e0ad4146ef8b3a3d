use vstd::prelude::*;
use vstd::string::StringSliceAdditionalSpecFns;
use vstd::utf8::*;

verus! {

broadcast use encode_utf8_valid_utf8;

/// A byte offset where a UTF-8 text may be cut: either end of the text, or
/// next to an ASCII byte.
pub open spec fn is_cut(b: Seq<u8>, i: int) -> bool {
    ||| i == 0
    ||| i == b.len()
    ||| (0 <= i < b.len() && b[i] < 128)
    ||| (0 < i <= b.len() && b[i - 1] < 128)
}

proof fn lemma_first_scalar_continuations(b: Seq<u8>, k: int)
    requires
        valid_first_scalar(b),
        1 <= k < length_of_first_scalar(b),
    ensures
        b[k] >= 128,
{
}

proof fn lemma_ascii_byte_is_boundary(b: Seq<u8>, i: int)
    requires
        valid_utf8(b),
        0 <= i < b.len(),
        b[i] < 128,
    ensures
        is_char_boundary(b, i),
    decreases b.len(),
{
    if i > 0 {
        let l = length_of_first_scalar(b);
        if i < l {
            lemma_first_scalar_continuations(b, i);
        }
        let rest = pop_first_scalar(b);
        assert(rest[i - l] == b[i]);
        lemma_ascii_byte_is_boundary(rest, i - l);
    }
}

proof fn lemma_after_ascii_is_boundary(b: Seq<u8>, i: int)
    requires
        valid_utf8(b),
        0 < i <= b.len(),
        b[i - 1] < 128,
    ensures
        is_char_boundary(b, i),
    decreases b.len(),
{
    let l = length_of_first_scalar(b);
    let rest = pop_first_scalar(b);
    if i - 1 == 0 {
        assert(l == 1);
        assert(is_char_boundary(rest, 0));
    } else {
        if i - 1 < l {
            lemma_first_scalar_continuations(b, i - 1);
        }
        assert(rest[i - l - 1] == b[i - 1]);
        lemma_after_ascii_is_boundary(rest, i - l);
    }
    assert(is_char_boundary(rest, i - l));
}

/// Every cut of a valid UTF-8 text is a character boundary.
pub proof fn lemma_cut_is_boundary(b: Seq<u8>, i: int)
    requires
        valid_utf8(b),
        is_cut(b, i),
    ensures
        is_char_boundary(b, i),
{
    if i == 0 || i == b.len() {
        is_char_boundary_start_end_of_seq(b);
    } else if b[i] < 128 {
        lemma_ascii_byte_is_boundary(b, i);
    } else {
        lemma_after_ascii_is_boundary(b, i);
    }
}

/// The text of `raw` between two cuts, as an owned string.
pub(crate) fn cut(raw: &str, start: usize, end: usize) -> (r: String)
    requires
        start <= end <= raw.spec_bytes().len(),
        is_cut(raw.spec_bytes(), start as int),
        is_cut(raw.spec_bytes(), end as int),
    ensures
        encode_utf8(r@) == raw.spec_bytes().subrange(start as int, end as int),
{
    let ghost b = raw.spec_bytes();
    proof {
        lemma_cut_is_boundary(b, start as int);
    }
    let (_, tail) = raw.split_at(start);
    let ghost t = tail.spec_bytes();
    proof {
        let k = (end - start) as int;
        assert(t.len() == b.len() - start);
        if k > 0 && k < t.len() {
            assert(t[k] == b[end as int]);
            assert(t[k - 1] == b[end - 1]);
        }
        assert(is_cut(t, k));
        lemma_cut_is_boundary(t, k);
    }
    let (mid, _) = tail.split_at(end - start);
    proof {
        assert(mid.spec_bytes() =~= b.subrange(start as int, end as int));
    }
    mid.to_owned()
}

} // verus!
