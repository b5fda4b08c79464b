//! Byte-level reasoning about UTF-8 strings: splitting at byte offsets and
//! concatenation, stated over the UTF-8 encoding of a string's characters.

use vstd::prelude::*;
use vstd::string::*;
use vstd::utf8::*;

verus! {

broadcast use vstd::utf8::group_utf8_lib;

/// The UTF-8 bytes of a string given by its characters.
pub open spec fn utf8(s: Seq<char>) -> Seq<u8> {
    encode_utf8(s)
}

/// Encoding distributes over concatenation.
pub proof fn lemma_utf8_concat(a: Seq<char>, b: Seq<char>)
    ensures
        utf8(a + b) == utf8(a) + utf8(b),
    decreases a.len(),
{
    if a.len() == 0 {
        assert(a + b =~= b);
    } else {
        lemma_utf8_concat(a.drop_first(), b);
        assert((a + b).drop_first() =~= a.drop_first() + b);
        assert((a + b)[0] == a[0]);
    }
}

/// The byte length of `s`.
pub fn byte_len(s: &str) -> (n: usize)
    ensures
        n == s.spec_bytes().len(),
{
    s.as_bytes().len()
}

/// Splits `s` at byte offset `at`, which must lie on a character boundary.
pub fn split_at_byte(s: &str, at: usize) -> (res: (String, String))
    requires
        is_char_boundary(s.spec_bytes(), at as int),
    ensures
        utf8(res.0@) == s.spec_bytes().subrange(0, at as int),
        utf8(res.1@) == s.spec_bytes().subrange(at as int, s.spec_bytes().len() as int),
        utf8(res.0@).len() <= usize::MAX,
        utf8(res.1@).len() <= usize::MAX,
{
    let _len = byte_len(s);
    let (a, b) = s.split_at(at);
    (a.to_owned(), b.to_owned())
}

/// The concatenation of two string slices.
pub fn concat_str(a: &str, b: &str) -> (res: String)
    ensures
        utf8(res@) == a.spec_bytes() + b.spec_bytes(),
        utf8(res@).len() <= usize::MAX,
{
    let mut r = a.to_owned();
    r.append(b);
    proof {
        lemma_utf8_concat(a@, b@);
    }
    let _len = byte_len(r.as_str());
    r
}

/// A character boundary of a text, shifted by the start of a suffix that
/// begins on a character boundary, is a character boundary of that suffix.
pub proof fn lemma_boundary_in_suffix(bytes: Seq<u8>, from: int, j: int)
    requires
        valid_utf8(bytes),
        is_char_boundary(bytes, from),
        is_char_boundary(bytes, from + j),
        0 <= from,
        0 <= j,
        from + j <= bytes.len(),
    ensures
        valid_utf8(bytes.subrange(from, bytes.len() as int)),
        is_char_boundary(bytes.subrange(from, bytes.len() as int), j),
{
    let sub = bytes.subrange(from, bytes.len() as int);
    valid_utf8_split(bytes, from);
    if j == sub.len() {
        is_char_boundary_start_end_of_seq(sub);
    } else {
        is_char_boundary_iff_not_is_continuation_byte(sub, j);
        is_char_boundary_iff_not_is_continuation_byte(bytes, from + j);
        assert(sub[j] == bytes[from + j]);
    }
}

/// The bytes of `s` from `from` to `to`, both on character boundaries.
pub fn slice_str(s: &str, from: usize, to: usize) -> (res: String)
    requires
        from <= to <= s.spec_bytes().len(),
        is_char_boundary(s.spec_bytes(), from as int),
        is_char_boundary(s.spec_bytes(), to as int),
    ensures
        utf8(res@) == s.spec_bytes().subrange(from as int, to as int),
{
    let ghost bytes = s.spec_bytes();
    proof {
        encode_utf8_valid_utf8(s@);
        lemma_boundary_in_suffix(bytes, from as int, to - from);
    }
    let (_, rest) = s.split_at(from);
    assert(rest.spec_bytes() =~= bytes.subrange(from as int, bytes.len() as int));
    let (mid, _) = rest.split_at(to - from);
    assert(mid.spec_bytes() =~= bytes.subrange(from as int, to as int));
    mid.to_owned()
}

} // verus!
