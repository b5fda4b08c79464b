//! Grapheme clusters and whitespace, as the Unicode segmentation crate and
//! the standard library compute them.

use unicode_segmentation::UnicodeSegmentation;
use vstd::prelude::*;
use vstd::string::*;
use vstd::utf8::*;

verus! {

/// The byte offsets at which the extended grapheme clusters of a text start,
/// in order.
pub uninterp spec fn grapheme_starts(s: Seq<char>) -> Seq<usize>;

/// A character with the Unicode White_Space property, which `str::trim`
/// removes from both ends of a text.
pub open spec fn is_white_space(c: char) -> bool {
    let u = c as u32;
    ||| 0x09 <= u <= 0x0D
    ||| u == 0x20
    ||| u == 0x85
    ||| u == 0xA0
    ||| u == 0x1680
    ||| 0x2000 <= u <= 0x200A
    ||| u == 0x2028
    ||| u == 0x2029
    ||| u == 0x202F
    ||| u == 0x205F
    ||| u == 0x3000
}

/// The number of White_Space characters that a text starts with.
pub open spec fn leading_white(s: Seq<char>) -> int
    decreases s.len(),
{
    if s.len() > 0 && is_white_space(s[0]) {
        1 + leading_white(s.drop_first())
    } else {
        0
    }
}

/// The number of White_Space characters that a text ends with.
pub open spec fn trailing_white(s: Seq<char>) -> int
    decreases s.len(),
{
    if s.len() > 0 && is_white_space(s.last()) {
        1 + trailing_white(s.drop_last())
    } else {
        0
    }
}

/// The text that `str::trim` leaves of a text: without its leading and
/// trailing White_Space characters.
pub open spec fn trimmed(s: Seq<char>) -> Seq<char> {
    if leading_white(s) == s.len() {
        Seq::empty()
    } else {
        s.subrange(leading_white(s), s.len() - trailing_white(s))
    }
}

proof fn lemma_leading_white(s: Seq<char>)
    ensures
        0 <= leading_white(s) <= s.len(),
        forall|i: int| 0 <= i < leading_white(s) ==> is_white_space(#[trigger] s[i]),
        leading_white(s) < s.len() ==> !is_white_space(s[leading_white(s)]),
    decreases s.len(),
{
    if s.len() > 0 && is_white_space(s[0]) {
        lemma_leading_white(s.drop_first());
        assert forall|i: int| 0 <= i < leading_white(s) implies is_white_space(#[trigger] s[i]) by {
            if i > 0 {
                assert(s[i] == s.drop_first()[i - 1]);
            }
        }
        if leading_white(s) < s.len() {
            assert(s[leading_white(s)] == s.drop_first()[leading_white(s.drop_first())]);
        }
    }
}

proof fn lemma_trailing_white(s: Seq<char>)
    ensures
        0 <= trailing_white(s) <= s.len(),
        forall|i: int| s.len() - trailing_white(s) <= i < s.len() ==> is_white_space(#[trigger] s[i]),
    decreases s.len(),
{
    if s.len() > 0 && is_white_space(s.last()) {
        lemma_trailing_white(s.drop_last());
        assert forall|i: int| s.len() - trailing_white(s) <= i < s.len() implies is_white_space(
            #[trigger] s[i],
        ) by {
            if i < s.len() - 1 {
                assert(s[i] == s.drop_last()[i]);
            }
        }
    }
}

/// Trimming leaves nothing exactly when every character is White_Space.
pub proof fn lemma_trimmed_empty(s: Seq<char>)
    ensures
        trimmed(s).len() == 0 <==> forall|i: int| 0 <= i < s.len() ==> is_white_space(#[trigger] s[i]),
{
    lemma_leading_white(s);
    lemma_trailing_white(s);
    if leading_white(s) < s.len() {
        let k = leading_white(s);
        assert(!is_white_space(s[k]));
        assert(k < s.len() - trailing_white(s));
    }
}

/// The shape of the cluster start offsets `b` of a text with the given bytes:
/// clusters are non-empty and cover the text in order, so the offsets rise
/// strictly from 0, each below the length and on a character boundary; the
/// empty text has no cluster.
pub open spec fn cluster_offsets(b: Seq<usize>, bytes: Seq<u8>) -> bool {
    &&& (b.len() == 0 <==> bytes.len() == 0)
    &&& b.len() > 0 ==> b[0] == 0
    &&& forall|i: int, j: int| 0 <= i < j < b.len() ==> b[i] < b[j]
    &&& forall|i: int|
        0 <= i < b.len() ==> b[i] < bytes.len() && is_char_boundary(bytes, #[trigger] b[i] as int)
}

/// Calls `UnicodeSegmentation::grapheme_indices(s, true)` and keeps the byte
/// offsets. Trusted: the offsets are `grapheme_starts` of the text, and they
/// have the shape of `cluster_offsets` (the crate yields the clusters of `s`
/// as consecutive non-empty slices of `s`, from its start to its end).
#[verifier::external_body]
pub(crate) fn grapheme_offsets(s: &str) -> (res: Vec<usize>)
    ensures
        res@ == grapheme_starts(s@),
        cluster_offsets(res@, s.spec_bytes()),
{
    s.grapheme_indices(true).map(|(i, _)| i).collect()
}

/// `str::trim`. Trusted: the result is the text without its leading and
/// trailing White_Space characters (`trimmed`), as std documents.
pub assume_specification[ str::trim ](s: &str) -> (res: &str)
    ensures
        res@ == trimmed(s@),
;

} // verus!
