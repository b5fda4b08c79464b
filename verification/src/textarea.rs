//! The editing state of a multi-line text input: its content, the selected
//! byte range, the IME marked range, and what each editing action does to them.
//! Layout, painting, focus, clipboard access, timers and events live with the
//! widget that holds this state.

use crate::clusters::{
    allowed_bytes, first_above, last_below, start_after, start_before, lemma_first_above_bounds, lemma_last_below_bounds,
};
use crate::layout::{runs_of, text_runs};
use crate::segmentation::{cluster_offsets, grapheme_offsets, grapheme_starts};
use crate::text::{byte_len, concat_str, slice_str, utf8, lemma_utf8_concat};
use std::ops::Range;
use vstd::prelude::*;
use vstd::std_specs::iter::IteratorSpec;
use vstd::string::*;
use vstd::utf8::*;

verus! {

broadcast use {vstd::utf8::group_utf8_lib, vstd::string::group_string_axioms};

/// Enter key mode: what Enter and Shift+Enter do.
#[derive(Clone, Copy, Debug, PartialEq, Eq, Structural)]
pub enum EnterMode {
    /// Enter submits, Shift+Enter inserts a newline (the default).
    EnterSubmit,
    /// Enter inserts a newline, Shift+Enter submits.
    EnterNewline,
}

impl Default for EnterMode {
    fn default() -> (res: Self)
        ensures
            res == EnterMode::EnterSubmit,
    {
        EnterMode::EnterSubmit
    }
}

/// What a key press asks the widget to announce.
#[derive(Clone, Copy, Debug, PartialEq, Eq, Structural)]
pub enum TextInputEvent {
    /// Submit (from Enter or Shift+Enter, depending on the `EnterMode`).
    Submit,
    /// A newline was inserted (from Enter or Shift+Enter, depending on the `EnterMode`).
    InsertNewline,
}

/// The number of UTF-8 bytes of a character.
pub open spec fn utf8_width(c: char) -> int {
    encode_scalar(c as u32).len() as int
}

/// The number of UTF-16 code units of a character.
pub open spec fn utf16_width(c: char) -> int {
    if (c as u32) < 0x10000 {
        1
    } else {
        2
    }
}

/// The UTF-8 byte offset reached by walking the characters of `s` until at
/// least `units` UTF-16 code units lie behind.
pub open spec fn bytes_for_units(s: Seq<char>, units: int) -> int
    decreases s.len(),
{
    if units <= 0 || s.len() == 0 {
        0
    } else {
        utf8_width(s[0]) + bytes_for_units(s.drop_first(), units - utf16_width(s[0]))
    }
}

/// The UTF-16 offset reached by walking the characters of `s` until at least
/// `bytes` UTF-8 bytes lie behind.
pub open spec fn units_for_bytes(s: Seq<char>, bytes: int) -> int
    decreases s.len(),
{
    if bytes <= 0 || s.len() == 0 {
        0
    } else {
        utf16_width(s[0]) + units_for_bytes(s.drop_first(), bytes - utf8_width(s[0]))
    }
}

/// The number of UTF-8 bytes of `c`.
fn char_utf8_len(c: char) -> (n: usize)
    ensures
        n == utf8_width(c),
        1 <= n <= 4,
{
    let u = c as u32;
    proof {
        char_is_scalar(c);
    }
    if u < 0x80 {
        1
    } else if u < 0x800 {
        2
    } else if u < 0x10000 {
        3
    } else {
        4
    }
}

/// The number of UTF-16 code units of `c`.
fn char_utf16_len(c: char) -> (n: usize)
    ensures
        n == utf16_width(c),
        n <= utf8_width(c),
{
    let u = c as u32;
    proof {
        char_is_scalar(c);
    }
    if u < 0x10000 {
        1
    } else {
        2
    }
}

/// The bytes of the first `i + 1` characters are those of the first `i`
/// followed by those of character `i`, and no more than those of all.
proof fn lemma_utf8_prefix_step(chars: Seq<char>, i: int)
    requires
        0 <= i < chars.len(),
    ensures
        utf8(chars.take(i + 1)) == utf8(chars.take(i)) + encode_scalar(chars[i] as u32),
        utf8(chars.take(i + 1)).len() <= utf8(chars).len(),
{
    assert(chars.take(i + 1) =~= chars.take(i) + seq![chars[i]]);
    lemma_utf8_concat(chars.take(i), seq![chars[i]]);
    let one = seq![chars[i]];
    assert(one.drop_first() =~= Seq::<char>::empty());
    assert(one[0] == chars[i]);
    assert(utf8(Seq::<char>::empty()) =~= Seq::<u8>::empty());
    assert(utf8(one) == encode_scalar(one[0] as u32) + utf8(one.drop_first()));
    assert(utf8(one) =~= encode_scalar(chars[i] as u32));
    assert(chars =~= chars.take(i + 1) + chars.skip(i + 1));
    lemma_utf8_concat(chars.take(i + 1), chars.skip(i + 1));
}

/// The UTF-8 byte offset in `s` for a UTF-16 offset (see `bytes_for_units`).
fn utf8_offset_of_utf16(s: &str, offset: usize) -> (res: usize)
    ensures
        res == bytes_for_units(s@, offset as int),
{
    let total = byte_len(s);
    let ghost chars = s@;
    let mut utf8_offset: usize = 0;
    let mut utf16_count: usize = 0;
    let mut it = s.chars();
    let ghost mut i: int = 0;
    assert(chars.skip(0) =~= chars);
    assert(chars.take(0) =~= Seq::<char>::empty());
    assert(utf8(Seq::<char>::empty()) =~= Seq::<u8>::empty());
    loop
        invariant
            0 <= i <= chars.len(),
            it.remaining() == chars.skip(i),
            bytes_for_units(chars, offset as int) == utf8_offset + bytes_for_units(
                chars.skip(i),
                offset - utf16_count,
            ),
            utf8_offset == utf8(chars.take(i)).len(),
            utf16_count <= utf8_offset,
            total == utf8(chars).len(),
        ensures
            utf8_offset == bytes_for_units(chars, offset as int),
        decreases chars.len() - i,
    {
        if utf16_count >= offset {
            break;
        }
        match it.next() {
            Some(ch) => {
                proof {
                    assert(ch == chars[i]);
                    lemma_utf8_prefix_step(chars, i);
                    assert(chars.skip(i).drop_first() =~= chars.skip(i + 1));
                    assert(chars.skip(i)[0] == chars[i]);
                }
                utf16_count = utf16_count + char_utf16_len(ch);
                utf8_offset = utf8_offset + char_utf8_len(ch);
                proof {
                    i = i + 1;
                }
            },
            None => {
                assert(chars.skip(i).len() == 0);
                break;
            },
        }
    }
    utf8_offset
}

/// The UTF-16 offset in `s` for a UTF-8 byte offset (see `units_for_bytes`).
fn utf16_offset_of_utf8(s: &str, offset: usize) -> (res: usize)
    ensures
        res == units_for_bytes(s@, offset as int),
{
    let total = byte_len(s);
    let ghost chars = s@;
    let mut utf16_offset: usize = 0;
    let mut utf8_count: usize = 0;
    let mut it = s.chars();
    let ghost mut i: int = 0;
    assert(chars.skip(0) =~= chars);
    assert(chars.take(0) =~= Seq::<char>::empty());
    assert(utf8(Seq::<char>::empty()) =~= Seq::<u8>::empty());
    loop
        invariant
            0 <= i <= chars.len(),
            it.remaining() == chars.skip(i),
            units_for_bytes(chars, offset as int) == utf16_offset + units_for_bytes(
                chars.skip(i),
                offset - utf8_count,
            ),
            utf8_count == utf8(chars.take(i)).len(),
            utf16_offset <= utf8_count,
            total == utf8(chars).len(),
        ensures
            utf16_offset == units_for_bytes(chars, offset as int),
        decreases chars.len() - i,
    {
        if utf8_count >= offset {
            break;
        }
        match it.next() {
            Some(ch) => {
                proof {
                    assert(ch == chars[i]);
                    lemma_utf8_prefix_step(chars, i);
                    assert(chars.skip(i).drop_first() =~= chars.skip(i + 1));
                    assert(chars.skip(i)[0] == chars[i]);
                }
                utf8_count = utf8_count + char_utf8_len(ch);
                utf16_offset = utf16_offset + char_utf16_len(ch);
                proof {
                    i = i + 1;
                }
            },
            None => {
                assert(chars.skip(i).len() == 0);
                break;
            },
        }
    }
    utf16_offset
}

/// The number of UTF-16 code units of `s`.
pub open spec fn utf16_len(s: Seq<char>) -> int
    decreases s.len(),
{
    if s.len() == 0 {
        0
    } else {
        utf16_width(s[0]) + utf16_len(s.drop_first())
    }
}

/// The end of every prefix of characters is a character boundary of the bytes.
pub proof fn lemma_prefix_boundary(s: Seq<char>, j: int)
    requires
        0 <= j <= s.len(),
    ensures
        is_char_boundary(utf8(s), utf8(s.take(j)).len() as int),
        utf8(s.take(j)).len() <= utf8(s).len(),
    decreases j,
{
    assert(s =~= s.take(j) + s.skip(j));
    lemma_utf8_concat(s.take(j), s.skip(j));
    if j == 0 {
        assert(s.take(0) =~= Seq::<char>::empty());
        assert(utf8(Seq::<char>::empty()) =~= Seq::<u8>::empty());
    } else {
        let rest = s.drop_first();
        lemma_prefix_boundary(rest, j - 1);
        encode_utf8_first_scalar(s);
        let bytes = utf8(s);
        assert(pop_first_scalar(bytes) =~= utf8(rest));
        assert(s.take(j).drop_first() =~= rest.take(j - 1));
        assert(s.take(j)[0] == s[0]);
        assert(utf8(s.take(j)).len() == encode_scalar(s[0] as u32).len() + utf8(rest.take(
            j - 1,
        )).len());
    }
}

/// The offset `bytes_for_units` reaches is the byte length of a prefix of characters.
pub proof fn lemma_bytes_for_units_prefix(s: Seq<char>, u: int) -> (j: int)
    ensures
        0 <= j <= s.len(),
        bytes_for_units(s, u) == utf8(s.take(j)).len(),
    decreases s.len(),
{
    if u <= 0 || s.len() == 0 {
        assert(s.take(0) =~= Seq::<char>::empty());
        assert(utf8(Seq::<char>::empty()) =~= Seq::<u8>::empty());
        0
    } else {
        let rest = s.drop_first();
        let k = lemma_bytes_for_units_prefix(rest, u - utf16_width(s[0]));
        assert(s.take(k + 1) =~= seq![s[0]] + rest.take(k));
        lemma_utf8_concat(seq![s[0]], rest.take(k));
        let one = seq![s[0]];
        assert(one.drop_first() =~= Seq::<char>::empty());
        assert(utf8(Seq::<char>::empty()) =~= Seq::<u8>::empty());
        assert(utf8(one) == encode_scalar(one[0] as u32) + utf8(one.drop_first()));
        k + 1
    }
}

/// Every character boundary of the UTF-8 bytes of `s` ends a prefix of its
/// characters.
pub proof fn lemma_boundary_prefix(s: Seq<char>, k: int) -> (j: int)
    requires
        is_char_boundary(utf8(s), k),
    ensures
        0 <= j <= s.len(),
        utf8(s.take(j)).len() == k,
    decreases s.len(),
{
    encode_utf8_valid_utf8(s);
    if k == 0 {
        assert(s.take(0) =~= Seq::<char>::empty());
        assert(utf8(Seq::<char>::empty()) =~= Seq::<u8>::empty());
        0
    } else {
        let bytes = utf8(s);
        assert(s.len() > 0) by {
            if s.len() == 0 {
                assert(utf8(s) =~= Seq::<u8>::empty());
            }
        }
        let rest = s.drop_first();
        encode_utf8_first_scalar(s);
        assert(pop_first_scalar(bytes) =~= utf8(rest));
        let w = encode_scalar(s[0] as u32).len() as int;
        let jr = lemma_boundary_prefix(rest, k - w);
        assert(s.take(jr + 1) =~= seq![s[0]] + rest.take(jr));
        lemma_utf8_concat(seq![s[0]], rest.take(jr));
        let one = seq![s[0]];
        assert(one.drop_first() =~= Seq::<char>::empty());
        assert(utf8(Seq::<char>::empty()) =~= Seq::<u8>::empty());
        assert(utf8(one) == encode_scalar(one[0] as u32) + utf8(one.drop_first()));
        jr + 1
    }
}

/// A UTF-8 offset on a character boundary, taken to UTF-16 and back, comes
/// back unchanged.
pub proof fn law_utf16_boundary_round_trip(s: Seq<char>, k: int)
    requires
        is_char_boundary(utf8(s), k),
    ensures
        bytes_for_units(s, units_for_bytes(s, k)) == k,
{
    let j = lemma_boundary_prefix(s, k);
    law_utf16_round_trip(s, j);
}

/// A UTF-8 offset that ends a prefix of characters maps to the UTF-16 length
/// of that prefix, and that UTF-16 offset maps back to it.
pub proof fn law_utf16_round_trip(s: Seq<char>, j: int)
    requires
        0 <= j <= s.len(),
    ensures
        units_for_bytes(s, utf8(s.take(j)).len() as int) == utf16_len(s.take(j)),
        bytes_for_units(s, utf16_len(s.take(j))) == utf8(s.take(j)).len(),
    decreases j,
{
    if j == 0 {
        assert(s.take(0) =~= Seq::<char>::empty());
        assert(utf8(Seq::<char>::empty()) =~= Seq::<u8>::empty());
    } else {
        let rest = s.drop_first();
        law_utf16_round_trip(rest, j - 1);
        assert(s.take(j) =~= seq![s[0]] + rest.take(j - 1));
        lemma_utf8_concat(seq![s[0]], rest.take(j - 1));
        let one = seq![s[0]];
        assert(one.drop_first() =~= Seq::<char>::empty());
        assert(utf8(Seq::<char>::empty()) =~= Seq::<u8>::empty());
        assert(utf8(one) == encode_scalar(one[0] as u32) + utf8(one.drop_first()));
        assert(s.take(j).drop_first() =~= rest.take(j - 1));
        assert(s.take(j)[0] == s[0]);
        char_is_scalar(s[0]);
    }
}

/// The state of a text input as values: content and placeholder as UTF-8
/// bytes, the selected byte range, whether the caret sits at its start, the
/// IME marked range, whether a mouse drag is selecting, whether the caret shows,
/// and the settings.
pub struct InputView {
    pub content: Seq<u8>,
    pub placeholder: Seq<u8>,
    pub selected: Range<usize>,
    pub reversed: bool,
    pub marked: Option<Range<usize>>,
    pub selecting: bool,
    pub cursor_visible: bool,
    pub max_length: Option<usize>,
    pub mode: EnterMode,
    pub rows: usize,
}

/// The cluster start offsets of a text given by its bytes.
pub open spec fn clusters(t: Seq<u8>) -> Seq<usize> {
    grapheme_starts(decode_utf8(t))
}

/// The number of grapheme clusters of a text given by its bytes.
pub open spec fn cluster_count(t: Seq<u8>) -> int {
    clusters(t).len() as int
}

/// A byte range of `content` that can be cut out: ordered, within the
/// content, and on character boundaries.
pub open spec fn valid_range(content: Seq<u8>, r: Range<usize>) -> bool {
    &&& r.start <= r.end <= content.len()
    &&& is_char_boundary(content, r.start as int)
    &&& is_char_boundary(content, r.end as int)
}

impl InputView {
    /// Nothing is selected: the selection does not run forward.
    pub open spec fn nothing_selected(self) -> bool {
        !(self.selected.start < self.selected.end)
    }

    /// The state Backspace deletes from: with nothing selected, the
    /// selection extended to the cluster start before the caret.
    pub open spec fn before_backspace(self) -> InputView {
        if self.nothing_selected() {
            self.selected_to(self.previous_boundary(self.cursor()))
        } else {
            self
        }
    }

    /// The state Delete deletes from: with nothing selected, the selection
    /// extended to the cluster start after the caret.
    pub open spec fn before_delete(self) -> InputView {
        if self.nothing_selected() {
            self.selected_to(self.next_boundary(self.cursor()))
        } else {
            self
        }
    }

    /// The caret: the end of the selection where the caret sits.
    pub open spec fn cursor(self) -> int {
        if self.reversed {
            self.selected.start as int
        } else {
            self.selected.end as int
        }
    }

    /// The selection and the marked range can be cut out of the content.
    pub open spec fn wf(self) -> bool {
        &&& valid_range(self.content, self.selected)
        &&& (self.marked matches Some(m) ==> valid_range(self.content, m))
    }

    /// The cluster start before byte offset `off`, or 0.
    pub open spec fn previous_boundary(self, off: int) -> int {
        last_below(clusters(self.content), off)
    }

    /// The cluster start after byte offset `off`, or the content's length.
    pub open spec fn next_boundary(self, off: int) -> int {
        first_above(clusters(self.content), off, self.content.len() as int)
    }

    /// The state after moving the caret to `off` with nothing selected.
    pub open spec fn moved_to(self, off: int) -> InputView {
        InputView {
            selected: Range { start: off as usize, end: off as usize },
            cursor_visible: true,
            ..self
        }
    }

    /// The state after extending the selection to `off`: the caret's end of
    /// the selection moves; when it passes the other end the two swap and the
    /// caret changes sides.
    pub open spec fn selected_to(self, off: int) -> InputView {
        let r = if self.reversed {
            Range { start: off as usize, end: self.selected.end }
        } else {
            Range { start: self.selected.start, end: off as usize }
        };
        if r.end < r.start {
            InputView {
                selected: Range { start: r.end, end: r.start },
                reversed: !self.reversed,
                ..self
            }
        } else {
            InputView { selected: r, ..self }
        }
    }

    /// The byte range an edit replaces: the given UTF-16 range converted to
    /// bytes, else the marked range, else the selection.
    pub open spec fn target(self, range_utf16: Option<Range<usize>>) -> Range<usize> {
        match range_utf16 {
            Some(r) => Range {
                start: bytes_for_units(decode_utf8(self.content), r.start as int) as usize,
                end: bytes_for_units(decode_utf8(self.content), r.end as int) as usize,
            },
            None => match self.marked {
                Some(m) => m,
                None => self.selected,
            },
        }
    }

    /// The part of text `t` that fits when it replaces range `r`: all of it
    /// without a maximum length; otherwise, as many of its leading clusters as
    /// the clusters kept around `r` leave room for.
    pub open spec fn fitted(self, t: Seq<u8>, r: Range<usize>) -> Seq<u8> {
        match self.max_length {
            None => t,
            Some(max) => {
                let existing = cluster_count(self.content.take(r.start as int)) + cluster_count(
                    self.content.skip(r.end as int),
                );
                if existing >= max {
                    Seq::empty()
                } else {
                    let b = clusters(t);
                    let allowed = max - existing;
                    if allowed < b.len() {
                        t.take(b[allowed] as int)
                    } else {
                        t
                    }
                }
            },
        }
    }

    /// The content with range `r` replaced by `t`.
    pub open spec fn spliced(self, r: Range<usize>, t: Seq<u8>) -> Seq<u8> {
        self.content.take(r.start as int) + t + self.content.skip(r.end as int)
    }

    /// The state after replacing the target of `range_utf16` by `new_text`
    /// (fitted to the maximum length): the caret after the new text, nothing
    /// selected or marked, the caret shown.
    pub open spec fn replaced(self, range_utf16: Option<Range<usize>>, new_text: Seq<u8>) -> InputView {
        let r = self.target(range_utf16);
        let t = self.fitted(new_text, r);
        let at = (r.start + t.len()) as usize;
        InputView {
            content: self.spliced(r, t),
            selected: Range { start: at, end: at },
            marked: None,
            cursor_visible: true,
            ..self
        }
    }

    /// The target of an edit can be cut out of the content.
    pub open spec fn can_replace(self, range_utf16: Option<Range<usize>>) -> bool {
        range_utf16 is None ==> {
            let r = self.target(range_utf16);
            &&& r.start <= self.content.len()
            &&& r.end <= self.content.len()
            &&& is_char_boundary(self.content, r.start as int)
            &&& is_char_boundary(self.content, r.end as int)
        }
    }
}

/// The editing state of a multi-line text input.
pub struct TextInput {
    /// The text content.
    content: String,
    /// Text shown while the content is empty.
    placeholder: String,
    /// The selected byte range; `start == end` when nothing is selected.
    selected_range: Range<usize>,
    /// The caret sits at the start of the selection.
    selection_reversed: bool,
    /// The IME marked range (text being composed).
    marked_range: Option<Range<usize>>,
    /// A mouse drag is selecting text.
    is_selecting: bool,
    /// The caret shows (it blinks).
    cursor_visible: bool,
    /// The most grapheme clusters the content may hold.
    max_length: Option<usize>,
    /// What Enter and Shift+Enter do.
    mode: EnterMode,
    /// The number of visible text rows (at least 1).
    rows: usize,
}

impl View for TextInput {
    type V = InputView;

    closed spec fn view(&self) -> InputView {
        InputView {
            content: utf8(self.content@),
            placeholder: utf8(self.placeholder@),
            selected: self.selected_range,
            reversed: self.selection_reversed,
            marked: self.marked_range,
            selecting: self.is_selecting,
            cursor_visible: self.cursor_visible,
            max_length: self.max_length,
            mode: self.mode,
            rows: self.rows,
        }
    }
}

/// The empty string literal has no bytes.
proof fn lemma_empty_literal()
    ensures
        utf8(""@) == Seq::<u8>::empty(),
{
    reveal_strlit("");
    assert(""@ =~= Seq::<char>::empty());
    assert(utf8(Seq::<char>::empty()) =~= Seq::<u8>::empty());
}

/// Two valid UTF-8 byte sequences joined are valid, with a character
/// boundary where they meet.
proof fn lemma_join_boundary(x: Seq<u8>, y: Seq<u8>)
    requires
        valid_utf8(x),
        valid_utf8(y),
    ensures
        valid_utf8(x + y),
        is_char_boundary(x + y, x.len() as int),
{
    valid_utf8_concat(x, y);
    if y.len() == 0 {
        assert(x + y =~= x);
        is_char_boundary_start_end_of_seq(x);
    } else {
        is_char_boundary_start_end_of_seq(y);
        is_char_boundary_iff_not_is_continuation_byte(y, 0);
        is_char_boundary_iff_not_is_continuation_byte(x + y, x.len() as int);
        assert((x + y)[x.len() as int] == y[0]);
    }
}

/// The state after replacing the target of `range_utf16` by `new_text` and
/// marking it as text being composed: the new text (fitted) is marked when not
/// empty; the selection is the given UTF-16 range converted on the new
/// content, its start shifted by the target's start and its end by the
/// target's end, or else the caret after the new text.
pub open spec fn marked_replaced(
    v: InputView,
    range_utf16: Option<Range<usize>>,
    new_text: Seq<u8>,
    new_selected_utf16: Option<Range<usize>>,
) -> InputView {
    let r = v.target(range_utf16);
    let t = v.fitted(new_text, r);
    let content = v.spliced(r, t);
    let at = (r.start + t.len()) as usize;
    InputView {
        content,
        marked: if t.len() > 0 {
            Some(Range { start: r.start, end: at })
        } else {
            None
        },
        selected: match new_selected_utf16 {
            Some(ns) => Range {
                start: (bytes_for_units(decode_utf8(content), ns.start as int) + r.start) as usize,
                end: (bytes_for_units(decode_utf8(content), ns.end as int) + r.end) as usize,
            },
            None => Range { start: at, end: at },
        },
        cursor_visible: true,
        ..v
    }
}

/// The shifted selection of `marked_replaced` fits in `usize`.
pub open spec fn marked_selection_fits(
    v: InputView,
    range_utf16: Option<Range<usize>>,
    new_text: Seq<u8>,
    new_selected_utf16: Option<Range<usize>>,
) -> bool {
    let r = v.target(range_utf16);
    let content = v.spliced(r, v.fitted(new_text, r));
    new_selected_utf16 matches Some(ns) ==> {
        &&& bytes_for_units(decode_utf8(content), ns.start as int) + r.start <= usize::MAX
        &&& bytes_for_units(decode_utf8(content), ns.end as int) + r.end <= usize::MAX
    }
}

/// Extending the selection to an offset leaves the caret at that offset and
/// the selection ordered.
pub proof fn law_select_to_caret(v: InputView, off: usize)
    requires
        v.selected.start <= v.selected.end,
    ensures
        v.selected_to(off as int).cursor() == off,
        v.selected_to(off as int).selected.start <= v.selected_to(off as int).selected.end,
{
}

/// Moving the caret selects nothing and puts the caret at the offset.
pub proof fn law_move_to_caret(v: InputView, off: usize)
    ensures
        v.moved_to(off as int).cursor() == off,
        v.moved_to(off as int).selected.start == v.moved_to(off as int).selected.end,
{
}

/// What an edit inserts is a prefix of the given text (its clusters having
/// their usual shape), and all of it without a maximum length.
pub proof fn law_fitted_prefix(v: InputView, t: Seq<u8>, r: Range<usize>)
    requires
        cluster_offsets(clusters(t), t),
    ensures
        exists|k: int| 0 <= k <= t.len() && v.fitted(t, r) == t.take(k),
        v.max_length is None ==> v.fitted(t, r) == t,
{
    let f = v.fitted(t, r);
    match v.max_length {
        None => {
            assert(f == t.take(t.len() as int));
        },
        Some(max) => {
            let existing = cluster_count(v.content.take(r.start as int)) + cluster_count(
                v.content.skip(r.end as int),
            );
            if existing >= max {
                assert(f == t.take(0));
            } else {
                let b = clusters(t);
                let allowed = max - existing;
                if allowed < b.len() {
                    let k = b[allowed] as int;
                    assert(f == t.take(k));
                } else {
                    assert(f == t.take(t.len() as int));
                }
            }
        },
    }
}

/// After an edit the new text stands between the target's start and the
/// caret, which selects nothing, and nothing is marked.
pub proof fn law_replaced_reads_back(v: InputView, range_utf16: Option<Range<usize>>, t: Seq<u8>)
    requires
        v.target(range_utf16).start <= v.content.len(),
    ensures
        ({
            let r = v.target(range_utf16);
            let w = v.replaced(range_utf16, t);
            let f = v.fitted(t, r);
            &&& r.start + f.len() <= usize::MAX ==> w.content.subrange(
                r.start as int,
                r.start + f.len(),
            ) == f
            &&& w.selected.start == w.selected.end
            &&& w.marked is None
            &&& w.content.take(r.start as int) == v.content.take(r.start as int)
        }),
{
    let r = v.target(range_utf16);
    let w = v.replaced(range_utf16, t);
    let f = v.fitted(t, r);
    assert(w.content.subrange(r.start as int, r.start + f.len()) =~= f);
    assert(w.content.take(r.start as int) =~= v.content.take(r.start as int));
}

/// Extending the selection keeps its anchor, the end that is not the caret:
/// the new selection runs between the old anchor and the offset, the caret
/// at the offset, and nothing else changes.
pub proof fn law_select_to_keeps_anchor(v: InputView, off: usize)
    requires
        v.selected.start <= v.selected.end,
    ensures
        ({
            let anchor = if v.reversed {
                v.selected.end
            } else {
                v.selected.start
            };
            let w = v.selected_to(off as int);
            &&& (if w.reversed {
                w.selected.end
            } else {
                w.selected.start
            }) == anchor
            &&& w.cursor() == off
            &&& w.selected.start == (if anchor <= off {
                anchor
            } else {
                off
            })
            &&& w.selected.end == (if anchor <= off {
                off
            } else {
                anchor
            })
            &&& w.content == v.content
            &&& w.marked == v.marked
        }),
{
}

/// Marking text without a new selection leaves the caret, with nothing
/// selected, right after the inserted text, which reads back at the start of
/// the replaced range and is what is marked (nothing when it is empty).
pub proof fn law_marking_puts_caret_after(
    v: InputView,
    range_utf16: Option<Range<usize>>,
    t: Seq<u8>,
)
    requires
        v.target(range_utf16).start <= v.content.len(),
        v.target(range_utf16).start + v.fitted(t, v.target(range_utf16)).len() <= usize::MAX,
    ensures
        ({
            let r = v.target(range_utf16);
            let f = v.fitted(t, r);
            let w = marked_replaced(v, range_utf16, t, None);
            &&& w.selected.start == r.start + f.len()
            &&& w.selected.end == w.selected.start
            &&& w.content.take(r.start as int) == v.content.take(r.start as int)
            &&& w.content.subrange(r.start as int, w.selected.end as int) == f
            &&& f.len() > 0 ==> w.marked == Some(Range { start: r.start, end: w.selected.end })
            &&& f.len() == 0 ==> w.marked is None
        }),
{
    let r = v.target(range_utf16);
    let f = v.fitted(t, r);
    let w = marked_replaced(v, range_utf16, t, None);
    assert(w.content.take(r.start as int) =~= v.content.take(r.start as int));
    assert(w.content.subrange(r.start as int, r.start + f.len()) =~= f);
}

/// With a maximum length, the clusters kept on both sides of the replaced
/// range count against it: when they reach the limit nothing goes in;
/// otherwise what goes in is the new text up to the start of its cluster
/// number (limit minus kept clusters), all of it when it has no more.
pub proof fn law_max_length_counts_both_sides(v: InputView, t: Seq<u8>, r: Range<usize>, m: usize)
    requires
        v.max_length == Some(m),
    ensures
        ({
            let kept = cluster_count(v.content.take(r.start as int)) + cluster_count(
                v.content.skip(r.end as int),
            );
            let f = v.fitted(t, r);
            let b = clusters(t);
            &&& kept >= m ==> f.len() == 0
            &&& kept < m && m - kept < b.len() ==> f == t.take(b[m - kept] as int)
            &&& kept < m && m - kept >= b.len() ==> f == t
        }),
{
}

/// Which leading entries of `s` are at most `off`: the length of the longest
/// prefix of `s` whose entries are all at most `off`.
pub open spec fn leading_at_most(s: Seq<usize>, off: int) -> int
    decreases s.len(),
{
    if s.len() == 0 || s[0] > off {
        0
    } else {
        1 + leading_at_most(s.drop_first(), off)
    }
}

/// The line that byte offset `off` falls in, given the start offset of each
/// line: one less than the number of leading starts at most `off`, and 0 when
/// there is none.
pub open spec fn line_index(starts: Seq<usize>, off: int) -> int {
    let k = leading_at_most(starts, off);
    if k > 0 {
        k - 1
    } else {
        0
    }
}

/// A line index lies among the lines.
pub proof fn lemma_line_index_bound(starts: Seq<usize>, off: int)
    requires
        starts.len() >= 1,
    ensures
        0 <= line_index(starts, off) < starts.len(),
{
    lemma_leading_at_most_bound(starts, off);
}

proof fn lemma_leading_at_most_bound(s: Seq<usize>, off: int)
    ensures
        0 <= leading_at_most(s, off) <= s.len(),
    decreases s.len(),
{
    if s.len() > 0 && s[0] <= off {
        lemma_leading_at_most_bound(s.drop_first(), off);
    }
}

impl TextInput {
    /// Create the state of an empty text input: no content, the default
    /// placeholder, the caret at 0 and shown, no limit, Enter submits, 2 rows.
    pub fn new() -> (res: Self)
        ensures
            res@.content == Seq::<u8>::empty(),
            res@.placeholder == utf8("\u{8bf7}\u{8f93}\u{5165}\u{5185}\u{5bb9}..."@),
            res@.selected == (Range { start: 0usize, end: 0usize }),
            !res@.reversed,
            res@.marked is None,
            !res@.selecting,
            res@.cursor_visible,
            res@.max_length is None,
            res@.mode == EnterMode::EnterSubmit,
            res@.rows == 2,
            res@.wf(),
    {
        let res = Self {
            content: String::new(),
            placeholder: "\u{8bf7}\u{8f93}\u{5165}\u{5185}\u{5bb9}...".to_owned(),
            selected_range: 0..0,
            selection_reversed: false,
            marked_range: None,
            is_selecting: false,
            cursor_visible: true,
            max_length: None,
            mode: EnterMode::default(),
            rows: 2,
        };
        proof {
            assert(utf8(Seq::<char>::empty()) =~= Seq::<u8>::empty());
            is_char_boundary_start_end_of_seq(Seq::<u8>::empty());
        }
        res
    }

    /// Set the placeholder text.
    pub fn placeholder(self, placeholder: &str) -> (res: Self)
        ensures
            res@ == (InputView { placeholder: placeholder.spec_bytes(), ..self@ }),
    {
        Self { placeholder: placeholder.to_owned(), ..self }
    }

    /// Set the most grapheme clusters the content may hold; longer input is cut.
    pub fn max_length(self, len: usize) -> (res: Self)
        ensures
            res@ == (InputView { max_length: Some(len), ..self@ }),
    {
        Self { max_length: Some(len), ..self }
    }

    /// Set the Enter key mode.
    pub fn enter_mode(self, mode: EnterMode) -> (res: Self)
        ensures
            res@ == (InputView { mode, ..self@ }),
    {
        Self { mode, ..self }
    }

    /// Set the number of visible rows; at least 1.
    pub fn rows(self, rows: usize) -> (res: Self)
        ensures
            res@ == (InputView { rows: if rows >= 1 { rows } else { 1 }, ..self@ }),
    {
        Self { rows: if rows >= 1 { rows } else { 1 }, ..self }
    }

    /// The current content.
    pub fn value(&self) -> (res: String)
        ensures
            utf8(res@) == self@.content,
    {
        self.content.clone()
    }

    /// The current content, borrowed.
    pub fn content(&self) -> (res: &str)
        ensures
            res.spec_bytes() == self@.content,
    {
        self.content.as_str()
    }

    /// The placeholder text.
    pub fn placeholder_text(&self) -> (res: &str)
        ensures
            res.spec_bytes() == self@.placeholder,
    {
        self.placeholder.as_str()
    }

    /// The runs of the displayed text as (length, underlined) pairs: the
    /// placeholder as one plain run while the content is empty, otherwise the
    /// content's runs around the marked range (see `runs_of`).
    pub fn display_runs(&self) -> (res: Vec<(usize, bool)>)
        requires
            self@.wf(),
        ensures
            self@.content.len() == 0 ==> res@ == seq![(self@.placeholder.len() as usize, false)],
            self@.content.len() > 0 ==> res@ == runs_of(self@.content.len() as int, self@.marked),
    {
        let n = byte_len(self.content.as_str());
        if n == 0 {
            let p = byte_len(self.placeholder.as_str());
            vec![(p, false)]
        } else {
            text_runs(n, &self.marked_range)
        }
    }

    /// The selected byte range.
    pub fn selected_range(&self) -> (res: Range<usize>)
        ensures
            res == self@.selected,
    {
        self.selected_range.start..self.selected_range.end
    }

    /// The caret sits at the start of the selection.
    pub fn selection_reversed(&self) -> (res: bool)
        ensures
            res == self@.reversed,
    {
        self.selection_reversed
    }

    /// The IME marked byte range.
    pub fn marked_range(&self) -> (res: Option<Range<usize>>)
        ensures
            res == self@.marked,
    {
        match &self.marked_range {
            Some(r) => Some(r.start..r.end),
            None => None,
        }
    }

    /// A mouse drag is selecting text.
    pub fn is_selecting(&self) -> (res: bool)
        ensures
            res == self@.selecting,
    {
        self.is_selecting
    }

    /// The caret shows.
    pub fn cursor_visible(&self) -> (res: bool)
        ensures
            res == self@.cursor_visible,
    {
        self.cursor_visible
    }

    /// Show or hide the caret (it blinks).
    pub fn set_cursor_visible(&mut self, visible: bool)
        ensures
            final(self)@ == (InputView { cursor_visible: visible, ..old(self)@ }),
    {
        self.cursor_visible = visible;
    }

    /// The Enter key mode.
    pub fn mode(&self) -> (res: EnterMode)
        ensures
            res == self@.mode,
    {
        self.mode
    }

    /// The number of visible rows.
    pub fn row_count(&self) -> (res: usize)
        ensures
            res == self@.rows,
    {
        self.rows
    }

    /// The most grapheme clusters the content may hold, if limited.
    pub fn limit(&self) -> (res: Option<usize>)
        ensures
            res == self@.max_length,
    {
        self.max_length
    }

    /// Empty the content and put the caret at 0.
    pub fn clear(&mut self)
        ensures
            final(self)@ == (InputView {
                content: Seq::empty(),
                selected: Range { start: 0usize, end: 0usize },
                reversed: false,
                marked: None,
                ..old(self)@
            }),
            final(self)@.wf(),
    {
        self.content = String::new();
        self.selected_range = 0..0;
        self.selection_reversed = false;
        self.marked_range = None;
        proof {
            assert(utf8(Seq::<char>::empty()) =~= Seq::<u8>::empty());
            is_char_boundary_start_end_of_seq(Seq::<u8>::empty());
        }
    }

    /// Whether the selection and the marked range can be cut out of the
    /// content (see `InputView::wf`); editing actions need it.
    pub fn is_well_formed(&self) -> (res: bool)
        ensures
            res == self@.wf(),
    {
        let content = self.content.as_str();
        let len = byte_len(content);
        let sel_ok = self.selected_range.start <= self.selected_range.end
            && self.selected_range.end <= len && content.is_char_boundary(self.selected_range.start)
            && content.is_char_boundary(self.selected_range.end);
        let marked_ok = match &self.marked_range {
            Some(m) => m.start <= m.end && m.end <= len && content.is_char_boundary(m.start)
                && content.is_char_boundary(m.end),
            None => true,
        };
        sel_ok && marked_ok
    }

    /// The caret's byte offset: the end of the selection where it sits.
    pub fn cursor_offset(&self) -> (res: usize)
        ensures
            res == self@.cursor(),
    {
        if self.selection_reversed {
            self.selected_range.start
        } else {
            self.selected_range.end
        }
    }

    /// Move the caret to `offset`, selecting nothing, and show it.
    pub fn move_to(&mut self, offset: usize)
        ensures
            final(self)@ == old(self)@.moved_to(offset as int),
    {
        self.selected_range = offset..offset;
        self.cursor_visible = true;
    }

    /// Extend the selection to `offset`.
    pub fn select_to(&mut self, offset: usize)
        ensures
            final(self)@ == old(self)@.selected_to(offset as int),
    {
        if self.selection_reversed {
            self.selected_range.start = offset;
        } else {
            self.selected_range.end = offset;
        }
        if self.selected_range.end < self.selected_range.start {
            self.selection_reversed = !self.selection_reversed;
            self.selected_range = self.selected_range.end..self.selected_range.start;
        }
    }

    /// The cluster starts of the content, with their shape.
    fn content_clusters(&self) -> (res: Vec<usize>)
        ensures
            res@ == clusters(self@.content),
            cluster_offsets(res@, self@.content),
    {
        proof {
            encode_utf8_decode_utf8(self.content@);
        }
        grapheme_offsets(self.content.as_str())
    }

    /// The nearest grapheme cluster start before `offset`, or 0.
    pub fn previous_boundary(&self, offset: usize) -> (res: usize)
        ensures
            res == self@.previous_boundary(offset as int),
            is_char_boundary(self@.content, res as int),
            res <= self@.content.len(),
    {
        let b = self.content_clusters();
        let r = start_before(b.as_slice(), offset);
        proof {
            lemma_last_below_bounds(b@, offset as int);
            is_char_boundary_start_end_of_seq(self@.content);
            if r != 0 {
                let k = choose|k: int| 0 <= k < b@.len() && b@[k] == r;
                assert(is_char_boundary(self@.content, b@[k] as int));
            }
        }
        r
    }

    /// The nearest grapheme cluster start after `offset`, or the content's length.
    pub fn next_boundary(&self, offset: usize) -> (res: usize)
        ensures
            res == self@.next_boundary(offset as int),
            is_char_boundary(self@.content, res as int),
            res <= self@.content.len(),
    {
        let b = self.content_clusters();
        let len = byte_len(self.content.as_str());
        let r = start_after(b.as_slice(), offset, len);
        proof {
            lemma_first_above_bounds(b@, offset as int, len as int);
            is_char_boundary_start_end_of_seq(self@.content);
            if r != len {
                let k = choose|k: int| 0 <= k < b@.len() && b@[k] == r;
                assert(is_char_boundary(self@.content, b@[k] as int));
            }
        }
        r
    }

    /// The index of the line that byte offset `offset` falls in, given the
    /// start offset of each line (see `line_index`).
    pub fn line_index_for_offset(line_starts: &[usize], offset: usize) -> (res: usize)
        ensures
            res == line_index(line_starts@, offset as int),
    {
        let n = line_starts.len();
        let mut i: usize = 0;
        assert(line_starts@.skip(0) =~= line_starts@);
        while i < n && line_starts[i] <= offset
            invariant
                i <= n,
                n == line_starts@.len(),
                leading_at_most(line_starts@, offset as int) == i + leading_at_most(
                    line_starts@.skip(i as int),
                    offset as int,
                ),
            decreases n - i,
        {
            proof {
                assert(line_starts@.skip(i as int).drop_first() =~= line_starts@.skip(i + 1));
                assert(line_starts@.skip(i as int)[0] == line_starts@[i as int]);
            }
            i = i + 1;
        }
        proof {
            if i < n {
                assert(line_starts@.skip(i as int)[0] == line_starts@[i as int]);
            }
        }
        if i > 0 {
            i - 1
        } else {
            0
        }
    }

    /// Cut `new_text` to what fits when it replaces `replace_range` (see
    /// `InputView::fitted`).
    fn clamp_input(&self, new_text: &str, replace_range: &Range<usize>) -> (res: String)
        requires
            replace_range.start <= self@.content.len(),
            replace_range.end <= self@.content.len(),
            is_char_boundary(self@.content, replace_range.start as int),
            is_char_boundary(self@.content, replace_range.end as int),
        ensures
            utf8(res@) == self@.fitted(new_text.spec_bytes(), *replace_range),
    {
        match self.max_length {
            None => new_text.to_owned(),
            Some(max_len) => {
                let content = self.content.as_str();
                let len = byte_len(content);
                proof {
                    is_char_boundary_start_end_of_seq(self@.content);
                }
                let before_text = slice_str(content, 0, replace_range.start);
                let after_text = slice_str(content, replace_range.end, len);
                proof {
                    encode_utf8_decode_utf8(before_text@);
                    encode_utf8_decode_utf8(after_text@);
                    assert(self@.content.subrange(0, replace_range.start as int) =~= self@.content.take(
                        replace_range.start as int,
                    ));
                    assert(self@.content.subrange(replace_range.end as int, len as int)
                        =~= self@.content.skip(replace_range.end as int));
                }
                let before = grapheme_offsets(before_text.as_str()).len();
                let after = grapheme_offsets(after_text.as_str()).len();
                let existing = before.saturating_add(after);
                let b = grapheme_offsets(new_text);
                let n = byte_len(new_text);
                let keep = allowed_bytes(existing, max_len, b.as_slice(), n);
                proof {
                    encode_utf8_decode_utf8(new_text@);
                    is_char_boundary_start_end_of_seq(new_text.spec_bytes());
                    if existing < max_len && max_len - existing < b@.len() {
                        assert(is_char_boundary(new_text.spec_bytes(), b@[max_len - existing] as int));
                    }
                    assert(new_text.spec_bytes().subrange(0, keep as int) =~= new_text.spec_bytes().take(
                        keep as int,
                    ));
                    assert(new_text.spec_bytes().take(n as int) =~= new_text.spec_bytes());
                    assert(new_text.spec_bytes().take(0) =~= Seq::<u8>::empty());
                }
                slice_str(new_text, 0, keep)
            },
        }
    }

    /// The byte range an edit replaces (see `InputView::target`).
    fn target_range(&self, range_utf16: &Option<Range<usize>>) -> (res: Range<usize>)
        requires
            self@.can_replace(*range_utf16),
        ensures
            res == self@.target(*range_utf16),
            res.start <= self@.content.len(),
            res.end <= self@.content.len(),
            is_char_boundary(self@.content, res.start as int),
            is_char_boundary(self@.content, res.end as int),
    {
        match range_utf16 {
            Some(r) => self.range_from_utf16(r),
            None => match &self.marked_range {
                Some(m) => m.start..m.end,
                None => self.selected_range.start..self.selected_range.end,
            },
        }
    }

    /// The content with `range` replaced by `text`, and the end of `text` in it.
    fn splice_content(&self, range: &Range<usize>, text: &str) -> (res: (String, usize))
        requires
            range.start <= self@.content.len(),
            range.end <= self@.content.len(),
            is_char_boundary(self@.content, range.start as int),
            is_char_boundary(self@.content, range.end as int),
        ensures
            utf8(res.0@) == self@.spliced(*range, text.spec_bytes()),
            res.1 == range.start + text.spec_bytes().len(),
            is_char_boundary(utf8(res.0@), range.start as int),
            is_char_boundary(utf8(res.0@), res.1 as int),
    {
        let content = self.content.as_str();
        let len = byte_len(content);
        proof {
            is_char_boundary_start_end_of_seq(self@.content);
        }
        let pre = slice_str(content, 0, range.start);
        let post = slice_str(content, range.end, len);
        let mid = concat_str(pre.as_str(), text);
        let full = concat_str(mid.as_str(), post.as_str());
        let at = byte_len(mid.as_str());
        proof {
            assert(utf8(pre@) =~= self@.content.take(range.start as int));
            assert(utf8(post@) =~= self@.content.skip(range.end as int));
            lemma_join_boundary(utf8(pre@), text.spec_bytes());
            lemma_join_boundary(utf8(mid@), utf8(post@));
            lemma_join_boundary(utf8(pre@), text.spec_bytes() + utf8(post@));
            assert(utf8(full@) =~= utf8(pre@) + (text.spec_bytes() + utf8(post@)));
        }
        (full, at)
    }

    /// Replace the target of `range_utf16` (the given UTF-16 range, else the
    /// marked range, else the selection) by `new_text`, cut to the maximum
    /// length; the caret goes after it and the marking ends.
    pub fn replace_text_in_range(&mut self, range_utf16: Option<Range<usize>>, new_text: &str)
        requires
            old(self)@.can_replace(range_utf16),
        ensures
            final(self)@ == old(self)@.replaced(range_utf16, new_text.spec_bytes()),
            final(self)@.wf(),
    {
        let range = self.target_range(&range_utf16);
        let fitted = self.clamp_input(new_text, &range);
        let (content, at) = self.splice_content(&range, fitted.as_str());
        self.content = content;
        self.selected_range = at..at;
        self.marked_range = None;
        self.cursor_visible = true;
    }

    /// Replace the target of `range_utf16` by `new_text`, cut to the maximum
    /// length, and mark it as text being composed (see `marked_replaced`).
    pub fn replace_and_mark_text_in_range(
        &mut self,
        range_utf16: Option<Range<usize>>,
        new_text: &str,
        new_selected_range_utf16: Option<Range<usize>>,
    )
        requires
            old(self)@.can_replace(range_utf16),
            marked_selection_fits(
                old(self)@,
                range_utf16,
                new_text.spec_bytes(),
                new_selected_range_utf16,
            ),
        ensures
            final(self)@ == marked_replaced(
                old(self)@,
                range_utf16,
                new_text.spec_bytes(),
                new_selected_range_utf16,
            ),
            new_selected_range_utf16 is None ==> final(self)@.wf(),
    {
        let range = self.target_range(&range_utf16);
        let fitted = self.clamp_input(new_text, &range);
        let (content, at) = self.splice_content(&range, fitted.as_str());
        self.content = content;
        if at > range.start {
            self.marked_range = Some(range.start..at);
        } else {
            self.marked_range = None;
        }
        self.selected_range = match &new_selected_range_utf16 {
            Some(ns) => {
                let nr = self.range_from_utf16(ns);
                (nr.start + range.start)..(nr.end + range.end)
            },
            None => at..at,
        };
        self.cursor_visible = true;
    }

    /// The content of a UTF-16 range, and that range as it lands on the
    /// content's characters (`actual_range`).
    pub fn text_for_range(&self, range_utf16: Range<usize>, actual_range: &mut Option<Range<usize>>)
        -> (res: Option<String>)
        requires
            bytes_for_units(decode_utf8(self@.content), range_utf16.start as int) <= bytes_for_units(
                decode_utf8(self@.content),
                range_utf16.end as int,
            ),
        ensures
            ({
                let chars = decode_utf8(self@.content);
                let a = bytes_for_units(chars, range_utf16.start as int);
                let b = bytes_for_units(chars, range_utf16.end as int);
                &&& res matches Some(t) && utf8(t@) == self@.content.subrange(a, b)
                &&& *final(actual_range) == Some(
                    Range {
                        start: units_for_bytes(chars, a) as usize,
                        end: units_for_bytes(chars, b) as usize,
                    },
                )
            }),
    {
        let range = self.range_from_utf16(&range_utf16);
        *actual_range = Some(self.range_to_utf16(&range));
        Some(slice_str(self.content.as_str(), range.start, range.end))
    }

    /// The selection as a UTF-16 range, and whether the caret sits at its start.
    pub fn selected_text_range(&self) -> (res: (Range<usize>, bool))
        ensures
            res.0.start == units_for_bytes(decode_utf8(self@.content), self@.selected.start as int),
            res.0.end == units_for_bytes(decode_utf8(self@.content), self@.selected.end as int),
            res.1 == self@.reversed,
    {
        (self.range_to_utf16(&self.selected_range), self.selection_reversed)
    }

    /// The marked range as a UTF-16 range.
    pub fn marked_text_range(&self) -> (res: Option<Range<usize>>)
        ensures
            match self@.marked {
                None => res is None,
                Some(m) => res matches Some(r) && r.start == units_for_bytes(
                    decode_utf8(self@.content),
                    m.start as int,
                ) && r.end == units_for_bytes(decode_utf8(self@.content), m.end as int),
            },
    {
        match &self.marked_range {
            Some(m) => Some(self.range_to_utf16(m)),
            None => None,
        }
    }

    /// End the marking: the composed text is confirmed.
    pub fn unmark_text(&mut self)
        ensures
            final(self)@ == (InputView { marked: None, ..old(self)@ }),
    {
        self.marked_range = None;
    }

    // ── Editing actions ──────────────────────────────────

    /// Whether nothing is selected: the selection does not run forward.
    pub fn nothing_selected(&self) -> (res: bool)
        ensures
            res == self@.nothing_selected(),
    {
        !(self.selected_range.start < self.selected_range.end)
    }

    /// Left arrow: with nothing selected, the caret goes one cluster left;
    /// otherwise to the start of the selection.
    pub fn left(&mut self)
        ensures
            final(self)@ == (if old(self)@.nothing_selected() {
                old(self)@.moved_to(old(self)@.previous_boundary(old(self)@.cursor()))
            } else {
                old(self)@.moved_to(old(self)@.selected.start as int)
            }),
            old(self)@.wf() ==> final(self)@.wf(),
    {
        if self.nothing_selected() {
            let to = self.previous_boundary(self.cursor_offset());
            self.move_to(to);
        } else {
            let to = self.selected_range.start;
            self.move_to(to);
        }
    }

    /// Right arrow: with nothing selected, the caret goes one cluster right
    /// of the selection's end; otherwise to the end of the selection.
    pub fn right(&mut self)
        ensures
            final(self)@ == (if old(self)@.nothing_selected() {
                old(self)@.moved_to(old(self)@.next_boundary(old(self)@.selected.end as int))
            } else {
                old(self)@.moved_to(old(self)@.selected.end as int)
            }),
            old(self)@.wf() ==> final(self)@.wf(),
    {
        if self.nothing_selected() {
            let to = self.next_boundary(self.selected_range.end);
            self.move_to(to);
        } else {
            let to = self.selected_range.end;
            self.move_to(to);
        }
    }

    /// Shift+Left: extend the selection one cluster left of the caret.
    pub fn select_left(&mut self)
        ensures
            final(self)@ == old(self)@.selected_to(old(self)@.previous_boundary(old(self)@.cursor())),
            old(self)@.wf() ==> final(self)@.wf(),
    {
        let to = self.previous_boundary(self.cursor_offset());
        self.select_to(to);
    }

    /// Shift+Right: extend the selection one cluster right of the caret.
    pub fn select_right(&mut self)
        ensures
            final(self)@ == old(self)@.selected_to(old(self)@.next_boundary(old(self)@.cursor())),
            old(self)@.wf() ==> final(self)@.wf(),
    {
        let to = self.next_boundary(self.cursor_offset());
        self.select_to(to);
    }

    /// Select all: the caret to 0, then the selection to the end.
    pub fn select_all(&mut self)
        ensures
            final(self)@ == old(self)@.moved_to(0).selected_to(old(self)@.content.len() as int),
            final(self)@.selected == (Range { start: 0usize, end: old(self)@.content.len() as usize }),
            old(self)@.wf() ==> final(self)@.wf(),
    {
        self.move_to(0);
        let len = byte_len(self.content.as_str());
        self.select_to(len);
        proof {
            is_char_boundary_start_end_of_seq(self@.content);
        }
    }

    /// Home: the caret to the start of the content.
    pub fn home(&mut self)
        ensures
            final(self)@ == old(self)@.moved_to(0),
            old(self)@.wf() ==> final(self)@.wf(),
    {
        proof {
            is_char_boundary_start_end_of_seq(self@.content);
        }
        self.move_to(0);
    }

    /// End: the caret to the end of the content.
    pub fn end(&mut self)
        ensures
            final(self)@ == old(self)@.moved_to(old(self)@.content.len() as int),
            old(self)@.wf() ==> final(self)@.wf(),
    {
        proof {
            is_char_boundary_start_end_of_seq(self@.content);
        }
        let len = byte_len(self.content.as_str());
        self.move_to(len);
    }

    /// Backspace: with nothing selected, select the cluster before the caret;
    /// then delete the target (the marked range, else the selection).
    pub fn backspace(&mut self)
        requires
            old(self)@.before_backspace().can_replace(None),
        ensures
            final(self)@ == old(self)@.before_backspace().replaced(None, Seq::empty()),
            final(self)@.wf(),
    {
        if self.nothing_selected() {
            let to = self.previous_boundary(self.cursor_offset());
            self.select_to(to);
        }
        proof {
            lemma_empty_literal();
        }
        self.replace_text_in_range(None, "");
    }

    /// Delete: with nothing selected, select the cluster after the caret;
    /// then delete the target (the marked range, else the selection).
    pub fn delete(&mut self)
        requires
            old(self)@.before_delete().can_replace(None),
        ensures
            final(self)@ == old(self)@.before_delete().replaced(None, Seq::empty()),
            final(self)@.wf(),
    {
        if self.nothing_selected() {
            let to = self.next_boundary(self.cursor_offset());
            self.select_to(to);
        }
        proof {
            lemma_empty_literal();
        }
        self.replace_text_in_range(None, "");
    }

    /// Enter: in `EnterSubmit` mode, announce a submit; in `EnterNewline`
    /// mode, insert a newline at the target and announce it.
    pub fn submit(&mut self) -> (res: TextInputEvent)
        requires
            old(self)@.mode == EnterMode::EnterNewline ==> old(self)@.can_replace(None),
        ensures
            old(self)@.mode == EnterMode::EnterSubmit ==> res == TextInputEvent::Submit
                && final(self)@ == old(self)@,
            old(self)@.mode == EnterMode::EnterNewline ==> res == TextInputEvent::InsertNewline
                && final(self)@ == old(self)@.replaced(None, seq![10u8]) && final(self)@.wf(),
    {
        match self.mode {
            EnterMode::EnterSubmit => TextInputEvent::Submit,
            EnterMode::EnterNewline => {
                self.insert_line_break();
                TextInputEvent::InsertNewline
            },
        }
    }

    /// Shift+Enter: in `EnterSubmit` mode, insert a newline at the target and
    /// announce it; in `EnterNewline` mode, announce a submit.
    pub fn insert_newline(&mut self) -> (res: TextInputEvent)
        requires
            old(self)@.mode == EnterMode::EnterSubmit ==> old(self)@.can_replace(None),
        ensures
            old(self)@.mode == EnterMode::EnterSubmit ==> res == TextInputEvent::InsertNewline
                && final(self)@ == old(self)@.replaced(None, seq![10u8]) && final(self)@.wf(),
            old(self)@.mode == EnterMode::EnterNewline ==> res == TextInputEvent::Submit
                && final(self)@ == old(self)@,
    {
        match self.mode {
            EnterMode::EnterSubmit => {
                self.insert_line_break();
                TextInputEvent::InsertNewline
            },
            EnterMode::EnterNewline => TextInputEvent::Submit,
        }
    }

    /// Replace the target by a newline.
    fn insert_line_break(&mut self)
        requires
            old(self)@.can_replace(None),
        ensures
            final(self)@ == old(self)@.replaced(None, seq![10u8]),
            final(self)@.wf(),
    {
        proof {
            crate::buffer::lemma_newline_bytes();
        }
        self.replace_text_in_range(None, "\n");
    }

    /// Paste `text` at the target (the marked range, else the selection).
    pub fn paste(&mut self, text: &str)
        requires
            old(self)@.can_replace(None),
        ensures
            final(self)@ == old(self)@.replaced(None, text.spec_bytes()),
            final(self)@.wf(),
    {
        self.replace_text_in_range(None, text);
    }

    /// The selected text to copy, if anything is selected.
    pub fn copy(&self) -> (res: Option<String>)
        requires
            !self@.nothing_selected() ==> valid_range(self@.content, self@.selected),
        ensures
            self@.nothing_selected() ==> res is None,
            !self@.nothing_selected() ==> (res matches Some(t) && utf8(t@)
                == self@.content.subrange(self@.selected.start as int, self@.selected.end as int)),
    {
        if !self.nothing_selected() {
            Some(slice_str(self.content.as_str(), self.selected_range.start, self.selected_range.end))
        } else {
            None
        }
    }

    /// The selected text to cut, if anything is selected; it is then deleted
    /// (the target: the marked range, else the selection).
    pub fn cut(&mut self) -> (res: Option<String>)
        requires
            !old(self)@.nothing_selected() ==> valid_range(old(self)@.content, old(self)@.selected)
                && old(self)@.can_replace(None),
        ensures
            old(self)@.nothing_selected() ==> res is None && final(self)@ == old(self)@,
            !old(self)@.nothing_selected() ==> (res matches Some(t) && utf8(t@)
                == old(self)@.content.subrange(
                old(self)@.selected.start as int,
                old(self)@.selected.end as int,
            ) && final(self)@ == old(self)@.replaced(None, Seq::empty()) && final(self)@.wf()),
    {
        let res = self.copy();
        if res.is_some() {
            proof {
                lemma_empty_literal();
            }
            self.replace_text_in_range(None, "");
        }
        res
    }

    /// Mouse press at byte offset `index`: a drag starts; with Shift the
    /// selection extends there, else the caret moves there.
    pub fn mouse_down(&mut self, index: usize, shift: bool)
        ensures
            shift ==> final(self)@ == (InputView { selecting: true, ..old(self)@ }).selected_to(
                index as int,
            ),
            !shift ==> final(self)@ == (InputView { selecting: true, ..old(self)@ }).moved_to(
                index as int,
            ),
    {
        self.is_selecting = true;
        if shift {
            self.select_to(index);
        } else {
            self.move_to(index);
        }
    }

    /// Mouse release: the drag ends.
    pub fn mouse_up(&mut self)
        ensures
            final(self)@ == (InputView { selecting: false, ..old(self)@ }),
    {
        self.is_selecting = false;
    }

    /// Mouse move to byte offset `index`: during a drag the selection extends there.
    pub fn mouse_move(&mut self, index: usize)
        ensures
            old(self)@.selecting ==> final(self)@ == old(self)@.selected_to(index as int),
            !old(self)@.selecting ==> final(self)@ == old(self)@,
    {
        if self.is_selecting {
            self.select_to(index);
        }
    }

    /// The UTF-8 byte offset of a UTF-16 offset into the content.
    pub fn offset_from_utf16(&self, offset: usize) -> (res: usize)
        ensures
            res == bytes_for_units(decode_utf8(self@.content), offset as int),
            res <= self@.content.len(),
            is_char_boundary(self@.content, res as int),
    {
        let res = utf8_offset_of_utf16(self.content.as_str(), offset);
        proof {
            encode_utf8_decode_utf8(self.content@);
            let j = lemma_bytes_for_units_prefix(self.content@, offset as int);
            lemma_prefix_boundary(self.content@, j);
        }
        res
    }

    /// The UTF-16 offset of a UTF-8 byte offset into the content.
    pub fn offset_to_utf16(&self, offset: usize) -> (res: usize)
        ensures
            res == units_for_bytes(decode_utf8(self@.content), offset as int),
            is_char_boundary(self@.content, offset as int) ==> bytes_for_units(
                decode_utf8(self@.content),
                res as int,
            ) == offset,
    {
        proof {
            encode_utf8_decode_utf8(self.content@);
            if is_char_boundary(self@.content, offset as int) {
                law_utf16_boundary_round_trip(self.content@, offset as int);
            }
        }
        utf16_offset_of_utf8(self.content.as_str(), offset)
    }

    /// A UTF-8 byte range of the content as a UTF-16 range.
    pub fn range_to_utf16(&self, range: &Range<usize>) -> (res: Range<usize>)
        ensures
            res.start == units_for_bytes(decode_utf8(self@.content), range.start as int),
            res.end == units_for_bytes(decode_utf8(self@.content), range.end as int),
    {
        self.offset_to_utf16(range.start)..self.offset_to_utf16(range.end)
    }

    /// A UTF-16 range of the content as a UTF-8 byte range.
    pub fn range_from_utf16(&self, range_utf16: &Range<usize>) -> (res: Range<usize>)
        ensures
            res.start == bytes_for_units(decode_utf8(self@.content), range_utf16.start as int),
            res.end == bytes_for_units(decode_utf8(self@.content), range_utf16.end as int),
            res.start <= self@.content.len(),
            res.end <= self@.content.len(),
            is_char_boundary(self@.content, res.start as int),
            is_char_boundary(self@.content, res.end as int),
    {
        self.offset_from_utf16(range_utf16.start)..self.offset_from_utf16(range_utf16.end)
    }
}

} // verus!
