//! Text buffer that stores multi-line text content and supports editing
//! operations.
//!
//! The buffer keeps its text as a vector of lines, each without its trailing
//! newline. Positions name a line and a byte offset within it.

use crate::lines::{
    join, lead, trail, newline_free, nl, split_lines, splice, lemma_split_newline_free,
    lemma_split_concat, lemma_join_push, lemma_split_len, lemma_split_lines_newline_free,
    lemma_newline_free_concat, lemma_newline_free_subrange,
};
use crate::clusters::{
    first_above, last_below, snap_in, start_after, start_before, snap_offset, lemma_first_above_bounds,
    lemma_last_below_bounds, lemma_first_above_at, lemma_last_below_at,
};
use crate::segmentation::{is_white_space, lemma_trimmed_empty, grapheme_starts, grapheme_offsets, cluster_offsets, trimmed};
use crate::text::{utf8, byte_len, split_at_byte, concat_str, slice_str};
use vstd::prelude::*;
use vstd::string::*;
use vstd::utf8::*;

verus! {

broadcast use vstd::utf8::group_utf8_lib;

/// A position in the text buffer, identified by line and column (byte offset).
#[derive(Debug, Clone, Copy, PartialEq, Eq, Structural, PartialOrd, Ord)]
pub struct Position {
    /// Line index (0-based).
    pub line: usize,
    /// Column byte offset within the line (0-based).
    pub col: usize,
}

/// `a` comes no later than `b`: lines first, then columns.
pub open spec fn pos_le(a: Position, b: Position) -> bool {
    a.line < b.line || (a.line == b.line && a.col <= b.col)
}

impl Position {
    /// The start of the buffer.
    pub open spec fn zero_spec() -> Position {
        Position { line: 0, col: 0 }
    }

    /// Create a new position.
    pub fn new(line: usize, col: usize) -> (res: Self)
        ensures
            res.line == line,
            res.col == col,
    {
        Self { line, col }
    }

    /// Position at the start of the buffer.
    pub fn zero() -> (res: Self)
        ensures
            res.line == 0,
            res.col == 0,
    {
        Self { line: 0, col: 0 }
    }
}

/// A range of text in the buffer (start inclusive, end exclusive).
#[derive(Debug, Clone, Copy, PartialEq, Eq, Structural)]
pub struct TextRange {
    pub start: Position,
    pub end: Position,
}

impl TextRange {
    /// The range between two positions, whichever comes first being its start.
    pub fn new(start: Position, end: Position) -> (res: Self)
        ensures
            pos_le(start, end) ==> res.start == start && res.end == end,
            !pos_le(start, end) ==> res.start == end && res.end == start,
            pos_le(res.start, res.end),
    {
        if start.line < end.line || (start.line == end.line && start.col <= end.col) {
            Self { start, end }
        } else {
            Self { start: end, end: start }
        }
    }

    /// Returns true if the range is empty (start == end).
    pub fn is_empty(&self) -> (res: bool)
        ensures
            res == (self.start == self.end),
    {
        self.start.line == self.end.line && self.start.col == self.end.col
    }
}

/// The bytes of each string of a sequence.
pub open spec fn strings_bytes(v: Seq<String>) -> Seq<Seq<u8>> {
    v.map_values(|s: String| utf8(s@))
}

/// Lines that a buffer can hold: at least one, each valid UTF-8 without newline.
pub open spec fn valid_lines(v: Seq<Seq<u8>>) -> bool {
    &&& v.len() >= 1
    &&& forall|i: int|
        0 <= i < v.len() ==> valid_utf8(#[trigger] v[i]) && newline_free(v[i]) && v[i].len()
            <= usize::MAX
}

/// The byte offset in the joined text of position `p` in lines `v`.
pub open spec fn offset_of(v: Seq<Seq<u8>>, p: Position) -> int {
    lead(v.take(p.line as int)).len() + p.col
}

/// The cluster start offsets of a line given by its bytes.
pub open spec fn graphemes_of(line: Seq<u8>) -> Seq<usize> {
    grapheme_starts(decode_utf8(line))
}

/// The column that byte offset `off` snaps to on a line with bytes `line`:
/// the nearest grapheme cluster boundary (see `snap_in`).
pub open spec fn snap_col(line: Seq<u8>, off: int) -> int {
    snap_in(graphemes_of(line), line.len() as int, off)
}

/// Position `p` clamped to lines `v`: the line is at most the last one, the
/// column is cut to the line's length and snapped to a cluster boundary.
pub open spec fn clamp_pos(v: Seq<Seq<u8>>, p: Position) -> Position {
    let line = if p.line < v.len() { p.line as int } else { v.len() - 1 };
    let col = if p.col <= v[line].len() { p.col as int } else { v[line].len() as int };
    Position { line: line as usize, col: snap_col(v[line], col) as usize }
}

/// A column on a line that starts a grapheme cluster or ends the line.
pub open spec fn boundary_col(line: Seq<u8>, c: int) -> bool {
    c == 0 || c == line.len() || graphemes_of(line).contains(c as usize)
}

/// A position of lines `v` that names an existing line and a cluster boundary in it.
pub open spec fn valid_pos(v: Seq<Seq<u8>>, p: Position) -> bool {
    &&& p.line < v.len()
    &&& p.col <= v[p.line as int].len()
    &&& boundary_col(v[p.line as int], p.col as int)
    &&& is_char_boundary(v[p.line as int], p.col as int)
}

/// Going back over blank clusters and then non-blank ones from the end of a
/// non-empty text stops before the last cluster.
proof fn lemma_word_left_inside(t: Seq<u8>, b: Seq<usize>)
    requires
        b.len() > 0,
    ensures
        skip_back(t, b, skip_back(t, b, b.len() as int, true), false) < b.len(),
        0 <= skip_back(t, b, skip_back(t, b, b.len() as int, true), false),
{
    lemma_skip_back_range(t, b, b.len() as int, true);
    let f = skip_back(t, b, b.len() as int, true);
    lemma_skip_back_range(t, b, f, false);
    lemma_skip_back_range(t, b, b.len() - 1, true);
    lemma_skip_back_range(t, b, b.len() - 1, false);
    if f == b.len() {
        assert(!blank_cluster(t, b, b.len() - 1));
    }
}

proof fn lemma_skip_back_range(t: Seq<u8>, b: Seq<usize>, i: int, blank: bool)
    requires
        0 <= i,
    ensures
        0 <= skip_back(t, b, i, blank) <= i,
    decreases i,
{
    if i > 0 && blank_cluster(t, b, i - 1) == blank {
        lemma_skip_back_range(t, b, i - 1, blank);
    }
}

/// A snapped column lies on the line, starts a cluster or ends the line, and
/// is a character boundary.
proof fn lemma_snap_col(line: Seq<u8>, off: int)
    requires
        valid_utf8(line),
        0 < off < line.len() <= usize::MAX,
        cluster_offsets(graphemes_of(line), line),
    ensures
        0 <= snap_col(line, off) <= line.len(),
        boundary_col(line, snap_col(line, off)),
        is_char_boundary(line, snap_col(line, off)),
{
    let b = graphemes_of(line);
    let r = snap_col(line, off);
    is_char_boundary_start_end_of_seq(line);
    lemma_last_below_bounds(b, off);
    lemma_first_above_bounds(b, off, line.len() as int);
    let lo = last_below(b, off);
    let hi = first_above(b, off, line.len() as int);
    if b.contains(off as usize) {
        lemma_member_boundary(line, off as usize);
    } else {
        if lo != 0 {
            lemma_member_boundary(line, lo as usize);
        }
        if hi != line.len() {
            lemma_member_boundary(line, hi as usize);
        }
    }
}

/// A cluster start of a line is a character boundary of it.
proof fn lemma_member_boundary(line: Seq<u8>, r: usize)
    requires
        cluster_offsets(graphemes_of(line), line),
        graphemes_of(line).contains(r),
    ensures
        is_char_boundary(line, r as int),
        r < line.len(),
{
    let b = graphemes_of(line);
    let k = choose|k: int| 0 <= k < b.len() && b[k] == r;
    assert(is_char_boundary(line, b[k] as int));
}

/// On a line with its cluster starts, the start before the next boundary
/// after a boundary below the end is that boundary.
proof fn lemma_right_then_left(line: Seq<u8>, b: Seq<usize>, c: int)
    requires
        b == graphemes_of(line),
        cluster_offsets(b, line),
        0 <= c < line.len() <= usize::MAX,
        boundary_col(line, c),
    ensures
        last_below(b, first_above(b, c, line.len() as int)) == c,
        snap_col(line, first_above(b, c, line.len() as int)) == first_above(
            b,
            c,
            line.len() as int,
        ),
{
    let len = line.len() as int;
    assert(b.len() > 0);
    assert(b.contains(c as usize)) by {
        if c == 0 {
            assert(b[0] == 0);
        }
    }
    let i = choose|i: int| 0 <= i < b.len() && b[i] == c as usize;
    assert forall|k: int| 0 <= k < i + 1 implies b[k] <= c by {
        if k < i {
            assert(b[k] < b[i]);
        }
    }
    if i + 1 < b.len() {
        assert(b[i] < b[i + 1]);
    }
    lemma_first_above_at(b, i + 1, c, len);
    let r = first_above(b, c, len);
    if i + 1 < b.len() {
        assert(b.contains(b[i + 1]));
    }
    lemma_last_below_at(b, i, r);
}

/// On a line with its cluster starts, the next boundary after the start
/// before a boundary above 0 is that boundary.
proof fn lemma_left_then_right(line: Seq<u8>, b: Seq<usize>, c: int)
    requires
        b == graphemes_of(line),
        cluster_offsets(b, line),
        0 < c <= line.len() <= usize::MAX,
        boundary_col(line, c),
    ensures
        first_above(b, last_below(b, c), line.len() as int) == c,
        snap_col(line, last_below(b, c)) == last_below(b, c),
{
    let len = line.len() as int;
    assert(b.len() > 0);
    assert(b[0] == 0);
    if c < len {
        assert(b.contains(c as usize));
    }
    // the index of the first start at or past c (b.len() when c is the end)
    let j = if c == len {
        b.len() as int
    } else {
        choose|j: int| 0 <= j < b.len() && b[j] == c as usize
    };
    assert(j >= 1) by {
        if j == 0 {
            assert(b[0] == 0);
        }
    }
    assert(b[j - 1] < c) by {
        if j < b.len() {
            assert(b[j - 1] < b[j]);
        }
    }
    lemma_last_below_at(b, j - 1, c);
    let r = b[j - 1] as int;
    assert forall|k: int| 0 <= k < j implies b[k] <= r by {
        if k < j - 1 {
            assert(b[k] < b[j - 1]);
        }
    }
    lemma_first_above_at(b, j, r, len);
    assert(b.contains(b[j - 1]));
}

/// Lines `v` after inserting the text with bytes `t` at position `p`: the
/// line of `p` is cut at its column, and the lines of `t` go between the two
/// pieces, the first joining the piece before and the last the piece after.
pub open spec fn insert_lines(v: Seq<Seq<u8>>, p: Position, t: Seq<u8>) -> Seq<Seq<u8>> {
    if t.len() == 0 {
        v
    } else {
        let line = v[p.line as int];
        v.take(p.line as int) + splice(
            line.take(p.col as int),
            split_lines(t),
            line.skip(p.col as int),
        ) + v.skip(p.line + 1)
    }
}

/// The position just after text with bytes `t` inserted at position `p`.
pub open spec fn insert_end(p: Position, t: Seq<u8>) -> Position {
    let parts = split_lines(t);
    let k = parts.len();
    if t.len() == 0 {
        p
    } else if k == 1 {
        Position { line: p.line, col: (p.col + parts[0].len()) as usize }
    } else {
        Position { line: (p.line + k - 1) as usize, col: parts[k - 1].len() as usize }
    }
}

/// Lines `v` with the text from position `s` to position `e` removed: the
/// line of `s` up to its column joins the line of `e` from its column, and the
/// lines between go.
pub open spec fn delete_lines(v: Seq<Seq<u8>>, s: Position, e: Position) -> Seq<Seq<u8>> {
    let joined = v[s.line as int].take(s.col as int) + v[e.line as int].skip(e.col as int);
    v.take(s.line as int) + seq![joined] + v.skip(e.line + 1)
}

/// The text between positions `s` and `e` of lines `v` as `text_in_range`
/// gathers it: the rest of the line of `s`, a newline before each line strictly
/// between, and a newline and the start of the line of `e`.
pub open spec fn range_text(v: Seq<Seq<u8>>, s: Position, e: Position) -> Seq<u8> {
    if s.line == e.line {
        v[s.line as int].subrange(s.col as int, e.col as int)
    } else {
        let between = if s.line + 1 < e.line {
            v.subrange(s.line + 1, e.line as int)
        } else {
            Seq::<Seq<u8>>::empty()
        };
        v[s.line as int].skip(s.col as int) + trail(between) + seq![nl()] + v[e.line as int].take(
            e.col as int,
        )
    }
}

/// The position one grapheme cluster left of `p` (clamped first); from the
/// start of a line, the end of the line before.
pub open spec fn left_of(v: Seq<Seq<u8>>, p: Position) -> Position {
    let q = clamp_pos(v, p);
    if q.col == 0 {
        if q.line == 0 {
            q
        } else {
            Position { line: (q.line - 1) as usize, col: v[q.line - 1].len() as usize }
        }
    } else {
        Position {
            line: q.line,
            col: last_below(graphemes_of(v[q.line as int]), q.col as int) as usize,
        }
    }
}

/// The position one grapheme cluster right of `p` (clamped first); from the
/// end of a line, the start of the next.
pub open spec fn right_of(v: Seq<Seq<u8>>, p: Position) -> Position {
    let q = clamp_pos(v, p);
    let len = v[q.line as int].len();
    if q.col >= len {
        if q.line >= v.len() - 1 {
            q
        } else {
            Position { line: (q.line + 1) as usize, col: 0 }
        }
    } else {
        Position {
            line: q.line,
            col: first_above(graphemes_of(v[q.line as int]), q.col as int, len as int) as usize,
        }
    }
}

/// The position on line `line` at column `preferred` or the line's end,
/// whichever comes first, clamped.
pub open spec fn at_column(v: Seq<Seq<u8>>, line: int, preferred: int) -> Position {
    let len = v[line].len() as int;
    clamp_pos(
        v,
        Position { line: line as usize, col: (if preferred <= len { preferred } else { len }) as usize },
    )
}

/// The bytes of cluster `k` of a text with bytes `t` and cluster starts `b`.
pub open spec fn cluster_bytes(t: Seq<u8>, b: Seq<usize>, k: int) -> Seq<u8> {
    t.subrange(b[k] as int, if k + 1 < b.len() { b[k + 1] as int } else { t.len() as int })
}

/// Cluster `k` is blank: trimming its whitespace leaves nothing, that is,
/// all its characters are White_Space (see `lemma_trimmed_empty`).
pub open spec fn blank_cluster(t: Seq<u8>, b: Seq<usize>, k: int) -> bool {
    trimmed(decode_utf8(cluster_bytes(t, b, k))).len() == 0
}

/// From cluster index `i`, go back over the clusters before it while their
/// blankness is `blank`; the index reached.
pub open spec fn skip_back(t: Seq<u8>, b: Seq<usize>, i: int, blank: bool) -> int
    decreases i,
{
    if i > 0 && blank_cluster(t, b, i - 1) == blank {
        skip_back(t, b, i - 1, blank)
    } else {
        i
    }
}

/// From cluster index `i`, go forward over clusters while their blankness is
/// `blank`; the index reached.
pub open spec fn skip_fwd(t: Seq<u8>, b: Seq<usize>, i: int, blank: bool) -> int
    decreases b.len() - i,
{
    if 0 <= i < b.len() && blank_cluster(t, b, i) == blank {
        skip_fwd(t, b, i + 1, blank)
    } else {
        i
    }
}

/// Where the last word of text `t` (with cluster starts `b`) starts: going
/// back from the end over blank clusters, then over non-blank ones.
pub open spec fn word_start_in(t: Seq<u8>, b: Seq<usize>) -> int {
    let i = skip_back(t, b, skip_back(t, b, b.len() as int, true), false);
    if i == 0 {
        0
    } else {
        b[i] as int
    }
}

/// Where the first word of text `t` (with cluster starts `b`) and the blanks
/// after it end: going forward over non-blank clusters, then over blank ones;
/// the end of the text when no cluster is left.
pub open spec fn word_end_in(t: Seq<u8>, b: Seq<usize>) -> int {
    let i = skip_fwd(t, b, skip_fwd(t, b, 0, false), true);
    if i >= b.len() {
        t.len() as int
    } else {
        b[i] as int
    }
}

/// The position one word left of `p` (clamped first): within the line's text
/// before the column, back over blank clusters, then over non-blank ones; from
/// the start of a line, the end of the line before.
pub open spec fn word_left_of(v: Seq<Seq<u8>>, p: Position) -> Position {
    let q = clamp_pos(v, p);
    if q.col == 0 {
        left_of(v, p)
    } else {
        let t = v[q.line as int].take(q.col as int);
        Position { line: q.line, col: word_start_in(t, graphemes_of(t)) as usize }
    }
}

/// The position one word right of `p` (clamped first): within the line's text
/// from the column, forward over non-blank clusters, then over blank ones; the
/// end of the line when none is left; from the end of a line, the start of the
/// next.
pub open spec fn word_right_of(v: Seq<Seq<u8>>, p: Position) -> Position {
    let q = clamp_pos(v, p);
    let len = v[q.line as int].len();
    if q.col >= len {
        right_of(v, p)
    } else {
        let t = v[q.line as int].skip(q.col as int);
        Position { line: q.line, col: (q.col + word_end_in(t, graphemes_of(t))) as usize }
    }
}

/// Whether cluster `k` of `s` with cluster starts `b` is blank.
fn cluster_is_blank(s: &str, b: &Vec<usize>, k: usize) -> (res: bool)
    requires
        cluster_offsets(b@, s.spec_bytes()),
        k < b@.len(),
    ensures
        res == blank_cluster(s.spec_bytes(), b@, k as int),
        res == (forall|i: int|
            0 <= i < decode_utf8(cluster_bytes(s.spec_bytes(), b@, k as int)).len()
                ==> is_white_space(
                #[trigger] decode_utf8(cluster_bytes(s.spec_bytes(), b@, k as int))[i],
            )),
{
    proof {
        lemma_trimmed_empty(decode_utf8(cluster_bytes(s.spec_bytes(), b@, k as int)));
    }
    let ghost t = s.spec_bytes();
    let from = b[k];
    let n = b.len();
    let to = if k + 1 < n { b[k + 1] } else { byte_len(s) };
    proof {
        is_char_boundary_start_end_of_seq(t);
        if k + 1 < b.len() {
            assert(b@[k as int] < b@[k + 1]);
            assert(is_char_boundary(t, b@[k + 1] as int));
        }
        assert(is_char_boundary(t, b@[k as int] as int));
    }
    let piece = slice_str(s, from, to);
    let trimmed_piece = piece.as_str().trim();
    proof {
        encode_utf8_decode_utf8(piece@);
    }
    trimmed_piece.is_empty()
}

/// Where the last word of `t` starts, given the cluster starts `b` of `t`
/// (see `word_start_in`).
pub fn word_start(t: &str, b: &Vec<usize>) -> (res: usize)
    requires
        cluster_offsets(b@, t.spec_bytes()),
    ensures
        res == word_start_in(t.spec_bytes(), b@),
        res <= t.spec_bytes().len(),
{
    let ghost tb = t.spec_bytes();
    let n = b.len();
    let mut i = n;
    loop
        invariant
            i <= n,
            n == b@.len(),
            cluster_offsets(b@, tb),
            tb == t.spec_bytes(),
            skip_back(tb, b@, i as int, true) == skip_back(tb, b@, n as int, true),
        ensures
            i == skip_back(tb, b@, n as int, true),
        decreases i,
    {
        if i == 0 || !cluster_is_blank(t, b, i - 1) {
            break;
        }
        i = i - 1;
    }
    let ghost first = i;
    loop
        invariant
            i <= n,
            n == b@.len(),
            cluster_offsets(b@, tb),
            tb == t.spec_bytes(),
            skip_back(tb, b@, i as int, false) == skip_back(tb, b@, first as int, false),
        ensures
            i == skip_back(tb, b@, first as int, false),
        decreases i,
    {
        if i == 0 || cluster_is_blank(t, b, i - 1) {
            break;
        }
        i = i - 1;
    }
    if i == 0 {
        0
    } else {
        proof {
            lemma_word_left_inside(tb, b@);
        }
        b[i]
    }
}

/// Where the first word of `t` and the blanks after it end, given the cluster
/// starts `b` of `t` (see `word_end_in`).
pub fn word_end(t: &str, b: &Vec<usize>) -> (res: usize)
    requires
        cluster_offsets(b@, t.spec_bytes()),
    ensures
        res == word_end_in(t.spec_bytes(), b@),
        res <= t.spec_bytes().len(),
{
    let ghost tb = t.spec_bytes();
    let n = b.len();
    let mut i: usize = 0;
    loop
        invariant
            i <= n,
            n == b@.len(),
            cluster_offsets(b@, tb),
            tb == t.spec_bytes(),
            skip_fwd(tb, b@, i as int, false) == skip_fwd(tb, b@, 0, false),
        ensures
            i == skip_fwd(tb, b@, 0, false),
        decreases n - i,
    {
        if i >= n || cluster_is_blank(t, b, i) {
            break;
        }
        i = i + 1;
    }
    let ghost first = i;
    loop
        invariant
            first <= i <= n,
            n == b@.len(),
            cluster_offsets(b@, tb),
            tb == t.spec_bytes(),
            skip_fwd(tb, b@, i as int, true) == skip_fwd(tb, b@, first as int, true),
        ensures
            i == skip_fwd(tb, b@, first as int, true),
        decreases n - i,
    {
        if i >= n || !cluster_is_blank(t, b, i) {
            break;
        }
        i = i + 1;
    }
    if i >= n {
        byte_len(t)
    } else {
        b[i]
    }
}

/// The last position of lines `v`.
pub open spec fn end_of(v: Seq<Seq<u8>>) -> Position {
    Position { line: (v.len() - 1) as usize, col: v.last().len() as usize }
}

/// The text backing a textarea: a vector of lines, each without its newline.
#[derive(Debug, Clone)]
pub struct TextBuffer {
    /// Each element is one line of text (without trailing newline).
    lines: Vec<String>,
}

impl View for TextBuffer {
    type V = Seq<Seq<u8>>;

    /// The UTF-8 bytes of each line.
    closed spec fn view(&self) -> Seq<Seq<u8>> {
        strings_bytes(self.lines@)
    }
}

pub proof fn lemma_strings_bytes_concat3(a: Seq<String>, b: Seq<String>, c: Seq<String>)
    ensures
        strings_bytes(a + b + c) == strings_bytes(a) + strings_bytes(b) + strings_bytes(c),
{
    assert(strings_bytes(a + b + c) =~= strings_bytes(a) + strings_bytes(b) + strings_bytes(c));
}

/// Replacing a line of valid lines by lines that are newline-free, valid and
/// not too long keeps the lines valid.
proof fn lemma_spliced_valid(v: Seq<Seq<u8>>, l: int, mid: Seq<Seq<u8>>)
    requires
        valid_lines(v),
        0 <= l < v.len(),
        forall|j: int|
            0 <= j < mid.len() ==> valid_utf8(#[trigger] mid[j]) && newline_free(mid[j]) && mid[j].len()
                <= usize::MAX,
    ensures
        mid.len() >= 1 ==> valid_lines(v.take(l) + mid + v.skip(l + 1)),
{
    let nv = v.take(l) + mid + v.skip(l + 1);
    assert forall|j: int| 0 <= j < nv.len() implies valid_utf8(#[trigger] nv[j])
        && newline_free(nv[j]) && nv[j].len() <= usize::MAX by {
        if j < l {
            assert(nv[j] == v[j]);
        } else if j < l + mid.len() {
            assert(nv[j] == mid[j - l]);
        } else {
            assert(nv[j] == v[j - mid.len() + 1]);
        }
    }
}

/// Inserts `parts[from..to]` into `lines` at index `at`.
fn insert_run(lines: &mut Vec<String>, at: usize, parts: &Vec<String>, from: usize, to: usize)
    requires
        at <= old(lines)@.len(),
        from <= to <= parts@.len(),
    ensures
        final(lines)@ == old(lines)@.take(at as int) + parts@.subrange(from as int, to as int)
            + old(lines)@.skip(at as int),
{
    let ghost orig = lines@;
    let mut i = from;
    while i < to
        invariant
            from <= i <= to <= parts@.len(),
            at <= orig.len(),
            lines@ == orig.take(at as int) + parts@.subrange(from as int, i as int) + orig.skip(
                at as int,
            ),
        decreases to - i,
    {
        let cur = lines.len();
        let piece = parts[i].clone();
        lines.insert(at + (i - from), piece);
        assert(lines@ =~= orig.take(at as int) + parts@.subrange(from as int, i + 1) + orig.skip(
            at as int,
        ));
        i = i + 1;
    }
}

/// Cuts `text` at its newlines.
fn split_on_newline(text: &str) -> (res: Vec<String>)
    ensures
        strings_bytes(res@) == split_lines(text.spec_bytes()),
        forall|k: int| 0 <= k < res@.len() ==> #[trigger] utf8(res@[k]@).len() <= usize::MAX,
{
    let mut parts: Vec<String> = Vec::new();
    let mut rest: &str = text;
    loop
        invariant
            strings_bytes(parts@) + split_lines(rest.spec_bytes()) == split_lines(
                text.spec_bytes(),
            ),
            forall|k: int| 0 <= k < parts@.len() ==> #[trigger] utf8(parts@[k]@).len() <= usize::MAX,
        decreases rest.spec_bytes().len(),
    {
        let bytes = rest.as_bytes();
        let ghost rb = rest.spec_bytes();
        let n = bytes.len();
        let mut j: usize = 0;
        while j < n && bytes[j] != 10u8
            invariant
                n == rb.len(),
                bytes@ == rb,
                j <= n,
                forall|k: int| 0 <= k < j ==> rb[k] != nl(),
            decreases n - j,
        {
            j = j + 1;
        }
        if j == n {
            let last = rest.to_owned();
            proof {
                assert(newline_free(rb));
                lemma_split_newline_free(rb);
                assert(strings_bytes(parts@.push(last)) =~= strings_bytes(parts@) + seq![rb]);
            }
            parts.push(last);
            return parts;
        }
        proof {
            encode_utf8_valid_utf8(rest@);
            is_char_boundary_iff_not_is_continuation_byte(rb, j as int);
        }
        let (a, b) = rest.split_at(j);
        let ghost bb = b.spec_bytes();
        proof {
            assert(bb[0] == nl());
            encode_utf8_valid_utf8(b@);
            if bb.len() == 1 {
                is_char_boundary_start_end_of_seq(bb);
            } else {
                assert(valid_utf8(pop_first_scalar(bb)));
                assert(length_of_first_scalar(bb) == 1);
                reveal_with_fuel(is_char_boundary, 2);
                assert(is_char_boundary(bb, 1));
            }
        }
        let (_, r2) = b.split_at(1);
        let first = a.to_owned();
        proof {
            let ab = a.spec_bytes();
            let r2b = r2.spec_bytes();
            assert(rb =~= ab + seq![nl()] + r2b);
            assert(newline_free(ab));
            lemma_split_newline_free(ab);
            lemma_split_concat(ab, r2b);
            assert(strings_bytes(parts@.push(first)) =~= strings_bytes(parts@) + seq![ab]);
        }
        parts.push(first);
        rest = r2;
    }
}

/// The bytes of the one-character text holding a newline.
pub proof fn lemma_newline_bytes()
    ensures
        utf8("\n"@) == seq![nl()],
{
    lemma_newline_literal();
}

/// The bytes of the one-character text holding a newline.
proof fn lemma_newline_literal()
    ensures
        utf8("\n"@) == seq![nl()],
{
    reveal_strlit("\n");
    assert("\n"@ =~= seq!['\n']);
    assert(seq!['\n'].drop_first() =~= Seq::<char>::empty());
    assert(('\n' as u32) == 10);
    assert((10u32 & 0x7Fu32) == 10u32) by (bit_vector);
    assert(encode_scalar(10u32) =~= seq![nl()]);
    assert(utf8(seq!['\n']) == encode_scalar(10u32) + utf8(Seq::<char>::empty()));
    assert(utf8("\n"@) =~= seq![nl()]);
}

impl Default for TextBuffer {
    fn default() -> (res: Self)
        ensures
            res.wf(),
            res@ == seq![Seq::<u8>::empty()],
    {
        Self::new()
    }
}

impl TextBuffer {
    /// The buffer's invariant: its lines are valid lines (see `valid_lines`).
    pub open spec fn wf(&self) -> bool {
        valid_lines(self@)
    }

    /// Create an empty buffer with one empty line.
    pub fn new() -> (res: Self)
        ensures
            res.wf(),
            res@ == seq![Seq::<u8>::empty()],
    {
        let res = Self { lines: vec![String::new()] };
        assert(res@ =~= seq![Seq::<u8>::empty()]);
        res
    }

    /// Create a buffer from the given text: its lines are the pieces of the
    /// text between newlines.
    pub fn from_text(text: &str) -> (res: Self)
        ensures
            res.wf(),
            res@ == split_lines(text.spec_bytes()),
    {
        let lines: Vec<String> = if text.is_empty() {
            assert(text.spec_bytes() =~= Seq::<u8>::empty());
            let v = vec![String::new()];
            assert(strings_bytes(v@) =~= split_lines(text.spec_bytes()));
            v
        } else {
            split_on_newline(text)
        };
        let res = Self { lines };
        proof {
            let v = res@;
            lemma_split_len(text.spec_bytes());
            lemma_split_lines_newline_free(text.spec_bytes());
            assert forall|i: int| 0 <= i < v.len() implies valid_utf8(#[trigger] v[i])
                && newline_free(v[i]) && v[i].len() <= usize::MAX by {
                assert(v[i] == utf8(lines@[i]@));
                encode_utf8_valid_utf8(lines@[i]@);
            }
        }
        res
    }

    /// Return all text as a single string with newlines.
    pub fn text(&self) -> (res: String)
        requires
            self.wf(),
        ensures
            utf8(res@) == join(self@),
    {
        let n = self.lines.len();
        let mut res = String::new();
        let mut i: usize = 0;
        proof {
            lemma_newline_literal();
        }
        while i < n
            invariant
                n == self@.len(),
                self.wf(),
                i <= n,
                i == 0 ==> utf8(res@) == Seq::<u8>::empty(),
                i > 0 ==> utf8(res@) == join(self@.take(i as int)),
                utf8("\n"@) == seq![nl()],
            decreases n - i,
        {
            let ghost before = res@;
            if i > 0 {
                res.append("\n");
                proof {
                    crate::text::lemma_utf8_concat(before, "\n"@);
                }
            }
            let ghost mid = res@;
            res.append(self.lines[i].as_str());
            proof {
                let v = self@;
                crate::text::lemma_utf8_concat(mid, self.lines@[i as int]@);
                assert(v[i as int] == utf8(self.lines@[i as int]@));
                if i == 0 {
                    assert(v.take(1) =~= seq![v[0]]);
                } else {
                    assert(v.take(i + 1) =~= v.take(i as int).push(v[i as int]));
                    lemma_join_push(v.take(i as int), v[i as int]);
                }
            }
            i = i + 1;
        }
        assert(self@.take(n as int) =~= self@);
        res
    }

    /// Number of lines.
    pub fn line_count(&self) -> (n: usize)
        ensures
            n == self@.len(),
    {
        self.lines.len()
    }

    /// Get a reference to a specific line.
    pub fn line(&self, idx: usize) -> (res: &str)
        requires
            idx < self@.len(),
        ensures
            res.spec_bytes() == self@[idx as int],
    {
        self.lines[idx].as_str()
    }

    /// Get all lines as a slice.
    pub fn lines(&self) -> (res: &[String])
        ensures
            strings_bytes(res@) == self@,
    {
        self.lines.as_slice()
    }

    /// Length (in bytes) of a given line.
    pub fn line_len(&self, idx: usize) -> (n: usize)
        requires
            idx < self@.len(),
        ensures
            n == self@[idx as int].len(),
    {
        let s = self.lines[idx].as_str();
        assert(self@[idx as int] == utf8(self.lines@[idx as int]@));
        byte_len(s)
    }

    /// The cluster start offsets of line `idx`, with their shape.
    fn line_graphemes(&self, idx: usize) -> (res: Vec<usize>)
        requires
            self.wf(),
            idx < self@.len(),
        ensures
            res@ == graphemes_of(self@[idx as int]),
            cluster_offsets(res@, self@[idx as int]),
    {
        let s = self.lines[idx].as_str();
        proof {
            assert(self@[idx as int] == utf8(self.lines@[idx as int]@));
            encode_utf8_decode_utf8(self.lines@[idx as int]@);
        }
        grapheme_offsets(s)
    }

    /// Clamp a position to valid buffer bounds.
    pub fn clamp_position(&self, pos: Position) -> (res: Position)
        requires
            self.wf(),
        ensures
            res == clamp_pos(self@, pos),
            valid_pos(self@, res),
    {
        let n = self.lines.len();
        let line = if pos.line < n - 1 { pos.line } else { n - 1 };
        let len = self.line_len(line);
        let col = if pos.col < len { pos.col } else { len };
        let col = self.snap_to_grapheme_boundary(line, col);
        Position::new(line, col)
    }

    /// Snap a byte offset on line `idx` to the nearest grapheme cluster
    /// boundary (see `snap_col`).
    fn snap_to_grapheme_boundary(&self, idx: usize, byte_offset: usize) -> (res: usize)
        requires
            self.wf(),
            idx < self@.len(),
            byte_offset <= self@[idx as int].len(),
        ensures
            res == snap_col(self@[idx as int], byte_offset as int),
            res <= self@[idx as int].len(),
            boundary_col(self@[idx as int], res as int),
            is_char_boundary(self@[idx as int], res as int),
    {
        let len = self.line_len(idx);
        let ghost line = self@[idx as int];
        proof {
            is_char_boundary_start_end_of_seq(line);
        }
        if byte_offset == 0 || byte_offset >= len {
            return if byte_offset < len { byte_offset } else { len };
        }
        let b = self.line_graphemes(idx);
        proof {
            lemma_snap_col(line, byte_offset as int);
        }
        snap_offset(b.as_slice(), len, byte_offset)
    }

    /// Insert text at the given position (clamped first). Handles newlines.
    /// Returns the position after the inserted text.
    pub fn insert(&mut self, pos: Position, text: &str) -> (res: Position)
        requires
            old(self).wf(),
        ensures
            final(self).wf(),
            final(self)@ == insert_lines(old(self)@, clamp_pos(old(self)@, pos), text.spec_bytes()),
            res == insert_end(clamp_pos(old(self)@, pos), text.spec_bytes()),
    {
        let pos = self.clamp_position(pos);
        if text.is_empty() {
            assert(text.spec_bytes().len() == 0);
            return pos;
        }
        let ghost v = self@;
        let ghost t = text.spec_bytes();
        let l = pos.line;
        let c = pos.col;
        proof {
            assert(v[l as int] == utf8(self.lines@[l as int]@));
        }
        let (before, after) = split_at_byte(self.lines[l].as_str(), c);
        let parts = split_on_newline(text);
        proof {
            let pre = v[l as int].take(c as int);
            let post = v[l as int].skip(c as int);
            lemma_split_len(t);
            lemma_split_lines_newline_free(t);
            lemma_newline_free_subrange(v[l as int], 0, c as int);
            lemma_newline_free_subrange(v[l as int], c as int, v[l as int].len() as int);
            assert(utf8(before@) == pre);
            assert(utf8(after@) == post);
            assert(strings_bytes(parts@) == split_lines(t));
            assert forall|j: int| 0 <= j < parts@.len() implies newline_free(
                #[trigger] utf8(parts@[j]@),
            ) && utf8(parts@[j]@).len() <= usize::MAX by {
                assert(utf8(parts@[j]@) == split_lines(t)[j]);
            }
        }
        self.splice_line(l, before, after, parts)
    }

    /// Replaces line `l` by the lines `parts`, the first joined to `before`
    /// and the last to `after`; returns the position between the last part
    /// and `after`.
    fn splice_line(&mut self, l: usize, before: String, after: String, parts: Vec<String>)
        -> (res: Position)
        requires
            old(self).wf(),
            l < old(self)@.len(),
            parts@.len() >= 1,
            newline_free(utf8(before@)),
            newline_free(utf8(after@)),
            forall|j: int|
                0 <= j < parts@.len() ==> newline_free(#[trigger] utf8(parts@[j]@)) && utf8(
                    parts@[j]@,
                ).len() <= usize::MAX,
        ensures
            final(self).wf(),
            final(self)@ == old(self)@.take(l as int) + splice(
                utf8(before@),
                strings_bytes(parts@),
                utf8(after@),
            ) + old(self)@.skip(l + 1),
            parts@.len() == 1 ==> res == (Position {
                line: l,
                col: (utf8(before@).len() + utf8(parts@[0]@).len()) as usize,
            }),
            parts@.len() > 1 ==> res == (Position {
                line: (l + parts@.len() - 1) as usize,
                col: utf8(parts@.last()@).len() as usize,
            }),
    {
        let ghost v = self@;
        let ghost pre = utf8(before@);
        let ghost post = utf8(after@);
        let ghost pb = strings_bytes(parts@);
        let k = parts.len();
        let n = self.lines.len();
        let ghost old_lines = self.lines@;
        proof {
            assert(strings_bytes(old_lines.take(l as int)) =~= v.take(l as int));
            assert(strings_bytes(old_lines.skip(l + 1)) =~= v.skip(l + 1));
            assert(pb[0] == utf8(parts@[0]@));
            assert(pb[k - 1] == utf8(parts@[k - 1]@));
            lemma_newline_free_concat(pre, pb[0]);
            lemma_newline_free_concat(pre + pb[0], post);
            lemma_newline_free_concat(pb[k - 1], post);
        }
        if k == 1 {
            let head = concat_str(before.as_str(), parts[0].as_str());
            let new_col = byte_len(head.as_str());
            let full = concat_str(head.as_str(), after.as_str());
            self.lines.set(l, full);
            proof {
                let mid = seq![full];
                let sp = splice(pre, pb, post);
                assert(self.lines@ =~= old_lines.take(l as int) + mid + old_lines.skip(l + 1));
                lemma_strings_bytes_concat3(old_lines.take(l as int), mid, old_lines.skip(l + 1));
                assert(strings_bytes(mid) =~= sp);
                lemma_spliced_valid(v, l as int, sp);
            }
            Position::new(l, new_col)
        } else {
            let head = concat_str(before.as_str(), parts[0].as_str());
            let last_part = parts[k - 1].as_str();
            let new_col = byte_len(last_part);
            let tail = concat_str(last_part, after.as_str());
            self.lines.set(l, head);
            insert_run(&mut self.lines, l + 1, &parts, 1, k - 1);
            let cur = self.lines.len();
            assert(cur == v.len() + k - 2);
            let at = l + (k - 1);
            self.lines.insert(at, tail);
            proof {
                let sp = splice(pre, pb, post);
                let mid = seq![head] + parts@.subrange(1, k - 1) + seq![tail];
                assert(self.lines@ =~= old_lines.take(l as int) + mid + old_lines.skip(l + 1));
                lemma_strings_bytes_concat3(old_lines.take(l as int), mid, old_lines.skip(l + 1));
                assert(strings_bytes(mid) =~= sp) by {
                    assert forall|j: int| 0 <= j < k implies #[trigger] strings_bytes(mid)[j]
                        == sp[j] by {
                        if 0 < j < k - 1 {
                            assert(mid[j] == parts@[j]);
                        }
                    }
                }
                assert forall|j: int| 0 <= j < sp.len() implies newline_free(#[trigger] sp[j])
                    && sp[j].len() <= usize::MAX by {
                    if 0 < j < k - 1 {
                        assert(sp[j] == pb[j]);
                        assert(utf8(parts@[j]@) == pb[j]);
                    }
                }
                lemma_spliced_valid(v, l as int, sp);
            }
            Position::new(at, new_col)
        }
    }

    /// Delete text in the given range. Returns the start position: the
    /// range's own start when the range is empty, else its clamped start.
    pub fn delete(&mut self, range: TextRange) -> (res: Position)
        requires
            old(self).wf(),
            range.start != range.end ==> pos_le(
                clamp_pos(old(self)@, range.start),
                clamp_pos(old(self)@, range.end),
            ),
        ensures
            final(self).wf(),
            range.start == range.end ==> final(self)@ == old(self)@ && res == range.start,
            range.start != range.end ==> final(self)@ == delete_lines(
                old(self)@,
                clamp_pos(old(self)@, range.start),
                clamp_pos(old(self)@, range.end),
            ) && res == clamp_pos(old(self)@, range.start),
    {
        if range.is_empty() {
            return range.start;
        }
        let start = self.clamp_position(range.start);
        let end = self.clamp_position(range.end);
        let ghost v = self@;
        let ghost old_lines = self.lines@;
        let n = self.lines.len();
        proof {
            assert(v[start.line as int] == utf8(old_lines[start.line as int]@));
            assert(v[end.line as int] == utf8(old_lines[end.line as int]@));
        }
        let (pre, _) = split_at_byte(self.lines[start.line].as_str(), start.col);
        let (_, post) = split_at_byte(self.lines[end.line].as_str(), end.col);
        let joined = concat_str(pre.as_str(), post.as_str());
        self.lines.set(start.line, joined);
        if start.line < end.line {
            let mut tail = self.lines.split_off(end.line + 1);
            self.lines.truncate(start.line + 1);
            self.lines.append(&mut tail);
        }
        proof {
            let sl = start.line as int;
            let el = end.line as int;
            let mid = seq![joined];
            let jb = v[sl].take(start.col as int) + v[el].skip(end.col as int);
            assert(self.lines@ =~= old_lines.take(sl) + mid + old_lines.skip(el + 1));
            lemma_strings_bytes_concat3(old_lines.take(sl), mid, old_lines.skip(el + 1));
            assert(strings_bytes(old_lines.take(sl)) =~= v.take(sl));
            assert(strings_bytes(old_lines.skip(el + 1)) =~= v.skip(el + 1));
            assert(strings_bytes(mid) =~= seq![jb]);
            lemma_newline_free_subrange(v[sl], 0, start.col as int);
            lemma_newline_free_subrange(v[el], end.col as int, v[el].len() as int);
            lemma_newline_free_concat(v[sl].take(start.col as int), v[el].skip(end.col as int));
            let nv = self@;
            assert forall|j: int| 0 <= j < nv.len() implies valid_utf8(#[trigger] nv[j])
                && newline_free(nv[j]) && nv[j].len() <= usize::MAX by {
                if j < sl {
                    assert(nv[j] == v[j]);
                } else if j > sl {
                    assert(nv[j] == v[j + el - sl]);
                }
            }
        }
        start
    }

    /// Replace text in the given range with new text.
    /// Returns the position after the replacement.
    pub fn replace(&mut self, range: TextRange, text: &str) -> (res: Position)
        requires
            old(self).wf(),
            range.start != range.end ==> pos_le(
                clamp_pos(old(self)@, range.start),
                clamp_pos(old(self)@, range.end),
            ),
        ensures
            final(self).wf(),
            ({
                let (mid, at) = if range.start == range.end {
                    (old(self)@, range.start)
                } else {
                    (
                        delete_lines(
                            old(self)@,
                            clamp_pos(old(self)@, range.start),
                            clamp_pos(old(self)@, range.end),
                        ),
                        clamp_pos(old(self)@, range.start),
                    )
                };
                &&& final(self)@ == insert_lines(mid, clamp_pos(mid, at), text.spec_bytes())
                &&& res == insert_end(clamp_pos(mid, at), text.spec_bytes())
            }),
    {
        let start = self.delete(range);
        self.insert(start, text)
    }

    /// Get the text within a range (both ends clamped first).
    pub fn text_in_range(&self, range: TextRange) -> (res: String)
        requires
            self.wf(),
            clamp_pos(self@, range.start).line == clamp_pos(self@, range.end).line ==> clamp_pos(
                self@,
                range.start,
            ).col <= clamp_pos(self@, range.end).col,
        ensures
            utf8(res@) == range_text(
                self@,
                clamp_pos(self@, range.start),
                clamp_pos(self@, range.end),
            ),
    {
        let start = self.clamp_position(range.start);
        let end = self.clamp_position(range.end);
        let ghost v = self@;
        proof {
            assert(v[start.line as int] == utf8(self.lines@[start.line as int]@));
            assert(v[end.line as int] == utf8(self.lines@[end.line as int]@));
            is_char_boundary_start_end_of_seq(v[start.line as int]);
            is_char_boundary_start_end_of_seq(v[end.line as int]);
        }
        if start.line == end.line {
            return slice_str(self.lines[start.line].as_str(), start.col, end.col);
        }
        let n = self.lines.len();
        let first = self.lines[start.line].as_str();
        let mut result = slice_str(first, start.col, byte_len(first));
        proof {
            lemma_newline_literal();
        }
        let mut i = start.line + 1;
        while i < end.line
            invariant
                self.wf(),
                v == self@,
                start.line < i,
                i <= end.line || i == start.line + 1,
                end.line < v.len(),
                start.line < v.len(),
                utf8("\n"@) == seq![nl()],
                utf8(result@) == v[start.line as int].skip(start.col as int) + trail(
                    v.subrange(start.line + 1, i as int),
                ),
            decreases end.line - i,
        {
            let ghost before = result@;
            let with_nl = concat_str(result.as_str(), "\n");
            result = concat_str(with_nl.as_str(), self.lines[i].as_str());
            proof {
                let between = v.subrange(start.line + 1, i as int);
                assert(v[i as int] == utf8(self.lines@[i as int]@));
                assert(v.subrange(start.line + 1, i + 1) =~= between.push(v[i as int]));
                if between.len() > 0 {
                    lemma_join_push(between, v[i as int]);
                } else {
                    assert(between.push(v[i as int]) =~= seq![v[i as int]]);
                }
            }
            i = i + 1;
        }
        let last = slice_str(self.lines[end.line].as_str(), 0, end.col);
        let with_nl = concat_str(result.as_str(), "\n");
        let res = concat_str(with_nl.as_str(), last.as_str());
        proof {
            if start.line + 1 >= end.line {
                assert(v.subrange(start.line + 1, i as int) =~= Seq::<Seq<u8>>::empty());
            }
            assert(v[end.line as int].subrange(0, end.col as int) =~= v[end.line as int].take(
                end.col as int,
            ));
        }
        res
    }

    /// Delete the text in `range` when its clamped ends come in order (see
    /// `delete`); otherwise leave the buffer as it is and return `None`.
    pub fn try_delete(&mut self, range: TextRange) -> (res: Option<Position>)
        requires
            old(self).wf(),
        ensures
            final(self).wf(),
            ({
                let s = clamp_pos(old(self)@, range.start);
                let e = clamp_pos(old(self)@, range.end);
                if range.start == range.end {
                    final(self)@ == old(self)@ && res == Some(range.start)
                } else if pos_le(s, e) {
                    final(self)@ == delete_lines(old(self)@, s, e) && res == Some(s)
                } else {
                    final(self)@ == old(self)@ && res is None
                }
            }),
    {
        if range.is_empty() {
            return Some(self.delete(range));
        }
        let s = self.clamp_position(range.start);
        let e = self.clamp_position(range.end);
        if s.line < e.line || (s.line == e.line && s.col <= e.col) {
            Some(self.delete(range))
        } else {
            None
        }
    }

    /// Replace the text in `range` by `text` when its clamped ends come in
    /// order (see `replace`); otherwise leave the buffer as it is and return
    /// `None`.
    pub fn try_replace(&mut self, range: TextRange, text: &str) -> (res: Option<Position>)
        requires
            old(self).wf(),
        ensures
            final(self).wf(),
            ({
                let s = clamp_pos(old(self)@, range.start);
                let e = clamp_pos(old(self)@, range.end);
                if range.start == range.end {
                    &&& final(self)@ == insert_lines(
                        old(self)@,
                        clamp_pos(old(self)@, range.start),
                        text.spec_bytes(),
                    )
                    &&& res == Some(insert_end(clamp_pos(old(self)@, range.start), text.spec_bytes()))
                } else if pos_le(s, e) {
                    let mid = delete_lines(old(self)@, s, e);
                    &&& final(self)@ == insert_lines(mid, clamp_pos(mid, s), text.spec_bytes())
                    &&& res == Some(insert_end(clamp_pos(mid, s), text.spec_bytes()))
                } else {
                    final(self)@ == old(self)@ && res is None
                }
            }),
    {
        if range.is_empty() {
            return Some(self.replace(range, text));
        }
        let s = self.clamp_position(range.start);
        let e = self.clamp_position(range.end);
        if s.line < e.line || (s.line == e.line && s.col <= e.col) {
            Some(self.replace(range, text))
        } else {
            None
        }
    }

    /// The text in `range` when its clamped ends on one line come in order
    /// (see `text_in_range`); otherwise `None`.
    pub fn try_text_in_range(&self, range: TextRange) -> (res: Option<String>)
        requires
            self.wf(),
        ensures
            ({
                let s = clamp_pos(self@, range.start);
                let e = clamp_pos(self@, range.end);
                if s.line == e.line && s.col > e.col {
                    res is None
                } else {
                    res matches Some(t) && utf8(t@) == range_text(self@, s, e)
                }
            }),
    {
        let s = self.clamp_position(range.start);
        let e = self.clamp_position(range.end);
        if s.line == e.line && s.col > e.col {
            None
        } else {
            Some(self.text_in_range(range))
        }
    }

    /// Move position left by one grapheme cluster.
    pub fn move_left(&self, pos: Position) -> (res: Position)
        requires
            self.wf(),
        ensures
            res == left_of(self@, pos),
            valid_pos(self@, res),
            clamp_pos(self@, pos) != Position::zero_spec() ==> right_of(self@, res) == clamp_pos(
                self@,
                pos,
            ),
    {
        let pos = self.clamp_position(pos);
        if pos.col == 0 {
            if pos.line == 0 {
                pos
            } else {
                proof {
                    is_char_boundary_start_end_of_seq(self@[pos.line - 1]);
                }
                Position::new(pos.line - 1, self.line_len(pos.line - 1))
            }
        } else {
            let b = self.line_graphemes(pos.line);
            let ghost line = self@[pos.line as int];
            let r = start_before(b.as_slice(), pos.col);
            proof {
                lemma_last_below_bounds(b@, pos.col as int);
                is_char_boundary_start_end_of_seq(line);
                if r != 0 {
                    lemma_member_boundary(line, r);
                }
                lemma_left_then_right(line, b@, pos.col as int);
            }
            Position::new(pos.line, r)
        }
    }

    /// Move position right by one grapheme cluster.
    pub fn move_right(&self, pos: Position) -> (res: Position)
        requires
            self.wf(),
        ensures
            res == right_of(self@, pos),
            valid_pos(self@, res),
            clamp_pos(self@, pos) != end_of(self@) ==> left_of(self@, res) == clamp_pos(self@, pos),
    {
        let q = self.clamp_position(pos);
        let len = self.line_len(q.line);
        if q.col >= len {
            if q.line >= self.lines.len() - 1 {
                q
            } else {
                proof {
                    is_char_boundary_start_end_of_seq(self@[q.line + 1]);
                }
                Position::new(q.line + 1, 0)
            }
        } else {
            let b = self.line_graphemes(q.line);
            let ghost line = self@[q.line as int];
            let r = start_after(b.as_slice(), q.col, len);
            proof {
                lemma_first_above_bounds(b@, q.col as int, len as int);
                is_char_boundary_start_end_of_seq(line);
                if r != len {
                    lemma_member_boundary(line, r);
                }
                lemma_right_then_left(line, b@, q.col as int);
            }
            Position::new(q.line, r)
        }
    }

    /// Move position up by one line, preserving column as best as possible.
    pub fn move_up(&self, pos: Position, preferred_col: usize) -> (res: Position)
        requires
            self.wf(),
            pos.line <= self@.len(),
        ensures
            pos.line == 0 ==> res == Position::zero_spec(),
            pos.line > 0 ==> res == at_column(self@, pos.line - 1, preferred_col as int),
            valid_pos(self@, res),
    {
        proof {
            is_char_boundary_start_end_of_seq(self@[0]);
        }
        if pos.line == 0 {
            Position::new(0, 0)
        } else {
            let new_line = pos.line - 1;
            let len = self.line_len(new_line);
            let col = if preferred_col < len { preferred_col } else { len };
            self.clamp_position(Position::new(new_line, col))
        }
    }

    /// Move position down by one line, preserving column as best as possible.
    pub fn move_down(&self, pos: Position, preferred_col: usize) -> (res: Position)
        requires
            self.wf(),
        ensures
            pos.line >= self@.len() - 1 ==> res == end_of(self@),
            pos.line < self@.len() - 1 ==> res == at_column(self@, pos.line + 1, preferred_col as int),
            valid_pos(self@, res),
    {
        if pos.line >= self.lines.len() - 1 {
            self.end_position()
        } else {
            let new_line = pos.line + 1;
            let len = self.line_len(new_line);
            let col = if preferred_col < len { preferred_col } else { len };
            self.clamp_position(Position::new(new_line, col))
        }
    }

    /// Move to the beginning of the current line.
    pub fn line_start(&self, pos: Position) -> (res: Position)
        requires
            self.wf(),
        ensures
            res.line == (if pos.line < self@.len() { pos.line as int } else { self@.len() - 1 }),
            res.col == 0,
            valid_pos(self@, res),
    {
        let n = self.lines.len();
        proof {
            let l = if pos.line < n - 1 { pos.line as int } else { n - 1 };
            is_char_boundary_start_end_of_seq(self@[l]);
        }
        Position::new(if pos.line < n - 1 { pos.line } else { n - 1 }, 0)
    }

    /// Move to the end of the current line.
    pub fn line_end(&self, pos: Position) -> (res: Position)
        requires
            self.wf(),
        ensures
            res.line == (if pos.line < self@.len() { pos.line as int } else { self@.len() - 1 }),
            res.col == self@[res.line as int].len(),
            valid_pos(self@, res),
    {
        let n = self.lines.len();
        proof {
            let l = if pos.line < n - 1 { pos.line as int } else { n - 1 };
            is_char_boundary_start_end_of_seq(self@[l]);
        }
        let line = if pos.line < n - 1 { pos.line } else { n - 1 };
        Position::new(line, self.line_len(line))
    }

    /// Move left by one word (skip whitespace, then word characters).
    pub fn move_word_left(&self, pos: Position) -> (res: Position)
        requires
            self.wf(),
        ensures
            res == word_left_of(self@, pos),
    {
        let q = self.clamp_position(pos);
        if q.col == 0 {
            if q.line == 0 {
                return q;
            }
            return Position::new(q.line - 1, self.line_len(q.line - 1));
        }
        let ghost v = self@;
        proof {
            assert(v[q.line as int] == utf8(self.lines@[q.line as int]@));
            is_char_boundary_start_end_of_seq(v[q.line as int]);
        }
        let prefix = slice_str(self.lines[q.line].as_str(), 0, q.col);
        let ghost t = v[q.line as int].take(q.col as int);
        proof {
            assert(v[q.line as int].subrange(0, q.col as int) =~= t);
            encode_utf8_decode_utf8(prefix@);
        }
        let b = grapheme_offsets(prefix.as_str());
        let col = word_start(prefix.as_str(), &b);
        Position::new(q.line, col)
    }

    /// Move right by one word.
    pub fn move_word_right(&self, pos: Position) -> (res: Position)
        requires
            self.wf(),
        ensures
            res == word_right_of(self@, pos),
    {
        let q = self.clamp_position(pos);
        let len = self.line_len(q.line);
        if q.col >= len {
            if q.line >= self.lines.len() - 1 {
                return q;
            }
            return Position::new(q.line + 1, 0);
        }
        let ghost v = self@;
        proof {
            assert(v[q.line as int] == utf8(self.lines@[q.line as int]@));
            is_char_boundary_start_end_of_seq(v[q.line as int]);
        }
        let rest = slice_str(self.lines[q.line].as_str(), q.col, len);
        let ghost t = v[q.line as int].skip(q.col as int);
        proof {
            assert(v[q.line as int].subrange(q.col as int, len as int) =~= t);
            encode_utf8_decode_utf8(rest@);
        }
        let b = grapheme_offsets(rest.as_str());
        let col = word_end(rest.as_str(), &b);
        Position::new(q.line, q.col + col)
    }

    /// The position at the very end of the buffer.
    pub fn end_position(&self) -> (res: Position)
        requires
            self.wf(),
        ensures
            res == end_of(self@),
            valid_pos(self@, res),
    {
        let last = self.lines.len() - 1;
        proof {
            is_char_boundary_start_end_of_seq(self@[last as int]);
        }
        Position::new(last, byte_len(self.lines[last].as_str()))
    }

    /// Select all: returns range covering entire buffer.
    pub fn select_all(&self) -> (res: TextRange)
        requires
            self.wf(),
        ensures
            res.start == Position::zero_spec(),
            res.end == end_of(self@),
            valid_pos(self@, res.start),
            valid_pos(self@, res.end),
    {
        proof {
            is_char_boundary_start_end_of_seq(self@[0]);
        }
        TextRange::new(Position::zero(), self.end_position())
    }
}

} // verus!
