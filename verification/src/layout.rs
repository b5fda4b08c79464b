//! The integer side of laying out a text input: where each line of the text
//! starts, how the displayed text splits into runs around the IME marked
//! range, and which part of each line a selection covers. Shaping and pixel
//! geometry are left to the widget.

use crate::lines::{lead, nl, split_lines, lemma_join_split, lemma_split_len};
use crate::textarea::{line_index, lemma_line_index_bound};
use std::ops::Range;
use vstd::prelude::*;
use vstd::string::*;

verus! {

/// The byte offsets at which the lines of a text start: 0, and one past each
/// newline byte.
pub open spec fn newline_starts(t: Seq<u8>) -> Seq<int>
    decreases t.len(),
{
    if t.len() == 0 {
        seq![0int]
    } else {
        let r = newline_starts(t.drop_last());
        if t.last() == nl() {
            r.push(t.len() as int)
        } else {
            r
        }
    }
}

/// `starts` brought to `count` entries: cut short, or padded with `fill`.
pub open spec fn fit_to(starts: Seq<int>, count: int, fill: int) -> Seq<int> {
    Seq::new(count as nat, |k: int| if k < starts.len() { starts[k] } else { fill })
}

/// The start of line `k` of a text is the length of the lines before it, each
/// with its newline: the line starts agree with the lines the text splits into.
pub proof fn law_line_starts_split(t: Seq<u8>)
    ensures
        newline_starts(t).len() == split_lines(t).len(),
        forall|k: int|
            0 <= k < newline_starts(t).len() ==> #[trigger] newline_starts(t)[k] == lead(
                split_lines(t).take(k),
            ).len(),
    decreases t.len(),
{
    lemma_split_len(t);
    if t.len() > 0 {
        let p = t.drop_last();
        law_line_starts_split(p);
        lemma_split_len(p);
        let r = split_lines(p);
        let s = split_lines(t);
        assert forall|k: int| 0 <= k < newline_starts(t).len() implies #[trigger] newline_starts(
            t,
        )[k] == lead(s.take(k)).len() by {
            if k < r.len() {
                assert(s.take(k) =~= r.take(k));
            } else {
                assert(t.last() == nl());
                assert(k == r.len());
                assert(s.take(k) =~= r);
                lemma_join_split(p);
            }
        }
    }
}

/// The start offset of each line of `content`, brought to `count` entries
/// (the number of shaped lines): cut short, or padded with the content's
/// length.
pub fn line_starts(content: &str, count: usize) -> (res: Vec<usize>)
    ensures
        res@.len() == count,
        forall|k: int|
            0 <= k < count ==> #[trigger] res@[k] == fit_to(
                newline_starts(content.spec_bytes()),
                count as int,
                content.spec_bytes().len() as int,
            )[k],
{
    let bytes = content.as_bytes();
    let ghost t = content.spec_bytes();
    let n = bytes.len();
    let mut starts: Vec<usize> = Vec::new();
    starts.push(0);
    let mut i: usize = 0;
    assert(t.take(0) =~= Seq::<u8>::empty());
    while i < n
        invariant
            n == t.len(),
            bytes@ == t,
            i <= n,
            starts@.len() == newline_starts(t.take(i as int)).len(),
            forall|k: int|
                0 <= k < starts@.len() ==> #[trigger] starts@[k] as int == newline_starts(
                    t.take(i as int),
                )[k],
        decreases n - i,
    {
        assert(t.take(i + 1).drop_last() =~= t.take(i as int));
        if bytes[i] == 10u8 {
            starts.push(i + 1);
        }
        i = i + 1;
    }
    assert(t.take(n as int) =~= t);
    let ghost found = starts@;
    starts.resize(count, n);
    proof {
        assert forall|k: int| 0 <= k < count implies #[trigger] starts@[k] == fit_to(
            newline_starts(t),
            count as int,
            n as int,
        )[k] by {
            if count > found.len() && k < found.len() {
                assert(starts@[k] == starts@.subrange(0, found.len() as int)[k]);
            }
        }
    }
    starts
}

/// The line that byte offset `offset` falls in (see `line_index`), and the
/// offset within that line, 0 when `offset` lies before the line's start.
pub fn locate(line_starts: &[usize], offset: usize) -> (res: (usize, usize))
    requires
        line_starts@.len() >= 1,
    ensures
        res.0 == line_index(line_starts@, offset as int),
        res.1 == (if offset >= line_starts@[res.0 as int] {
            offset - line_starts@[res.0 as int]
        } else {
            0
        }),
{
    let line = crate::textarea::TextInput::line_index_for_offset(line_starts, offset);
    proof {
        lemma_line_index_bound(line_starts@, offset as int);
    }
    let start = line_starts[line];
    let col = if offset >= start { offset - start } else { 0 };
    (line, col)
}

/// A run of `len` bytes, kept only when it is not empty.
pub open spec fn nonempty_run(len: int, underlined: bool) -> Seq<(usize, bool)> {
    if len > 0 {
        seq![(len as usize, underlined)]
    } else {
        seq![]
    }
}

/// The runs of a text of `len` bytes, as (length, underlined) pairs: one plain
/// run without a marked range; with one, the text before it, the marked text
/// underlined, and the text after it, the empty ones left out.
pub open spec fn runs_of(len: int, marked: Option<Range<usize>>) -> Seq<(usize, bool)> {
    match marked {
        None => seq![(len as usize, false)],
        Some(m) => nonempty_run(m.start as int, false) + nonempty_run(
            m.end - m.start,
            true,
        ) + nonempty_run(len - m.end, false),
    }
}

/// The runs of a text of `len` bytes around the marked range (see `runs_of`).
pub fn text_runs(len: usize, marked: &Option<Range<usize>>) -> (res: Vec<(usize, bool)>)
    requires
        marked matches Some(m) ==> m.start <= m.end <= len,
    ensures
        res@ == runs_of(len as int, *marked),
{
    match marked {
        None => vec![(len, false)],
        Some(m) => {
            let mut runs: Vec<(usize, bool)> = Vec::new();
            if m.start > 0 {
                runs.push((m.start, false));
            }
            if m.end - m.start > 0 {
                runs.push((m.end - m.start, true));
            }
            if len - m.end > 0 {
                runs.push((len - m.end, false));
            }
            assert(runs@ =~= runs_of(len as int, *marked));
            runs
        },
    }
}

/// The part of a line starting at byte `start` with `len` bytes that
/// selection `sel` covers, as offsets within the line, when it is not empty.
pub open spec fn segment_of(sel: Range<usize>, start: int, len: int) -> Option<(usize, usize)> {
    let s = if sel.start >= start { sel.start as int } else { start };
    let e = if sel.end <= start + len { sel.end as int } else { start + len };
    if s < e {
        Some(((s - start) as usize, (e - start) as usize))
    } else {
        None
    }
}

/// The covered parts of lines `from` to `to`, each as (line, start, end).
pub open spec fn segments_between(
    starts: Seq<usize>,
    lens: Seq<usize>,
    sel: Range<usize>,
    from: int,
    to: int,
) -> Seq<(usize, usize, usize)>
    decreases to + 1 - from,
{
    if from > to {
        seq![]
    } else {
        let rest = segments_between(starts, lens, sel, from + 1, to);
        match segment_of(sel, starts[from] as int, lens[from] as int) {
            Some((a, b)) => seq![(from as usize, a, b)] + rest,
            None => rest,
        }
    }
}

/// The part of each line that a selection covers: for the lines from the one
/// holding the selection's start to the one holding its end, the covered byte
/// offsets within the line, where not empty.
pub fn selection_segments(line_starts: &[usize], line_lens: &[usize], selection: Range<usize>) -> (res:
    Vec<(usize, usize, usize)>)
    requires
        line_starts@.len() >= 1,
        line_lens@.len() == line_starts@.len(),
    ensures
        res@ == segments_between(
            line_starts@,
            line_lens@,
            selection,
            line_index(line_starts@, selection.start as int),
            line_index(line_starts@, selection.end as int),
        ),
{
    let first = crate::textarea::TextInput::line_index_for_offset(line_starts, selection.start);
    let last = crate::textarea::TextInput::line_index_for_offset(line_starts, selection.end);
    proof {
        lemma_line_index_bound(line_starts@, selection.start as int);
        lemma_line_index_bound(line_starts@, selection.end as int);
    }
    let n = line_starts.len();
    let mut res: Vec<(usize, usize, usize)> = Vec::new();
    if first > last {
        return res;
    }
    let mut k = last + 1;
    while k > first
        invariant
            first <= k <= last + 1,
            last < line_starts@.len(),
            line_lens@.len() == line_starts@.len(),
            res@ == segments_between(line_starts@, line_lens@, selection, k as int, last as int),
        decreases k,
    {
        k = k - 1;
        let start = line_starts[k];
        let len = line_lens[k];
        let s = if selection.start >= start { selection.start - start } else { 0 };
        let e = if selection.end <= start { 0 } else if selection.end - start <= len {
            selection.end - start
        } else {
            len
        };
        if s < e {
            let mut with: Vec<(usize, usize, usize)> = Vec::new();
            with.push((k, s, e));
            with.append(&mut res);
            res = with;
        }
    }
    res
}

} // verus!
