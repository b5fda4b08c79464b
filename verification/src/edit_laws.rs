//! Laws of the text buffer: how its line-level edits act on the whole text.

use crate::buffer::{
    blank_cluster, graphemes_of, skip_back, skip_fwd, word_left_of, word_right_of,
    Position, clamp_pos, valid_pos, delete_lines, end_of, insert_end, insert_lines, offset_of, pos_le, range_text,
    valid_lines,
};
use crate::lines::{
    newline_count, newline_free, lemma_split_count, join, lead, nl, split_lines, splice, trail, lemma_join_concat, lemma_join_middle,
    lemma_join_push, lemma_join_split, lemma_split_len_bound, lemma_join_splice, lemma_split_join, lemma_split_len,
};
use vstd::prelude::*;

verus! {

/// A position that names an existing line and a column within it.
pub open spec fn in_lines(v: Seq<Seq<u8>>, p: Position) -> bool {
    p.line < v.len() && p.col <= v[p.line as int].len()
}

/// The text of a buffer made from a text is that text.
pub proof fn law_from_text_text(t: Seq<u8>)
    ensures
        join(split_lines(t)) == t,
{
    lemma_join_split(t);
}

/// A buffer made from the text of a buffer has the same lines.
pub proof fn law_text_from_text(v: Seq<Seq<u8>>)
    requires
        valid_lines(v),
    ensures
        split_lines(join(v)) == v,
{
    lemma_split_join(v);
}

/// Line `p.line` of `v` in the middle of the others.
proof fn lemma_around(v: Seq<Seq<u8>>, l: int)
    requires
        0 <= l < v.len(),
    ensures
        v == v.take(l) + seq![v[l]] + v.skip(l + 1),
        join(v) == lead(v.take(l)) + v[l] + trail(v.skip(l + 1)),
{
    assert(v =~= v.take(l) + seq![v[l]] + v.skip(l + 1));
    lemma_join_middle(v.take(l), seq![v[l]], v.skip(l + 1));
}

/// The joined text splits at the offset of a position into what stands
/// before and after it.
proof fn lemma_offset_split(v: Seq<Seq<u8>>, p: Position)
    requires
        in_lines(v, p),
    ensures
        0 <= offset_of(v, p) <= join(v).len(),
        join(v).take(offset_of(v, p)) == lead(v.take(p.line as int)) + v[p.line as int].take(
            p.col as int,
        ),
        join(v).skip(offset_of(v, p)) == v[p.line as int].skip(p.col as int) + trail(
            v.skip(p.line + 1),
        ),
{
    let l = p.line as int;
    lemma_around(v, l);
    let a = lead(v.take(l));
    let line = v[l];
    let b = trail(v.skip(l + 1));
    assert(join(v).take(offset_of(v, p)) =~= a + line.take(p.col as int));
    assert(join(v).skip(offset_of(v, p)) =~= line.skip(p.col as int) + b);
}

/// Lines that a buffer can hold, as many as a vector can hold.
pub open spec fn fits(v: Seq<Seq<u8>>) -> bool {
    valid_lines(v) && v.len() <= usize::MAX
}

/// When the lines after an insertion fit in a buffer, so does the position
/// after the inserted text.
proof fn lemma_insert_fits(v: Seq<Seq<u8>>, p: Position, t: Seq<u8>)
    requires
        valid_lines(v),
        in_lines(v, p),
        fits(insert_lines(v, p, t)),
    ensures
        t.len() > 0 && split_lines(t).len() == 1 ==> p.col + split_lines(t)[0].len()
            <= usize::MAX,
        t.len() > 0 ==> p.line + split_lines(t).len() - 1 < insert_lines(v, p, t).len(),
        t.len() > 0 ==> split_lines(t).last().len() <= usize::MAX,
{
    if t.len() > 0 {
        let l = p.line as int;
        let c = p.col as int;
        let line = v[l];
        let pre = line.take(c);
        let post = line.skip(c);
        let parts = split_lines(t);
        let k = parts.len();
        lemma_split_len(t);
        let nv = insert_lines(v, p, t);
        let sp = splice(pre, parts, post);
        assert(nv == v.take(l) + sp + v.skip(l + 1));
        assert(nv[l + k - 1] == sp[k - 1]);
        if k == 1 {
            assert(sp[0] =~= pre + parts[0] + post);
        } else {
            assert(sp[k - 1] =~= parts[k - 1] + post);
        }
        assert(nv[l + k - 1].len() <= usize::MAX);
    }
}

/// Inserting puts the text at the offset of the insertion position, and the
/// returned position stands just after it.
pub proof fn law_insert_text(v: Seq<Seq<u8>>, p: Position, t: Seq<u8>)
    requires
        valid_lines(v),
        in_lines(v, p),
        fits(insert_lines(v, p, t)),
    ensures
        join(insert_lines(v, p, t)) == join(v).take(offset_of(v, p)) + t + join(v).skip(
            offset_of(v, p),
        ),
        offset_of(insert_lines(v, p, t), insert_end(p, t)) == offset_of(v, p) + t.len(),
{
    lemma_insert_fits(v, p, t);
    let l = p.line as int;
    let c = p.col as int;
    lemma_offset_split(v, p);
    if t.len() > 0 {
        let line = v[l];
        let pre = line.take(c);
        let post = line.skip(c);
        let parts = split_lines(t);
        let k = parts.len();
        lemma_split_len(t);
        lemma_split_len_bound(t);
        lemma_join_split(t);
        let sp = splice(pre, parts, post);
        let nv = v.take(l) + sp + v.skip(l + 1);
        lemma_join_middle(v.take(l), sp, v.skip(l + 1));
        lemma_join_splice(pre, parts, post);
        assert(join(nv) =~= join(v).take(offset_of(v, p)) + t + join(v).skip(offset_of(v, p)));
        let e = insert_end(p, t);
        if k == 1 {
            assert(nv.take(l) =~= v.take(l));
            assert(t == parts[0]);
        } else {
            let head = v.take(l) + sp.take(k - 1);
            assert(nv.take(l + k - 1) =~= head);
            lemma_join_middle(v.take(l), sp.take(k - 1), Seq::empty());
            assert(v.take(l) + sp.take(k - 1) + Seq::<Seq<u8>>::empty() =~= head);
            assert(sp.take(k - 1) =~= splice(pre, parts.take(k - 1), Seq::empty())) by {
                assert(parts.take(k - 1)[0] == parts[0]);
            }
            lemma_join_splice(pre, parts.take(k - 1), Seq::empty());
            assert(parts =~= parts.take(k - 1).push(parts[k - 1]));
            lemma_join_push(parts.take(k - 1), parts[k - 1]);
            assert(lead(head).len() == join(head).len() + 1);
            assert(parts[k - 1].len() <= t.len()) by {
                assert(join(parts) == join(parts.take(k - 1)) + seq![nl()] + parts[k - 1]);
            }
            assert(e.line == l + k - 1);
        }
    }
}

/// Deleting removes the text between the offsets of the two positions.
pub proof fn law_delete_text(v: Seq<Seq<u8>>, s: Position, e: Position)
    requires
        valid_lines(v),
        in_lines(v, s),
        in_lines(v, e),
        s.line <= e.line,
    ensures
        join(delete_lines(v, s, e)) == join(v).take(offset_of(v, s)) + join(v).skip(
            offset_of(v, e),
        ),
{
    lemma_offset_split(v, s);
    lemma_offset_split(v, e);
    let joined = v[s.line as int].take(s.col as int) + v[e.line as int].skip(e.col as int);
    lemma_join_middle(v.take(s.line as int), seq![joined], v.skip(e.line + 1));
    assert(join(delete_lines(v, s, e)) =~= join(v).take(offset_of(v, s)) + join(v).skip(
        offset_of(v, e),
    ));
}

/// The text that `text_in_range` gathers between two ordered positions is
/// the joined text between their offsets.
pub proof fn law_range_text(v: Seq<Seq<u8>>, s: Position, e: Position)
    requires
        valid_lines(v),
        in_lines(v, s),
        in_lines(v, e),
        pos_le(s, e),
    ensures
        offset_of(v, s) <= offset_of(v, e),
        range_text(v, s, e) == join(v).subrange(offset_of(v, s), offset_of(v, e)),
{
    let sl = s.line as int;
    let el = e.line as int;
    lemma_offset_split(v, s);
    lemma_offset_split(v, e);
    if sl == el {
        lemma_around(v, sl);
        assert(join(v).subrange(offset_of(v, s), offset_of(v, e)) =~= v[sl].subrange(
            s.col as int,
            e.col as int,
        ));
    } else {
        let between = if sl + 1 < el {
            v.subrange(sl + 1, el)
        } else {
            Seq::<Seq<u8>>::empty()
        };
        let mid = seq![v[sl]] + between;
        assert(v.take(el) =~= v.take(sl) + mid + Seq::<Seq<u8>>::empty());
        lemma_join_middle(v.take(sl), mid, Seq::empty());
        if between.len() == 0 {
            assert(mid =~= seq![v[sl]]);
        } else {
            lemma_join_concat(seq![v[sl]], between);
        }
        assert(join(mid) =~= v[sl] + trail(between));
        let lt = lead(v.take(sl));
        assert(lead(v.take(el)) =~= lt + v[sl] + trail(between) + seq![nl()]);
        let whole = join(v);
        let os = offset_of(v, s);
        let oe = offset_of(v, e);
        assert(whole.take(oe) =~= lt + v[sl] + trail(between) + seq![nl()] + v[el].take(
            e.col as int,
        ));
        assert(whole.take(os) =~= lt + v[sl].take(s.col as int));
        assert(whole.subrange(os, oe) =~= whole.take(oe).skip(os));
        assert(whole.subrange(os, oe) =~= range_text(v, s, e));
    }
}

/// Deleting what was just inserted gives the lines back.
pub proof fn law_insert_delete(v: Seq<Seq<u8>>, p: Position, t: Seq<u8>)
    requires
        valid_lines(v),
        in_lines(v, p),
        fits(insert_lines(v, p, t)),
    ensures
        delete_lines(insert_lines(v, p, t), p, insert_end(p, t)) == v,
{
    lemma_insert_fits(v, p, t);
    let l = p.line as int;
    let c = p.col as int;
    let line = v[l];
    let pre = line.take(c);
    let post = line.skip(c);
    let nv = insert_lines(v, p, t);
    let e = insert_end(p, t);
    if t.len() == 0 {
        assert(pre + post =~= line);
        assert(delete_lines(v, p, p) =~= v);
    } else {
        let parts = split_lines(t);
        let k = parts.len();
        lemma_split_len(t);
        lemma_split_len_bound(t);
        lemma_join_split(t);
        let sp = splice(pre, parts, post);
        if k == 1 {
            assert(t == parts[0]);
            assert(nv[l] =~= pre + t + post);
            assert(nv[l].take(c) + nv[l].skip(c + t.len()) =~= line);
        } else {
            assert(parts =~= parts.take(k - 1).push(parts[k - 1]));
            lemma_join_push(parts.take(k - 1), parts[k - 1]);
            assert(parts[k - 1].len() <= t.len());
            assert(nv[l] == pre + parts[0]);
            assert(nv[l + k - 1] == parts[k - 1] + post);
            assert(nv[l].take(c) + nv[l + k - 1].skip(parts[k - 1].len() as int) =~= line);
        }
        assert(delete_lines(nv, p, e) =~= v);
    }
}

/// Reading the range from the insertion position to the returned position
/// gives the inserted text.
pub proof fn law_insert_read(v: Seq<Seq<u8>>, p: Position, t: Seq<u8>)
    requires
        valid_lines(v),
        in_lines(v, p),
        fits(insert_lines(v, p, t)),
    ensures
        range_text(insert_lines(v, p, t), p, insert_end(p, t)) == t,
{
    lemma_insert_fits(v, p, t);
    let nv = insert_lines(v, p, t);
    let e = insert_end(p, t);
    law_insert_text(v, p, t);
    lemma_offset_split(v, p);
    assert(nv.take(p.line as int) =~= v.take(p.line as int)) by {
        if t.len() > 0 {
            lemma_split_len(t);
        }
    }
    assert(offset_of(nv, p) == offset_of(v, p));
    lemma_insert_end_in(v, p, t);
    law_range_text(nv, p, e);
    let j = join(nv);
    let o = offset_of(v, p);
    assert(j.subrange(o, o + t.len()) =~= t);
}

/// The insertion position and the returned position lie in the new lines, in order.
proof fn lemma_insert_end_in(v: Seq<Seq<u8>>, p: Position, t: Seq<u8>)
    requires
        valid_lines(v),
        in_lines(v, p),
        fits(insert_lines(v, p, t)),
    ensures
        in_lines(insert_lines(v, p, t), p),
        in_lines(insert_lines(v, p, t), insert_end(p, t)),
        pos_le(p, insert_end(p, t)),
{
    lemma_insert_fits(v, p, t);
    let l = p.line as int;
    let c = p.col as int;
    if t.len() > 0 {
        let parts = split_lines(t);
        let k = parts.len();
        lemma_split_len(t);
        lemma_join_split(t);
        let nv = insert_lines(v, p, t);
        lemma_split_len_bound(t);
        if k == 1 {
            assert(t == parts[0]);
        } else {
            assert(parts =~= parts.take(k - 1).push(parts[k - 1]));
            lemma_join_push(parts.take(k - 1), parts[k - 1]);
        }
        assert(nv[l].len() >= c);
        lemma_split_len_bound(t);
    }
}

/// Clamping leaves a valid position where it is, so clamping twice is
/// clamping once.
pub proof fn law_clamp_fixed(v: Seq<Seq<u8>>, p: Position)
    requires
        valid_lines(v),
        valid_pos(v, p),
    ensures
        clamp_pos(v, p) == p,
{
}

/// Selecting all reads the whole text.
pub proof fn law_select_all_text(v: Seq<Seq<u8>>)
    requires
        valid_lines(v),
        v.len() <= usize::MAX,
    ensures
        range_text(v, Position { line: 0, col: 0 }, end_of(v)) == join(v),
{
    let z = Position { line: 0, col: 0 };
    let e = end_of(v);
    assert(v.last() == v[v.len() - 1]);
    law_range_text(v, z, e);
    lemma_around(v, v.len() - 1);
    assert(v.skip(v.len() as int) =~= Seq::<Seq<u8>>::empty());
    assert(v.take(0) =~= Seq::<Seq<u8>>::empty());
    assert(join(v).subrange(0, join(v).len() as int) =~= join(v));
}

/// Replacing everything that `select_all` covers by a text leaves exactly
/// that text: the range from the start to the end of the buffer is deleted
/// (when not empty), and the text goes in at the start.
pub proof fn law_replace_all(v: Seq<Seq<u8>>, t: Seq<u8>)
    requires
        valid_lines(v),
        v.len() <= usize::MAX,
    ensures
        ({
            let z = Position { line: 0, col: 0 };
            let e = end_of(v);
            let mid = if z == e {
                v
            } else {
                delete_lines(v, clamp_pos(v, z), clamp_pos(v, e))
            };
            join(insert_lines(mid, clamp_pos(mid, z), t)) == t
        }),
{
    let z = Position { line: 0, col: 0 };
    let e = end_of(v);
    let empty = seq![Seq::<u8>::empty()];
    assert(clamp_pos(v, z) == z);
    assert(clamp_pos(v, e) == e);
    let mid = if z == e {
        v
    } else {
        delete_lines(v, clamp_pos(v, z), clamp_pos(v, e))
    };
    if z == e {
        assert(v.len() == 1);
        assert(v[0].len() <= usize::MAX);
        assert(v[0] =~= Seq::<u8>::empty());
        assert(v =~= empty);
    } else {
        assert(v[e.line as int].skip(e.col as int) =~= Seq::<u8>::empty());
        assert(mid =~= empty);
    }
    assert(clamp_pos(mid, z) == z);
    if t.len() == 0 {
        assert(t =~= Seq::<u8>::empty());
    } else {
        lemma_split_len(t);
        let parts = split_lines(t);
        let a = parts.update(0, Seq::<u8>::empty() + parts[0]);
        assert(a =~= parts);
        assert(a.update(a.len() - 1, a.last() + Seq::<u8>::empty()) =~= parts);
        assert(insert_lines(mid, z, t) =~= parts);
        lemma_join_split(t);
    }
}

/// A buffer's text holds one newline less than the buffer has lines, and no
/// line holds a newline; every buffer meets this, since every edit keeps the
/// buffer's invariant.
pub proof fn law_line_count(v: Seq<Seq<u8>>)
    requires
        valid_lines(v),
    ensures
        v.len() >= 1,
        newline_count(join(v)) + 1 == v.len(),
        forall|i: int| 0 <= i < v.len() ==> newline_free(#[trigger] v[i]),
{
    lemma_split_join(v);
    lemma_split_count(join(v));
}

/// Inserting at a valid position and then deleting the range from that
/// position to the returned one, as `delete` does it (both ends clamped),
/// gives the lines back, when both ends are still cluster boundaries of the
/// new lines; inserting nothing changes nothing.
pub proof fn law_insert_then_delete(v: Seq<Seq<u8>>, p: Position, t: Seq<u8>)
    requires
        valid_lines(v),
        valid_pos(v, p),
        fits(insert_lines(v, p, t)),
        valid_pos(insert_lines(v, p, t), p),
        valid_pos(insert_lines(v, p, t), insert_end(p, t)),
    ensures
        clamp_pos(v, p) == p,
        pos_le(p, insert_end(p, t)),
        p == insert_end(p, t) ==> insert_lines(v, p, t) == v,
        p != insert_end(p, t) ==> delete_lines(
            insert_lines(v, p, t),
            clamp_pos(insert_lines(v, p, t), p),
            clamp_pos(insert_lines(v, p, t), insert_end(p, t)),
        ) == v,
{
    let nv = insert_lines(v, p, t);
    let q = insert_end(p, t);
    law_clamp_fixed(v, p);
    lemma_insert_end_in(v, p, t);
    law_clamp_fixed(nv, p);
    law_clamp_fixed(nv, q);
    law_insert_delete(v, p, t);
    if t.len() > 0 {
        lemma_split_len(t);
        lemma_insert_fits(v, p, t);
        lemma_join_split(t);
        if split_lines(t).len() == 1 {
            assert(split_lines(t)[0] == t);
        }
        assert(p != q);
    }
}

/// Going forward from cluster `i` while blankness is `blank` stops at the
/// first cluster from `i` on that differs, or at the end.
proof fn lemma_skip_fwd(t: Seq<u8>, b: Seq<usize>, i: int, blank: bool)
    requires
        0 <= i <= b.len(),
    ensures
        i <= skip_fwd(t, b, i, blank) <= b.len(),
        forall|k: int| i <= k < skip_fwd(t, b, i, blank) ==> blank_cluster(t, b, k) == blank,
        skip_fwd(t, b, i, blank) < b.len() ==> blank_cluster(t, b, skip_fwd(t, b, i, blank))
            != blank,
    decreases b.len() - i,
{
    if i < b.len() && blank_cluster(t, b, i) == blank {
        lemma_skip_fwd(t, b, i + 1, blank);
    }
}

/// Going back from cluster `i` while blankness is `blank` stops after the
/// last cluster before `i` that differs, or at the start.
proof fn lemma_skip_back(t: Seq<u8>, b: Seq<usize>, i: int, blank: bool)
    requires
        0 <= i <= b.len(),
    ensures
        0 <= skip_back(t, b, i, blank) <= i,
        forall|k: int| skip_back(t, b, i, blank) <= k < i ==> blank_cluster(t, b, k) == blank,
        skip_back(t, b, i, blank) > 0 ==> blank_cluster(t, b, skip_back(t, b, i, blank) - 1)
            != blank,
    decreases i,
{
    if i > 0 && blank_cluster(t, b, i - 1) == blank {
        lemma_skip_back(t, b, i - 1, blank);
    }
}

/// A word move right from a column inside a line goes forward over a run of
/// non-blank clusters (possibly none) and then over every blank cluster after
/// it, stopping at the start of the next non-blank cluster, or at the end of
/// the line when none is left.
pub proof fn law_word_right(v: Seq<Seq<u8>>, p: Position)
    requires
        valid_lines(v),
    ensures
        ({
            let q = clamp_pos(v, p);
            let line = v[q.line as int];
            let t = line.skip(q.col as int);
            let b = graphemes_of(t);
            let n = b.len() as int;
            let w = word_right_of(v, p);
            q.col < line.len() ==> exists|j: int, i: int|
                #![trigger b.subrange(j, i)]
                {
                    &&& 0 <= j <= i <= n
                    &&& b.subrange(j, i).len() == i - j
                    &&& forall|k: int| 0 <= k < j ==> !#[trigger] blank_cluster(t, b, k)
                    &&& j < n ==> blank_cluster(t, b, j)
                    &&& forall|k: int| j <= k < i ==> #[trigger] blank_cluster(t, b, k)
                    &&& i < n ==> !blank_cluster(t, b, i)
                    &&& w.line == q.line
                    &&& w.col == (q.col + (if i < n {
                        b[i] as int
                    } else {
                        t.len() as int
                    })) as usize
                }
        }),
{
    let q = clamp_pos(v, p);
    let line = v[q.line as int];
    let t = line.skip(q.col as int);
    let b = graphemes_of(t);
    let n = b.len() as int;
    if q.col < line.len() {
        lemma_skip_fwd(t, b, 0, false);
        let j = skip_fwd(t, b, 0, false);
        lemma_skip_fwd(t, b, j, true);
        let i = skip_fwd(t, b, j, true);
        assert(forall|k: int| 0 <= k < j ==> !#[trigger] blank_cluster(t, b, k));
        assert(forall|k: int| j <= k < i ==> #[trigger] blank_cluster(t, b, k));
        assert(b.subrange(j, i).len() == i - j);
    }
}

/// A word move left from a column inside a line goes back over every blank
/// cluster before it and then over the run of non-blank clusters before
/// those, stopping at the start of that run, or at the start of the line.
pub proof fn law_word_left(v: Seq<Seq<u8>>, p: Position)
    requires
        valid_lines(v),
    ensures
        ({
            let q = clamp_pos(v, p);
            let t = v[q.line as int].take(q.col as int);
            let b = graphemes_of(t);
            let n = b.len() as int;
            let w = word_left_of(v, p);
            q.col > 0 ==> exists|i: int, j: int|
                #![trigger b.subrange(i, j)]
                {
                    &&& 0 <= i <= j <= n
                    &&& b.subrange(i, j).len() == j - i
                    &&& forall|k: int| j <= k < n ==> #[trigger] blank_cluster(t, b, k)
                    &&& j > 0 ==> !blank_cluster(t, b, j - 1)
                    &&& forall|k: int| i <= k < j ==> !#[trigger] blank_cluster(t, b, k)
                    &&& i > 0 ==> blank_cluster(t, b, i - 1)
                    &&& w.line == q.line
                    &&& w.col == (if i == 0 {
                        0
                    } else {
                        b[i] as int
                    })
                }
        }),
{
    let q = clamp_pos(v, p);
    let t = v[q.line as int].take(q.col as int);
    let b = graphemes_of(t);
    let n = b.len() as int;
    if q.col > 0 {
        lemma_skip_back(t, b, n, true);
        let j = skip_back(t, b, n, true);
        lemma_skip_back(t, b, j, false);
        let i = skip_back(t, b, j, false);
        assert(forall|k: int| j <= k < n ==> #[trigger] blank_cluster(t, b, k));
        assert(forall|k: int| i <= k < j ==> !#[trigger] blank_cluster(t, b, k));
        assert(b.subrange(i, j).len() == j - i);
    }
}

} // verus!
