//! The line model of a text: a text is a byte sequence, and its lines are the
//! pieces between newline bytes. `join` and `split_lines` convert between the
//! two, and the lemmas here relate edits on lines to edits on the text.

use vstd::prelude::*;

verus! {

/// The newline byte.
pub open spec fn nl() -> u8 {
    10u8
}

/// True when `s` holds no newline byte.
pub open spec fn newline_free(s: Seq<u8>) -> bool {
    forall|i: int| 0 <= i < s.len() ==> #[trigger] s[i] != nl()
}

pub proof fn lemma_newline_free_concat(a: Seq<u8>, b: Seq<u8>)
    requires
        newline_free(a),
        newline_free(b),
    ensures
        newline_free(a + b),
{
    assert forall|i: int| 0 <= i < (a + b).len() implies (a + b)[i] != nl() by {
        if i < a.len() {
            assert((a + b)[i] == a[i]);
        } else {
            assert((a + b)[i] == b[i - a.len()]);
        }
    }
}

pub proof fn lemma_newline_free_subrange(a: Seq<u8>, i: int, j: int)
    requires
        newline_free(a),
        0 <= i <= j <= a.len(),
    ensures
        newline_free(a.subrange(i, j)),
{
    assert forall|k: int| 0 <= k < j - i implies a.subrange(i, j)[k] != nl() by {
        assert(a.subrange(i, j)[k] == a[i + k]);
    }
}

/// The lines of `v` joined by newline bytes.
pub open spec fn join(v: Seq<Seq<u8>>) -> Seq<u8>
    decreases v.len(),
{
    if v.len() == 0 {
        seq![]
    } else if v.len() == 1 {
        v[0]
    } else {
        join(v.drop_last()) + seq![nl()] + v.last()
    }
}

/// The text `t` cut at every newline byte; a text without newline is one line,
/// and the empty text is one empty line.
pub open spec fn split_lines(t: Seq<u8>) -> Seq<Seq<u8>>
    decreases t.len(),
{
    if t.len() == 0 {
        seq![Seq::<u8>::empty()]
    } else {
        let r = split_lines(t.drop_last());
        if t.last() == nl() {
            r.push(Seq::<u8>::empty())
        } else {
            r.update(r.len() - 1, r.last().push(t.last()))
        }
    }
}

/// The text that stands before a line preceded by the lines `a`.
pub open spec fn lead(a: Seq<Seq<u8>>) -> Seq<u8> {
    if a.len() == 0 {
        seq![]
    } else {
        join(a) + seq![nl()]
    }
}

/// The text that stands after a line followed by the lines `b`.
pub open spec fn trail(b: Seq<Seq<u8>>) -> Seq<u8> {
    if b.len() == 0 {
        seq![]
    } else {
        seq![nl()] + join(b)
    }
}

/// The lines `parts` with `pre` put before the first and `post` after the last.
pub open spec fn splice(pre: Seq<u8>, parts: Seq<Seq<u8>>, post: Seq<u8>) -> Seq<Seq<u8>> {
    let a = parts.update(0, pre + parts[0]);
    a.update(a.len() - 1, a.last() + post)
}

pub proof fn lemma_split_len(t: Seq<u8>)
    ensures
        split_lines(t).len() >= 1,
    decreases t.len(),
{
    if t.len() > 0 {
        lemma_split_len(t.drop_last());
    }
}

pub proof fn lemma_split_len_bound(t: Seq<u8>)
    ensures
        split_lines(t).len() <= t.len() + 1,
    decreases t.len(),
{
    if t.len() > 0 {
        lemma_split_len_bound(t.drop_last());
        lemma_split_len(t.drop_last());
    }
}

pub proof fn lemma_join_push(v: Seq<Seq<u8>>, x: Seq<u8>)
    requires
        v.len() >= 1,
    ensures
        join(v.push(x)) == join(v) + seq![nl()] + x,
{
    assert(v.push(x).drop_last() =~= v);
}

pub proof fn lemma_join_concat(a: Seq<Seq<u8>>, b: Seq<Seq<u8>>)
    requires
        a.len() >= 1,
        b.len() >= 1,
    ensures
        join(a + b) == join(a) + seq![nl()] + join(b),
    decreases b.len(),
{
    if b.len() == 1 {
        assert(a + b =~= a.push(b[0]));
        lemma_join_push(a, b[0]);
    } else {
        let b1 = b.drop_last();
        lemma_join_concat(a, b1);
        assert(a + b =~= (a + b1).push(b.last()));
        lemma_join_push(a + b1, b.last());
        assert(b =~= b1.push(b.last()));
        lemma_join_push(b1, b.last());
        assert(join(a + b) =~= join(a) + seq![nl()] + join(b));
    }
}

/// Joining a sequence of lines with one part in the middle.
pub proof fn lemma_join_middle(a: Seq<Seq<u8>>, s: Seq<Seq<u8>>, b: Seq<Seq<u8>>)
    requires
        s.len() >= 1,
    ensures
        join(a + s + b) == lead(a) + join(s) + trail(b),
{
    if a.len() == 0 {
        assert(a + s =~= s);
        if b.len() == 0 {
            assert(s + b =~= s);
            assert(lead(a) + join(s) + trail(b) =~= join(s));
        } else {
            lemma_join_concat(s, b);
            assert(lead(a) + join(s) + trail(b) =~= join(s) + seq![nl()] + join(b));
        }
    } else {
        lemma_join_concat(a, s);
        if b.len() == 0 {
            assert(a + s + b =~= a + s);
            assert(lead(a) + join(s) + trail(b) =~= join(a) + seq![nl()] + join(s));
        } else {
            lemma_join_concat(a + s, b);
            assert(lead(a) + join(s) + trail(b) =~= join(a) + seq![nl()] + join(s) + seq![nl()]
                + join(b));
        }
    }
}

pub proof fn lemma_join_extend_last(v: Seq<Seq<u8>>, x: Seq<u8>)
    requires
        v.len() >= 1,
    ensures
        join(v.update(v.len() - 1, v.last() + x)) == join(v) + x,
{
    let w = v.update(v.len() - 1, v.last() + x);
    if v.len() == 1 {
        assert(join(w) == w[0]);
    } else {
        assert(w.drop_last() =~= v.drop_last());
        assert(join(w) == join(w.drop_last()) + seq![nl()] + w.last());
        assert(join(w) =~= join(v) + x);
    }
}

/// Splitting a text at its newlines and joining the lines again gives it back.
pub proof fn lemma_join_split(t: Seq<u8>)
    ensures
        join(split_lines(t)) == t,
    decreases t.len(),
{
    if t.len() == 0 {
        assert(join(split_lines(t)) =~= t);
    } else {
        let r = split_lines(t.drop_last());
        lemma_split_len(t.drop_last());
        lemma_join_split(t.drop_last());
        if t.last() == nl() {
            lemma_join_push(r, Seq::<u8>::empty());
            assert(t =~= t.drop_last() + seq![nl()] + Seq::<u8>::empty());
        } else {
            lemma_join_extend_last(r, seq![t.last()]);
            assert(r.last().push(t.last()) =~= r.last() + seq![t.last()]);
            assert(t =~= t.drop_last() + seq![t.last()]);
        }
    }
}

pub proof fn lemma_split_newline_free(t: Seq<u8>)
    requires
        newline_free(t),
    ensures
        split_lines(t) == seq![t],
    decreases t.len(),
{
    if t.len() == 0 {
        assert(t =~= Seq::<u8>::empty());
        assert(split_lines(t) =~= seq![t]);
    } else {
        let u = t.drop_last();
        assert(newline_free(u)) by {
            assert forall|i: int| 0 <= i < u.len() implies u[i] != nl() by {
                assert(u[i] == t[i]);
            }
        }
        lemma_split_newline_free(u);
        assert(t.last() == t[t.len() - 1]);
        assert(u.push(t.last()) =~= t);
        assert(split_lines(t) =~= seq![t]);
    }
}

/// A newline in the middle of a text separates the lines before it from the lines after it.
pub proof fn lemma_split_concat(x: Seq<u8>, y: Seq<u8>)
    ensures
        split_lines(x + seq![nl()] + y) == split_lines(x) + split_lines(y),
    decreases y.len(),
{
    let t = x + seq![nl()] + y;
    if y.len() == 0 {
        assert(t.drop_last() =~= x);
        assert(t.last() == nl());
        assert(split_lines(t) =~= split_lines(x) + split_lines(y));
    } else {
        lemma_split_concat(x, y.drop_last());
        assert(t.drop_last() =~= x + seq![nl()] + y.drop_last());
        assert(t.last() == y.last());
        lemma_split_len(x);
        lemma_split_len(y.drop_last());
        let sx = split_lines(x);
        let sy = split_lines(y.drop_last());
        if y.last() == nl() {
            assert(split_lines(t) =~= split_lines(x) + split_lines(y));
        } else {
            assert((sx + sy).update((sx + sy).len() - 1, (sx + sy).last().push(y.last())) =~= sx
                + sy.update(sy.len() - 1, sy.last().push(y.last())));
            assert(split_lines(t) =~= split_lines(x) + split_lines(y));
        }
    }
}

/// Joining newline-free lines and splitting the text again gives the lines back.
pub proof fn lemma_split_join(v: Seq<Seq<u8>>)
    requires
        v.len() >= 1,
        forall|i: int| 0 <= i < v.len() ==> newline_free(#[trigger] v[i]),
    ensures
        split_lines(join(v)) == v,
    decreases v.len(),
{
    if v.len() == 1 {
        lemma_split_newline_free(v[0]);
        assert(split_lines(join(v)) =~= v);
    } else {
        let u = v.drop_last();
        assert forall|i: int| 0 <= i < u.len() implies newline_free(#[trigger] u[i]) by {
            assert(u[i] == v[i]);
        }
        lemma_split_join(u);
        lemma_split_concat(join(u), v.last());
        lemma_split_newline_free(v.last());
        assert(split_lines(join(v)) =~= v);
    }
}

/// No line of a split text holds a newline.
pub proof fn lemma_split_lines_newline_free(t: Seq<u8>)
    ensures
        forall|i: int|
            0 <= i < split_lines(t).len() ==> newline_free(#[trigger] split_lines(t)[i]),
    decreases t.len(),
{
    if t.len() > 0 {
        lemma_split_lines_newline_free(t.drop_last());
        lemma_split_len(t.drop_last());
        let r = split_lines(t.drop_last());
        if t.last() != nl() {
            let l = r.last().push(t.last());
            assert(newline_free(r[r.len() - 1]));
            assert(newline_free(l)) by {
                assert forall|k: int| 0 <= k < l.len() implies l[k] != nl() by {
                    if k < l.len() - 1 {
                        assert(l[k] == r[r.len() - 1][k]);
                    }
                }
            }
            assert forall|i: int|
                0 <= i < split_lines(t).len() implies newline_free(#[trigger] split_lines(t)[i]) by {
                if i < r.len() - 1 {
                    assert(split_lines(t)[i] == r[i]);
                }
            }
        } else {
            assert forall|i: int|
                0 <= i < split_lines(t).len() implies newline_free(#[trigger] split_lines(t)[i]) by {
                if i < r.len() {
                    assert(split_lines(t)[i] == r[i]);
                } else {
                    assert(split_lines(t)[i] =~= Seq::<u8>::empty());
                }
            }
        }
    }
}

/// Joining spliced lines puts `pre` and `post` around the joined parts.
pub proof fn lemma_join_splice(pre: Seq<u8>, parts: Seq<Seq<u8>>, post: Seq<u8>)
    requires
        parts.len() >= 1,
    ensures
        join(splice(pre, parts, post)) == pre + join(parts) + post,
{
    let a = parts.update(0, pre + parts[0]);
    if parts.len() == 1 {
        assert(join(splice(pre, parts, post)) =~= pre + join(parts) + post);
    } else {
        let rest = parts.subrange(1, parts.len() as int);
        assert(parts =~= seq![parts[0]] + rest);
        lemma_join_concat(seq![parts[0]], rest);
        assert(a =~= seq![pre + parts[0]] + rest);
        lemma_join_concat(seq![pre + parts[0]], rest);
        lemma_join_extend_last(a, post);
        assert(join(a) =~= pre + join(parts));
    }
}

/// The number of newline bytes in `t`.
pub open spec fn newline_count(t: Seq<u8>) -> nat
    decreases t.len(),
{
    if t.len() == 0 {
        0
    } else if t.last() == nl() {
        newline_count(t.drop_last()) + 1
    } else {
        newline_count(t.drop_last())
    }
}

/// A text splits into one line more than it holds newlines.
pub proof fn lemma_split_count(t: Seq<u8>)
    ensures
        split_lines(t).len() == newline_count(t) + 1,
    decreases t.len(),
{
    if t.len() > 0 {
        lemma_split_count(t.drop_last());
        lemma_split_len(t.drop_last());
    }
}

} // verus!
