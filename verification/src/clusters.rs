//! Walking the grapheme cluster start offsets of a text: the start before or
//! after an offset, snapping an offset to the nearest cluster boundary, and
//! how many bytes of a text fit under a cluster limit. Each function takes the
//! offsets as an argument, so it works on any offsets it is given.

use vstd::prelude::*;

verus! {

/// The last offset in `b` below `off`, or 0 when there is none.
pub open spec fn last_below(b: Seq<usize>, off: int) -> int
    decreases b.len(),
{
    if b.len() == 0 {
        0
    } else if b.last() < off {
        b.last() as int
    } else {
        last_below(b.drop_last(), off)
    }
}

/// The first offset in `b` above `off`, or `len` when there is none.
pub open spec fn first_above(b: Seq<usize>, off: int, len: int) -> int
    decreases b.len(),
{
    if b.len() == 0 {
        len
    } else if b[0] > off {
        b[0] as int
    } else {
        first_above(b.drop_first(), off, len)
    }
}

/// Offset `off` of a text of `len` bytes with cluster starts `b`, snapped to
/// the nearest cluster boundary: an offset at or past the end goes to the end,
/// a cluster start stays, and an offset inside a cluster goes to the nearer of
/// the cluster's start and the next boundary (the next cluster start, or the
/// end), the start when both are as near.
pub open spec fn snap_in(b: Seq<usize>, len: int, off: int) -> int {
    if off <= 0 {
        0
    } else if off >= len {
        len
    } else if b.contains(off as usize) {
        off
    } else {
        let lo = last_below(b, off);
        let hi = first_above(b, off, len);
        if off - lo <= hi - off {
            lo
        } else {
            hi
        }
    }
}

/// The number of bytes of a text of `len` bytes with cluster starts `b` that
/// fit when `existing` clusters stay and at most `max` are allowed: none when
/// the existing ones reach the limit; otherwise the clusters up to the number
/// still allowed, or the whole text.
pub open spec fn allowed_len(existing: int, max: int, b: Seq<usize>, len: int) -> int {
    if existing >= max {
        0
    } else if max - existing < b.len() {
        b[max - existing] as int
    } else {
        len
    }
}

/// The last offset below `off` is 0 or one of the offsets, and below `off`
/// when `off` is positive.
pub proof fn lemma_last_below_bounds(b: Seq<usize>, off: int)
    ensures
        last_below(b, off) == 0 || b.contains(last_below(b, off) as usize),
        0 <= last_below(b, off),
        off > 0 ==> last_below(b, off) < off,
    decreases b.len(),
{
    if b.len() > 0 {
        assert(b[b.len() - 1] == b.last());
        if b.last() >= off {
            lemma_last_below_bounds(b.drop_last(), off);
            let r = last_below(b.drop_last(), off);
            if r != 0 {
                let k = choose|k: int| 0 <= k < b.drop_last().len() && b.drop_last()[k] == r as usize;
                assert(b[k] == r as usize);
            }
        }
    }
}

/// The first offset above `off` is `len` or one of the offsets, and above
/// `off` when `off` is below `len`.
pub proof fn lemma_first_above_bounds(b: Seq<usize>, off: int, len: int)
    ensures
        first_above(b, off, len) == len || b.contains(first_above(b, off, len) as usize),
        off < len ==> off < first_above(b, off, len),
        0 <= len ==> 0 <= first_above(b, off, len),
        first_above(b, off, len) != len ==> 0 <= first_above(b, off, len) <= usize::MAX,
    decreases b.len(),
{
    if b.len() > 0 {
        assert(b[0] == b.first());
        if b[0] <= off {
            lemma_first_above_bounds(b.drop_first(), off, len);
            let r = first_above(b.drop_first(), off, len);
            if r != len {
                let k = choose|k: int| 0 <= k < b.drop_first().len() && b.drop_first()[k] == r as usize;
                assert(b[k + 1] == r as usize);
            }
        }
    }
}

/// The last cluster start below `off`, or 0.
pub fn start_before(b: &[usize], off: usize) -> (res: usize)
    ensures
        res == last_below(b@, off as int),
{
    let mut i = b.len();
    assert(b@.take(b@.len() as int) =~= b@);
    while i > 0
        invariant
            i <= b@.len(),
            last_below(b@, off as int) == last_below(b@.take(i as int), off as int),
        decreases i,
    {
        proof {
            assert(b@.take(i as int).drop_last() =~= b@.take(i - 1));
            assert(b@.take(i as int).last() == b@[i - 1]);
        }
        if b[i - 1] < off {
            return b[i - 1];
        }
        i = i - 1;
    }
    0
}

/// The first cluster start above `off`, or `len`.
pub fn start_after(b: &[usize], off: usize, len: usize) -> (res: usize)
    ensures
        res == first_above(b@, off as int, len as int),
{
    let mut i: usize = 0;
    assert(b@.skip(0) =~= b@);
    while i < b.len()
        invariant
            i <= b@.len(),
            first_above(b@, off as int, len as int) == first_above(
                b@.skip(i as int),
                off as int,
                len as int,
            ),
        decreases b.len() - i,
    {
        proof {
            assert(b@.skip(i as int).drop_first() =~= b@.skip(i + 1));
            assert(b@.skip(i as int)[0] == b@[i as int]);
        }
        if b[i] > off {
            return b[i];
        }
        i = i + 1;
    }
    assert(b@.skip(i as int) =~= Seq::<usize>::empty());
    len
}

/// Byte offset `off` snapped to the nearest cluster boundary of a text of
/// `len` bytes with cluster starts `b` (see `snap_in`).
pub fn snap_offset(b: &[usize], len: usize, off: usize) -> (res: usize)
    ensures
        res == snap_in(b@, len as int, off as int),
{
    if off == 0 {
        return 0;
    }
    if off >= len {
        return len;
    }
    let mut i: usize = 0;
    while i < b.len() && b[i] != off
        invariant
            i <= b@.len(),
            forall|k: int| 0 <= k < i ==> b@[k] != off,
        decreases b.len() - i,
    {
        i = i + 1;
    }
    if i < b.len() {
        assert(b@.contains(off));
        return off;
    }
    assert(!b@.contains(off)) by {
        if b@.contains(off) {
            let k = choose|k: int| 0 <= k < b@.len() && b@[k] == off;
        }
    }
    let lo = start_before(b, off);
    let hi = start_after(b, off, len);
    proof {
        lemma_last_below_bounds(b@, off as int);
        lemma_first_above_bounds(b@, off as int, len as int);
    }
    if off - lo <= hi - off {
        lo
    } else {
        hi
    }
}

/// The number of bytes of a text of `len` bytes with cluster starts `b` that
/// fit under the limit (see `allowed_len`); `existing` may have saturated.
pub fn allowed_bytes(existing: usize, max: usize, b: &[usize], len: usize) -> (res: usize)
    ensures
        res == allowed_len(existing as int, max as int, b@, len as int),
{
    if existing >= max {
        0
    } else if max - existing < b.len() {
        b[max - existing]
    } else {
        len
    }
}

/// The offsets rise strictly.
pub open spec fn rising(b: Seq<usize>) -> bool {
    forall|i: int, j: int| 0 <= i < j < b.len() ==> b[i] < b[j]
}

/// In rising offsets, the first one above `off` is the one at index `i`
/// when those before it are at most `off` and it is above (or `len` when `i`
/// is past the end).
pub proof fn lemma_first_above_at(b: Seq<usize>, i: int, off: int, len: int)
    requires
        rising(b),
        0 <= i <= b.len(),
        forall|k: int| 0 <= k < i ==> b[k] <= off,
        i < b.len() ==> b[i] > off,
    ensures
        first_above(b, off, len) == (if i < b.len() {
            b[i] as int
        } else {
            len
        }),
    decreases i,
{
    if i > 0 {
        let d = b.drop_first();
        assert(b[0] <= off);
        assert forall|k: int| 0 <= k < i - 1 implies d[k] <= off by {
            assert(d[k] == b[k + 1]);
        }
        if i < b.len() {
            assert(d[i - 1] == b[i]);
        }
        lemma_first_above_at(d, i - 1, off, len);
    }
}

/// In rising offsets, the last one below `off` is the one at index `i` when
/// it is below `off` and the next one (if any) is not.
pub proof fn lemma_last_below_at(b: Seq<usize>, i: int, off: int)
    requires
        rising(b),
        0 <= i < b.len(),
        b[i] < off,
        i + 1 < b.len() ==> b[i + 1] >= off,
    ensures
        last_below(b, off) == b[i] as int,
    decreases b.len(),
{
    if i + 1 < b.len() {
        assert(b.last() >= off) by {
            if b.len() - 1 > i + 1 {
                assert(b[i + 1] < b[b.len() - 1]);
            }
        }
        let d = b.drop_last();
        assert(d[i] == b[i]);
        if i + 1 < d.len() {
            assert(d[i + 1] == b[i + 1]);
        }
        lemma_last_below_at(d, i, off);
    }
}

} // verus!
