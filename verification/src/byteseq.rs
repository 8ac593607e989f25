//! Mathematical model of a byte document: newline positions, line
//! boundaries, and the splice operations that edits perform.
use vstd::prelude::*;

verus! {

/// The only byte treated as a line terminator.
pub const NEWLINE: u8 = 10;

/// The ascending sequence of positions `p` with `s[p] == NEWLINE`.
pub open spec fn nl_positions(s: Seq<u8>) -> Seq<int>
    decreases s.len(),
{
    if s.len() == 0 {
        Seq::empty()
    } else {
        let pre = nl_positions(s.drop_last());
        if s.last() == NEWLINE {
            pre.push(s.len() - 1)
        } else {
            pre
        }
    }
}

/// How many newline bytes `s` holds.
pub open spec fn newline_tally(s: Seq<u8>) -> int
    decreases s.len(),
{
    if s.len() == 0 {
        0
    } else {
        newline_tally(s.drop_last()) + if s.last() == NEWLINE {
            1int
        } else {
            0int
        }
    }
}

/// Number of lines of a document: one more than its newline count,
/// so an empty document still has one (empty) line.
pub open spec fn line_count(s: Seq<u8>) -> int {
    nl_positions(s).len() as int + 1
}

/// Start offset of 1-based line `k`: zero for the first line, one past
/// the `k-1`th newline otherwise.
pub open spec fn line_start(s: Seq<u8>, k: int) -> int {
    if k <= 1 {
        0
    } else {
        nl_positions(s)[k - 2] + 1
    }
}

/// End offset (exclusive) of 1-based line `k`: its terminating newline,
/// or the end of the document for the last line.
pub open spec fn line_end(s: Seq<u8>, k: int) -> int {
    if k - 1 < nl_positions(s).len() {
        nl_positions(s)[k - 1]
    } else {
        s.len() as int
    }
}

/// The bytes of 1-based line `k`, without its terminating newline.
pub open spec fn line_at(s: Seq<u8>, k: int) -> Seq<u8> {
    s.subrange(line_start(s, k), line_end(s, k))
}

/// The first newline position at or after `from`, or the length of `s`
/// when no newline follows.
pub open spec fn next_newline(s: Seq<u8>, from: int) -> int
    decreases s.len() - from,
{
    if from >= s.len() {
        s.len() as int
    } else if 0 <= from && s[from] == NEWLINE {
        from
    } else {
        next_newline(s, from + 1)
    }
}

/// The document after inserting `t` at byte offset `pos`.
pub open spec fn insert_at(s: Seq<u8>, pos: int, t: Seq<u8>) -> Seq<u8> {
    s.take(pos) + t + s.skip(pos)
}

/// The document after removing the half-open byte range `[start, end)`.
pub open spec fn remove_range(s: Seq<u8>, start: int, end: int) -> Seq<u8> {
    s.take(start) + s.skip(end)
}

/// `x`, clamped from above to `hi`.
pub open spec fn clamp_at(x: int, hi: int) -> int {
    if x > hi {
        hi
    } else {
        x
    }
}

/// The document after a delete whose bounds are first clamped to the
/// document length (and an empty or inverted range deletes nothing).
pub open spec fn delete_clamped(s: Seq<u8>, start: int, end: int) -> Seq<u8> {
    let hi = clamp_at(end, s.len() as int);
    let lo = clamp_at(start, hi);
    remove_range(s, lo, hi)
}

/// Appending one byte extends the newline position list exactly when
/// that byte is a newline.
pub proof fn lemma_nl_snoc(s: Seq<u8>, x: u8)
    ensures
        nl_positions(s.push(x)) == if x == NEWLINE {
            nl_positions(s).push(s.len() as int)
        } else {
            nl_positions(s)
        },
        newline_tally(s.push(x)) == newline_tally(s) + if x == NEWLINE {
            1int
        } else {
            0int
        },
{
    assert(s.push(x).drop_last() =~= s);
    assert(s.push(x).last() == x);
}

/// Every recorded newline position is in bounds, marks a newline byte,
/// and the list is strictly ascending.
pub proof fn lemma_nl_sound(s: Seq<u8>)
    ensures
        forall|i: int|
            0 <= i < nl_positions(s).len() ==> 0 <= #[trigger] nl_positions(s)[i] < s.len()
                && s[nl_positions(s)[i]] == NEWLINE,
        forall|i: int, j: int|
            0 <= i < j < nl_positions(s).len() ==> nl_positions(s)[i] < nl_positions(s)[j],
    decreases s.len(),
{
    if s.len() > 0 {
        let t = s.drop_last();
        let pre = nl_positions(t);
        lemma_nl_sound(t);
        assert(forall|i: int| 0 <= i < t.len() ==> #[trigger] t[i] == s[i]);
        assert forall|i: int|
            0 <= i < nl_positions(s).len() implies 0 <= #[trigger] nl_positions(s)[i] < s.len()
            && s[nl_positions(s)[i]] == NEWLINE by {
            if i < pre.len() {
                assert(nl_positions(s)[i] == pre[i]);
                assert(t[pre[i]] == s[pre[i]]);
            } else {
                assert(s.last() == NEWLINE);
                assert(nl_positions(s)[i] == s.len() - 1);
            }
        }
        assert forall|i: int, j: int|
            0 <= i < j < nl_positions(s).len() implies nl_positions(s)[i] < nl_positions(s)[j] by {
            if j < pre.len() {
                assert(nl_positions(s)[i] == pre[i] && nl_positions(s)[j] == pre[j]);
            } else {
                assert(nl_positions(s)[i] == pre[i]);
                assert(pre[i] < t.len());
            }
        }
    }
}

/// Every newline byte of `s` appears in the position list.
pub proof fn lemma_nl_complete(s: Seq<u8>)
    ensures
        forall|p: int|
            0 <= p < s.len() && s[p] == NEWLINE ==> #[trigger] nl_positions(s).contains(p),
    decreases s.len(),
{
    if s.len() > 0 {
        lemma_nl_complete(s.drop_last());
        assert forall|p: int| 0 <= p < s.len() && s[p] == NEWLINE implies #[trigger] nl_positions(
            s,
        ).contains(p) by {
            if p < s.len() - 1 {
                assert(s.drop_last()[p] == s[p]);
                assert(nl_positions(s.drop_last()).contains(p));
                let i = choose|i: int|
                    0 <= i < nl_positions(s.drop_last()).len() && nl_positions(s.drop_last())[i]
                        == p;
                assert(nl_positions(s)[i] == p);
            } else {
                assert(s.last() == NEWLINE);
                assert(nl_positions(s).last() == p);
            }
        }
    }
}

/// Newline positions of a concatenation: those of the left part,
/// then those of the right part shifted by the left part's length.
pub proof fn lemma_nl_concat(a: Seq<u8>, b: Seq<u8>)
    ensures
        nl_positions(a + b) == nl_positions(a) + nl_positions(b).map_values(
            |p: int| p + a.len(),
        ),
    decreases b.len(),
{
    let f = |p: int| p + a.len();
    if b.len() == 0 {
        assert(a + b =~= a);
        assert(nl_positions(b).map_values(f) =~= Seq::<int>::empty());
        assert(nl_positions(a) + nl_positions(b).map_values(f) =~= nl_positions(a));
    } else {
        lemma_nl_concat(a, b.drop_last());
        assert((a + b).drop_last() =~= a + b.drop_last());
        assert((a + b).last() == b.last());
        if b.last() == NEWLINE {
            lemma_nl_snoc(a + b.drop_last(), b.last());
            assert(nl_positions(b).drop_last() == nl_positions(b.drop_last()));
            assert(nl_positions(b).last() == b.len() - 1);
            assert(nl_positions(a) + nl_positions(b).map_values(f) =~= (nl_positions(a)
                + nl_positions(b.drop_last()).map_values(f)).push((a + b).len() - 1));
            assert(nl_positions(a + b) =~= (nl_positions(a) + nl_positions(
                b.drop_last(),
            ).map_values(f)).push((a + b).len() - 1));
        } else {
            lemma_nl_snoc(a + b.drop_last(), b.last());
            assert(nl_positions(b) == nl_positions(b.drop_last()));
            assert(nl_positions(a + b) == nl_positions(a) + nl_positions(
                b.drop_last(),
            ).map_values(f));
        }
    }
}

/// There are never more newline positions than bytes.
pub proof fn lemma_nl_len_le(s: Seq<u8>)
    ensures
        nl_positions(s).len() <= s.len(),
    decreases s.len(),
{
    if s.len() > 0 {
        lemma_nl_len_le(s.drop_last());
    }
}

/// `next_newline` stays in bounds, lands on a newline byte when it is
/// not the document end, and skips no newline on the way.
pub proof fn lemma_next_newline_props(s: Seq<u8>, from: int)
    requires
        0 <= from <= s.len(),
    ensures
        from <= next_newline(s, from) <= s.len(),
        next_newline(s, from) < s.len() ==> s[next_newline(s, from)] == NEWLINE,
        forall|j: int| from <= j < next_newline(s, from) ==> s[j] != NEWLINE,
    decreases s.len() - from,
{
    if from < s.len() && s[from] != NEWLINE {
        lemma_next_newline_props(s, from + 1);
    }
}

/// A position `q` that is the first newline at or after `from` (or the
/// document end, when no newline follows) is what `next_newline` finds.
pub proof fn lemma_next_newline_at(s: Seq<u8>, from: int, q: int)
    requires
        0 <= from <= q <= s.len(),
        q < s.len() ==> s[q] == NEWLINE,
        forall|j: int| from <= j < q ==> s[j] != NEWLINE,
    ensures
        next_newline(s, from) == q,
    decreases q - from,
{
    if from < q {
        lemma_next_newline_at(s, from + 1, q);
    }
}

/// A line runs from its start to the first newline at or after that
/// start; line boundaries are always within the document.
pub proof fn lemma_line_end_next(s: Seq<u8>, k: int)
    requires
        1 <= k <= line_count(s),
    ensures
        0 <= line_start(s, k) <= line_end(s, k) <= s.len(),
        line_end(s, k) == next_newline(s, line_start(s, k)),
{
    let nl = nl_positions(s);
    let ls = line_start(s, k);
    let le = line_end(s, k);
    lemma_nl_sound(s);
    lemma_nl_complete(s);
    assert(0 <= ls);
    assert(le <= s.len());
    assert(ls <= le) by {
        if k >= 2 && k - 1 < nl.len() {
            assert(nl[k - 2] < nl[k - 1]);
        }
    }
    assert forall|j: int| ls <= j < le implies s[j] != NEWLINE by {
        if s[j] == NEWLINE {
            assert(nl.contains(j));
            let i = choose|i: int| 0 <= i < nl.len() && nl[i] == j;
            if k >= 2 {
                assert(nl[k - 2] < j);
                assert(k - 2 < i) by {
                    if i <= k - 2 {
                        if i < k - 2 {
                            assert(nl[i] < nl[k - 2]);
                        }
                        assert(nl[i] <= nl[k - 2]);
                    }
                }
            }
            if k - 1 < nl.len() {
                assert(i < k - 1) by {
                    if i >= k - 1 {
                        if i > k - 1 {
                            assert(nl[k - 1] < nl[i]);
                        }
                        assert(nl[k - 1] <= nl[i]);
                    }
                }
            } else {
                assert(i <= k - 2);
            }
        }
    }
    lemma_next_newline_at(s, ls, le);
}

/// No byte of a line's content is a newline.
pub proof fn lemma_line_no_newline(s: Seq<u8>, k: int)
    requires
        1 <= k <= line_count(s),
    ensures
        forall|i: int| 0 <= i < line_at(s, k).len() ==> line_at(s, k)[i] != NEWLINE,
{
    let ls = line_start(s, k);
    lemma_line_end_next(s, k);
    lemma_next_newline_props(s, ls);
    assert forall|i: int| 0 <= i < line_at(s, k).len() implies line_at(s, k)[i] != NEWLINE by {
        assert(line_at(s, k)[i] == s[ls + i]);
    }
}

/// The first `k` lines of `s`, joined by single newline bytes.
pub open spec fn join_lines_upto(s: Seq<u8>, k: int) -> Seq<u8>
    decreases k,
{
    if k <= 1 {
        line_at(s, 1)
    } else {
        join_lines_upto(s, k - 1) + seq![NEWLINE] + line_at(s, k)
    }
}

/// Joining the first `k` lines with newlines reproduces the document
/// up to the end of line `k`.
pub proof fn lemma_join_prefix(s: Seq<u8>, k: int)
    requires
        1 <= k <= line_count(s),
    ensures
        join_lines_upto(s, k) == s.take(line_end(s, k)),
    decreases k,
{
    let nl = nl_positions(s);
    lemma_nl_sound(s);
    if k == 1 {
        lemma_line_end_next(s, 1);
        assert(line_at(s, 1) =~= s.take(line_end(s, 1)));
    } else {
        lemma_join_prefix(s, k - 1);
        lemma_line_end_next(s, k);
        assert(line_end(s, k - 1) == nl[k - 2]);
        assert(s[nl[k - 2]] == NEWLINE);
        assert(s.take(nl[k - 2]) + seq![NEWLINE] + s.subrange(nl[k - 2] + 1, line_end(s, k))
            =~= s.take(line_end(s, k)));
    }
}

/// Taking or skipping a three-part concatenation at a point inside the
/// middle part splits the middle part there.
pub proof fn lemma_concat3_parts(x: Seq<u8>, y: Seq<u8>, z: Seq<u8>, k: int)
    requires
        0 <= k <= y.len(),
    ensures
        (x + y + z).take(x.len() as int + k) == x + y.take(k),
        (x + y + z).skip(x.len() as int + k) == y.skip(k) + z,
{
    assert((x + y + z).take(x.len() as int + k) =~= x + y.take(k));
    assert((x + y + z).skip(x.len() as int + k) =~= y.skip(k) + z);
}

/// The newline position list and the newline tally agree in length.
pub proof fn lemma_tally_is_positions(s: Seq<u8>)
    ensures
        newline_tally(s) == nl_positions(s).len(),
    decreases s.len(),
{
    if s.len() > 0 {
        lemma_tally_is_positions(s.drop_last());
    }
}

} // verus!
