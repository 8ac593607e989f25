//! The piece table: an ordered sequence of spans into two append-only
//! byte buffers. The logical document is the concatenation of the
//! spans' bytes; every operation is specified against that view.
use vstd::prelude::*;

use crate::byteseq::delete_clamped;
use crate::byteseq::insert_at;
use crate::byteseq::lemma_concat3_parts;
use crate::byteseq::lemma_line_end_next;
use crate::byteseq::lemma_next_newline_at;
use crate::byteseq::lemma_nl_complete;
use crate::byteseq::lemma_nl_concat;
use crate::byteseq::lemma_nl_len_le;
use crate::byteseq::lemma_nl_snoc;
use crate::byteseq::lemma_nl_sound;
use crate::byteseq::line_at;
use crate::byteseq::line_count;
use crate::byteseq::line_start;
use crate::byteseq::next_newline;
use crate::byteseq::nl_positions;
use crate::byteseq::NEWLINE;

verus! {

/// Which of the two byte buffers a span points into.
#[derive(Clone, Copy, PartialEq, Eq, Structural, Debug)]
pub enum BufferType {
    Original,
    Add,
}

/// Raised when an edit names a position beyond the document.
#[derive(Clone, Copy, PartialEq, Eq, Structural, Debug)]
pub enum BufferError {
    OutOfRange,
}

/// One entry of the piece table: a contiguous run of `len` bytes
/// starting at `start` in the named buffer, with the positions of its
/// newline bytes (relative to the span start) precomputed in `lines`.
#[derive(Debug)]
pub struct Span {
    pub buffer: BufferType,
    pub start: usize,
    pub end: usize,
    pub len: usize,
    pub lines: Vec<usize>,
}

/// A half-open byte range of the logical document.
#[derive(Clone, Copy, PartialEq, Eq, Structural, Debug)]
pub struct DocumentSpan {
    pub start: usize,
    pub end: usize,
}

/// A located span: its index in the table, a copy of the span, and the
/// document range its bytes occupy.
#[derive(Debug)]
pub struct DocumentPiece {
    pub index: usize,
    pub span: Span,
    pub doc: DocumentSpan,
}

/// The piece table itself. `original` holds the bytes supplied at
/// construction and never changes; `add` receives every inserted byte
/// and only grows; `table` orders the spans that make up the document.
#[derive(Debug)]
pub struct TextBuffer {
    pub original: Vec<u8>,
    pub add: Vec<u8>,
    pub table: Vec<Span>,
}

/// The contents of the buffer a span's tag names.
pub open spec fn buf_seq(orig: Seq<u8>, add: Seq<u8>, t: BufferType) -> Seq<u8> {
    match t {
        BufferType::Original => orig,
        BufferType::Add => add,
    }
}

/// The bytes a span describes.
pub open spec fn span_bytes(orig: Seq<u8>, add: Seq<u8>, s: Span) -> Seq<u8> {
    buf_seq(orig, add, s.buffer).subrange(s.start as int, s.end as int)
}

/// A well-formed span: non-empty, within its buffer, with a newline
/// cache that lists exactly the newline positions of its bytes.
pub open spec fn span_wf(orig: Seq<u8>, add: Seq<u8>, s: Span) -> bool {
    &&& s.len > 0
    &&& s.end == s.start + s.len
    &&& s.end <= buf_seq(orig, add, s.buffer).len()
    &&& s.lines@.map_values(|p: usize| p as int) == nl_positions(span_bytes(orig, add, s))
}

/// The concatenation, in order, of the bytes of a sequence of spans.
pub open spec fn spans_bytes(orig: Seq<u8>, add: Seq<u8>, spans: Seq<Span>) -> Seq<u8>
    decreases spans.len(),
{
    if spans.len() == 0 {
        Seq::empty()
    } else {
        span_bytes(orig, add, spans[0]) + spans_bytes(orig, add, spans.skip(1))
    }
}

/// Concatenating two span sequences concatenates their bytes.
pub proof fn lemma_spans_bytes_concat(orig: Seq<u8>, add: Seq<u8>, s1: Seq<Span>, s2: Seq<Span>)
    ensures
        spans_bytes(orig, add, s1 + s2) == spans_bytes(orig, add, s1) + spans_bytes(
            orig,
            add,
            s2,
        ),
    decreases s1.len(),
{
    if s1.len() == 0 {
        assert(s1 + s2 =~= s2);
        assert(spans_bytes(orig, add, s1) + spans_bytes(orig, add, s2) =~= spans_bytes(
            orig,
            add,
            s2,
        ));
    } else {
        assert((s1 + s2).skip(1) =~= s1.skip(1) + s2);
        assert((s1 + s2)[0] == s1[0]);
        lemma_spans_bytes_concat(orig, add, s1.skip(1), s2);
        assert(span_bytes(orig, add, s1[0]) + (spans_bytes(orig, add, s1.skip(1)) + spans_bytes(
            orig,
            add,
            s2,
        )) =~= (span_bytes(orig, add, s1[0]) + spans_bytes(orig, add, s1.skip(1))) + spans_bytes(
            orig,
            add,
            s2,
        ));
    }
}

/// The bytes of a single span, as a one-element table.
pub proof fn lemma_spans_bytes_singleton(orig: Seq<u8>, add: Seq<u8>, s: Span)
    ensures
        spans_bytes(orig, add, seq![s]) == span_bytes(orig, add, s),
{
    assert(seq![s].len() == 1);
    assert(seq![s][0] == s);
    assert(seq![s].skip(1) =~= Seq::<Span>::empty());
    assert(spans_bytes(orig, add, Seq::<Span>::empty()) == Seq::<u8>::empty());
    assert(span_bytes(orig, add, s) + Seq::<u8>::empty() =~= span_bytes(orig, add, s));
}

/// A table's bytes split at any index into prefix and suffix bytes.
pub proof fn lemma_spans_split_at(orig: Seq<u8>, add: Seq<u8>, spans: Seq<Span>, i: int)
    requires
        0 <= i <= spans.len(),
    ensures
        spans_bytes(orig, add, spans) == spans_bytes(orig, add, spans.take(i)) + spans_bytes(
            orig,
            add,
            spans.skip(i),
        ),
{
    assert(spans.take(i) + spans.skip(i) =~= spans);
    lemma_spans_bytes_concat(orig, add, spans.take(i), spans.skip(i));
}

/// Extending a prefix of the table by one span appends that span's bytes.
pub proof fn lemma_prefix_snoc(orig: Seq<u8>, add: Seq<u8>, spans: Seq<Span>, i: int)
    requires
        0 <= i < spans.len(),
    ensures
        spans_bytes(orig, add, spans.take(i + 1)) == spans_bytes(orig, add, spans.take(i))
            + span_bytes(orig, add, spans[i]),
{
    assert(spans.take(i + 1) =~= spans.take(i) + seq![spans[i]]);
    lemma_spans_bytes_concat(orig, add, spans.take(i), seq![spans[i]]);
    lemma_spans_bytes_singleton(orig, add, spans[i]);
}

/// Growing the `add` buffer changes no existing span's bytes and keeps
/// every well-formed span well-formed.
pub proof fn lemma_span_bytes_grow(orig: Seq<u8>, add: Seq<u8>, add2: Seq<u8>, s: Span)
    requires
        span_wf(orig, add, s),
        add.len() <= add2.len(),
        add2.subrange(0, add.len() as int) == add,
    ensures
        span_bytes(orig, add2, s) == span_bytes(orig, add, s),
        span_wf(orig, add2, s),
{
    match s.buffer {
        BufferType::Original => {},
        BufferType::Add => {
            assert(add2.subrange(s.start as int, s.end as int) =~= add.subrange(
                s.start as int,
                s.end as int,
            )) by {
                assert(forall|k: int|
                    0 <= k < add.len() ==> #[trigger] add2[k] == add.subrange(
                        0,
                        add.len() as int,
                    )[k]);
            }
        },
    }
}

/// Growing the `add` buffer preserves the bytes of a whole table of
/// well-formed spans.
pub proof fn lemma_spans_bytes_grow(orig: Seq<u8>, add: Seq<u8>, add2: Seq<u8>, spans: Seq<Span>)
    requires
        forall|i: int| 0 <= i < spans.len() ==> span_wf(orig, add, #[trigger] spans[i]),
        add.len() <= add2.len(),
        add2.subrange(0, add.len() as int) == add,
    ensures
        spans_bytes(orig, add2, spans) == spans_bytes(orig, add, spans),
        forall|i: int| 0 <= i < spans.len() ==> span_wf(orig, add2, #[trigger] spans[i]),
    decreases spans.len(),
{
    assert forall|i: int| 0 <= i < spans.len() implies span_wf(orig, add2, #[trigger] spans[i])
        && span_bytes(orig, add2, spans[i]) == span_bytes(orig, add, spans[i]) by {
        lemma_span_bytes_grow(orig, add, add2, spans[i]);
    }
    if spans.len() > 0 {
        assert(forall|i: int|
            0 <= i < spans.skip(1).len() ==> #[trigger] spans.skip(1)[i] == spans[i + 1]);
        lemma_spans_bytes_grow(orig, add, add2, spans.skip(1));
    }
}

/// The bytes of a table assembled from three runs of spans.
pub proof fn lemma_table_splice(
    orig: Seq<u8>,
    add: Seq<u8>,
    pre: Seq<Span>,
    mid: Seq<Span>,
    suf: Seq<Span>,
)
    ensures
        spans_bytes(orig, add, pre + mid + suf) == spans_bytes(orig, add, pre) + spans_bytes(
            orig,
            add,
            mid,
        ) + spans_bytes(orig, add, suf),
{
    lemma_spans_bytes_concat(orig, add, pre + mid, suf);
    lemma_spans_bytes_concat(orig, add, pre, mid);
}

/// A middle insert replaces the span at `ii` by a run `mid` whose
/// bytes are the split span's bytes around the inserted text; the
/// resulting table spells the old document with the text spliced in,
/// and stays well-formed.
/// Every span of a table assembled from a prefix of `t`, a run `mid`,
/// and a suffix of `t` is well-formed when those of `t` and `mid` are.
proof fn lemma_splice_wf(o: Seq<u8>, a: Seq<u8>, t: Seq<Span>, ii: int, mid: Seq<Span>)
    requires
        0 <= ii < t.len(),
        forall|j: int| 0 <= j < t.len() ==> span_wf(o, a, #[trigger] t[j]),
        forall|j: int| 0 <= j < mid.len() ==> span_wf(o, a, #[trigger] mid[j]),
    ensures
        forall|j: int|
            0 <= j < (t.take(ii) + mid + t.skip(ii + 1)).len() ==> span_wf(
                o,
                a,
                #[trigger] (t.take(ii) + mid + t.skip(ii + 1))[j],
            ),
{
    let whole = t.take(ii) + mid + t.skip(ii + 1);
    assert forall|j: int| 0 <= j < whole.len() implies span_wf(o, a, #[trigger] whole[j]) by {
        if j < ii {
            assert(whole[j] == t[j]);
        } else if j < ii + mid.len() {
            assert(whole[j] == mid[j - ii]);
        } else {
            assert(whole[j] == t[j - mid.len() + 1]);
        }
    }
}

#[verifier::rlimit(100)]
proof fn lemma_insert_splice(
    o: Seq<u8>,
    a: Seq<u8>,
    t: Seq<Span>,
    ii: int,
    mid: Seq<Span>,
    left_len: int,
    txt: Seq<u8>,
)
    requires
        0 <= ii < t.len(),
        forall|j: int| 0 <= j < t.len() ==> span_wf(o, a, #[trigger] t[j]),
        forall|j: int| 0 <= j < mid.len() ==> span_wf(o, a, #[trigger] mid[j]),
        0 <= left_len <= span_bytes(o, a, t[ii]).len(),
        spans_bytes(o, a, mid) == span_bytes(o, a, t[ii]).take(left_len) + txt + span_bytes(
            o,
            a,
            t[ii],
        ).skip(left_len),
    ensures
        spans_bytes(o, a, t.take(ii) + mid + t.skip(ii + 1)) == insert_at(
            spans_bytes(o, a, t),
            spans_bytes(o, a, t.take(ii)).len() as int + left_len,
            txt,
        ),
        forall|j: int|
            0 <= j < (t.take(ii) + mid + t.skip(ii + 1)).len() ==> span_wf(
                o,
                a,
                #[trigger] (t.take(ii) + mid + t.skip(ii + 1))[j],
            ),
{
    let m = span_bytes(o, a, t[ii]);
    let pre = spans_bytes(o, a, t.take(ii));
    let suf = spans_bytes(o, a, t.skip(ii + 1));
    lemma_table_splice(o, a, t.take(ii), mid, t.skip(ii + 1));
    lemma_spans_split_at(o, a, t, ii);
    assert(t.skip(ii)[0] == t[ii]);
    assert(t.skip(ii).skip(1) =~= t.skip(ii + 1));
    assert(spans_bytes(o, a, t.skip(ii)) == m + suf);
    assert(spans_bytes(o, a, t) == pre + (m + suf));
    assert(pre + (m + suf) =~= pre + m + suf);
    lemma_concat3_parts(pre, m, suf, left_len);
    assert(spans_bytes(o, a, t.take(ii) + mid + t.skip(ii + 1)) == pre + (m.take(left_len) + txt
        + m.skip(left_len)) + suf);
    assert(pre + (m.take(left_len) + txt + m.skip(left_len)) + suf =~= (pre + m.take(left_len))
        + txt + (m.skip(left_len) + suf));
    lemma_splice_wf(o, a, t, ii, mid);
}

/// Byte offsets of table prefixes grow with the prefix.
pub proof fn lemma_prefix_mono(o: Seq<u8>, a: Seq<u8>, t: Seq<Span>, i: int, j: int)
    requires
        0 <= i <= j <= t.len(),
    ensures
        spans_bytes(o, a, t.take(i)).len() <= spans_bytes(o, a, t.take(j)).len(),
{
    assert(t.take(j).take(i) =~= t.take(i));
    assert(t.take(j).skip(i) =~= t.subrange(i, j));
    lemma_spans_split_at(o, a, t.take(j), i);
}

/// A delete inside one span replaces it by a run `mid` holding the
/// span's bytes around the deleted range; the resulting table spells
/// the old document with that range removed, and stays well-formed.
#[verifier::rlimit(100)]
proof fn lemma_delete_splice(
    o: Seq<u8>,
    a: Seq<u8>,
    t: Seq<Span>,
    ii: int,
    mid: Seq<Span>,
    lo: int,
    hi: int,
)
    requires
        0 <= ii < t.len(),
        forall|j: int| 0 <= j < t.len() ==> span_wf(o, a, #[trigger] t[j]),
        forall|j: int| 0 <= j < mid.len() ==> span_wf(o, a, #[trigger] mid[j]),
        0 <= lo <= hi <= span_bytes(o, a, t[ii]).len(),
        spans_bytes(o, a, mid) == span_bytes(o, a, t[ii]).take(lo) + span_bytes(o, a, t[ii]).skip(
            hi,
        ),
    ensures
        spans_bytes(o, a, t.take(ii) + mid + t.skip(ii + 1)) == spans_bytes(o, a, t).take(
            spans_bytes(o, a, t.take(ii)).len() as int + lo,
        ) + spans_bytes(o, a, t).skip(spans_bytes(o, a, t.take(ii)).len() as int + hi),
        forall|j: int|
            0 <= j < (t.take(ii) + mid + t.skip(ii + 1)).len() ==> span_wf(
                o,
                a,
                #[trigger] (t.take(ii) + mid + t.skip(ii + 1))[j],
            ),
{
    let m = span_bytes(o, a, t[ii]);
    let pre = spans_bytes(o, a, t.take(ii));
    let suf = spans_bytes(o, a, t.skip(ii + 1));
    lemma_table_splice(o, a, t.take(ii), mid, t.skip(ii + 1));
    lemma_spans_split_at(o, a, t, ii);
    assert(t.skip(ii)[0] == t[ii]);
    assert(t.skip(ii).skip(1) =~= t.skip(ii + 1));
    assert(spans_bytes(o, a, t.skip(ii)) == m + suf);
    assert(spans_bytes(o, a, t) == pre + (m + suf));
    assert(pre + (m + suf) =~= pre + m + suf);
    lemma_concat3_parts(pre, m, suf, lo);
    lemma_concat3_parts(pre, m, suf, hi);
    assert(spans_bytes(o, a, t.take(ii) + mid + t.skip(ii + 1)) == pre + (m.take(lo) + m.skip(hi))
        + suf);
    assert(pre + (m.take(lo) + m.skip(hi)) + suf =~= (pre + m.take(lo)) + (m.skip(hi) + suf));
    lemma_splice_wf(o, a, t, ii, mid);
}

/// A delete across two spans keeps the head of the first and the tail
/// of the last and drops everything between; the resulting table
/// spells the old document with the range removed, and stays
/// well-formed.
#[verifier::rlimit(100)]
proof fn lemma_delete_multi_splice(
    o: Seq<u8>,
    a: Seq<u8>,
    t: Seq<Span>,
    i: int,
    j: int,
    midl: Seq<Span>,
    midr: Seq<Span>,
    aloc: int,
    bloc: int,
)
    requires
        0 <= i < j < t.len(),
        forall|k: int| 0 <= k < t.len() ==> span_wf(o, a, #[trigger] t[k]),
        forall|k: int| 0 <= k < midl.len() ==> span_wf(o, a, #[trigger] midl[k]),
        forall|k: int| 0 <= k < midr.len() ==> span_wf(o, a, #[trigger] midr[k]),
        0 <= aloc <= span_bytes(o, a, t[i]).len(),
        0 <= bloc <= span_bytes(o, a, t[j]).len(),
        spans_bytes(o, a, midl) == span_bytes(o, a, t[i]).take(aloc),
        spans_bytes(o, a, midr) == span_bytes(o, a, t[j]).skip(bloc),
    ensures
        spans_bytes(o, a, t.take(i) + midl + midr + t.skip(j + 1)) == spans_bytes(o, a, t).take(
            spans_bytes(o, a, t.take(i)).len() as int + aloc,
        ) + spans_bytes(o, a, t).skip(spans_bytes(o, a, t.take(j)).len() as int + bloc),
        forall|k: int|
            0 <= k < (t.take(i) + midl + midr + t.skip(j + 1)).len() ==> span_wf(
                o,
                a,
                #[trigger] (t.take(i) + midl + midr + t.skip(j + 1))[k],
            ),
{
    let mi = span_bytes(o, a, t[i]);
    let mj = span_bytes(o, a, t[j]);
    let pre = spans_bytes(o, a, t.take(i));
    let midb = spans_bytes(o, a, t.subrange(i + 1, j));
    let suf = spans_bytes(o, a, t.skip(j + 1));
    // Decompose the old table's bytes into five parts.
    assert(t =~= t.take(i) + seq![t[i]] + t.subrange(i + 1, j) + seq![t[j]] + t.skip(j + 1));
    lemma_spans_bytes_concat(o, a, t.take(i) + seq![t[i]] + t.subrange(i + 1, j) + seq![t[j]],
        t.skip(j + 1));
    lemma_spans_bytes_concat(o, a, t.take(i) + seq![t[i]] + t.subrange(i + 1, j), seq![t[j]]);
    lemma_spans_bytes_concat(o, a, t.take(i) + seq![t[i]], t.subrange(i + 1, j));
    lemma_spans_bytes_concat(o, a, t.take(i), seq![t[i]]);
    lemma_spans_bytes_singleton(o, a, t[i]);
    lemma_spans_bytes_singleton(o, a, t[j]);
    let whole_bytes = spans_bytes(o, a, t);
    assert(whole_bytes == pre + mi + midb + mj + suf);
    // The prefix before span j holds the first three parts.
    assert(t.take(j) =~= t.take(i) + seq![t[i]] + t.subrange(i + 1, j));
    assert(spans_bytes(o, a, t.take(j)) == pre + mi + midb);
    // Split the whole at the two cut points.
    assert(pre + mi + midb + mj + suf =~= pre + mi + (midb + mj + suf));
    lemma_concat3_parts(pre, mi, midb + mj + suf, aloc);
    assert(whole_bytes.take(pre.len() as int + aloc) == pre + mi.take(aloc));
    assert(pre + mi + midb + mj + suf =~= (pre + mi + midb) + mj + suf);
    lemma_concat3_parts(pre + mi + midb, mj, suf, bloc);
    assert(whole_bytes.skip((pre + mi + midb).len() as int + bloc) == mj.skip(bloc) + suf);
    // The new table's bytes.
    lemma_spans_bytes_concat(o, a, t.take(i) + midl + midr, t.skip(j + 1));
    lemma_spans_bytes_concat(o, a, t.take(i) + midl, midr);
    lemma_spans_bytes_concat(o, a, t.take(i), midl);
    assert(spans_bytes(o, a, t.take(i) + midl + midr + t.skip(j + 1)) == pre + mi.take(aloc)
        + mj.skip(bloc) + suf);
    assert(pre + mi.take(aloc) + mj.skip(bloc) + suf =~= (pre + mi.take(aloc)) + (mj.skip(bloc)
        + suf));
    assert(t.take(i) + midl + midr + t.skip(j + 1) =~= t.take(i) + (midl + midr) + t.skip(
        j + 1,
    ));
    assert forall|k: int| 0 <= k < (midl + midr).len() implies span_wf(
        o,
        a,
        #[trigger] (midl + midr)[k],
    ) by {
        if k < midl.len() {
            assert((midl + midr)[k] == midl[k]);
        } else {
            assert((midl + midr)[k] == midr[k - midl.len()]);
        }
    }
    lemma_splice_wf(o, a, t, i, midl + midr);
    assert forall|k: int|
        0 <= k < (t.take(i) + midl + midr + t.skip(j + 1)).len() implies span_wf(
        o,
        a,
        #[trigger] (t.take(i) + midl + midr + t.skip(j + 1))[k],
    ) by {
        assert((t.take(i) + midl + midr + t.skip(j + 1))[k] == (t.take(i) + (midl + midr) + t.skip(
            j + 1,
        ))[k]);
    }
}

/// Extending a table prefix by one span extends its newline positions
/// by the span's cached positions, shifted by the prefix length.
pub proof fn lemma_prefix_nl_snoc(o: Seq<u8>, a: Seq<u8>, t: Seq<Span>, i: int)
    requires
        0 <= i < t.len(),
    ensures
        nl_positions(spans_bytes(o, a, t.take(i + 1))) == nl_positions(
            spans_bytes(o, a, t.take(i)),
        ) + nl_positions(span_bytes(o, a, t[i])).map_values(
            |p: int| p + spans_bytes(o, a, t.take(i)).len(),
        ),
{
    lemma_prefix_snoc(o, a, t, i);
    lemma_nl_concat(spans_bytes(o, a, t.take(i)), span_bytes(o, a, t[i]));
}

/// The document's newline positions split at span `ii`: those of the
/// prefix, the span's own (shifted by the prefix length), then those
/// of the suffix (shifted past the span).
#[verifier::rlimit(100)]
pub proof fn lemma_global_nl_decomp(o: Seq<u8>, a: Seq<u8>, t: Seq<Span>, ii: int)
    requires
        0 <= ii < t.len(),
    ensures
        nl_positions(spans_bytes(o, a, t)) == nl_positions(spans_bytes(o, a, t.take(ii)))
            + nl_positions(span_bytes(o, a, t[ii])).map_values(
            |p: int| p + spans_bytes(o, a, t.take(ii)).len(),
        ) + nl_positions(spans_bytes(o, a, t.skip(ii + 1))).map_values(
            |p: int| p + spans_bytes(o, a, t.take(ii + 1)).len(),
        ),
{
    lemma_spans_split_at(o, a, t, ii + 1);
    lemma_prefix_snoc(o, a, t, ii);
    lemma_nl_concat(spans_bytes(o, a, t.take(ii + 1)), spans_bytes(o, a, t.skip(ii + 1)));
    lemma_prefix_nl_snoc(o, a, t, ii);
    assert((nl_positions(spans_bytes(o, a, t.take(ii))) + nl_positions(
        span_bytes(o, a, t[ii]),
    ).map_values(|p: int| p + spans_bytes(o, a, t.take(ii)).len())) + nl_positions(
        spans_bytes(o, a, t.skip(ii + 1)),
    ).map_values(|p: int| p + spans_bytes(o, a, t.take(ii + 1)).len()) =~= nl_positions(
        spans_bytes(o, a, t.take(ii)),
    ) + nl_positions(span_bytes(o, a, t[ii])).map_values(
        |p: int| p + spans_bytes(o, a, t.take(ii)).len(),
    ) + nl_positions(spans_bytes(o, a, t.skip(ii + 1))).map_values(
        |p: int| p + spans_bytes(o, a, t.take(ii + 1)).len(),
    ));
}

impl View for TextBuffer {
    type V = Seq<u8>;

    /// The logical document: every span's bytes, concatenated in order.
    open spec fn view(&self) -> Seq<u8> {
        spans_bytes(self.original@, self.add@, self.table@)
    }
}

impl TextBuffer {
    /// Well-formedness: every span is well-formed against the current
    /// buffers, and the document leaves room for a line count.
    pub open spec fn wf(&self) -> bool {
        &&& forall|i: int|
            0 <= i < self.table@.len() ==> span_wf(
                self.original@,
                self.add@,
                #[trigger] self.table@[i],
            )
        &&& self@.len() < usize::MAX
    }

    /// Document offset at which the span at table index `i` starts.
    pub open spec fn prefix_len(&self, i: int) -> int {
        spans_bytes(self.original@, self.add@, self.table@.take(i)).len() as int
    }

    /// Constructs a table over the given initial text: one `Original`
    /// span covering it when it is non-empty, an empty table otherwise.
    pub fn new(text: Option<Vec<u8>>) -> (r: TextBuffer)
        requires
            match text {
                Some(t) => t@.len() < usize::MAX,
                None => true,
            },
        ensures
            r.wf(),
            r@ == match text {
                Some(t) => t@,
                None => Seq::<u8>::empty(),
            },
            r.original@ == match text {
                Some(t) => t@,
                None => Seq::<u8>::empty(),
            },
            r.add@ == Seq::<u8>::empty(),
    {
        match text {
            Some(t) => {
                let mut buffer = TextBuffer { original: t, add: Vec::new(), table: Vec::new() };
                if buffer.original.len() > 0 {
                    let s = buffer.create_span(BufferType::Original, 0, buffer.original.len());
                    buffer.table.push(s);
                    proof {
                        assert(buffer.table@ =~= seq![s]);
                        lemma_spans_bytes_singleton(buffer.original@, buffer.add@, s);
                        assert(span_bytes(buffer.original@, buffer.add@, s)
                            =~= buffer.original@);
                    }
                }
                buffer
            },
            None => TextBuffer { original: Vec::new(), add: Vec::new(), table: Vec::new() },
        }
    }

    /// Length of the logical document: the sum of the span lengths.
    pub fn doc_len(&self) -> (r: usize)
        requires
            self.wf(),
        ensures
            r as int == self@.len(),
    {
        let mut current_pos: usize = 0;
        let mut i: usize = 0;
        #[verifier::loop_isolation(false)]
        while i < self.table.len()
            invariant
                i <= self.table@.len(),
                current_pos as int == self.prefix_len(i as int),
            decreases self.table@.len() - i,
        {
            proof {
                lemma_prefix_snoc(self.original@, self.add@, self.table@, i as int);
                lemma_spans_split_at(self.original@, self.add@, self.table@, i as int + 1);
            }
            current_pos = current_pos + self.table[i].len;
            i = i + 1;
        }
        proof {
            assert(self.table@.take(self.table@.len() as int) =~= self.table@);
        }
        current_pos
    }

    /// Copies a byte range out of one of the two buffers.
    pub fn get_buffer_contents(&self, buffer_type: BufferType, start: usize, end: usize) -> (r:
        Vec<u8>)
        requires
            start <= end,
            end <= buf_seq(self.original@, self.add@, buffer_type).len(),
        ensures
            r@ == buf_seq(self.original@, self.add@, buffer_type).subrange(
                start as int,
                end as int,
            ),
    {
        let mut r: Vec<u8> = Vec::new();
        let mut i: usize = start;
        #[verifier::loop_isolation(false)]
        while i < end
            invariant
                start <= i <= end,
                r@ == buf_seq(self.original@, self.add@, buffer_type).subrange(
                    start as int,
                    i as int,
                ),
            decreases end - i,
        {
            let b: u8 = match buffer_type {
                BufferType::Original => self.original[i],
                BufferType::Add => self.add[i],
            };
            r.push(b);
            proof {
                let buf = buf_seq(self.original@, self.add@, buffer_type);
                assert(buf.subrange(start as int, i as int + 1) =~= buf.subrange(
                    start as int,
                    i as int,
                ).push(buf[i as int]));
            }
            i = i + 1;
        }
        r
    }

    /// The bytes a single span of the table describes.
    pub fn get_span_contents(&self, span: &Span) -> (r: Vec<u8>)
        requires
            span.start <= span.end,
            span.end <= buf_seq(self.original@, self.add@, span.buffer).len(),
        ensures
            r@ == span_bytes(self.original@, self.add@, *span),
    {
        self.get_buffer_contents(span.buffer, span.start, span.end)
    }

    /// A span's bytes from a relative offset to the span's end.
    pub fn get_span_contents_with_offset(&self, span: &Span, offset: usize) -> (r: Vec<u8>)
        requires
            span.start + offset <= span.end,
            span.end <= buf_seq(self.original@, self.add@, span.buffer).len(),
        ensures
            r@ == span_bytes(self.original@, self.add@, *span).skip(offset as int),
    {
        let r = self.get_buffer_contents(span.buffer, span.start + offset, span.end);
        proof {
            assert(r@ =~= span_bytes(self.original@, self.add@, *span).skip(offset as int));
        }
        r
    }

    /// Builds a span over `[start, start + len)` of the named buffer,
    /// scanning the range once to record its newline positions.
    fn create_span(&self, buffer: BufferType, start: usize, len: usize) -> (s: Span)
        requires
            len > 0,
            start + len <= buf_seq(self.original@, self.add@, buffer).len(),
        ensures
            s.buffer == buffer,
            s.start == start,
            s.len == len,
            s.end == start + len,
            span_wf(self.original@, self.add@, s),
    {
        let buf_len: usize = match buffer {
            BufferType::Original => self.original.len(),
            BufferType::Add => self.add.len(),
        };
        assert(start + len <= buf_len);
        let end = start + len;
        let contents = self.get_buffer_contents(buffer, start, end);
        let mut lines: Vec<usize> = Vec::new();
        let mut pos: usize = 0;
        #[verifier::loop_isolation(false)]
        while pos < len
            invariant
                pos <= len,
                contents@ == buf_seq(self.original@, self.add@, buffer).subrange(
                    start as int,
                    end as int,
                ),
                contents@.len() == len,
                lines@.map_values(|p: usize| p as int) == nl_positions(
                    contents@.take(pos as int),
                ),
            decreases len - pos,
        {
            proof {
                lemma_nl_snoc(contents@.take(pos as int), contents@[pos as int]);
                assert(contents@.take(pos as int + 1) =~= contents@.take(pos as int).push(
                    contents@[pos as int],
                ));
            }
            if is_newline_char(contents[pos]) {
                let ghost prev = lines@;
                lines.push(pos);
                proof {
                    assert(lines@.map_values(|p: usize| p as int) =~= prev.map_values(
                        |p: usize| p as int,
                    ).push(pos as int));
                }
            }
            pos = pos + 1;
        }
        proof {
            assert(contents@.take(len as int) =~= contents@);
        }
        Span { buffer, start, end, len, lines }
    }

    /// Builds the whole logical document as one byte vector.
    pub fn text(&self) -> (r: Vec<u8>)
        requires
            self.wf(),
        ensures
            r@ == self@,
    {
        let mut text: Vec<u8> = Vec::new();
        let mut i: usize = 0;
        #[verifier::loop_isolation(false)]
        while i < self.table.len()
            invariant
                i <= self.table@.len(),
                text@ == spans_bytes(self.original@, self.add@, self.table@.take(i as int)),
            decreases self.table@.len() - i,
        {
            let mut chunk = self.get_span_contents(&self.table[i]);
            text.append(&mut chunk);
            proof {
                lemma_prefix_snoc(self.original@, self.add@, self.table@, i as int);
            }
            i = i + 1;
        }
        proof {
            assert(self.table@.take(self.table@.len() as int) =~= self.table@);
        }
        text
    }

    /// Appends `text` to the `add` buffer and returns the offset at
    /// which it landed. Leaves the table, and hence the document, as
    /// it was.
    fn add_to_buffer(&mut self, text: &[u8]) -> (pos: usize)
        requires
            old(self).wf(),
        ensures
            final(self).wf(),
            pos as int == old(self).add@.len(),
            final(self).add@ == old(self).add@ + text@,
            final(self).original@ == old(self).original@,
            final(self).table@ == old(self).table@,
            final(self)@ == old(self)@,
    {
        let pos = self.add.len();
        let mut i: usize = 0;
        #[verifier::loop_isolation(false)]
        while i < text.len()
            invariant
                i <= text@.len(),
                self.add@ == old(self).add@ + text@.take(i as int),
                self.original@ == old(self).original@,
                self.table@ == old(self).table@,
            decreases text@.len() - i,
        {
            self.add.push(text[i]);
            proof {
                assert(old(self).add@ + text@.take(i as int + 1) =~= (old(self).add@
                    + text@.take(i as int)).push(text@[i as int]));
            }
            i = i + 1;
        }
        proof {
            assert(text@.take(text@.len() as int) =~= text@);
            assert(self.add@.subrange(0, old(self).add@.len() as int) =~= old(self).add@);
            lemma_spans_bytes_grow(self.original@, old(self).add@, self.add@, self.table@);
        }
        pos
    }

    /// Appends `text` to the end of the document; a no-op when `text`
    /// is empty.
    pub fn append(&mut self, text: &[u8])
        requires
            old(self).wf(),
            old(self)@.len() + text@.len() < usize::MAX,
        ensures
            final(self).wf(),
            final(self)@ == old(self)@ + text@,
            final(self).original@ == old(self).original@,
            final(self).add@.len() >= old(self).add@.len(),
            final(self).add@.subrange(0, old(self).add@.len() as int) == old(self).add@,
    {
        if text.len() == 0 {
            proof {
                assert(self@ + text@ =~= self@);
                assert(self.add@.subrange(0, self.add@.len() as int) =~= self.add@);
            }
            return ;
        }
        let pos = self.add_to_buffer(text);
        let s = self.create_span(BufferType::Add, pos, text.len());
        self.table.push(s);
        proof {
            let o = self.original@;
            let a = self.add@;
            let t = old(self).table@;
            assert(a.subrange(0, old(self).add@.len() as int) =~= old(self).add@);
            assert(self.table@ =~= t + seq![s]);
            lemma_spans_bytes_concat(o, a, t, seq![s]);
            lemma_spans_bytes_singleton(o, a, s);
            assert(span_bytes(o, a, s) =~= text@);
            assert forall|i: int| 0 <= i < self.table@.len() implies span_wf(
                o,
                a,
                #[trigger] self.table@[i],
            ) by {
                if i < t.len() {
                    assert(self.table@[i] == t[i]);
                }
            }
        }
    }

    /// Inserts `text` at the start of the document; a no-op when
    /// `text` is empty.
    pub fn prepend(&mut self, text: &[u8])
        requires
            old(self).wf(),
            old(self)@.len() + text@.len() < usize::MAX,
        ensures
            final(self).wf(),
            final(self)@ == text@ + old(self)@,
            final(self).original@ == old(self).original@,
            final(self).add@.len() >= old(self).add@.len(),
            final(self).add@.subrange(0, old(self).add@.len() as int) == old(self).add@,
    {
        if text.len() == 0 {
            proof {
                assert(text@ + self@ =~= self@);
                assert(self.add@.subrange(0, self.add@.len() as int) =~= self.add@);
            }
            return ;
        }
        let pos = self.add_to_buffer(text);
        let s = self.create_span(BufferType::Add, pos, text.len());
        self.table.insert(0, s);
        proof {
            let o = self.original@;
            let a = self.add@;
            let t = old(self).table@;
            assert(a.subrange(0, old(self).add@.len() as int) =~= old(self).add@);
            assert(self.table@ =~= seq![s] + t);
            lemma_spans_bytes_concat(o, a, seq![s], t);
            lemma_spans_bytes_singleton(o, a, s);
            assert(span_bytes(o, a, s) =~= text@);
            assert forall|i: int| 0 <= i < self.table@.len() implies span_wf(
                o,
                a,
                #[trigger] self.table@[i],
            ) by {
                if i >= 1 {
                    assert(self.table@[i] == t[i - 1]);
                }
            }
        }
    }

    /// Walks the table to find the span whose document range reaches
    /// `pos`: the first span whose end offset is at or past `pos`.
    /// Returns `None` when the table is empty or `pos` lies beyond the
    /// document.
    fn get_piece_at_position(&self, pos: usize) -> (r: Option<DocumentPiece>)
        requires
            self.wf(),
        ensures
            match r {
                Some(p) => {
                    &&& (p.index as int) < self.table@.len()
                    &&& p.doc.start as int == self.prefix_len(p.index as int)
                    &&& p.doc.end == p.doc.start + self.table@[p.index as int].len
                    &&& p.doc.end >= pos
                    &&& p.doc.start < pos || p.doc.start == 0
                    &&& p.span.buffer == self.table@[p.index as int].buffer
                    &&& p.span.start == self.table@[p.index as int].start
                    &&& p.span.end == self.table@[p.index as int].end
                    &&& p.span.len == self.table@[p.index as int].len
                    &&& p.span.lines@ == self.table@[p.index as int].lines@
                },
                None => self.table@.len() == 0 || pos > self@.len(),
            },
            self.table@.len() > 0 && pos <= self@.len() ==> r is Some,
    {
        let mut current_pos: usize = 0;
        let mut i: usize = 0;
        #[verifier::loop_isolation(false)]
        while i < self.table.len()
            invariant
                i <= self.table@.len(),
                current_pos as int == self.prefix_len(i as int),
                i > 0 ==> current_pos < pos,
            decreases self.table@.len() - i,
        {
            proof {
                lemma_prefix_snoc(self.original@, self.add@, self.table@, i as int);
                lemma_spans_split_at(self.original@, self.add@, self.table@, i as int + 1);
            }
            let piece_len = self.table[i].len;
            if current_pos + piece_len >= pos {
                let sp = self.table[i].clone();
                return Some(
                    DocumentPiece {
                        index: i,
                        span: sp,
                        doc: DocumentSpan { start: current_pos, end: current_pos + piece_len },
                    },
                );
            }
            current_pos = current_pos + piece_len;
            i = i + 1;
        }
        proof {
            assert(self.table@.take(self.table@.len() as int) =~= self.table@);
        }
        None
    }

    /// Inserts `text` at byte position `pos`: at the ends it becomes a
    /// prepend or append; in the middle the covering span is split and
    /// a new `Add` span placed between the parts. Positions past the
    /// end are refused and leave the table untouched.
    #[verifier::rlimit(100)]
    pub fn insert(&mut self, pos: usize, text: &[u8]) -> (r: Result<(), BufferError>)
        requires
            old(self).wf(),
            old(self)@.len() + text@.len() < usize::MAX,
        ensures
            final(self).wf(),
            pos <= old(self)@.len() ==> r == Ok::<(), BufferError>(()) && final(self)@
                == insert_at(old(self)@, pos as int, text@),
            pos > old(self)@.len() ==> r == Err::<(), BufferError>(BufferError::OutOfRange)
                && final(self)@ == old(self)@ && final(self).add@ == old(self).add@
                && final(self).table@ == old(self).table@,
            final(self).original@ == old(self).original@,
            final(self).add@.len() >= old(self).add@.len(),
            final(self).add@.subrange(0, old(self).add@.len() as int) == old(self).add@,
    {
        if pos == 0 {
            self.prepend(text);
            proof {
                assert(insert_at(old(self)@, 0, text@) =~= text@ + old(self)@);
            }
            return Ok(());
        }
        let n = self.doc_len();
        if pos > n {
            proof {
                assert(self.add@.subrange(0, self.add@.len() as int) =~= self.add@);
            }
            return Err(BufferError::OutOfRange);
        }
        if pos == n {
            self.append(text);
            proof {
                assert(insert_at(old(self)@, n as int, text@) =~= old(self)@ + text@);
            }
            return Ok(());
        }
        if text.len() == 0 {
            proof {
                assert(insert_at(self@, pos as int, text@) =~= self@);
                assert(self.add@.subrange(0, self.add@.len() as int) =~= self.add@);
            }
            return Ok(());
        }
        // 0 < pos < n: split the covering span.
        let piece = match self.get_piece_at_position(pos) {
            Some(p) => p,
            None => {
                proof {
                    assert(false);
                }
                return Err(BufferError::OutOfRange);
            },
        };
        let i = piece.index;
        let d = piece.doc.start;
        let left_len = pos - d;
        let sp_buffer = piece.span.buffer;
        let sp_start = piece.span.start;
        let sp_len = piece.span.len;
        let ghost old_add = self.add@;
        let pos_in_add_buffer = self.add_to_buffer(text);
        let ghost t = old(self).table@;
        let ghost o = self.original@;
        let ghost a = self.add@;
        let ghost ii = i as int;
        let ghost sp = t[ii];
        let ghost m = span_bytes(o, a, sp);
        proof {
            assert(span_wf(o, a, sp));
            assert(m.len() == sp_len);
            assert forall|j: int| 0 <= j < t.take(ii).len() implies span_wf(
                o,
                old_add,
                #[trigger] t.take(ii)[j],
            ) by {
                assert(t.take(ii)[j] == t[j]);
            }
            assert(a.subrange(0, old_add.len() as int) =~= old_add);
            lemma_spans_bytes_grow(o, old_add, a, t.take(ii));
            assert(spans_bytes(o, a, t.take(ii)).len() == d);
        }
        let piece1 = self.create_span(sp_buffer, sp_start, left_len);
        let piece2 = self.create_span(BufferType::Add, pos_in_add_buffer, text.len());
        proof {
            assert(span_bytes(o, a, piece1) =~= m.take(left_len as int));
            assert(span_bytes(o, a, piece2) =~= text@);
        }
        self.table[i] = piece1;
        let table_len = self.table.len();
        assert(i < table_len);
        if left_len < sp_len {
            let piece3 = self.create_span(sp_buffer, sp_start + left_len, sp_len - left_len);
            self.table.insert(i + 1, piece3);
            self.table.insert(i + 1, piece2);
            proof {
                let mid = seq![piece1, piece2, piece3];
                assert(self.table@ =~= t.take(ii) + mid + t.skip(ii + 1));
                assert(span_bytes(o, a, piece3) =~= m.skip(left_len as int));
                assert(mid =~= seq![piece1] + seq![piece2] + seq![piece3]);
                lemma_table_splice(o, a, seq![piece1], seq![piece2], seq![piece3]);
                lemma_spans_bytes_singleton(o, a, piece1);
                lemma_spans_bytes_singleton(o, a, piece2);
                lemma_spans_bytes_singleton(o, a, piece3);
                assert(spans_bytes(o, a, mid) == m.take(left_len as int) + text@ + m.skip(
                    left_len as int,
                ));
                lemma_insert_splice(o, a, t, ii, mid, left_len as int, text@);
            }
        } else {
            self.table.insert(i + 1, piece2);
            proof {
                let mid = seq![piece1, piece2];
                assert(self.table@ =~= t.take(ii) + mid + t.skip(ii + 1));
                assert(mid =~= seq![piece1] + seq![piece2]);
                lemma_spans_bytes_concat(o, a, seq![piece1], seq![piece2]);
                lemma_spans_bytes_singleton(o, a, piece1);
                lemma_spans_bytes_singleton(o, a, piece2);
                assert(m.take(left_len as int) =~= m);
                assert(m.skip(left_len as int) =~= Seq::<u8>::empty());
                assert(spans_bytes(o, a, mid) =~= m.take(left_len as int) + text@ + m.skip(
                    left_len as int,
                ));
                lemma_insert_splice(o, a, t, ii, mid, left_len as int, text@);
            }
        }
        proof {
            assert(old(self)@ == spans_bytes(o, a, t));
            assert(final(self)@ == insert_at(old(self)@, pos as int, text@));
            assert(final(self)@.len() == old(self)@.len() + text@.len());
            assert(self.add@.subrange(0, old(self).add@.len() as int) =~= old(self).add@);
        }
        Ok(())
    }

    /// Whether a located piece correctly describes the span at its
    /// index, including the document range that span occupies.
    pub open spec fn piece_matches(&self, p: DocumentPiece) -> bool {
        &&& (p.index as int) < self.table@.len()
        &&& p.doc.start as int == self.prefix_len(p.index as int)
        &&& p.doc.end == p.doc.start + self.table@[p.index as int].len
        &&& p.span.buffer == self.table@[p.index as int].buffer
        &&& p.span.start == self.table@[p.index as int].start
        &&& p.span.end == self.table@[p.index as int].end
        &&& p.span.len == self.table@[p.index as int].len
    }

    /// Removes the byte range `[start, end)`, clamping both bounds to
    /// the document length; an empty or inverted range is a no-op.
    pub fn delete(&mut self, start: usize, end: usize)
        requires
            old(self).wf(),
        ensures
            final(self).wf(),
            final(self)@ == delete_clamped(old(self)@, start as int, end as int),
            final(self).original@ == old(self).original@,
            final(self).add@ == old(self).add@,
    {
        let n = self.doc_len();
        let e = if end > n {
            n
        } else {
            end
        };
        let s0 = if start > e {
            e
        } else {
            start
        };
        if s0 >= e {
            proof {
                assert(delete_clamped(self@, start as int, end as int) =~= self@);
            }
            return ;
        }
        // 0 <= s0 < e <= n, so the table is not empty.
        proof {
            if self.table@.len() == 0 {
                assert(self@.len() == 0);
            }
        }
        let p1 = match self.get_piece_at_position(s0 + 1) {
            Some(p) => p,
            None => {
                proof {
                    assert(false);
                }
                return ;
            },
        };
        let p2 = match self.get_piece_at_position(e) {
            Some(p) => p,
            None => {
                proof {
                    assert(false);
                }
                return ;
            },
        };
        proof {
            // Both hosts hold their positions: p1 covers byte s0 and
            // p2 covers byte e - 1.
            assert(p1.doc.start <= s0 < p1.doc.end);
            assert(p2.doc.start < e <= p2.doc.end);
        }
        if p1.index == p2.index {
            let start_relative = s0 - p1.doc.start;
            let end_relative = e - p1.doc.start;
            self.delete_split_piece(p1.index, start_relative, end_relative);
            proof {
                assert(final(self)@ == old(self)@.take(s0 as int) + old(self)@.skip(e as int));
                assert(delete_clamped(old(self)@, start as int, end as int)
                    == old(self)@.take(s0 as int) + old(self)@.skip(e as int));
            }
        } else {
            proof {
                let o = self.original@;
                let a = self.add@;
                let t = self.table@;
                // The host of the earlier byte comes first in the table.
                if p2.index < p1.index {
                    lemma_prefix_mono(o, a, t, p2.index as int + 1, p1.index as int);
                    lemma_prefix_snoc(o, a, t, p2.index as int);
                    assert(span_bytes(o, a, t[p2.index as int]).len()
                        == t[p2.index as int].len);
                    assert(false);
                }
            }
            self.delete_multiple(&p1, &p2, s0, e);
            proof {
                assert(delete_clamped(old(self)@, start as int, end as int)
                    == old(self)@.take(s0 as int) + old(self)@.skip(e as int));
            }
        }
    }

    /// Removes `[start, end)` of the span at `index` (offsets relative
    /// to the span start), replacing it by the surviving prefix and
    /// suffix parts; zero-length parts are dropped.
    fn delete_split_piece(&mut self, index: usize, start: usize, end: usize)
        requires
            old(self).wf(),
            (index as int) < old(self).table@.len(),
            start < end,
            end <= old(self).table@[index as int].len,
        ensures
            final(self).wf(),
            final(self)@ == old(self)@.take(old(self).prefix_len(index as int) + start as int)
                + old(self)@.skip(old(self).prefix_len(index as int) + end as int),
            final(self).original@ == old(self).original@,
            final(self).add@ == old(self).add@,
    {
        let ghost t = self.table@;
        let ghost o = self.original@;
        let ghost a = self.add@;
        let ghost ii = index as int;
        let ghost m = span_bytes(o, a, t[ii]);
        let ex_buffer = self.table[index].buffer;
        let ex_start = self.table[index].start;
        let ex_len = self.table[index].len;
        proof {
            assert(span_wf(o, a, t[ii]));
            assert(m.len() == ex_len);
        }
        let table_len = self.table.len();
        assert(index < table_len);
        if start > 0 {
            let p_left = self.create_span(ex_buffer, ex_start, start);
            proof {
                assert(span_bytes(o, a, p_left) =~= m.take(start as int));
            }
            if end < ex_len {
                let p_right = self.create_span(ex_buffer, ex_start + end, ex_len - end);
                self.table[index] = p_left;
                self.table.insert(index + 1, p_right);
                proof {
                    let mid = seq![p_left, p_right];
                    assert(self.table@ =~= t.take(ii) + mid + t.skip(ii + 1));
                    assert(span_bytes(o, a, p_right) =~= m.skip(end as int));
                    assert(mid =~= seq![p_left] + seq![p_right]);
                    lemma_spans_bytes_concat(o, a, seq![p_left], seq![p_right]);
                    lemma_spans_bytes_singleton(o, a, p_left);
                    lemma_spans_bytes_singleton(o, a, p_right);
                    lemma_delete_splice(o, a, t, ii, mid, start as int, end as int);
                }
            } else {
                self.table[index] = p_left;
                proof {
                    let mid = seq![p_left];
                    assert(self.table@ =~= t.take(ii) + mid + t.skip(ii + 1));
                    lemma_spans_bytes_singleton(o, a, p_left);
                    assert(m.skip(end as int) =~= Seq::<u8>::empty());
                    assert(spans_bytes(o, a, mid) =~= m.take(start as int) + m.skip(end as int));
                    lemma_delete_splice(o, a, t, ii, mid, start as int, end as int);
                }
            }
        } else {
            if end < ex_len {
                let p_right = self.create_span(ex_buffer, ex_start + end, ex_len - end);
                self.table[index] = p_right;
                proof {
                    let mid = seq![p_right];
                    assert(self.table@ =~= t.take(ii) + mid + t.skip(ii + 1));
                    lemma_spans_bytes_singleton(o, a, p_right);
                    assert(span_bytes(o, a, p_right) =~= m.skip(end as int));
                    assert(m.take(start as int) =~= Seq::<u8>::empty());
                    assert(spans_bytes(o, a, mid) =~= m.take(start as int) + m.skip(end as int));
                    lemma_delete_splice(o, a, t, ii, mid, start as int, end as int);
                }
            } else {
                self.table.remove(index);
                proof {
                    let mid = Seq::<Span>::empty();
                    assert(self.table@ =~= t.take(ii) + mid + t.skip(ii + 1));
                    assert(m.take(start as int) =~= Seq::<u8>::empty());
                    assert(m.skip(end as int) =~= Seq::<u8>::empty());
                    assert(spans_bytes(o, a, mid) =~= m.take(start as int) + m.skip(end as int));
                    lemma_delete_splice(o, a, t, ii, mid, start as int, end as int);
                }
            }
        }
        proof {
            lemma_prefix_snoc(o, a, t, ii);
            lemma_spans_split_at(o, a, t, ii + 1);
            assert(final(self)@.len() <= old(self)@.len());
        }
    }

    /// Removes a byte range that starts in the span `p1` locates and
    /// ends in the later span `p2` locates: the first span keeps its
    /// head, the last keeps its tail, spans strictly between them are
    /// removed, and zero-length leftovers are dropped.
    #[verifier::rlimit(100)]
    fn delete_multiple(&mut self, p1: &DocumentPiece, p2: &DocumentPiece, start: usize, end: usize)
        requires
            old(self).wf(),
            old(self).piece_matches(*p1),
            old(self).piece_matches(*p2),
            (p1.index as int) < p2.index as int,
            p1.doc.start <= start < p1.doc.end,
            p2.doc.start < end <= p2.doc.end,
        ensures
            final(self).wf(),
            final(self)@ == old(self)@.take(start as int) + old(self)@.skip(end as int),
            final(self).original@ == old(self).original@,
            final(self).add@ == old(self).add@,
    {
        let ghost t = self.table@;
        let ghost o = self.original@;
        let ghost a = self.add@;
        let i = p1.index;
        let j = p2.index;
        let ghost mi = span_bytes(o, a, t[i as int]);
        let ghost mj = span_bytes(o, a, t[j as int]);
        let a_loc = start - p1.doc.start;
        let b_loc = end - p2.doc.start;
        let i_buffer = self.table[i].buffer;
        let i_start = self.table[i].start;
        let i_len = self.table[i].len;
        let j_buffer = self.table[j].buffer;
        let j_start = self.table[j].start;
        let j_len = self.table[j].len;
        proof {
            assert(span_wf(o, a, t[i as int]));
            assert(span_wf(o, a, t[j as int]));
            assert(mi.len() == i_len);
            assert(mj.len() == j_len);
        }
        // Shrink or drop the last affected span.
        let ghost midr: Seq<Span> = Seq::empty();
        if b_loc < j_len {
            let p_right = self.create_span(j_buffer, j_start + b_loc, j_len - b_loc);
            self.table[j] = p_right;
            proof {
                midr = seq![p_right];
                assert(span_bytes(o, a, p_right) =~= mj.skip(b_loc as int));
                lemma_spans_bytes_singleton(o, a, p_right);
                assert(self.table@ =~= t.take(j as int) + midr + t.skip(j as int + 1));
            }
        } else {
            self.table.remove(j);
            proof {
                assert(mj.skip(b_loc as int) =~= Seq::<u8>::empty());
                assert(self.table@ =~= t.take(j as int) + midr + t.skip(j as int + 1));
            }
        }
        // Remove the spans strictly between the two hosts.
        proof {
            assert(t.take(j as int) =~= t.take(i as int + 1) + t.subrange(
                i as int + 1,
                j as int,
            ));
        }
        let mut removed: usize = 0;
        #[verifier::loop_isolation(false)]
        while removed < j - i - 1
            invariant
                0 <= removed <= j - i - 1,
                self.original@ == o,
                self.add@ == a,
                self.table@ =~= t.take(i as int + 1) + t.subrange(
                    i as int + 1 + removed as int,
                    j as int,
                ) + midr + t.skip(j as int + 1),
            decreases j - i - 1 - removed,
        {
            let ghost before = self.table@;
            self.table.remove(i + 1);
            proof {
                assert(before[i as int + 1] == t.subrange(
                    i as int + 1 + removed as int,
                    j as int,
                )[0]);
                assert(self.table@ =~= t.take(i as int + 1) + t.subrange(
                    i as int + 2 + removed as int,
                    j as int,
                ) + midr + t.skip(j as int + 1));
            }
            removed = removed + 1;
        }
        proof {
            assert(t.subrange(j as int, j as int) =~= Seq::<Span>::empty());
            assert(self.table@ =~= t.take(i as int + 1) + midr + t.skip(j as int + 1));
        }
        // Shrink or drop the first affected span.
        if a_loc > 0 {
            let p_left = self.create_span(i_buffer, i_start, a_loc);
            self.table[i] = p_left;
            proof {
                let midl = seq![p_left];
                assert(span_bytes(o, a, p_left) =~= mi.take(a_loc as int));
                lemma_spans_bytes_singleton(o, a, p_left);
                assert(t.take(i as int + 1) =~= t.take(i as int) + seq![t[i as int]]);
                assert(self.table@ =~= t.take(i as int) + midl + midr + t.skip(j as int + 1));
                lemma_delete_multi_splice(o, a, t, i as int, j as int, midl, midr, a_loc as int,
                    b_loc as int);
            }
        } else {
            self.table.remove(i);
            proof {
                let midl = Seq::<Span>::empty();
                assert(mi.take(a_loc as int) =~= Seq::<u8>::empty());
                assert(self.table@ =~= t.take(i as int) + midl + midr + t.skip(j as int + 1));
                lemma_delete_multi_splice(o, a, t, i as int, j as int, midl, midr, a_loc as int,
                    b_loc as int);
            }
        }
        proof {
            lemma_prefix_snoc(o, a, t, j as int);
            lemma_spans_split_at(o, a, t, j as int + 1);
            assert(old(self)@.len() >= end);
            lemma_prefix_snoc(o, a, t, i as int);
            lemma_prefix_mono(o, a, t, i as int + 1, j as int);
            assert(start as int <= end as int);
            assert(old(self)@.take(start as int).len() == start as int);
            assert(old(self)@.skip(end as int).len() == old(self)@.len() - end);
            assert(final(self)@.len() <= old(self)@.len());
        }
    }

    /// Number of lines of the document: one more than the number of
    /// newline bytes, summed from the spans' caches.
    pub fn get_line_count(&self) -> (r: usize)
        requires
            self.wf(),
        ensures
            r as int == line_count(self@),
    {
        let ghost o = self.original@;
        let ghost a = self.add@;
        let ghost t = self.table@;
        let mut count: usize = 1;
        let mut i: usize = 0;
        #[verifier::loop_isolation(false)]
        while i < self.table.len()
            invariant
                i <= t.len(),
                count as int == 1 + nl_positions(spans_bytes(o, a, t.take(i as int))).len(),
            decreases t.len() - i,
        {
            proof {
                lemma_prefix_nl_snoc(o, a, t, i as int);
                lemma_nl_len_le(spans_bytes(o, a, t.take(i as int + 1)));
                lemma_spans_split_at(o, a, t, i as int + 1);
                assert(span_wf(o, a, t[i as int]));
                assert(self.table@[i as int].lines@.len() == nl_positions(
                    span_bytes(o, a, t[i as int]),
                ).len());
            }
            count = count + self.table[i].lines.len();
            i = i + 1;
        }
        proof {
            assert(t.take(t.len() as int) =~= t);
        }
        count
    }

    /// Collects the document bytes that follow the newline at relative
    /// offset `offset` in span `index`, up to but excluding the next
    /// newline (or to the end of the document), walking the spans'
    /// newline caches.
    #[verifier::rlimit(100)]
    fn get_line_content_until_next_linebreak(&self, index: usize, offset: usize) -> (r: Vec<u8>)
        requires
            self.wf(),
            (index as int) < self.table@.len(),
            (offset as int) < self.table@[index as int].len,
        ensures
            r@ == self@.subrange(
                self.prefix_len(index as int) + offset + 1,
                next_newline(self@, self.prefix_len(index as int) + offset + 1),
            ),
    {
        let ghost o = self.original@;
        let ghost a = self.add@;
        let ghost t = self.table@;
        let ghost p_start = self.prefix_len(index as int) + offset + 1;
        let mut result: Vec<u8> = Vec::new();
        let mut i: usize = index;
        #[verifier::loop_isolation(false)]
        while i < self.table.len()
            invariant
                index <= i <= t.len(),
                i == index ==> result@ == Seq::<u8>::empty(),
                i > index ==> p_start <= self.prefix_len(i as int),
                i > index ==> result@ == self@.subrange(p_start, self.prefix_len(i as int)),
                i > index ==> forall|p: int|
                    p_start <= p < self.prefix_len(i as int) ==> self@[p] != NEWLINE,
            decreases t.len() - i,
        {
            let from_local: usize = if i == index {
                offset + 1
            } else {
                0
            };
            let span_len = self.table[i].len;
            let nlines = self.table[i].lines.len();
            let sp_buffer = self.table[i].buffer;
            let sp_start = self.table[i].start;
            let ghost ii = i as int;
            let ghost sb = span_bytes(o, a, t[ii]);
            let ghost pre_len = self.prefix_len(ii);
            proof {
                assert(span_wf(o, a, t[ii]));
                assert(sb.len() == span_len);
                lemma_nl_sound(sb);
                lemma_nl_complete(sb);
                lemma_spans_split_at(o, a, t, ii);
                assert(t.skip(ii)[0] == t[ii]);
                assert(t.skip(ii).skip(1) =~= t.skip(ii + 1));
                lemma_prefix_snoc(o, a, t, ii);
                lemma_spans_split_at(o, a, t, ii + 1);
                assert(self@ == spans_bytes(o, a, t.take(ii)) + (sb + spans_bytes(
                    o,
                    a,
                    t.skip(ii + 1),
                )));
                assert(pre_len + sb.len() <= self@.len());
                assert(forall|x: int| 0 <= x < sb.len() ==> self@[pre_len + x] == sb[x]);
            }
            // Skip cached newline positions before `from_local`.
            let mut t_idx: usize = 0;
            #[verifier::loop_isolation(false)]
            while t_idx < nlines && self.table[i].lines[t_idx] < from_local
                invariant
                    t_idx <= nlines,
                    forall|u: int| 0 <= u < t_idx ==> t[ii].lines@[u] < from_local,
                decreases nlines - t_idx,
            {
                t_idx = t_idx + 1;
            }
            let ghost snl = nl_positions(sb);
            proof {
                assert(snl.len() == nlines);
                assert(forall|u: int| 0 <= u < nlines ==> snl[u] == t[ii].lines@[u] as int);
                // No newline between `from_local` and the entry found.
                let q_lim: int = if t_idx < nlines {
                    snl[t_idx as int]
                } else {
                    sb.len() as int
                };
                assert forall|p: int| from_local <= p < q_lim implies sb[p] != NEWLINE by {
                    if sb[p] == NEWLINE {
                        assert(snl.contains(p));
                        let u = choose|u: int| 0 <= u < snl.len() && snl[u] == p;
                        if u < t_idx {
                            assert(snl[u] < from_local);
                        } else {
                            assert(t_idx < nlines);
                            if u > t_idx {
                                assert(snl[t_idx as int] < snl[u]);
                            }
                            assert(snl[t_idx as int] <= snl[u]);
                        }
                    }
                }
            }
            if t_idx < nlines {
                let q = self.table[i].lines[t_idx];
                proof {
                    assert(q as int == snl[t_idx as int]);
                    assert(from_local <= q && (q as int) < sb.len() && sb[q as int] == NEWLINE);
                }
                let mut chunk = self.get_buffer_contents(
                    sp_buffer,
                    sp_start + from_local,
                    sp_start + q,
                );
                result.append(&mut chunk);
                proof {
                    let qg = pre_len + q;
                    assert(chunk@.len() == 0);
                    assert(result@ =~= self@.subrange(p_start, qg)) by {
                        assert(forall|x: int|
                            from_local <= x < q ==> buf_seq(o, a, sp_buffer).subrange(
                                sp_start + from_local,
                                sp_start + q as int,
                            )[x - from_local] == sb[x]);
                    }
                    // `qg` is the first newline at or after `p_start`.
                    assert(self@[qg] == NEWLINE);
                    assert forall|p: int| p_start <= p < qg implies self@[p] != NEWLINE by {
                        if p >= pre_len + from_local {
                            assert(self@[p] == sb[p - pre_len]);
                        }
                    }
                    lemma_next_newline_at(self@, p_start, qg);
                }
                return result;
            } else {
                let mut chunk = self.get_buffer_contents(
                    sp_buffer,
                    sp_start + from_local,
                    sp_start + span_len,
                );
                result.append(&mut chunk);
                proof {
                    assert(self.prefix_len(ii + 1) == pre_len + sb.len());
                    assert(result@ =~= self@.subrange(p_start, self.prefix_len(ii + 1))) by {
                        assert(forall|x: int|
                            from_local <= x < sb.len() ==> buf_seq(o, a, sp_buffer).subrange(
                                sp_start + from_local,
                                sp_start + span_len as int,
                            )[x - from_local] == sb[x]);
                    }
                    assert forall|p: int|
                        p_start <= p < self.prefix_len(ii + 1) implies self@[p] != NEWLINE by {
                        if p >= pre_len + from_local {
                            assert(self@[p] == sb[p - pre_len]);
                        }
                    }
                }
                i = i + 1;
            }
        }
        proof {
            assert(t.take(t.len() as int) =~= t);
            lemma_next_newline_at(self@, p_start, self@.len() as int);
        }
        result
    }

    /// Locates the `m`-th newline of the document (0-based) from the
    /// spans' caches: the span index and the newline's offset within
    /// that span. `None` when the document has at most `m` newlines.
    #[verifier::rlimit(100)]
    fn find_newline(&self, m: usize) -> (r: Option<(usize, usize, usize)>)
        requires
            self.wf(),
        ensures
            match r {
                Some(tri) => {
                    &&& (m as int) < nl_positions(self@).len()
                    &&& (tri.0 as int) < self.table@.len()
                    &&& (tri.1 as int) < self.table@[tri.0 as int].len
                    &&& self.prefix_len(tri.0 as int) + tri.1 as int == nl_positions(
                        self@,
                    )[m as int]
                    &&& tri.2 as int == nl_positions(self@)[m as int]
                },
                None => (m as int) >= nl_positions(self@).len(),
            },
    {
        let ghost o = self.original@;
        let ghost a = self.add@;
        let ghost t = self.table@;
        let mut seen: usize = 0;
        let mut current_pos: usize = 0;
        let mut i: usize = 0;
        #[verifier::loop_isolation(false)]
        while i < self.table.len()
            invariant
                i <= t.len(),
                seen as int == nl_positions(spans_bytes(o, a, t.take(i as int))).len(),
                seen <= m,
                current_pos as int == self.prefix_len(i as int),
            decreases t.len() - i,
        {
            let nlines = self.table[i].lines.len();
            let ghost ii = i as int;
            let ghost sb = span_bytes(o, a, t[ii]);
            let ghost snl = nl_positions(sb);
            let ghost pre_len = self.prefix_len(ii);
            proof {
                assert(span_wf(o, a, t[ii]));
                assert(snl.len() == nlines);
                lemma_nl_sound(sb);
                lemma_prefix_nl_snoc(o, a, t, ii);
            }
            if m - seen < nlines {
                let t_idx = m - seen;
                let q = self.table[i].lines[t_idx];
                proof {
                    assert(q as int == snl[t_idx as int]);
                    assert(0 <= snl[t_idx as int] < sb.len());
                    assert(sb.len() == t[ii].len);
                    lemma_global_nl_decomp(o, a, t, ii);
                    let shift_span = snl.map_values(|p: int| p + pre_len);
                    assert(nl_positions(self@)[seen as int + t_idx as int] == shift_span[
                        t_idx as int
                    ]);
                    lemma_spans_split_at(o, a, t, ii + 1);
                    lemma_prefix_snoc(o, a, t, ii);
                }
                return Some((i, q, current_pos + q));
            }
            seen = seen + nlines;
            proof {
                lemma_prefix_snoc(o, a, t, ii);
                lemma_spans_split_at(o, a, t, ii + 1);
            }
            current_pos = current_pos + self.table[i].len;
            i = i + 1;
        }
        proof {
            assert(t.take(t.len() as int) =~= t);
        }
        None
    }

    /// The bytes of 1-based line `line`, without its terminating
    /// newline. `None` when the table is empty, `line` is zero, or the
    /// document has fewer lines.
    #[verifier::rlimit(100)]
    pub fn get_line_content(&self, line: usize) -> (r: Option<Vec<u8>>)
        requires
            self.wf(),
        ensures
            self@.len() > 0 && 1 <= line as int <= line_count(self@) ==> (r matches Some(v)
                && v@ == line_at(self@, line as int)),
            self@.len() == 0 || line == 0 || line as int > line_count(self@) ==> r is None,
    {
        let ghost o = self.original@;
        let ghost a = self.add@;
        let ghost t = self.table@;
        if self.table.len() == 0 {
            return None;
        }
        proof {
            assert(span_wf(o, a, t[0]));
            assert(self@ == span_bytes(o, a, t[0]) + spans_bytes(o, a, t.skip(1)));
            assert(self@.len() > 0);
            lemma_nl_len_le(self@);
        }
        if line == 0 {
            return None;
        }
        if line == 1 {
            let mut result: Vec<u8> = Vec::new();
            let mut i: usize = 0;
            #[verifier::loop_isolation(false)]
            while i < self.table.len()
                invariant
                    i <= t.len(),
                    result@ == self@.take(self.prefix_len(i as int)),
                    nl_positions(spans_bytes(o, a, t.take(i as int))).len() == 0,
                decreases t.len() - i,
            {
                let nlines = self.table[i].lines.len();
                let sp_buffer = self.table[i].buffer;
                let sp_start = self.table[i].start;
                let ghost ii = i as int;
                let ghost sb = span_bytes(o, a, t[ii]);
                let ghost pre_len = self.prefix_len(ii);
                proof {
                    assert(span_wf(o, a, t[ii]));
                    assert(nl_positions(sb).len() == nlines);
                    lemma_nl_sound(sb);
                    lemma_spans_split_at(o, a, t, ii);
                    assert(t.skip(ii)[0] == t[ii]);
                    assert(t.skip(ii).skip(1) =~= t.skip(ii + 1));
                    lemma_prefix_snoc(o, a, t, ii);
                    lemma_spans_split_at(o, a, t, ii + 1);
                    assert(self@ == spans_bytes(o, a, t.take(ii)) + (sb + spans_bytes(
                        o,
                        a,
                        t.skip(ii + 1),
                    )));
                    assert(forall|x: int| 0 <= x < sb.len() ==> self@[pre_len + x] == sb[x]);
                }
                if nlines > 0 {
                    let q = self.table[i].lines[0];
                    proof {
                        assert(q as int == nl_positions(sb)[0]);
                    }
                    let mut chunk = self.get_buffer_contents(sp_buffer, sp_start, sp_start + q);
                    result.append(&mut chunk);
                    proof {
                        lemma_global_nl_decomp(o, a, t, ii);
                        let shift_span = nl_positions(sb).map_values(|p: int| p + pre_len);
                        assert(nl_positions(self@)[0] == shift_span[0]);
                        assert(nl_positions(self@).len() > 0);
                        assert(line_at(self@, 1) == self@.subrange(0, pre_len + q));
                        assert(result@ =~= self@.subrange(0, pre_len + q)) by {
                            assert(forall|x: int|
                                0 <= x < q ==> buf_seq(o, a, sp_buffer).subrange(
                                    sp_start as int,
                                    sp_start + q as int,
                                )[x] == sb[x]);
                        }
                    }
                    return Some(result);
                }
                let mut chunk = self.get_span_contents(&self.table[i]);
                result.append(&mut chunk);
                proof {
                    lemma_prefix_nl_snoc(o, a, t, ii);
                    assert(result@ =~= self@.take(self.prefix_len(ii + 1)));
                }
                i = i + 1;
            }
            proof {
                assert(t.take(t.len() as int) =~= t);
                assert(nl_positions(self@).len() == 0);
                assert(line_at(self@, 1) =~= self@);
                assert(result@ =~= self@);
            }
            return Some(result);
        }
        // line >= 2: find the newline that ends line - 1, then read to
        // the next newline.
        match self.find_newline(line - 2) {
            Some(tri) => {
                let (idx, q, _) = tri;
                let content = self.get_line_content_until_next_linebreak(idx, q);
                proof {
                    let k = line as int;
                    let ghost_p = self.prefix_len(idx as int) + q;
                    assert(ghost_p == nl_positions(self@)[k - 2]);
                    assert(k <= line_count(self@));
                    lemma_line_end_next(self@, k);
                    assert(line_start(self@, k) == ghost_p + 1);
                    assert(content@ == line_at(self@, k));
                }
                Some(content)
            },
            None => {
                proof {
                    assert(line as int - 2 >= nl_positions(self@).len());
                }
                None
            },
        }
    }

    /// Translates a 1-based line and a 0-based column to the byte
    /// offset of that position in the document. `None` when the line
    /// is out of range or the column lies past the line's end.
    pub fn get_doc_pos(&self, line: usize, column: usize) -> (r: Option<usize>)
        requires
            self.wf(),
        ensures
            1 <= line as int <= line_count(self@) && column as int <= line_at(
                self@,
                line as int,
            ).len() ==> (r matches Some(p) && p as int == line_start(self@, line as int)
                + column),
            !(1 <= line as int <= line_count(self@) && column as int <= line_at(
                self@,
                line as int,
            ).len()) ==> r is None,
    {
        if line == 0 {
            return None;
        }
        let start_pos: usize;
        if line == 1 {
            start_pos = 0;
        } else {
            match self.find_newline(line - 2) {
                Some(tri) => {
                    let (_, _, gpos) = tri;
                    proof {
                        lemma_nl_sound(self@);
                    }
                    start_pos = gpos + 1;
                },
                None => {
                    return None;
                },
            }
        }
        proof {
            assert(start_pos as int == line_start(self@, line as int));
        }
        match self.get_line_content(line) {
            Some(content) => {
                if column <= content.len() {
                    proof {
                        lemma_line_end_next(self@, line as int);
                    }
                    Some(start_pos + column)
                } else {
                    None
                }
            },
            None => {
                // Only an empty document reaches this: the single line
                // is empty, so only column zero names a position.
                if column == 0 {
                    Some(start_pos)
                } else {
                    None
                }
            },
        }
    }
}

impl Span {
    /// Assembles a span from its parts; the caller supplies the
    /// newline cache.
    pub fn new(buffer: BufferType, start: usize, len: usize, lines: Vec<usize>) -> (s: Span)
        requires
            start + len <= usize::MAX,
        ensures
            s.buffer == buffer,
            s.start == start,
            s.end == start + len,
            s.len == len,
            s.lines == lines,
    {
        Span { buffer, start, end: start + len, len, lines }
    }
}

impl Clone for Span {
    /// A field-for-field copy of the span.
    fn clone(&self) -> (r: Span)
        ensures
            r.buffer == self.buffer,
            r.start == self.start,
            r.end == self.end,
            r.len == self.len,
            r.lines@ == self.lines@,
    {
        let mut lines: Vec<usize> = Vec::new();
        let mut i: usize = 0;
        #[verifier::loop_isolation(false)]
        while i < self.lines.len()
            invariant
                i <= self.lines@.len(),
                lines@ == self.lines@.take(i as int),
            decreases self.lines@.len() - i,
        {
            lines.push(self.lines[i]);
            proof {
                assert(self.lines@.take(i as int + 1) =~= self.lines@.take(i as int).push(
                    self.lines@[i as int],
                ));
            }
            i = i + 1;
        }
        proof {
            assert(self.lines@.take(self.lines@.len() as int) =~= self.lines@);
        }
        Span { buffer: self.buffer, start: self.start, end: self.end, len: self.len, lines }
    }
}

/// Whether a byte is the line terminator.
pub fn is_newline_char(c: u8) -> (r: bool)
    ensures
        r <==> c == NEWLINE,
{
    c == 10
}

} // verus!
