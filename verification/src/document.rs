//! The document facade: a piece table together with the line-range
//! queries and the coordinate-based insert the editor works with.
//! Reading a file and writing one back are the caller's business;
//! the facade speaks plain bytes.
use vstd::prelude::*;

use crate::buffer::TextBuffer;
use crate::byteseq::insert_at;
use crate::byteseq::lemma_line_end_next;
use crate::byteseq::line_at;
use crate::byteseq::line_count;
use crate::byteseq::line_start;

verus! {

/// A document the editor edits: the piece table holding its text.
#[derive(Debug)]
pub struct Document {
    pub buffer: TextBuffer,
}

impl View for Document {
    type V = Seq<u8>;

    /// The document's text.
    open spec fn view(&self) -> Seq<u8> {
        self.buffer@
    }
}

impl Document {
    /// Well-formedness of the underlying piece table.
    pub open spec fn wf(&self) -> bool {
        self.buffer.wf()
    }

    /// An empty document.
    pub fn new() -> (r: Document)
        ensures
            r.wf(),
            r@ == Seq::<u8>::empty(),
    {
        Document { buffer: TextBuffer::new(None) }
    }

    /// A document over the given initial text: what loading a file
    /// produces once its bytes are in hand.
    pub fn from_text(text: Vec<u8>) -> (r: Document)
        requires
            text@.len() < usize::MAX,
        ensures
            r.wf(),
            r@ == text@,
    {
        Document { buffer: TextBuffer::new(Some(text)) }
    }

    /// Document length in bytes.
    pub fn len(&self) -> (r: usize)
        requires
            self.wf(),
        ensures
            r as int == self@.len(),
    {
        self.buffer.doc_len()
    }

    /// Number of lines of the document.
    pub fn line_count(&self) -> (r: usize)
        requires
            self.wf(),
        ensures
            r as int == line_count(self@),
    {
        self.buffer.get_line_count()
    }

    /// The whole document, materialized: what a save writes out.
    pub fn text(&self) -> (r: Vec<u8>)
        requires
            self.wf(),
        ensures
            r@ == self@,
    {
        self.buffer.text()
    }

    /// The first line number `get_lines` can return for a range
    /// starting at `start`: line numbers begin at one.
    pub open spec fn lines_lo(start: int) -> int {
        if start < 1 {
            1
        } else {
            start
        }
    }

    /// One past the last line number `get_lines` can return for a
    /// range ending at `end` on document `s`.
    pub open spec fn lines_hi(s: Seq<u8>, end: int) -> int {
        if end > line_count(s) + 1 {
            line_count(s) + 1
        } else {
            end
        }
    }

    /// The contents of each line in `[start, end)` that exists, in
    /// order; lines past the end of the document are silently
    /// omitted, and an empty document yields no lines.
    pub fn get_lines(&self, start: usize, end: usize) -> (r: Vec<Vec<u8>>)
        requires
            self.wf(),
        ensures
            self@.len() == 0 ==> r@.len() == 0,
            self@.len() > 0 ==> {
                let lo = Self::lines_lo(start as int);
                let hi = Self::lines_hi(self@, end as int);
                &&& r@.len() == if lo < hi {
                    hi - lo
                } else {
                    0
                }
                &&& forall|n: int| 0 <= n < r@.len() ==> #[trigger] r@[n]@ == line_at(self@, lo + n)
            },
    {
        let ghost lo = Self::lines_lo(start as int);
        let ghost hi = Self::lines_hi(self@, end as int);
        let mut results: Vec<Vec<u8>> = Vec::new();
        if start >= end {
            return results;
        }
        let mut line = start;
        #[verifier::loop_isolation(false)]
        while line < end
            invariant
                start <= line <= end,
                self@.len() == 0 ==> results@.len() == 0,
                self@.len() > 0 ==> {
                    let hi_k = Self::lines_hi(self@, line as int);
                    &&& results@.len() == if lo < hi_k {
                        hi_k - lo
                    } else {
                        0
                    }
                    &&& forall|n: int|
                        0 <= n < results@.len() ==> #[trigger] results@[n]@ == line_at(
                            self@,
                            lo + n,
                        )
                },
            decreases end - line,
        {
            match self.buffer.get_line_content(line) {
                Some(content) => {
                    results.push(content);
                },
                None => {},
            }
            line = line + 1;
        }
        results
    }

    /// Inserts one byte at the given 1-based line and 0-based column;
    /// coordinates that name no position in the document are silently
    /// ignored.
    pub fn insert(&mut self, line: usize, column: usize, c: u8)
        requires
            old(self).wf(),
            old(self)@.len() + 1 < usize::MAX,
        ensures
            final(self).wf(),
            ({
                let k = line as int;
                if 1 <= k <= line_count(old(self)@) && column as int <= line_at(
                    old(self)@,
                    k,
                ).len() {
                    final(self)@ == insert_at(
                        old(self)@,
                        line_start(old(self)@, k) + column,
                        seq![c],
                    )
                } else {
                    final(self)@ == old(self)@
                }
            }),
    {
        match self.buffer.get_doc_pos(line, column) {
            Some(pos) => {
                proof {
                    lemma_line_end_next(old(self)@, line as int);
                }
                let mut tv: Vec<u8> = Vec::new();
                tv.push(c);
                proof {
                    assert(tv@ =~= seq![c]);
                }
                let _ = self.buffer.insert(pos, tv.as_slice());
            },
            None => {},
        }
    }
}

} // verus!
