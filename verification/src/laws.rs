//! Algebraic laws of the document model, stated over the same spec
//! functions the buffer's contracts use.
use vstd::prelude::*;

use crate::byteseq::insert_at;
use crate::byteseq::join_lines_upto;
use crate::byteseq::lemma_join_prefix;
use crate::byteseq::lemma_tally_is_positions;
use crate::byteseq::line_count;
use crate::byteseq::line_end;
use crate::byteseq::newline_tally;
use crate::byteseq::nl_positions;
use crate::byteseq::remove_range;

verus! {

/// Law: the line count is one more than the number of newline bytes,
/// so even an empty document has one line.
pub proof fn lemma_line_count_counts_newlines(s: Seq<u8>)
    ensures
        line_count(s) == 1 + newline_tally(s),
{
    lemma_tally_is_positions(s);
}

/// Law: joining the contents of every line, with a single newline
/// byte between successive lines, reproduces the document exactly.
/// When the document ends in a newline the last joined line is the
/// trailing empty one.
pub proof fn lemma_lines_reassemble(s: Seq<u8>)
    ensures
        join_lines_upto(s, line_count(s)) == s,
{
    lemma_join_prefix(s, line_count(s));
    assert(line_end(s, line_count(s)) == s.len()) by {
        assert(line_count(s) - 1 == nl_positions(s).len());
    }
    assert(s.take(s.len() as int) =~= s);
}

/// Law: inserting at offset zero prepends the new text, and inserting
/// at the document length appends it.
pub proof fn lemma_insert_at_ends(s: Seq<u8>, t: Seq<u8>)
    ensures
        insert_at(s, 0, t) == t + s,
        insert_at(s, s.len() as int, t) == s + t,
{
    assert(insert_at(s, 0, t) =~= t + s);
    assert(insert_at(s, s.len() as int, t) =~= s + t);
}

/// Law: removing `[a, b)` in one step gives the same document as
/// first removing `[c, b)` and then `[a, c)` — deleting a range is
/// independent of how it is split across spans.
pub proof fn lemma_delete_in_parts(s: Seq<u8>, a: int, c: int, b: int)
    requires
        0 <= a <= c <= b <= s.len(),
    ensures
        remove_range(remove_range(s, c, b), a, c) == remove_range(s, a, b),
{
    assert(remove_range(remove_range(s, c, b), a, c) =~= remove_range(s, a, b));
}

} // verus!
