//! The line structure of a text, over its bytes.
//!
//! A text is a sequence of bytes. A line feed and a carriage return each end a
//! line, independently of one another, so `"\r\n"` ends a line and then ends an
//! empty one. A text with `n` line breaks has `n + 1` lines; the last one runs
//! to the end of the text and may be empty.
use vstd::prelude::*;

verus! {

/// The byte of a line feed.
pub const LINE_FEED: u8 = 0x0A;

/// The byte of a carriage return.
pub const CARRIAGE_RETURN: u8 = 0x0D;

/// A byte that ends a line: a line feed or a carriage return.
pub open spec fn is_line_break(b: u8) -> bool {
    b == LINE_FEED || b == CARRIAGE_RETURN
}

/// Offset of the first line break at or after `from`, or the length of `text`
/// where no line break follows.
pub open spec fn next_break(text: Seq<u8>, from: int) -> int
    recommends
        0 <= from <= text.len(),
    decreases text.len() - from,
{
    if from >= text.len() {
        text.len() as int
    } else if is_line_break(text[from]) {
        from
    } else {
        next_break(text, from + 1)
    }
}

/// Number of line breaks among the first `pos` bytes of `text`.
pub open spec fn breaks_before(text: Seq<u8>, pos: int) -> nat
    recommends
        0 <= pos <= text.len(),
    decreases pos,
{
    if pos <= 0 {
        0
    } else if is_line_break(text[pos - 1]) {
        breaks_before(text, pos - 1) + 1
    } else {
        breaks_before(text, pos - 1)
    }
}

/// Number of lines of `text`: one more than it has line breaks.
pub open spec fn line_count(text: Seq<u8>) -> nat {
    breaks_before(text, text.len() as int) + 1
}

/// Index, from 0, of the line that holds offset `pos`. A line break belongs to
/// the line that it ends.
pub open spec fn line_index(text: Seq<u8>, pos: int) -> int {
    breaks_before(text, pos) as int
}

/// Offset at which line `k` begins: 0 for the first line, and for each later
/// line the offset after the break that ends the line before it. This is the
/// cursor of a scan that adds to 0 the length of each line passed and 1 for
/// its break.
pub open spec fn line_offset(text: Seq<u8>, k: int) -> int
    recommends
        0 <= k < line_count(text),
    decreases k,
{
    if k <= 0 {
        0
    } else {
        next_break(text, line_offset(text, k - 1)) + 1
    }
}

/// Offset at which line `k` ends: that of its line break, or the length of
/// `text` for the last line.
pub open spec fn line_limit(text: Seq<u8>, k: int) -> int
    recommends
        0 <= k < line_count(text),
{
    next_break(text, line_offset(text, k))
}

/// The bytes of line `k`, without its line break.
pub open spec fn line(text: Seq<u8>, k: int) -> Seq<u8>
    recommends
        0 <= k < line_count(text),
{
    text.subrange(line_offset(text, k), line_limit(text, k))
}

/// The lines of `text`, in order.
pub open spec fn lines(text: Seq<u8>) -> Seq<Seq<u8>> {
    Seq::new(line_count(text), |k: int| line(text, k))
}

/// `next_break` lies between `from` and the end of the text, no line break
/// lies between `from` and it, and it is a line break unless it is the end.
pub proof fn lemma_next_break(text: Seq<u8>, from: int)
    requires
        0 <= from <= text.len(),
    ensures
        from <= next_break(text, from) <= text.len(),
        forall|j: int| from <= j < next_break(text, from) ==> !is_line_break(#[trigger] text[j]),
        next_break(text, from) < text.len() ==> is_line_break(text[next_break(text, from)]),
    decreases text.len() - from,
{
    if from < text.len() && !is_line_break(text[from]) {
        lemma_next_break(text, from + 1);
    }
}

/// An offset that no line break comes before, from `from` on, and that is a
/// line break or the end of the text, is `next_break(text, from)`.
pub proof fn lemma_next_break_is(text: Seq<u8>, from: int, stop: int)
    requires
        0 <= from <= stop <= text.len(),
        forall|j: int| from <= j < stop ==> !is_line_break(#[trigger] text[j]),
        stop < text.len() ==> is_line_break(text[stop]),
    ensures
        next_break(text, from) == stop,
    decreases stop - from,
{
    if from < stop {
        assert(!is_line_break(text[from]));
        lemma_next_break_is(text, from + 1, stop);
    }
}

/// The count of line breaks does not fall as the offset grows.
pub proof fn lemma_breaks_before_grows(text: Seq<u8>, a: int, b: int)
    requires
        a <= b,
    ensures
        breaks_before(text, a) <= breaks_before(text, b),
    decreases b - a,
{
    if a < b {
        lemma_breaks_before_grows(text, a, b - 1);
    }
}

/// Over a stretch without line breaks the count stays the same.
pub proof fn lemma_breaks_before_same(text: Seq<u8>, a: int, b: int)
    requires
        0 <= a <= b <= text.len(),
        forall|j: int| a <= j < b ==> !is_line_break(#[trigger] text[j]),
    ensures
        breaks_before(text, a) == breaks_before(text, b),
    decreases b - a,
{
    if a < b {
        assert(!is_line_break(text[b - 1]));
        lemma_breaks_before_same(text, a, b - 1);
    }
}

/// Every line of a text begins inside the text, after as many line breaks as
/// lines come before it, and every line but the first begins right after a
/// line break.
pub proof fn lemma_line_offset(text: Seq<u8>, k: int)
    requires
        0 <= k < line_count(text),
    ensures
        0 <= line_offset(text, k) <= text.len(),
        breaks_before(text, line_offset(text, k)) == k,
        k > 0 ==> is_line_break(text[line_offset(text, k) - 1]),
        k > 0 ==> line_offset(text, k) == line_limit(text, k - 1) + 1,
    decreases k,
{
    if k > 0 {
        lemma_line_offset(text, k - 1);
        let from = line_offset(text, k - 1);
        let stop = next_break(text, from);
        lemma_next_break(text, from);
        lemma_breaks_before_same(text, from, stop);
        assert(stop < text.len()) by {
            if stop == text.len() {
                assert(breaks_before(text, text.len() as int) == k - 1);
            }
        }
    }
}

/// A line holds no line break; it ends at a line break, or at the end of the
/// text if it is the last line.
pub proof fn lemma_line_is_maximal(text: Seq<u8>, k: int)
    requires
        0 <= k < line_count(text),
    ensures
        line_offset(text, k) <= line_limit(text, k) <= text.len(),
        line(text, k).len() == line_limit(text, k) - line_offset(text, k),
        forall|j: int| 0 <= j < line(text, k).len() ==> !is_line_break(#[trigger] line(text, k)[j]),
        k + 1 < line_count(text) <==> line_limit(text, k) < text.len(),
        line_limit(text, k) < text.len() ==> is_line_break(text[line_limit(text, k)]),
{
    lemma_line_offset(text, k);
    let from = line_offset(text, k);
    let stop = line_limit(text, k);
    lemma_next_break(text, from);
    lemma_breaks_before_same(text, from, stop);
    assert forall|j: int| 0 <= j < line(text, k).len() implies !is_line_break(
        #[trigger] line(text, k)[j],
    ) by {
        assert(line(text, k)[j] == text[from + j]);
    }
    if stop < text.len() {
        lemma_breaks_before_grows(text, stop + 1, text.len() as int);
    }
}

/// An offset lies in the line that `line_index` gives for it: between the
/// offset at which that line begins and the offset at which it ends.
pub proof fn lemma_line_index(text: Seq<u8>, pos: int)
    requires
        0 <= pos <= text.len(),
    ensures
        0 <= line_index(text, pos) < line_count(text),
        line_offset(text, line_index(text, pos)) <= pos <= line_limit(text, line_index(text, pos)),
{
    let k = line_index(text, pos);
    lemma_breaks_before_grows(text, pos, text.len() as int);
    lemma_line_offset(text, k);
    let from = line_offset(text, k);
    let stop = line_limit(text, k);
    lemma_next_break(text, from);
    if pos < from {
        lemma_breaks_before_grows(text, pos, from - 1);
    }
    if stop < pos {
        lemma_breaks_before_same(text, from, stop);
        lemma_breaks_before_grows(text, stop + 1, pos);
    }
}

/// Only one line holds a given offset: a line that begins at or before `pos`
/// and ends at or after it is the line of `line_index`.
pub proof fn lemma_line_index_is(text: Seq<u8>, pos: int, k: int)
    requires
        0 <= k < line_count(text),
        line_offset(text, k) <= pos <= line_limit(text, k),
    ensures
        line_index(text, pos) == k,
{
    lemma_line_offset(text, k);
    lemma_next_break(text, line_offset(text, k));
    lemma_breaks_before_same(text, line_offset(text, k), pos);
}

} // verus!
