//! What a report shows for a span of a text, stated over the bytes of the
//! text.
//!
//! A span is a pair of offsets `start` and `end`, both inclusive. The current
//! line is the line that holds `end`. The display shows the line before it if
//! there is one, the current line, a pointer line that marks the span under
//! the current line, and the line after it if there is one. Each of them ends
//! in a line feed.
use crate::lines::{
    breaks_before, is_line_break, lemma_breaks_before_grows, lemma_breaks_before_same,
    lemma_line_index, lemma_line_is_maximal, lemma_line_offset, line, line_count, line_index,
    line_limit, line_offset, lines, LINE_FEED,
};
use vstd::prelude::*;

verus! {

/// The byte that fills the pointer line up to the span: a hyphen.
pub const FILLER: u8 = 0x2D;

/// The byte that marks the span in the pointer line: a caret.
pub const MARKER: u8 = 0x5E;

/// A span that can be reported: it begins no later than it ends, it ends
/// inside the text, and it lies in one line. The line break that ends the line
/// counts as part of it, so `end`, and with it `start`, may be that line
/// break.
pub open spec fn valid_span(text: Seq<u8>, start: int, end: int) -> bool {
    &&& 0 <= start <= end < text.len()
    &&& forall|j: int| start <= j < end ==> !is_line_break(#[trigger] text[j])
}

/// Offset at which the current line begins.
pub open spec fn line_start(text: Seq<u8>, end: int) -> int {
    line_offset(text, line_index(text, end))
}

/// Offset at which the current line ends: that of its line break, or the
/// length of the text.
pub open spec fn line_end(text: Seq<u8>, end: int) -> int {
    line_limit(text, line_index(text, end))
}

/// The line before the current line, if the current line is not the first.
pub open spec fn before_line(text: Seq<u8>, end: int) -> Option<Seq<u8>> {
    if line_index(text, end) > 0 {
        Some(line(text, line_index(text, end) - 1))
    } else {
        None
    }
}

/// The current line: the line that holds `end`.
pub open spec fn current_line(text: Seq<u8>, end: int) -> Seq<u8> {
    line(text, line_index(text, end))
}

/// The line after the current line, if the current line is not the last.
pub open spec fn after_line(text: Seq<u8>, end: int) -> Option<Seq<u8>> {
    if line_index(text, end) + 1 < line_count(text) {
        Some(line(text, line_index(text, end) + 1))
    } else {
        None
    }
}

/// A pointer line: `fill` fillers, then `marks` markers.
pub open spec fn pointer_line(fill: nat, marks: nat) -> Seq<u8> {
    Seq::new(fill, |i: int| FILLER) + Seq::new(marks, |i: int| MARKER)
}

/// The pointer line of a span: a filler for each byte of the current line
/// before `start`, and a marker for each byte of the span.
pub open spec fn pointer_of(text: Seq<u8>, start: int, end: int) -> Seq<u8> {
    pointer_line((start - line_start(text, end)) as nat, (end - start + 1) as nat)
}

/// A line as the display shows it: its bytes and a line feed.
pub open spec fn shown(l: Seq<u8>) -> Seq<u8> {
    l.push(LINE_FEED)
}

/// A line that may be absent as the display shows it: nothing if it is
/// absent.
pub open spec fn shown_if_any(l: Option<Seq<u8>>) -> Seq<u8> {
    match l {
        Some(l) => shown(l),
        None => Seq::empty(),
    }
}

/// The display of a span.
pub open spec fn display_of(text: Seq<u8>, start: int, end: int) -> Seq<u8> {
    shown_if_any(before_line(text, end)) + shown(current_line(text, end)) + shown(
        pointer_of(text, start, end),
    ) + shown_if_any(after_line(text, end))
}

/// Number of the current line, counted from 1.
pub open spec fn line_number(text: Seq<u8>, end: int) -> nat {
    (line_index(text, end) + 1) as nat
}

/// Number of the column at which the span begins, counted from 1 in bytes of
/// the current line.
pub open spec fn column_number(text: Seq<u8>, start: int, end: int) -> nat {
    (start - line_start(text, end) + 1) as nat
}

/// A report as a value: the bytes of the display, the line number and the
/// column number.
pub struct ReportView {
    pub display: Seq<u8>,
    pub line: nat,
    pub column: nat,
}

/// The report of a span.
pub open spec fn report_of(text: Seq<u8>, start: int, end: int) -> ReportView {
    ReportView {
        display: display_of(text, start, end),
        line: line_number(text, end),
        column: column_number(text, start, end),
    }
}

/// A span that can be reported lies in the current line: `start` is in the
/// same line as `end`, and both lie between the offset at which that line
/// begins and the offset at which it ends.
pub proof fn lemma_span_in_current_line(text: Seq<u8>, start: int, end: int)
    requires
        valid_span(text, start, end),
    ensures
        0 <= line_index(text, end) < line_count(text),
        line_index(text, start) == line_index(text, end),
        0 <= line_start(text, end) <= start <= end <= line_end(text, end) <= text.len(),
        line_end(text, end) == line_start(text, end) + current_line(text, end).len(),
        current_line(text, end) == text.subrange(line_start(text, end), line_end(text, end)),
        current_line(text, end) == lines(text)[line_index(text, end)],
{
    let k = line_index(text, end);
    lemma_line_index(text, end);
    lemma_line_is_maximal(text, k);
    lemma_line_offset(text, k);
    lemma_breaks_before_same(text, start, end);
    if start < line_start(text, end) {
        lemma_breaks_before_grows(text, start, line_start(text, end) - 1);
        assert(breaks_before(text, line_start(text, end)) > breaks_before(text, start));
    }
}

/// The pointer line is as long as the span and the part of the current line
/// before it together: fillers up to the span, markers under it.
pub proof fn lemma_pointer_length(text: Seq<u8>, start: int, end: int)
    requires
        valid_span(text, start, end),
    ensures
        pointer_of(text, start, end).len() == (end - start + 1) + (start - line_start(text, end)),
        forall|i: int|
            0 <= i < start - line_start(text, end) ==> #[trigger] pointer_of(text, start, end)[i]
                == FILLER,
        forall|i: int|
            start - line_start(text, end) <= i < pointer_of(text, start, end).len()
                ==> #[trigger] pointer_of(text, start, end)[i] == MARKER,
{
    lemma_span_in_current_line(text, start, end);
}

/// The column number is at least 1, and the line number lies between 1 and
/// the number of lines of the text.
pub proof fn lemma_line_and_column_bounds(text: Seq<u8>, start: int, end: int)
    requires
        valid_span(text, start, end),
    ensures
        column_number(text, start, end) >= 1,
        column_number(text, start, end) == start - line_start(text, end) + 1,
        1 <= line_number(text, end) <= line_count(text),
{
    lemma_span_in_current_line(text, start, end);
}

/// A span that begins at the first byte of the text has no line before it.
pub proof fn lemma_no_line_before_first_byte(text: Seq<u8>, start: int, end: int)
    requires
        valid_span(text, start, end),
        start == 0,
    ensures
        before_line(text, end) is None,
        line_number(text, end) == 1,
        display_of(text, start, end) == shown(current_line(text, end)) + shown(
            pointer_of(text, start, end),
        ) + shown_if_any(after_line(text, end)),
{
    lemma_span_in_current_line(text, start, end);
    assert(display_of(text, start, end) =~= shown(current_line(text, end)) + shown(
        pointer_of(text, start, end),
    ) + shown_if_any(after_line(text, end)));
}

/// A span that ends at the last byte of the text has no line after it, unless
/// that byte is a line break.
pub proof fn lemma_no_line_after_last_byte(text: Seq<u8>, start: int, end: int)
    requires
        valid_span(text, start, end),
        end == text.len() - 1,
        !is_line_break(text[end]),
    ensures
        after_line(text, end) is None,
        line_number(text, end) == line_count(text),
        display_of(text, start, end) == shown_if_any(before_line(text, end)) + shown(
            current_line(text, end),
        ) + shown(pointer_of(text, start, end)),
{
    lemma_span_in_current_line(text, start, end);
    lemma_line_is_maximal(text, line_index(text, end));
    assert(display_of(text, start, end) =~= shown_if_any(before_line(text, end)) + shown(
        current_line(text, end),
    ) + shown(pointer_of(text, start, end)));
}

/// The display ends in a line feed.
pub proof fn lemma_display_ends_in_line_feed(text: Seq<u8>, start: int, end: int)
    ensures
        display_of(text, start, end).len() > 0,
        display_of(text, start, end).last() == LINE_FEED,
{
}

} // verus!
