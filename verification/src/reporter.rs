//! Reporting a span of a text: the lines around it, a pointer line under it,
//! and the line and column at which it begins.
use crate::lines::{
    is_line_break, lemma_line_index_is, lemma_line_is_maximal, line, line_count, line_offset,
    lines, LINE_FEED,
};
use crate::render::{
    display_of, lemma_line_and_column_bounds, lemma_span_in_current_line, pointer_line,
    report_of, shown, valid_span, ReportView,
};
use crate::slicing::{lemma_encode_utf8_ascii, lemma_encode_utf8_concat};
use crate::split::{ends_line, split_lines};
use vstd::prelude::*;
use vstd::string::{StringExecFns, StringSliceAdditionalSpecFns};
use vstd::utf8::{encode_utf8, encode_utf8_decode_utf8};

verus! {

/// What is shown for a span of a text.
#[derive(Debug, Clone, PartialEq, Eq)]
pub struct ErrorReport {
    /// The lines around the span with the pointer line under the current
    /// line, each ended by a line feed.
    pub display: String,
    /// Number of the current line, counted from 1.
    pub line: usize,
    /// Number of the column at which the span begins, counted from 1 in bytes
    /// of the current line.
    pub column: usize,
}

impl View for ErrorReport {
    type V = ReportView;

    /// The report as a value, with the display as the bytes of its UTF-8
    /// encoding.
    open spec fn view(&self) -> ReportView {
        ReportView {
            display: encode_utf8(self.display@),
            line: self.line as nat,
            column: self.column as nat,
        }
    }
}

/// Two reports with the same view are the same: the bytes of a display
/// determine its characters.
pub proof fn lemma_view_determines_report(first: ErrorReport, second: ErrorReport)
    requires
        first@ == second@,
    ensures
        first.display@ == second.display@,
        first.line == second.line,
        first.column == second.column,
{
    encode_utf8_decode_utf8(first.display@);
    encode_utf8_decode_utf8(second.display@);
}

/// Reporting is a function of the text and the span: two reports of the same
/// span of the same text are equal, byte for byte.
pub proof fn lemma_report_is_determined(
    text: Seq<u8>,
    start: int,
    end: int,
    first: ErrorReport,
    second: ErrorReport,
)
    requires
        first@ == report_of(text, start, end),
        second@ == report_of(text, start, end),
    ensures
        first.display@ == second.display@,
        first.line == second.line,
        first.column == second.column,
{
    lemma_view_determines_report(first, second);
}

/// Tells whether `start` and `end` are a span of `input` that can be
/// reported: `start <= end`, `end` is an offset into `input`, and no line
/// break lies in the span before `end`.
pub fn is_valid_span(input: &str, start: usize, end: usize) -> (ok: bool)
    ensures
        ok == valid_span(input.spec_bytes(), start as int, end as int),
{
    let bytes = input.as_bytes();
    if start > end || end >= bytes.len() {
        return false;
    }
    let mut j: usize = start;
    while j < end
        invariant
            bytes@ == input.spec_bytes(),
            start <= j <= end < bytes@.len(),
            forall|m: int| start <= m < j ==> !is_line_break(#[trigger] bytes@[m]),
        decreases end - j,
    {
        if ends_line(bytes[j]) {
            return false;
        }
        j += 1;
    }
    true
}

/// A pointer line: `fill` hyphens, then `marks` carets.
pub fn draw_pointer(fill: usize, marks: usize) -> (pointer: String)
    ensures
        pointer@ == Seq::new(fill as nat, |i: int| '-') + Seq::new(marks as nat, |i: int| '^'),
        pointer@.len() == fill + marks,
        encode_utf8(pointer@) == pointer_line(fill as nat, marks as nat),
{
    let mut pointer = String::new();
    let mut drawn: usize = 0;
    while drawn < fill
        invariant
            drawn <= fill,
            pointer@ == Seq::new(drawn as nat, |i: int| '-'),
        decreases fill - drawn,
    {
        pointer.append("-");
        drawn += 1;
        proof {
            reveal_strlit("-");
            assert(pointer@ =~= Seq::new(drawn as nat, |i: int| '-'));
        }
    }
    drawn = 0;
    while drawn < marks
        invariant
            drawn <= marks,
            pointer@ == Seq::new(fill as nat, |i: int| '-') + Seq::new(drawn as nat, |i: int| '^'),
        decreases marks - drawn,
    {
        pointer.append("^");
        drawn += 1;
        proof {
            reveal_strlit("^");
            assert(pointer@ =~= Seq::new(fill as nat, |i: int| '-') + Seq::new(
                drawn as nat,
                |i: int| '^',
            ));
        }
    }
    proof {
        lemma_encode_utf8_ascii(pointer@);
        assert(encode_utf8(pointer@) =~= pointer_line(fill as nat, marks as nat));
    }
    pointer
}

/// Appends the line `l` and a line feed to `display`.
fn push_line(display: &mut String, l: &str)
    ensures
        encode_utf8(final(display)@) == encode_utf8(old(display)@) + shown(l.spec_bytes()),
{
    let ghost before = display@;
    display.append(l);
    display.append("\n");
    proof {
        reveal_strlit("\n");
        lemma_encode_utf8_concat(before, l@);
        lemma_encode_utf8_concat(before + l@, "\n"@);
        lemma_encode_utf8_ascii("\n"@);
        assert(encode_utf8("\n"@) =~= seq![LINE_FEED]);
        assert(encode_utf8(display@) =~= encode_utf8(before) + shown(l.spec_bytes()));
    }
}

/// Reports the span from byte offset `start` to byte offset `end`, both
/// inclusive, of `input`.
///
/// The lines of `input` are scanned in order with a cursor that starts at 0
/// and grows, for each line passed, by the length of the line and 1 for its
/// line break. The first line after which the cursor is beyond `end` is the
/// current line. The display holds the line before it if there is one, the
/// current line, the pointer line, and the line after it if there is one.
///
/// The span has to be one that `is_valid_span` accepts.
pub fn report(input: &str, start: usize, end: usize) -> (r: ErrorReport)
    requires
        valid_span(input.spec_bytes(), start as int, end as int),
    ensures
        r@ == report_of(input.spec_bytes(), start as int, end as int),
        r.column >= 1,
        1 <= r.line <= line_count(input.spec_bytes()),
{
    let ghost text = input.spec_bytes();
    let len: usize = input.as_bytes().len();
    let found = split_lines(input);
    let count: usize = found.len();
    let mut k: usize = 0;
    let mut cursor: usize = 0;
    proof {
        lemma_line_is_maximal(text, 0);
    }
    while end - cursor > found[k].len()
        invariant
            text == input.spec_bytes(),
            len == text.len(),
            end < len,
            count == line_count(text),
            count == found@.len(),
            forall|j: int|
                0 <= j < found@.len() ==> (#[trigger] found@[j]).spec_bytes() == lines(text)[j],
            k < count,
            cursor == line_offset(text, k as int),
            cursor <= end,
            line(text, k as int).len() <= len,
        decreases count - k,
    {
        proof {
            lemma_line_is_maximal(text, k as int);
        }
        cursor = cursor + found[k].len() + 1;
        k = k + 1;
        proof {
            lemma_line_is_maximal(text, k as int);
        }
    }
    proof {
        lemma_line_is_maximal(text, k as int);
        lemma_line_index_is(text, end as int, k as int);
        lemma_span_in_current_line(text, start as int, end as int);
        lemma_line_and_column_bounds(text, start as int, end as int);
    }
    let fill: usize = start - cursor;
    let marks: usize = end - start + 1;
    let pointer = draw_pointer(fill, marks);
    let mut display = String::new();
    assert(encode_utf8(display@) =~= Seq::<u8>::empty());
    if k > 0 {
        push_line(&mut display, found[k - 1]);
    }
    push_line(&mut display, found[k]);
    push_line(&mut display, pointer.as_str());
    if k + 1 < count {
        push_line(&mut display, found[k + 1]);
    }
    assert(encode_utf8(display@) =~= display_of(text, start as int, end as int));
    ErrorReport { display, line: k + 1, column: fill + 1 }
}

} // verus!
