//! Splitting a string into its lines.
use crate::lines::{
    breaks_before, is_line_break, lemma_next_break_is, line, line_offset, lines, CARRIAGE_RETURN,
    LINE_FEED,
};
use crate::slicing::{lemma_ascii_byte_boundaries, substring};
use vstd::prelude::*;
use vstd::string::StringSliceAdditionalSpecFns;
use vstd::utf8::{
    encode_utf8_valid_utf8, is_char_boundary, is_char_boundary_start_end_of_seq, valid_utf8,
};

verus! {

/// Tells whether the byte `b` ends a line.
pub fn ends_line(b: u8) -> (r: bool)
    ensures
        r == is_line_break(b),
{
    b == LINE_FEED || b == CARRIAGE_RETURN
}

/// The lines of `input`, in order and without their line breaks. A line feed
/// and a carriage return each end a line; empty lines are kept, so the result
/// has one line more than `input` has line breaks.
pub fn split_lines<'a>(input: &'a str) -> (found: Vec<&'a str>)
    ensures
        found@.len() == lines(input.spec_bytes()).len(),
        forall|k: int|
            0 <= k < found@.len() ==> (#[trigger] found@[k]).spec_bytes() == lines(
                input.spec_bytes(),
            )[k],
{
    let bytes = input.as_bytes();
    let n: usize = bytes.len();
    let ghost text = input.spec_bytes();
    let mut found: Vec<&'a str> = Vec::new();
    let mut from: usize = 0;
    let mut i: usize = 0;
    proof {
        encode_utf8_valid_utf8(input@);
        is_char_boundary_start_end_of_seq(text);
    }
    while i < n
        invariant
            text == input.spec_bytes(),
            bytes@ == text,
            n == text.len(),
            valid_utf8(text),
            from <= i <= n,
            is_char_boundary(text, from as int),
            from == line_offset(text, found@.len() as int),
            breaks_before(text, i as int) == found@.len(),
            forall|j: int| from <= j < i ==> !is_line_break(#[trigger] text[j]),
            forall|k: int|
                0 <= k < found@.len() ==> (#[trigger] found@[k]).spec_bytes() == line(text, k),
        decreases n - i,
    {
        if ends_line(bytes[i]) {
            proof {
                lemma_ascii_byte_boundaries(text, i as int);
                lemma_next_break_is(text, from as int, i as int);
            }
            let part = substring(input, from, i);
            found.push(part);
            from = i + 1;
        }
        i += 1;
    }
    proof {
        lemma_next_break_is(text, from as int, n as int);
    }
    let part = substring(input, from, n);
    found.push(part);
    found
}

} // verus!
