use error_reporter::{is_valid_span, report, ErrorReport};

const DOCUMENT: &str = "\nline zero\nline one\nline two\nline three\nline four\n";

/// The lines of a display, without the empty piece after its last line feed.
fn shown_lines(display: &str) -> Vec<&str> {
    let mut pieces: Vec<&str> = display.split('\n').collect();
    assert_eq!(pieces.pop(), Some(""));
    pieces
}

/// Offset at which the line that holds `end` begins.
fn line_start(input: &str, end: usize) -> usize {
    let bytes = input.as_bytes();
    let mut at = end;
    while at > 0 && bytes[at - 1] != b'\n' && bytes[at - 1] != b'\r' {
        at -= 1;
    }
    at
}

/// The report written down step by step: split, scan with a cursor, put the
/// display together.
fn report_by_hand(input: &str, start: usize, end: usize) -> ErrorReport {
    let lines: Vec<&str> = input.split(|c| c == '\n' || c == '\r').collect();
    let mut cursor = 0;
    let mut current = 0;
    while cursor + lines[current].len() + 1 <= end {
        cursor += lines[current].len() + 1;
        current += 1;
    }
    let mut display = String::new();
    if current > 0 {
        display.push_str(lines[current - 1]);
        display.push('\n');
    }
    display.push_str(lines[current]);
    display.push('\n');
    display.push_str(&"-".repeat(start - cursor));
    display.push_str(&"^".repeat(end - start + 1));
    display.push('\n');
    if current + 1 < lines.len() {
        display.push_str(lines[current + 1]);
        display.push('\n');
    }
    ErrorReport { display, line: current + 1, column: start - cursor + 1 }
}

/// Checks every span of `input` that can be reported against the report
/// written down step by step, and returns how many there are.
fn check_every_span(input: &str) -> usize {
    let mut checked = 0;
    for start in 0..input.len() {
        for end in start..input.len() {
            if is_valid_span(input, start, end) {
                assert_eq!(report(input, start, end), report_by_hand(input, start, end));
                checked += 1;
            }
        }
    }
    checked
}

#[test]
fn line_and_column_of_a_span_inside_a_line() {
    let output = report(DOCUMENT, 21, 24);
    assert_eq!(output.line, 4);
    assert_eq!(output.column, 2);
}

#[test]
fn line_and_column_of_a_span_at_the_start_of_a_line() {
    let output = report(DOCUMENT, 20, 27);
    assert_eq!(output.line, 4);
    assert_eq!(output.column, 1);
}

#[test]
fn line_and_column_of_a_span_at_the_end_of_a_line() {
    let output = report(DOCUMENT, 27, 27);
    assert_eq!(output.line, 4);
    assert_eq!(output.column, 8);
}

#[test]
fn line_and_column_of_the_first_byte() {
    let output = report("line zero", 0, 0);
    assert_eq!(output, ErrorReport { display: "line zero\n^\n".to_string(), line: 1, column: 1 });
}

#[test]
fn line_and_column_of_the_last_byte() {
    let input = "\nline zero\nline one\nline two\nline three\nline four";
    let output = report(input, 48, 48);
    assert_eq!(output.line, 6);
    assert_eq!(output.column, 9);
}

#[test]
fn whole_report_of_a_span() {
    let output = report(DOCUMENT, 23, 25);
    let expected = ErrorReport {
        display: "line one\nline two\n---^^^\nline three\n".to_string(),
        line: 4,
        column: 4,
    };
    assert_eq!(output, expected);
}

#[test]
fn pointer_line_is_as_long_as_the_span_and_what_comes_before_it() {
    for (start, end) in [(21, 21), (21, 24), (20, 20), (20, 27), (27, 27), (23, 25), (1, 9)] {
        let output = report(DOCUMENT, start, end);
        let lines = shown_lines(&output.display);
        let pointer = lines[2];
        let before_span = start - line_start(DOCUMENT, end);
        assert_eq!(pointer.len(), (end - start + 1) + before_span);
        assert_eq!(pointer, format!("{}{}", "-".repeat(before_span), "^".repeat(end - start + 1)));
    }
}

#[test]
fn pointer_line_of_a_whole_line_has_no_filler() {
    let output = report("ab\ncdef\ngh", 3, 6);
    assert_eq!(output.display, "ab\ncdef\n^^^^\ngh\n");
}

#[test]
fn span_lies_in_the_current_line() {
    for (start, end) in [(21, 21), (21, 24), (20, 27), (23, 25), (11, 18), (40, 44)] {
        let output = report(DOCUMENT, start, end);
        let lines = shown_lines(&output.display);
        let current = lines[1];
        let from = line_start(DOCUMENT, end);
        assert_eq!(line_start(DOCUMENT, start), from);
        assert!(from <= start && end < from + current.len());
        assert_eq!(&DOCUMENT[from..from + current.len()], current);
        assert_eq!(output.column, start - from + 1);
    }
}

#[test]
fn line_and_column_are_counted_from_one() {
    let line_count = DOCUMENT.split(|c| c == '\n' || c == '\r').count();
    for end in 0..DOCUMENT.len() {
        let output = report(DOCUMENT, end, end);
        assert!(output.column >= 1);
        assert!(output.line >= 1 && output.line <= line_count);
    }
    assert_eq!(report(DOCUMENT, 0, 0).line, 1);
    assert_eq!(report(DOCUMENT, DOCUMENT.len() - 1, DOCUMENT.len() - 1).line, line_count - 1);
}

#[test]
fn reporting_twice_gives_the_same_report() {
    for (start, end) in [(0, 0), (21, 24), (20, 27), (49, 49)] {
        let first = report(DOCUMENT, start, end);
        let second = report(DOCUMENT, start, end);
        assert_eq!(first, second);
        assert_eq!(first.display.as_bytes(), second.display.as_bytes());
    }
}

#[test]
fn span_at_the_first_byte_has_no_line_before() {
    let output = report("line zero\nline one\nline two", 0, 3);
    assert_eq!(output.display, "line zero\n^^^^\nline one\n");
    assert_eq!(output.line, 1);
}

#[test]
fn span_at_the_last_byte_has_no_line_after() {
    let output = report("line zero\nline one\nline two", 23, 26);
    assert_eq!(output.display, "line one\nline two\n----^^^^\n");
    assert_eq!(output.line, 3);
}

#[test]
fn span_at_a_last_line_break_has_an_empty_line_after() {
    let output = report("ab\n", 2, 2);
    assert_eq!(output, ErrorReport { display: "ab\n--^\n\n".to_string(), line: 1, column: 3 });
}

#[test]
fn span_may_end_at_the_line_break_of_its_line() {
    let output = report("ab\ncd", 1, 2);
    assert_eq!(output, ErrorReport { display: "ab\n-^^\ncd\n".to_string(), line: 1, column: 2 });
}

#[test]
fn single_line_has_neither_line_before_nor_after() {
    let output = report("line zero", 5, 8);
    assert_eq!(output.display, "line zero\n-----^^^^\n");
    assert_eq!(shown_lines(&output.display).len(), 2);
}

#[test]
fn display_ends_in_a_line_feed() {
    for (start, end) in [(0, 0), (21, 24), (49, 49)] {
        assert!(report(DOCUMENT, start, end).display.ends_with('\n'));
    }
    assert!(report("x", 0, 0).display.ends_with('\n'));
}

#[test]
fn display_has_one_of_four_shapes() {
    assert_eq!(shown_lines(&report("b", 0, 0).display), vec!["b", "^"]);
    assert_eq!(shown_lines(&report("b\nc", 0, 0).display), vec!["b", "^", "c"]);
    assert_eq!(shown_lines(&report("a\nb", 2, 2).display), vec!["a", "b", "^"]);
    assert_eq!(shown_lines(&report("a\nb\nc", 2, 2).display), vec!["a", "b", "^", "c"]);
}

#[test]
fn carriage_return_ends_a_line() {
    let output = report("ab\rcd", 3, 4);
    assert_eq!(output, ErrorReport { display: "ab\ncd\n^^\n".to_string(), line: 2, column: 1 });
}

#[test]
fn carriage_return_and_line_feed_end_two_lines() {
    let output = report("ab\r\ncd", 4, 4);
    assert_eq!(output, ErrorReport { display: "\ncd\n^\n".to_string(), line: 3, column: 1 });
    let output = report("ab\r\ncd", 3, 3);
    assert_eq!(output, ErrorReport { display: "ab\n\n^\ncd\n".to_string(), line: 2, column: 1 });
}

#[test]
fn empty_current_line_is_shown_empty() {
    let output = report("a\n\nb", 2, 2);
    assert_eq!(output, ErrorReport { display: "a\n\n^\nb\n".to_string(), line: 2, column: 1 });
}

#[test]
fn columns_count_bytes() {
    let input = "h\u{e9}llo\nw\u{f6}rld";
    let output = report(input, 10, 10);
    let expected = ErrorReport {
        display: "h\u{e9}llo\nw\u{f6}rld\n---^\n".to_string(),
        line: 2,
        column: 4,
    };
    assert_eq!(output, expected);
}

#[test]
fn span_inside_a_character_is_reported_by_its_bytes() {
    let input = "a\u{20ac}b";
    let output = report(input, 1, 3);
    assert_eq!(output, ErrorReport { display: "a\u{20ac}b\n-^^^\n".to_string(), line: 1, column: 2 });
    let output = report(input, 2, 2);
    assert_eq!(output.display, "a\u{20ac}b\n--^\n");
}

#[test]
fn every_span_agrees_with_the_report_written_by_hand() {
    assert_eq!(check_every_span("line zero"), 45);
    assert_eq!(check_every_span("a\nb"), 4);
    assert!(check_every_span(DOCUMENT) > 0);
    assert!(check_every_span("\r\n\r\nab\r\n\ncd\r") > 0);
    assert!(check_every_span("\n\n\n") > 0);
    assert!(check_every_span("h\u{e9}llo\nw\u{f6}rld\n\u{20ac}") > 0);
}

#[test]
fn valid_span_begins_before_it_ends() {
    assert!(is_valid_span("line zero", 3, 3));
    assert!(is_valid_span("line zero", 3, 4));
    assert!(!is_valid_span("line zero", 4, 3));
}

#[test]
fn valid_span_ends_inside_the_text() {
    assert!(is_valid_span("line zero", 0, 8));
    assert!(!is_valid_span("line zero", 0, 9));
    assert!(!is_valid_span("line zero", 9, 9));
    assert!(!is_valid_span("line zero", 20, 30));
    assert!(!is_valid_span("", 0, 0));
}

#[test]
fn valid_span_lies_in_one_line() {
    assert!(is_valid_span("ab\ncd", 0, 1));
    assert!(is_valid_span("ab\ncd", 0, 2));
    assert!(is_valid_span("ab\ncd", 2, 2));
    assert!(is_valid_span("ab\ncd", 3, 4));
    assert!(!is_valid_span("ab\ncd", 0, 3));
    assert!(!is_valid_span("ab\ncd", 2, 3));
    assert!(!is_valid_span("ab\rcd", 1, 4));
    assert!(!is_valid_span("\n\n", 0, 1));
}
