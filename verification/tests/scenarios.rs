use error_reporter::report;

#[test]
fn should_display_single_character_error() {
    let input = r#"
line zero
line one
line two
line three
line four
"#;

    let output = report( input, 21, 21 );

    assert_eq!( output.display, r#"line one
line two
-^
line three
"# );
}

#[test]
fn should_display_multi_character_error() {
    let input = r#"
line zero
line one
line two
line three
line four
"#;

    let output = report( input, 21, 24 );

    assert_eq!( output.display, r#"line one
line two
-^^^^
line three
"# );
}

#[test]
fn should_display_single_character_error_at_start_of_line() {
    let input = r#"
line zero
line one
line two
line three
line four
"#;

    let output = report( input, 20, 20 );

    assert_eq!( output.display, r#"line one
line two
^
line three
"# );
}

#[test]
fn should_display_single_character_error_at_end_of_line() {
    let input = r#"
line zero
line one
line two
line three
line four
"#;

    let output = report( input, 27, 27 );

    assert_eq!( output.display, r#"line one
line two
-------^
line three
"# );
}

#[test]
fn should_display_full_line_error() {
    let input = r#"
line zero
line one
line two
line three
line four
"#;

    let output = report( input, 20, 27 );

    assert_eq!( output.display, r#"line one
line two
^^^^^^^^
line three
"# );
}

#[test]
fn should_display_single_character_error_at_end_of_file() {
    let input = r#"
line zero
line one
line two
line three
line four"#;

    let output = report( input, 48, 48 );

    assert_eq!( output.display, r#"line three
line four
--------^
"# );
}

#[test]
fn should_display_single_character_error_at_beginning_of_file() {
    let input = r#"line zero
line one
line two
line three
line four
"#;

    let output = report( input, 0, 0 );

    assert_eq!( output.display, r#"line zero
^
line one
"# );
}

#[test]
fn should_display_single_character_for_single_line() {
    let input = r#"line zero"#;

    let output = report( input, 0, 0 );

    assert_eq!( output.display, r#"line zero
^
"# );
}

#[test]
fn should_display_multi_character_a_few_characters_away_from_line_start() {
    let input = r#"
line zero
line one
line two
line three
line four
"#;

    let output = report( input, 23, 25 );

    assert_eq!( output.display, r#"line one
line two
---^^^
line three
"# );
}
