use dotenv::{Dotenv, Exception};

#[test]
fn parse_no_quotes() {
    let mut dotenv = Dotenv::new();
    let values = dotenv.parse("FOO=bar", ".env").unwrap();
    assert_eq!(values.get("FOO").unwrap(), "bar");
}

#[test]
fn parse_single_quotes() {
    let mut dotenv = Dotenv::new();
    let values = dotenv.parse("FOO='bar'", ".env").unwrap();
    assert_eq!(values.get("FOO").unwrap(), "bar");
}

#[test]
fn parse_single_quotes_concatenation() {
    let mut dotenv = Dotenv::new();
    let values = dotenv.parse("FOO='bar'\\''baz'", ".env").unwrap();
    assert_eq!(values.get("FOO").unwrap(), "bar'baz");
}

#[test]
fn parse_double_quotes() {
    let mut dotenv = Dotenv::new();
    let values = dotenv.parse("FOO=\"bar\"", ".env").unwrap();
    assert_eq!(values.get("FOO").unwrap(), "bar");
}

#[test]
fn parse_double_quotes_escaped_quotes() {
    let mut dotenv = Dotenv::new();
    let values = dotenv.parse("FOO=\"bar\\\"baz\"", ".env").unwrap();
    assert_eq!(values.get("FOO").unwrap(), "bar\"baz");
}

#[test]
fn parse_double_quotes_newlines() {
    let mut dotenv = Dotenv::new();
    let values = dotenv.parse("FOO=\"bar\\r\\nbaz\"", ".env").unwrap();
    assert_eq!(values.get("FOO").unwrap(), "bar\r\nbaz");
}

#[test]
fn parse_double_quotes_slashes() {
    let mut dotenv = Dotenv::new();
    let values = dotenv.parse("FOO=\"bar\\\\baz\"", ".env").unwrap();
    assert_eq!(values.get("FOO").unwrap(), "bar\\baz");
}

#[test]
fn parse_export() {
    let mut dotenv = Dotenv::new();
    let values = dotenv.parse("export FOO=bar", ".env").unwrap();
    assert_eq!(values.get("FOO").unwrap(), "bar");
}

#[test]
fn parse_adjacent_quoted_segments_concatenate() {
    let mut dotenv = Dotenv::new();
    let values = dotenv.parse("FOO='bar''baz'", ".env").unwrap();
    assert_eq!(values.get("FOO").unwrap(), "barbaz");
}

#[test]
fn parse_mixed_segments_concatenate() {
    let mut dotenv = Dotenv::new();
    let values = dotenv.parse("FOO='bar'baz", ".env").unwrap();
    assert_eq!(values.get("FOO").unwrap(), "barbaz");
}

#[test]
fn parse_empty_value() {
    let mut dotenv = Dotenv::new();
    let values = dotenv.parse("FOO=", ".env").unwrap();
    assert_eq!(values.get("FOO").unwrap(), "");
}

#[test]
fn parse_empty_value_with_comment() {
    let mut dotenv = Dotenv::new();
    let values = dotenv.parse("FOO=  # nothing here\nBAR=baz", ".env").unwrap();
    assert_eq!(values.get("FOO").unwrap(), "");
    assert_eq!(values.get("BAR").unwrap(), "baz");
}

#[test]
fn parse_trailing_comment() {
    let mut dotenv = Dotenv::new();
    let values = dotenv.parse("FOO=bar # a comment", ".env").unwrap();
    assert_eq!(values.get("FOO").unwrap(), "bar");
}

#[test]
fn parse_blank_lines_and_comments() {
    let mut dotenv = Dotenv::new();
    let values = dotenv.parse("# header\n\nFOO=bar\n\n# tail\nBAR=baz\n", ".env").unwrap();
    assert_eq!(values.get("FOO").unwrap(), "bar");
    assert_eq!(values.get("BAR").unwrap(), "baz");
}

#[test]
fn parse_last_occurrence_wins() {
    let mut dotenv = Dotenv::new();
    let values = dotenv.parse("FOO=1\nFOO=2", ".env").unwrap();
    assert_eq!(values.get("FOO").unwrap(), "2");
}

#[test]
fn parse_empty_buffer() {
    let mut dotenv = Dotenv::new();
    let values = dotenv.parse("", ".env").unwrap();
    assert!(values.get("FOO").is_none());
}

#[test]
fn parse_crlf_normalized() {
    let mut dotenv = Dotenv::new();
    let values = dotenv.parse("FOO=bar\r\nBAR=baz\r\n", ".env").unwrap();
    assert_eq!(values.get("FOO").unwrap(), "bar");
    assert_eq!(values.get("BAR").unwrap(), "baz");
}

fn format_error(result: Result<dotenv::EnvMap, Exception>) -> (String, String, usize) {
    match result {
        Err(Exception::FormatException(message, path, line_number)) => {
            (message, path, line_number)
        }
        Err(Exception::PathException(_)) => panic!("expected a format error"),
        Ok(_) => panic!("expected an error"),
    }
}

#[test]
fn parse_unquoted_value_with_space_is_rejected() {
    let mut dotenv = Dotenv::new();
    let (message, path, line_number) = format_error(dotenv.parse("FOO=bar baz", ".env"));
    assert_eq!(message, "A value containing spaces must be surrounded by quotes");
    assert_eq!(path, ".env");
    assert_eq!(line_number, 1);
}

#[test]
fn parse_whitespace_after_name_is_rejected() {
    let mut dotenv = Dotenv::new();
    let (message, _, line_number) = format_error(dotenv.parse("FOO =bar", ".env"));
    assert_eq!(message, "Whitespace characters are not supported after the variable name");
    assert_eq!(line_number, 1);
}

#[test]
fn parse_missing_equals_is_rejected() {
    let mut dotenv = Dotenv::new();
    let (message, _, _) = format_error(dotenv.parse("FOO", ".env"));
    assert_eq!(message, "Missing = in the environment variable declaration");
}

#[test]
fn parse_export_without_value_is_rejected() {
    let mut dotenv = Dotenv::new();
    let (message, _, _) = format_error(dotenv.parse("export FOO", ".env"));
    assert_eq!(message, "Unable to unset an environment variable");
}

#[test]
fn parse_whitespace_before_value_is_rejected() {
    let mut dotenv = Dotenv::new();
    let (message, _, _) = format_error(dotenv.parse("FOO= bar\nBAR=baz", ".env"));
    assert_eq!(message, "Whitespace are not supported before the value");
}

#[test]
fn parse_missing_closing_quote_is_rejected() {
    let mut dotenv = Dotenv::new();
    let (message, _, _) = format_error(dotenv.parse("FOO='bar", ".env"));
    assert_eq!(message, "Missing quote to end the value");
}

#[test]
fn parse_invalid_name_is_rejected() {
    let mut dotenv = Dotenv::new();
    let (message, _, _) = format_error(dotenv.parse("1FOO=bar", ".env"));
    assert_eq!(message, "Invalid character in variable name");
}

#[test]
fn parse_error_reports_third_line() {
    let mut dotenv = Dotenv::new();
    let (message, path, line_number) =
        format_error(dotenv.parse("FOO=bar\nBAR=baz\nOOPS\n", ".env"));
    assert_eq!(message, "Missing = in the environment variable declaration");
    assert_eq!(path, ".env");
    assert_eq!(line_number, 3);
}

#[test]
fn parse_error_line_counts_normalized_newlines() {
    let mut dotenv = Dotenv::new();
    let (_, _, line_number) = format_error(dotenv.parse("FOO=bar\r\n\r\nOOPS", ".env"));
    assert_eq!(line_number, 3);
}

#[test]
fn parse_double_quotes_single_character() {
    let mut dotenv = Dotenv::new();
    let values = dotenv.parse("FOO=\"b\"", ".env").unwrap();
    assert_eq!(values.get("FOO").unwrap(), "b");
}

#[test]
fn parse_double_quotes_empty() {
    let mut dotenv = Dotenv::new();
    let values = dotenv.parse("FOO=\"\"", ".env").unwrap();
    assert_eq!(values.get("FOO").unwrap(), "");
}

#[test]
fn parse_double_quotes_escaped_backslash_before_closing_quote() {
    let mut dotenv = Dotenv::new();
    let values = dotenv.parse("FOO=\"a\\\\\"", ".env").unwrap();
    assert_eq!(values.get("FOO").unwrap(), "a\\");
}

#[test]
fn parse_single_quotes_empty() {
    let mut dotenv = Dotenv::new();
    let values = dotenv.parse("FOO=''", ".env").unwrap();
    assert_eq!(values.get("FOO").unwrap(), "");
}

#[test]
fn parse_comment_directly_after_equals_gives_empty_value() {
    let mut dotenv = Dotenv::new();
    let values = dotenv.parse("FOO=# note\nBAR=baz", ".env").unwrap();
    assert_eq!(values.get("FOO").unwrap(), "");
    assert_eq!(values.get("BAR").unwrap(), "baz");
}

#[test]
fn parse_blank_after_equals_gives_empty_value() {
    let mut dotenv = Dotenv::new();
    let values = dotenv.parse("FOO= \nBAR=baz", ".env").unwrap();
    assert_eq!(values.get("FOO").unwrap(), "");
    assert_eq!(values.get("BAR").unwrap(), "baz");
}

#[test]
fn parse_hash_without_preceding_blank_is_no_comment() {
    let mut dotenv = Dotenv::new();
    let values = dotenv.parse("FOO=bar#baz", ".env").unwrap();
    assert_eq!(values.get("FOO").unwrap(), "bar#baz");
}

#[test]
fn parse_hash_directly_after_quoted_segment_is_no_comment() {
    let mut dotenv = Dotenv::new();
    let values = dotenv.parse("FOO='bar'#baz", ".env").unwrap();
    assert_eq!(values.get("FOO").unwrap(), "bar#baz");
}

#[test]
fn parse_export_without_blank_is_part_of_the_name() {
    let mut dotenv = Dotenv::new();
    let values = dotenv.parse("exportFOO=bar", ".env").unwrap();
    assert_eq!(values.get("exportFOO").unwrap(), "bar");
    assert!(values.get("FOO").is_none());
}

#[test]
fn parse_export_followed_by_equals_reads_export_as_name() {
    let mut dotenv = Dotenv::new();
    let (message, _, _) = format_error(dotenv.parse("export =bar", ".env"));
    assert_eq!(message, "Whitespace characters are not supported after the variable name");
}

#[test]
fn parse_escaped_quote_in_bare_value() {
    let mut dotenv = Dotenv::new();
    let values = dotenv.parse("FOO=bar\\'baz", ".env").unwrap();
    assert_eq!(values.get("FOO").unwrap(), "bar'baz");
}

#[test]
fn parse_doubled_backslash_in_bare_value_collapses() {
    let mut dotenv = Dotenv::new();
    let values = dotenv.parse("FOO=bar\\\\baz", ".env").unwrap();
    assert_eq!(values.get("FOO").unwrap(), "bar\\baz");
}

#[test]
fn parse_single_quotes_take_content_literally() {
    let mut dotenv = Dotenv::new();
    let values = dotenv.parse("FOO='bar\\nbaz'", ".env").unwrap();
    assert_eq!(values.get("FOO").unwrap(), "bar\\nbaz");
}

#[test]
fn parse_crlf_and_lf_forms_agree() {
    let mut dotenv = Dotenv::new();
    let lf = format_error(dotenv.parse("A=1\nB=2\nC C=3", ".env"));
    let crlf = format_error(dotenv.parse("A=1\r\nB=2\r\nC C=3", ".env"));
    assert_eq!(lf, crlf);
    assert_eq!(lf.2, 3);
}

#[test]
fn exception_text_formats_message_path_and_line() {
    let mut dotenv = Dotenv::new();
    let err = match dotenv.parse("FOO=bar\nBAR=baz\nOOPS\n", ".env") {
        Err(e) => e,
        Ok(_) => panic!("expected an error"),
    };
    assert_eq!(
        err.text(),
        "Missing = in the environment variable declaration in \".env\" at line 3"
    );
}

#[test]
fn exception_text_formats_multi_digit_line_numbers() {
    let mut buffer = String::new();
    let mut i = 0;
    while i < 11 {
        buffer.push_str("A=1\n");
        i += 1;
    }
    buffer.push_str("OOPS");
    let mut dotenv = Dotenv::new();
    let err = match dotenv.parse(&buffer, ".env") {
        Err(e) => e,
        Ok(_) => panic!("expected an error"),
    };
    assert_eq!(
        err.text(),
        "Missing = in the environment variable declaration in \".env\" at line 12"
    );
}

#[test]
fn exception_text_for_unreadable_file() {
    let err = Exception::PathException(String::from(".env.missing"));
    assert_eq!(err.text(), "Unable to read the \".env.missing\" environment file.");
}

#[test]
fn parse_is_pure_across_calls() {
    let mut dotenv = Dotenv::new();
    let first = dotenv.parse("FOO=bar\nBAR='b a z'\nQUX=\"q\\nx\"", ".env").unwrap();
    let second = dotenv.parse("FOO=bar\nBAR='b a z'\nQUX=\"q\\nx\"", ".env").unwrap();
    for name in ["FOO", "BAR", "QUX"] {
        assert_eq!(first.get(name).unwrap(), second.get(name).unwrap());
    }
    let mut other = Dotenv::new();
    let third = other.parse("FOO=bar\nBAR='b a z'\nQUX=\"q\\nx\"", ".env").unwrap();
    assert_eq!(first.get("BAR").unwrap(), third.get("BAR").unwrap());
}
