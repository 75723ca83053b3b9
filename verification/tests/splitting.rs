use foodloss::splitter::{split_rows, SplitError};

fn fields(line: &[u8]) -> Vec<Vec<u8>> {
    split_rows(line).unwrap()
}

#[test]
fn splits_simple_unquoted_line() {
    assert_eq!(fields(b"a,b,c"), vec![b"a".to_vec(), b"b".to_vec(), b"c".to_vec()]);
}

#[test]
fn quoted_field_keeps_embedded_comma() {
    assert_eq!(fields(b"\"a,b\",c"), vec![b"a,b".to_vec(), b"c".to_vec()]);
}

#[test]
fn escaped_quote_kept_verbatim() {
    // the doubled quote is not collapsed in the emitted field
    assert_eq!(fields(b"\"a\"\"b\",c"), vec![b"a\"\"b".to_vec(), b"c".to_vec()]);
}

#[test]
fn trailing_delimiter_yields_empty_final_field() {
    assert_eq!(fields(b"a,b,"), vec![b"a".to_vec(), b"b".to_vec(), b"".to_vec()]);
}

#[test]
fn empty_line_yields_one_empty_field() {
    assert_eq!(fields(b""), vec![b"".to_vec()]);
}

#[test]
fn unterminated_quote_is_rejected() {
    assert_eq!(split_rows(b"\"abc"), Err(SplitError::UnterminatedQuote));
}

#[test]
fn unterminated_quote_with_more_fields_is_rejected() {
    assert_eq!(split_rows(b"a,\"bc,d"), Err(SplitError::UnterminatedQuote));
}

#[test]
fn stray_byte_after_closing_quote_is_rejected() {
    assert_eq!(
        split_rows(b"\"abc\"x,d"),
        Err(SplitError::UnexpectedCharacterAfterQuote)
    );
}

#[test]
fn quoted_field_may_close_at_end_of_line() {
    assert_eq!(fields(b"a,\"b\""), vec![b"a".to_vec(), b"b".to_vec()]);
}

#[test]
fn empty_quoted_field() {
    assert_eq!(fields(b"\"\",x"), vec![b"".to_vec(), b"x".to_vec()]);
}

#[test]
fn quote_not_at_field_start_is_literal() {
    assert_eq!(fields(b"a\"b,c"), vec![b"a\"b".to_vec(), b"c".to_vec()]);
}

#[test]
fn field_of_only_commas_inside_quotes() {
    assert_eq!(fields(b"\",,\",x"), vec![b",,".to_vec(), b"x".to_vec()]);
}

#[test]
fn multibyte_characters_do_not_shift_field_boundaries() {
    // boundaries are counted in bytes, the same unit the line is indexed by
    let line = "caf\u{e9},\u{3b2}eta".as_bytes();
    assert_eq!(
        fields(line),
        vec!["caf\u{e9}".as_bytes().to_vec(), "\u{3b2}eta".as_bytes().to_vec()]
    );
}
