use csvstream::parser::{CsvError, Parser, ParserOptions, ParserState};
use csvstream::session::CsvParser;

fn no_options() -> ParserOptions {
    ParserOptions {
        delimiter: None,
        quote: None,
        escape: None,
        has_headers: None,
        chunk_size: None,
        buffer_capacity: None,
    }
}

fn parse_all(input: &[u8]) -> Result<Vec<Vec<String>>, CsvError> {
    let parser = CsvParser::new(None);
    parser.parse_chunks(&vec![input.to_vec()])
}

fn records(input: &[u8]) -> Vec<Vec<String>> {
    parse_all(input).expect("parse failed")
}

fn rec(fields: &[&str]) -> Vec<String> {
    fields.iter().map(|f| f.to_string()).collect()
}

#[test]
fn defaults_are_applied() {
    let p = Parser::new(&no_options());
    assert_eq!(p.delimiter, b',');
    assert_eq!(p.quote, b'"');
    assert_eq!(p.escape, b'\\');
    assert!(p.has_headers);
    assert_eq!(p.chunk_size, 1024 * 1024);
    assert_eq!(p.buffer_capacity, 8192);
}

#[test]
fn options_override_defaults() {
    let p = Parser::new(&ParserOptions {
        delimiter: Some(b';'),
        quote: Some(b'\''),
        escape: Some(b'~'),
        has_headers: Some(false),
        chunk_size: Some(64),
        buffer_capacity: Some(32),
    });
    assert_eq!(p.delimiter, b';');
    assert_eq!(p.quote, b'\'');
    assert_eq!(p.escape, b'~');
    assert!(!p.has_headers);
    assert_eq!(p.chunk_size, 64);
    assert_eq!(p.buffer_capacity, 32);
}

#[test]
fn simple_rows_split_like_naive_split() {
    assert_eq!(
        records(b"x,y\n,z\n\n q,\n"),
        vec![rec(&["x", "y"]), rec(&["", "z"]), rec(&[" q", ""])]
    );
}

#[test]
fn two_plain_records() {
    assert_eq!(records(b"a,b\nc,d\n"), vec![rec(&["a", "b"]), rec(&["c", "d"])]);
}

#[test]
fn quoted_field_keeps_delimiter() {
    assert_eq!(records(b"\"a,b\",c\n"), vec![rec(&["a,b", "c"])]);
}

#[test]
fn quoted_field_keeps_newline_and_crlf() {
    assert_eq!(records(b"\"a\nb\"\n"), vec![rec(&["a\nb"])]);
    assert_eq!(records(b"\"a\r\nb\"\n"), vec![rec(&["a\r\nb"])]);
}

#[test]
fn escaped_quote_inside_quotes() {
    // "x\"y",z  with default escape: one field holding x"y
    assert_eq!(records(b"\"x\\\"y\",z\n"), vec![rec(&["x\"y", "z"])]);
}

#[test]
fn escaped_delimiter_outside_quotes() {
    assert_eq!(records(b"a\\,b\n"), vec![rec(&["a,b"])]);
}

#[test]
fn crlf_and_lf_terminate_alike() {
    assert_eq!(records(b"a\r\nb\n"), records(b"a\nb\n"));
    assert_eq!(records(b"a\r\nb\n"), vec![rec(&["a"]), rec(&["b"])]);
}

#[test]
fn cr_alone_terminates() {
    assert_eq!(records(b"a\rb\n"), vec![rec(&["a"]), rec(&["b"])]);
}

#[test]
fn blank_records_are_dropped() {
    assert_eq!(records(b"  ,\t\nx\n"), vec![rec(&["x"])]);
    assert_eq!(records(b"\n\n\n"), Vec::<Vec<String>>::new());
}

#[test]
fn unicode_whitespace_record_is_dropped() {
    // a no-break space is whitespace: the record is blank and dropped
    assert_eq!(records("\u{a0}\nx\n".as_bytes()), vec![rec(&["x"])]);
}

#[test]
fn empty_trailing_fields_are_kept() {
    assert_eq!(records(b"a,,c\n"), vec![rec(&["a", "", "c"])]);
    assert_eq!(records(b"a,\n"), vec![rec(&["a", ""])]);
}

#[test]
fn record_with_one_real_field_is_kept() {
    assert_eq!(records(b" x ,  \n"), vec![rec(&[" x ", "  "])]);
}

#[test]
fn multibyte_utf8_fields_decode() {
    assert_eq!(records("é,ü\n".as_bytes()), vec![rec(&["é", "ü"])]);
}

#[test]
fn invalid_utf8_is_an_encoding_error() {
    assert_eq!(parse_all(&[0xFF, b'a', b'\n']), Err(CsvError::Encoding));
    let parser = Parser::new(&no_options());
    let mut state = ParserState::new();
    assert_eq!(
        parser.process_chunk(&[b'a', b',', 0xC0, b'\n'], &mut state),
        Err(CsvError::Encoding)
    );
}

#[test]
fn error_kinds_are_distinct() {
    assert_ne!(CsvError::SourceOpen, CsvError::SourceRead);
    assert_ne!(CsvError::SourceOpen, CsvError::Encoding);
    assert_ne!(CsvError::SourceRead, CsvError::Encoding);
}

#[test]
fn quotes_toggle_without_adding_content() {
    assert_eq!(records(b"ab\"\"cd\n"), vec![rec(&["abcd"])]);
}

#[test]
fn custom_delimiter_and_quote() {
    let parser = CsvParser::new(Some(ParserOptions {
        delimiter: Some(b';'),
        quote: Some(b'\''),
        escape: None,
        has_headers: None,
        chunk_size: None,
        buffer_capacity: None,
    }));
    let out = parser.parse_chunks(&vec![b"'a;b';c\nd;e\n".to_vec()]).unwrap();
    assert_eq!(out, vec![rec(&["a;b", "c"]), rec(&["d", "e"])]);
}

#[test]
fn chunk_boundary_flushes_pending_record() {
    let parser = Parser::new(&no_options());
    let mut state = ParserState::new();
    let first = parser.process_chunk(b"a,b", &mut state).unwrap();
    assert_eq!(first, vec![rec(&["a", "b"])]);
    let second = parser.process_chunk(b"c\n", &mut state).unwrap();
    assert_eq!(second, vec![rec(&["c"])]);
}

#[test]
fn blank_pending_record_carries_into_next_chunk() {
    let parser = Parser::new(&no_options());
    let mut state = ParserState::new();
    let first = parser.process_chunk(b" ", &mut state).unwrap();
    assert_eq!(first, Vec::<Vec<String>>::new());
    let second = parser.process_chunk(b"x\n", &mut state).unwrap();
    assert_eq!(second, vec![rec(&[" ", "x"])]);
}

#[test]
fn quote_state_survives_chunk_boundary() {
    let parser = Parser::new(&no_options());
    let mut state = ParserState::new();
    let first = parser.process_chunk(b"\"x", &mut state).unwrap();
    assert_eq!(first, vec![rec(&["x"])]);
    // still inside quotes: the comma of the next chunk is literal
    let second = parser.process_chunk(b"y,\"\n", &mut state).unwrap();
    assert_eq!(second, vec![rec(&["y,"])]);
}

#[test]
fn crlf_split_across_chunks_gives_no_extra_record() {
    let parser = Parser::new(&no_options());
    let mut state = ParserState::new();
    let first = parser.process_chunk(b"a\r", &mut state).unwrap();
    assert_eq!(first, vec![rec(&["a"])]);
    let second = parser.process_chunk(b"\nb\n", &mut state).unwrap();
    assert_eq!(second, vec![rec(&["b"])]);
}

#[test]
fn is_record_empty_trims_whitespace() {
    assert!(csvstream::parser::is_record_empty(&vec![
        "  ".to_string(),
        "\t\r".to_string(),
        String::new()
    ]));
    assert!(!csvstream::parser::is_record_empty(&vec![
        "  ".to_string(),
        "x".to_string()
    ]));
    assert!(csvstream::parser::is_record_empty(&Vec::new()));
}
