use csvstream::parser::ParserOptions;
use csvstream::session::{CsvParser, ParseResult};

fn rec(fields: &[&str]) -> Vec<String> {
    fields.iter().map(|f| f.to_string()).collect()
}

fn drive(parser: &CsvParser, chunks: &[&[u8]]) -> Vec<ParseResult> {
    let mut session = parser.start_session();
    let mut batches = Vec::new();
    for chunk in chunks {
        batches.extend(session.push_chunk(chunk).expect("push failed"));
    }
    batches.push(session.finish());
    batches
}

#[test]
fn header_then_data_then_completion() {
    // the quoted line feed stays inside the header field
    let parser = CsvParser::new(None);
    let batches = drive(&parser, &[b"a,\"b\nc\",d\n1,2,3\n"]);
    assert_eq!(batches.len(), 3);
    assert_eq!(batches[0].records, vec![rec(&["a", "b\nc", "d"])]);
    assert!(!batches[0].is_complete);
    assert_eq!(batches[1].records, vec![rec(&["1", "2", "3"])]);
    assert!(!batches[1].is_complete);
    assert_eq!(batches[2].records, Vec::<Vec<String>>::new());
    assert!(batches[2].is_complete);
}

#[test]
fn blank_lines_do_not_consume_the_header() {
    let parser = CsvParser::new(None);
    let batches = drive(&parser, &[b"\n", b"   \n", b"h1,h2\nv1,v2\n", b"v3,v4\n"]);
    assert_eq!(batches.len(), 4);
    assert_eq!(batches[0].records, vec![rec(&["h1", "h2"])]);
    assert_eq!(batches[1].records, vec![rec(&["v1", "v2"])]);
    assert_eq!(batches[2].records, vec![rec(&["v3", "v4"])]);
    assert!(batches[3].is_complete);
}

#[test]
fn no_header_batch_when_headers_off() {
    let parser = CsvParser::new(Some(ParserOptions {
        delimiter: None,
        quote: None,
        escape: None,
        has_headers: Some(false),
        chunk_size: None,
        buffer_capacity: None,
    }));
    let batches = drive(&parser, &[b"a,b\nc,d\n"]);
    assert_eq!(batches.len(), 2);
    assert_eq!(batches[0].records, vec![rec(&["a", "b"]), rec(&["c", "d"])]);
    assert!(batches[1].is_complete);
}

#[test]
fn empty_source_yields_only_completion() {
    let parser = CsvParser::new(None);
    let batches = drive(&parser, &[]);
    assert_eq!(batches.len(), 1);
    assert!(batches[0].is_complete);
    assert_eq!(batches[0].records, Vec::<Vec<String>>::new());
}

#[test]
fn streaming_agrees_with_full_parse() {
    let chunks: Vec<&[u8]> = vec![b"h1,h2\n", b"a,b\n", b"  \n", b"c,\"d\ne\"\n"];
    let parser = CsvParser::new(None);

    let streamed: Vec<Vec<String>> = drive(&parser, &chunks)
        .into_iter()
        .flat_map(|b| b.records)
        .collect();

    let owned: Vec<Vec<u8>> = chunks.iter().map(|c| c.to_vec()).collect();
    let full = parser.parse_chunks(&owned).expect("full parse failed");

    assert_eq!(streamed, full);
}

#[test]
fn two_sessions_give_identical_output() {
    let chunks: Vec<&[u8]> = vec![b"h\n", b"1\n", b"2,3\n"];
    let parser = CsvParser::new(None);
    let first = drive(&parser, &chunks);
    let second = drive(&parser, &chunks);
    assert_eq!(first.len(), second.len());
    for (a, b) in first.iter().zip(second.iter()) {
        assert_eq!(a.records, b.records);
        assert_eq!(a.is_complete, b.is_complete);
    }
}

#[test]
fn encoding_error_aborts_the_session() {
    let parser = CsvParser::new(None);
    let mut session = parser.start_session();
    let bad = [b'h', b'\n', 0xFE, b'\n'];
    assert!(session.push_chunk(&bad).is_err());
}

#[test]
fn header_comes_from_first_chunk_with_records() {
    let parser = CsvParser::new(None);
    let mut session = parser.start_session();
    assert_eq!(session.push_chunk(b"\n").unwrap().len(), 0);
    let batches = session.push_chunk(b"h1\nv1\n").unwrap();
    assert_eq!(batches.len(), 2);
    assert_eq!(batches[0].records, vec![rec(&["h1"])]);
    assert_eq!(batches[1].records, vec![rec(&["v1"])]);
    // the header is consumed: later records arrive whole
    let later = session.push_chunk(b"v2\n").unwrap();
    assert_eq!(later.len(), 1);
    assert_eq!(later[0].records, vec![rec(&["v2"])]);
}
