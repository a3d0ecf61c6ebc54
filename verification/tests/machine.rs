use async_jsonl::buf_reader::read_lines_reverse;
use async_jsonl::jsonl_reader::read_lines_forward;
use async_jsonl::text::{clean_line, decode, find_line_feed, line_text, piece_text};
use async_jsonl::{decode_value, DecodeError, ReadError, RevBufReader, Step};

/// Drives a reader over `source`, answering each read with at most `most` bytes.
fn drive(source: &[u8], capacity: usize, most: usize) -> Vec<String> {
    let mut reader = RevBufReader::with_capacity(capacity, ());
    let mut out = Vec::new();
    loop {
        match reader.step() {
            Step::NeedSize => reader.set_size(source.len() as u64),
            Step::NeedBytes { offset, len } => {
                let from = offset as usize;
                let upto = from + len.min(most);
                assert!(upto <= source.len());
                assert_eq!(reader.supply(&source[from..upto]), Ok(()));
            }
            Step::Line(line) => out.push(line),
            Step::Done => return out,
        }
    }
}

#[test]
fn fresh_reader_asks_for_the_size() {
    let mut reader = RevBufReader::new(());
    assert!(matches!(reader.step(), Step::NeedSize));
    assert!(matches!(reader.step(), Step::NeedSize));
}

#[test]
fn empty_source_is_done_at_once() {
    let mut reader = RevBufReader::new(());
    reader.set_size(0);
    assert!(matches!(reader.step(), Step::Done));
    assert!(matches!(reader.step(), Step::Done));
}

#[test]
fn only_the_first_size_counts() {
    let mut reader = RevBufReader::with_capacity(4, ());
    reader.set_size(3);
    reader.set_size(100);
    assert!(matches!(reader.step(), Step::NeedBytes { offset: 0, len: 3 }));
}

#[test]
fn chunks_are_asked_for_from_the_end() {
    let source: &[u8] = b"abcdefghij";
    let mut reader = RevBufReader::with_capacity(4, ());
    reader.set_size(10);
    assert!(matches!(reader.step(), Step::NeedBytes { offset: 6, len: 4 }));
    assert_eq!(reader.supply(&source[6..10]), Ok(()));
    assert_eq!(reader.carried(), 4);
    assert!(matches!(reader.step(), Step::NeedBytes { offset: 2, len: 4 }));
    assert_eq!(reader.supply(&source[2..6]), Ok(()));
    assert_eq!(reader.carried(), 8);
    assert!(matches!(reader.step(), Step::NeedBytes { offset: 0, len: 2 }));
    assert_eq!(reader.supply(&source[0..2]), Ok(()));
    assert_eq!(reader.carried(), 10);
    match reader.step() {
        Step::Line(line) => assert_eq!(line, "abcdefghij"),
        _ => panic!("a line was due"),
    }
    assert_eq!(reader.carried(), 0);
    assert!(matches!(reader.step(), Step::Done));
}

#[test]
fn short_reads_are_asked_for_again() {
    let source: &[u8] = b"one\ntwo";
    let mut reader = RevBufReader::with_capacity(5, ());
    reader.set_size(7);
    assert!(matches!(reader.step(), Step::NeedBytes { offset: 2, len: 5 }));
    assert_eq!(reader.supply(&source[2..4]), Ok(()));
    assert_eq!(reader.buffer(), b"e\n");
    assert_eq!(reader.carried(), 0);
    assert!(matches!(reader.step(), Step::NeedBytes { offset: 4, len: 3 }));
    assert_eq!(reader.supply(&source[4..5]), Ok(()));
    assert_eq!(reader.buffer(), b"e\nt");
    assert!(matches!(reader.step(), Step::NeedBytes { offset: 5, len: 2 }));
    assert_eq!(reader.supply(&source[5..7]), Ok(()));
    assert!(reader.buffer().is_empty());
    assert_eq!(reader.carried(), 5);
    match reader.step() {
        Step::Line(line) => assert_eq!(line, "two"),
        _ => panic!("a line was due"),
    }
    assert_eq!(reader.carried(), 1);
    assert!(matches!(reader.step(), Step::NeedBytes { offset: 0, len: 2 }));
    assert_eq!(reader.supply(&source[0..2]), Ok(()));
    assert!(matches!(reader.step(), Step::Line(l) if l == "one"));
    assert!(matches!(reader.step(), Step::Done));
}

#[test]
fn a_long_line_is_read_in_small_chunks() {
    let mut source = vec![b'z'; 1_000_000];
    source.push(b'\n');
    source.extend_from_slice(b"tail");
    let lines = read_lines_reverse(&source, 8);
    assert_eq!(lines.len(), 2);
    assert_eq!(lines[0], "tail");
    assert_eq!(lines[1].len(), 1_000_000);
    assert!(lines[1].bytes().all(|b| b == b'z'));
}

#[test]
fn a_read_of_no_bytes_is_an_unexpected_end() {
    let mut reader = RevBufReader::with_capacity(4, ());
    reader.set_size(6);
    assert!(matches!(reader.step(), Step::NeedBytes { offset: 2, len: 4 }));
    assert_eq!(reader.supply(b""), Err(ReadError::UnexpectedEof));
    assert!(matches!(reader.step(), Step::NeedBytes { offset: 2, len: 4 }));
}

#[test]
fn bytes_that_were_not_asked_for_are_refused() {
    let mut reader = RevBufReader::with_capacity(4, ());
    assert_eq!(reader.supply(b"ab"), Err(ReadError::NotRequested));
    reader.set_size(6);
    assert_eq!(reader.supply(b"ab"), Err(ReadError::NotRequested));
    assert!(matches!(reader.step(), Step::NeedBytes { offset: 2, len: 4 }));
    assert_eq!(reader.supply(b"abcde"), Err(ReadError::NotRequested));
    assert!(reader.buffer().is_empty());
    assert_eq!(reader.carried(), 0);
}

#[test]
fn lines_in_the_carry_need_no_read() {
    let source: &[u8] = b"a\nb\nc\n";
    let mut reader = RevBufReader::with_capacity(5, ());
    reader.set_size(6);
    assert!(matches!(reader.step(), Step::NeedBytes { offset: 1, len: 5 }));
    assert_eq!(reader.supply(&source[1..6]), Ok(()));
    assert!(matches!(reader.step(), Step::Line(l) if l == "c"));
    assert!(matches!(reader.step(), Step::Line(l) if l == "b"));
    assert!(matches!(reader.step(), Step::NeedBytes { offset: 0, len: 1 }));
    assert_eq!(reader.supply(&source[0..1]), Ok(()));
    assert!(matches!(reader.step(), Step::Line(l) if l == "a"));
    assert!(matches!(reader.step(), Step::Done));
}

#[test]
fn driven_reader_agrees_with_the_slice_reader() {
    let source: &[u8] = b"alpha\r\n\r\n  beta  \n\ngamma\rdelta\n";
    let expected = vec!["delta", "gamma", "beta", "alpha"];
    for capacity in [1usize, 2, 3, 7, 64, 8192] {
        for most in [1usize, 2, 5, 8192] {
            assert_eq!(drive(source, capacity, most), expected);
        }
        assert_eq!(read_lines_reverse(source, capacity), expected);
    }
    assert_eq!(read_lines_forward(source), vec!["alpha", "beta", "gamma\rdelta"]);
}

#[test]
fn the_first_line_feed_is_found() {
    assert_eq!(find_line_feed(b"ab\ncd\re\n", 0), 2);
    assert_eq!(find_line_feed(b"ab\ncd\re\n", 2), 2);
    assert_eq!(find_line_feed(b"ab\ncd\re\n", 3), 7);
    assert_eq!(find_line_feed(b"ab\ncd\re", 3), 7);
    assert_eq!(find_line_feed(b"", 0), 0);
}

#[test]
fn a_carriage_return_before_the_line_feed_goes_with_it() {
    assert_eq!(line_text(b"a\r"), Some("a".to_string()));
    assert_eq!(line_text(b"a\rb\r"), Some("a\rb".to_string()));
    assert_eq!(line_text(b"\xff\r"), Some("\u{fffd}".to_string()));
    assert_eq!(line_text(b"\r"), None);
    assert_eq!(line_text(b""), None);
    assert_eq!(read_lines_forward(b"a\r\nb\r\r\nc\r"), vec!["a", "b", "c"]);
}

#[test]
fn lines_are_trimmed_and_blank_ones_dropped() {
    assert_eq!(clean_line("  a b \t"), Some("a b".to_string()));
    assert_eq!(clean_line("\u{a0}\u{3000} x \u{2028}"), Some("x".to_string()));
    assert_eq!(clean_line(" \t\r\n"), None);
    assert_eq!(clean_line(""), None);
    assert_eq!(clean_line("\u{a0}"), None);
}

#[test]
fn malformed_bytes_are_replaced() {
    assert_eq!(decode(b"f\xffo"), "f\u{fffd}o");
    assert_eq!(decode("caf\u{e9}".as_bytes()), "caf\u{e9}");
    assert_eq!(decode(b""), "");
    assert_eq!(piece_text(b"  f\xffo  "), Some("f\u{fffd}o".to_string()));
    assert_eq!(piece_text(b"   "), None);
    assert_eq!(read_lines_reverse(b"ok\n\xff\xfe\n", 3), vec!["\u{fffd}\u{fffd}", "ok"]);
}

#[test]
fn decoding_tells_json_from_other_text() {
    assert!(decode_value("{\"a\": [1, 2]}").is_ok());
    assert!(decode_value("17").is_ok());
    let error = decode_value("{\"a\": ").unwrap_err();
    assert_eq!(error.line(), "{\"a\": ");
    assert!(error.message().starts_with("Failed to parse JSON line: "));
    assert_eq!(error.message(), format!("Failed to parse JSON line: {}", error.detail()));
    assert!(!error.detail().is_empty());
    assert!(decode_value("1 2").is_err());
}

#[test]
fn errors_carry_line_and_detail() {
    let error = DecodeError::new("the line", "the detail");
    assert_eq!(error.line(), "the line");
    assert_eq!(error.detail(), "the detail");
    assert_eq!(error.message(), "Failed to parse JSON line: the detail");
}
