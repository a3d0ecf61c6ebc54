use async_jsonl::{Jsonl, JsonlReader, TakeNLinesReverse};

#[test]
fn test_get_rev_n_with_cursor() {
    let data = r#"{"id": 1, "name": "Alice", "active": true}
{"id": 2, "name": "Bob", "active": false}
{"id": 3, "name": "Charlie", "active": true}
"#;
    let jsonl = Jsonl::new(data.as_bytes());
    let rev_jsonl = jsonl.last_n(3);
    let lines = rev_jsonl.into_vec();

    assert_eq!(lines.len(), 3);
    assert_eq!(lines[0], r#"{"id": 3, "name": "Charlie", "active": true}"#);
    assert_eq!(lines[1], r#"{"id": 2, "name": "Bob", "active": false}"#);
    assert_eq!(lines[2], r#"{"id": 1, "name": "Alice", "active": true}"#);
}

#[test]
fn test_get_rev_n_with_file() {
    let data = r#"{"line": 1}
{"line": 2}
{"line": 3}
{"line": 4}
{"line": 5}
"#;
    let jsonl = Jsonl::new(data.as_bytes());
    let rev_jsonl = jsonl.last_n(3);
    let lines = rev_jsonl.into_vec();

    assert_eq!(lines.len(), 3);
    assert_eq!(lines[0], r#"{"line": 5}"#);
    assert_eq!(lines[1], r#"{"line": 4}"#);
    assert_eq!(lines[2], r#"{"line": 3}"#);
}

#[test]
fn test_get_rev_n_empty_file() {
    let data: &[u8] = b"";
    let jsonl = Jsonl::new(data);
    let rev_jsonl = jsonl.last_n(5);
    let results = rev_jsonl.into_vec();
    assert_eq!(results.len(), 0);
}

#[test]
fn test_get_rev_n_single_line() {
    let data = r#"{"single": "line"}
"#;
    let jsonl = Jsonl::new(data.as_bytes());
    let mut rev_jsonl = jsonl.last_n(1);
    let line = rev_jsonl.next_line().unwrap();
    assert_eq!(line, r#"{"single": "line"}"#);
    assert!(rev_jsonl.next_line().is_none());
}

#[test]
fn test_get_rev_n_with_empty_lines() {
    let data = "{\"id\": 1}\n\n{\"id\": 2}\n\n\n{\"id\": 3}\n\n";
    let jsonl = Jsonl::new(data.as_bytes());
    let rev_jsonl = jsonl.last_n(3);
    let lines = rev_jsonl.into_vec();

    assert_eq!(lines.len(), 3);
    assert_eq!(lines[0], r#"{"id": 3}"#);
    assert_eq!(lines[1], r#"{"id": 2}"#);
    assert_eq!(lines[2], r#"{"id": 1}"#);
}

#[test]
fn test_get_n_lines() {
    let data = r#"{"name": "Alice", "age": 30}
{"name": "Bob", "age": 25}
{"name": "Charlie", "age": 35}
{"name": "Dave", "age": 40}
{"name": "Eve", "age": 28}
"#;
    let jsonl = Jsonl::new(data.as_bytes());
    let mut first_3 = jsonl.first_n(3);
    let lines = first_3.read_to_end();

    assert_eq!(lines.len(), 3);
    assert_eq!(lines[0], r#"{"name": "Alice", "age": 30}"#);
    assert_eq!(lines[1], r#"{"name": "Bob", "age": 25}"#);
    assert_eq!(lines[2], r#"{"name": "Charlie", "age": 35}"#);
}

#[test]
fn test_compare_forward_and_reverse() {
    let data = r#"{"test": 1}
{"test": 2}
{"test": 3}
"#;
    let jsonl_forward = Jsonl::new(data.as_bytes());
    let forward_lines = jsonl_forward.first_n(3).read_to_end();

    let jsonl_reverse = Jsonl::new(data.as_bytes());
    let reverse_lines = jsonl_reverse.last_n(3).into_vec();

    assert_eq!(forward_lines.len(), reverse_lines.len());
    let mut expected_reverse = forward_lines.clone();
    expected_reverse.reverse();
    assert_eq!(reverse_lines, expected_reverse);
}

#[test]
fn last_two_and_first_two_of_three() {
    let data: &[u8] = b"a\nb\nc\n";
    assert_eq!(Jsonl::new(data).last_n(2).into_vec(), vec!["c", "b"]);
    assert_eq!(Jsonl::new(data).first_n(2).read_to_end(), vec!["a", "b"]);
}

#[test]
fn wide_windows_hold_every_line() {
    let data: &[u8] = b"a\n\nb\r\n  \nc";
    for n in [3usize, 4, 100] {
        assert_eq!(Jsonl::new(data).first_n(n).read_to_end(), vec!["a", "b", "c"]);
        assert_eq!(Jsonl::new(data).last_n(n).into_vec(), vec!["c", "b", "a"]);
    }
}

#[test]
fn empty_window_yields_nothing() {
    let data: &[u8] = b"a\nb\n";
    assert!(Jsonl::new(data).first_n(0).read_to_end().is_empty());
    assert!(Jsonl::new(data).last_n(0).into_vec().is_empty());
}

#[test]
fn last_n_ignores_forward_progress() {
    let data: &[u8] = b"a\nb\nc\n";
    let mut reader = Jsonl::new(data);
    assert_eq!(reader.next_line(), Some("a".to_string()));
    assert_eq!(reader.last_n(3).into_vec(), vec!["c", "b", "a"]);
}

#[test]
fn first_n_goes_on_from_the_reader() {
    let data: &[u8] = b"a\nb\nc\n";
    let mut reader = Jsonl::new(data);
    assert_eq!(reader.next_line(), Some("a".to_string()));
    assert_eq!(reader.first_n(5).read_to_end(), vec!["b", "c"]);
}

#[test]
fn fed_reader_yields_the_lines_that_are_complete() {
    let mut reader = Jsonl::new(());
    assert!(reader.feed(b"al").is_empty());
    assert_eq!(reader.feed(b"pha\nbe"), vec!["alpha"]);
    assert_eq!(reader.feed(b"ta\r\n\n gam"), vec!["beta"]);
    assert!(reader.feed(b"").is_empty());
    assert_eq!(reader.feed(b"ma \r\ndelta\nep"), vec!["gamma", "delta"]);
    assert_eq!(reader.finish(), vec!["ep"]);
    assert!(reader.finish().is_empty());
}

#[test]
fn fed_reader_keeps_a_bare_carriage_return_in_its_line() {
    let mut reader = Jsonl::new(());
    assert!(reader.feed(b"a\rb").is_empty());
    assert_eq!(reader.feed(b"\r"), Vec::<String>::new());
    assert_eq!(reader.feed(b"\nc\rd"), vec!["a\rb"]);
    assert_eq!(reader.finish(), vec!["c\rd"]);
}

#[test]
fn fed_reader_agrees_with_the_slice_reader() {
    let source: &[u8] = b"alpha\r\n\r\n  beta  \n\ngamma\rdelta\n\xff tail\r";
    let expected = Jsonl::new(source).read_to_end();
    assert_eq!(expected, vec!["alpha", "beta", "gamma\rdelta", "\u{fffd} tail"]);
    for size in [1usize, 2, 3, 7, 1000] {
        let mut reader = Jsonl::new(());
        let mut lines = Vec::new();
        for chunk in source.chunks(size) {
            lines.extend(reader.feed(chunk));
        }
        lines.extend(reader.finish());
        assert_eq!(lines, expected);
    }
}

#[test]
fn fed_window_takes_lines_until_full() {
    let mut window = async_jsonl::TakeNLines::new(Jsonl::new(()), 4);
    assert!(window.is_open());
    assert_eq!(window.feed(b"  one \r\n   \ntw"), vec!["one"]);
    assert!(window.is_open());
    assert_eq!(
        window.feed(b"o\nthree\rand\r\n\r\nfour\nfive\nsix"),
        vec!["two", "three\rand", "four"]
    );
    assert!(!window.is_open());
    assert!(window.feed(b"seven\n").is_empty());
    assert!(window.finish().is_empty());
}

#[test]
fn fed_window_ends_with_the_open_line() {
    let mut window = async_jsonl::TakeNLines::new(Jsonl::new(()), 2);
    assert_eq!(window.feed(b"a\nb"), vec!["a"]);
    assert_eq!(window.finish(), vec!["b"]);
    assert!(!window.is_open());
}

#[test]
fn first_window_keeps_a_bare_carriage_return_in_its_line() {
    let data: &[u8] = b"a\rb";
    let mut window = Jsonl::new(data).first_n(1);
    assert_eq!(window.next_line(), Some("a\rb".to_string()));
    assert_eq!(window.next_line(), None);
    assert_eq!(Jsonl::new(data).first_n(5).read_to_end(), vec!["a\rb"]);
    assert_eq!(Jsonl::new(data).count(), 1);
}

#[test]
fn used_up_window_leaves_its_reader_alone() {
    let data: &[u8] = b"a\nb\nc\n";
    let mut reader = Jsonl::new(data);
    let mut window = async_jsonl::TakeNLines::new(Jsonl::new(data), 1);
    assert_eq!(window.next_line(), Some("a".to_string()));
    assert_eq!(window.next_line(), None);
    assert_eq!(window.next_line(), None);
    assert_eq!(reader.next_line(), Some("a".to_string()));
    assert_eq!(window.into_reader().read_to_end(), vec!["b", "c"]);
}

#[test]
fn reverse_window_stops_at_its_limit() {
    let mut window = TakeNLinesReverse::with_limit(2);
    assert!(!window.is_full());
    window.push("c".to_string());
    window.push("b".to_string());
    assert!(window.is_full());
    window.push("a".to_string());
    assert_eq!(window.next_line(), Some("c".to_string()));
    assert_eq!(window.next_line(), Some("b".to_string()));
    assert_eq!(window.next_line(), None);
}

#[test]
fn last_lines_in_source_order() {
    let data: &[u8] = b"1\n2\n3\n4\n5\n";
    assert_eq!(Jsonl::new(data).last_n(3).into_source_order(), vec!["3", "4", "5"]);
    assert_eq!(Jsonl::new(data).last_n(2).into_source_order(), vec!["4", "5"]);
    assert!(Jsonl::new(data).last_n(0).into_source_order().is_empty());
    let mut window = Jsonl::new(data).last_n(4);
    assert_eq!(window.next_line(), Some("5".to_string()));
    assert_eq!(window.into_source_order(), vec!["2", "3", "4"]);
}

#[test]
fn the_older_name_reads_the_same() {
    let data: &[u8] = b"a\n\nb\n";
    let mut reader = async_jsonl::JsonlIterator::new(data);
    assert_eq!(reader.read_to_end(), vec!["a", "b"]);
}
