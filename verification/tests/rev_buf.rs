use async_jsonl::{Lines, RevBufReader, DEFAULT_BUF_SIZE};

fn read_all(mut lines: Lines<RevBufReader<&[u8]>>) -> Vec<String> {
    let mut result = Vec::new();
    while let Some(line) = lines.next_line() {
        result.push(line);
    }
    result
}

fn numbered(prefix: &str, suffix: &str, n: usize) -> String {
    let mut content = String::new();
    for i in 0..n {
        content.push_str(&format!("{}{}{}\n", prefix, i, suffix));
    }
    content
}

#[test]
fn test_basic_reverse_reading() {
    let content = "first line\nsecond line\nthird line\nfourth line";
    let reader = RevBufReader::new(content.as_bytes());
    let result = read_all(reader.lines());
    assert_eq!(
        result,
        vec!["fourth line", "third line", "second line", "first line"]
    );
}

#[test]
fn basic_integration_test_empty_file() {
    let content: &[u8] = b"";
    let reader = RevBufReader::new(content);
    let mut lines = reader.lines();
    let line = lines.next_line();
    assert!(line.is_none());
}

#[test]
fn basic_integration_test_single_line() {
    let content: &[u8] = b"only line";
    let reader = RevBufReader::new(content);
    let mut lines = reader.lines();
    let line1 = lines.next_line();
    assert_eq!(line1, Some("only line".to_string()));
    let line2 = lines.next_line();
    assert!(line2.is_none());
}

#[test]
fn test_custom_buffer_size() {
    let content: &[u8] = b"line1\nline2\nline3";
    let reader = RevBufReader::with_capacity(8, content);
    let result = read_all(reader.lines());
    assert_eq!(result, vec!["line3", "line2", "line1"]);
}

#[test]
fn test_unicode_content() {
    let content = "üéâ first line\nÌïúÍµ≠Ïñ¥ second line\n—Ä—É—Å—Å–∫–∏–π third line";
    let reader = RevBufReader::new(content.as_bytes());
    let result = read_all(reader.lines());
    assert_eq!(
        result,
        vec!["—Ä—É—Å—Å–∫–∏–π third line", "ÌïúÍµ≠Ïñ¥ second line", "üéâ first line"]
    );
}

#[test]
fn test_accessor_methods() {
    let content: &[u8] = b"test";
    let mut reader = RevBufReader::new(content);
    assert_eq!(reader.get_ref().len(), 4);
    assert_eq!(reader.get_mut().len(), 4);
    assert!(reader.buffer().is_empty());
    let inner = reader.into_inner();
    assert_eq!(inner, b"test");
}

#[test]
fn test_lines_methods() {
    let content: &[u8] = b"line1\nline2";
    let reader = RevBufReader::new(content);
    let mut lines = reader.lines();
    let _reader_ref = lines.get_ref();
    let _reader_mut = lines.get_mut();
    let line = lines.next_line();
    assert_eq!(line, Some("line2".to_string()));
    let reader = lines.into_inner();
    assert_eq!(reader.into_inner(), b"line1\nline2");
}

#[test]
fn test_large_file() {
    let content = numbered("line number ", "", 1000);
    let reader = RevBufReader::new(content.as_bytes());
    let result = read_all(reader.lines());
    assert_eq!(result.len(), 1000);
    assert_eq!(result[0], "line number 999");
    assert_eq!(result[999], "line number 0");
    for (i, line) in result.iter().enumerate() {
        let expected = format!("line number {}", 999 - i);
        assert_eq!(line, &expected);
    }
}

#[test]
fn test_very_long_lines() {
    let mut content = String::new();
    content.push_str("short\n");
    content.push_str(&"x".repeat(5000));
    content.push_str("\n");
    content.push_str("medium length line with some content\n");
    content.push_str(&"y".repeat(10000));
    content.push_str("\n");
    content.push_str("end\n");
    let reader = RevBufReader::new(content.as_bytes());
    let mut lines = reader.lines();

    let line1 = lines.next_line().unwrap();
    assert_eq!(line1, "end");
    let line2 = lines.next_line().unwrap();
    assert_eq!(line2.len(), 10000);
    assert!(line2.chars().all(|c| c == 'y'));
    let line3 = lines.next_line().unwrap();
    assert_eq!(line3, "medium length line with some content");
    let line4 = lines.next_line().unwrap();
    assert_eq!(line4.len(), 5000);
    assert!(line4.chars().all(|c| c == 'x'));
    let line5 = lines.next_line().unwrap();
    assert_eq!(line5, "short");
    let line6 = lines.next_line();
    assert!(line6.is_none());
}

#[test]
fn test_mixed_line_endings() {
    let content: &[u8] = b"first\nunix\nwindows\r\nlast";
    let reader = RevBufReader::new(content);
    let result = read_all(reader.lines());
    assert!(!result.is_empty());
    assert!(result.len() >= 3);
    assert_eq!(result, vec!["last", "windows", "unix", "first"]);
}

#[test]
fn test_no_final_newline() {
    let content: &[u8] = b"line1\nline2\nline3";
    let reader = RevBufReader::new(content);
    let result = read_all(reader.lines());
    assert_eq!(result, vec!["line3", "line2", "line1"]);
}

#[test]
fn edge_tests_test_empty_lines_handling() {
    let content: &[u8] = b"first\n\n\nsecond\n\nthird\n";
    let reader = RevBufReader::new(content);
    let result = read_all(reader.lines());
    assert_eq!(result, vec!["third", "second", "first"]);
}

#[test]
fn test_json_lines_format() {
    let mut content = String::new();
    content.push_str("{\"id\": 1, \"name\": \"Alice\", \"score\": 85}\n");
    content.push_str("{\"id\": 2, \"name\": \"Bob\", \"score\": 92}\n");
    content.push_str("{\"id\": 3, \"name\": \"Charlie\", \"score\": 78}\n");
    content.push_str("{\"id\": 4, \"name\": \"Diana\", \"score\": 96}\n");
    let reader = RevBufReader::new(content.as_bytes());
    let result = read_all(reader.lines());
    assert_eq!(result.len(), 4);
    assert!(result[0].contains("Diana"));
    assert!(result[1].contains("Charlie"));
    assert!(result[2].contains("Bob"));
    assert!(result[3].contains("Alice"));
}

#[test]
fn test_buffer_size_variations() {
    let content = numbered("test line number ", "", 50);
    for buffer_size in [8, 64, 512, 4096] {
        let reader = RevBufReader::with_capacity(buffer_size, content.as_bytes());
        let result = read_all(reader.lines());
        assert_eq!(result.len(), 50, "Failed with buffer size {}", buffer_size);
        assert_eq!(result[0], "test line number 49");
        assert_eq!(result[49], "test line number 0");
    }
}

#[test]
fn test_unicode_and_special_chars() {
    let mut content = String::new();
    content.push_str("ðŸš€ Line with emoji");
    content.push_str("\n");
    content.push_str("Î•Î»Î»Î·Î½Î¹ÎºÎ¬ Greek text");
    content.push_str("\n");
    content.push_str("Ø§Ù„Ø¹Ø±Ø¨ÙŠØ© Arabic text");
    content.push_str("\n");
    content.push_str("ðŸŽµâ™ªâ™«â™¬ Musical notes");
    content.push_str("\n");
    content.push_str("âˆ‘âˆ«âˆ¬âˆ­ Math symbols");
    content.push_str("\n");
    let reader = RevBufReader::new(content.as_bytes());
    let result = read_all(reader.lines());
    assert_eq!(result.len(), 5);
    assert!(result[0].contains("Math symbols"));
    assert!(result[1].contains("Musical notes"));
    assert!(result[2].contains("Ø§Ù„Ø¹Ø±Ø¨ÙŠØ©"));
    assert!(result[3].contains("Î•Î»Î»Î·Î½Î¹ÎºÎ¬"));
    assert!(result[4].contains("ðŸš€"));
}

#[test]
fn test_performance_timing() {
    let start_creation = std::time::Instant::now();
    let content = numbered(
        "performance test line number ",
        " with some extra content to make it longer",
        5000,
    );
    let creation_time = start_creation.elapsed();

    let start_reading = std::time::Instant::now();
    let reader = RevBufReader::new(content.as_bytes());
    let mut lines = reader.lines();
    let mut count = 0;
    while let Some(_line) = lines.next_line() {
        count += 1;
    }
    let reading_time = start_reading.elapsed();

    assert_eq!(count, 5000);
    assert!(
        creation_time.as_secs() < 5,
        "File creation took too long: {:?}",
        creation_time
    );
    assert!(
        reading_time.as_secs() < 10,
        "Reading took too long: {:?}",
        reading_time
    );
    println!(
        "Performance stats: Creation: {:?}, Reading: {:?}",
        creation_time, reading_time
    );
}

#[test]
fn test_concurrent_readers() {
    let content = numbered("concurrent test line ", "", 100);
    let mut readers = Vec::new();
    for _ in 0..3 {
        readers.push((RevBufReader::new(content.as_bytes()).lines(), 0usize, false));
    }
    let mut open = 3;
    while open > 0 {
        for entry in readers.iter_mut() {
            if entry.2 {
                continue;
            }
            match entry.0.next_line() {
                Some(_) => entry.1 += 1,
                None => {
                    entry.2 = true;
                    open -= 1;
                }
            }
        }
    }
    for (task_id, entry) in readers.iter().enumerate() {
        assert_eq!(entry.1, 100, "Task {} got wrong line count", task_id);
    }
}

#[test]
fn default_capacity_is_eight_kibibytes() {
    assert_eq!(DEFAULT_BUF_SIZE, 8192);
}
