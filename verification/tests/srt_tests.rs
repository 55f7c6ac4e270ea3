use subtra_core::srt::{format_time, parse, parse_times_line, ParseError, SrtBlock};

#[test]
fn roundtrip_srt() {
    let input = "1\n00:00:00,000 --> 00:00:01,000\nHello\n\n";
    let blocks = parse(input).unwrap();
    assert_eq!(blocks.len(), 1);
    assert_eq!(blocks[0].text, vec!["Hello".to_string()]);
    let out = subtra_core::srt::format(&blocks);
    assert_eq!(input, out);
}

#[test]
fn roundtrip_many_blocks() {
    let input = "1\n00:00:00,000 --> 00:00:01,000\nfirst line\nsecond line\n\n\
                 2\n00:00:01,500 --> 00:00:02,250\nanother\n\n\
                 3\n01:02:03,456 --> 01:02:04,000\nlast\n\n";
    let blocks = parse(input).unwrap();
    assert_eq!(blocks.len(), 3);
    assert_eq!(blocks[0].text, vec!["first line".to_string(), "second line".to_string()]);
    assert_eq!(blocks[2].start_ms, 3_723_456);
    let out = subtra_core::srt::format(&blocks);
    assert_eq!(input, out);
    let again = parse(&out).unwrap();
    assert!(again == blocks);
}

#[test]
fn parse_rejects_record_without_text() {
    let err = parse("7\n00:00:00,000 --> 00:00:01,000\n\n").unwrap_err();
    assert_eq!(err, ParseError::MissingText);
    let err2 = parse("1\n00:00:00,000 --> 00:00:01,000").unwrap_err();
    assert_eq!(err2, ParseError::MissingText);
    let err3 = parse("1\n00:00:00,000 --> 00:00:01,000\n\nhi\n\n").unwrap_err();
    assert_eq!(err3, ParseError::MissingText);
}

#[test]
fn parse_accepts_padded_index_and_blank_lines() {
    let input = "\n\n  02  \n00:00:05,000 --> 00:00:06,000\nhi\n\n";
    let blocks = parse(input).unwrap();
    assert_eq!(blocks.len(), 1);
    assert_eq!(blocks[0].index, 2);
    // Formatting writes the canonical form; parsing that gives the same blocks.
    let again = parse(&subtra_core::srt::format(&blocks)).unwrap();
    assert!(again == blocks);
}

#[test]
fn parse_accepts_crlf_input() {
    let input = "1\r\n00:00:00,000 --> 00:00:01,000\r\nHello\r\n\r\n";
    let blocks = parse(input).unwrap();
    assert_eq!(blocks.len(), 1);
    assert_eq!(blocks[0].text, vec!["Hello".to_string()]);
    assert_eq!(blocks[0].end_ms, 1000);
}

#[test]
fn skips_unicode_whitespace_blank_lines() {
    // A line of no-break spaces separates records like an empty line does.
    let input = "1\n00:00:00,000 --> 00:00:01,000\nhi\n\u{a0}\u{a0}\n2\n00:00:01,000 --> 00:00:02,000\nyo\n\n";
    let blocks = parse(input).unwrap();
    assert_eq!(blocks.len(), 2);
    assert_eq!(blocks[0].text, vec!["hi".to_string()]);
    assert_eq!(blocks[1].text, vec!["yo".to_string()]);
}

#[test]
fn parse_rejects_bad_index() {
    let err = parse("x\n00:00:00,000 --> 00:00:01,000\nhi\n\n").unwrap_err();
    assert_eq!(err, ParseError::BadIndex);
}

#[test]
fn parse_rejects_missing_time() {
    let err = parse("1\n").unwrap_err();
    assert_eq!(err, ParseError::MissingTime);
}

#[test]
fn parse_rejects_bad_time() {
    let err = parse("1\nnot a time line\nhi\n\n").unwrap_err();
    assert_eq!(err, ParseError::BadTime);
    let err2 = parse("1\n00:00:00 --> 00:00:01,000\nhi\n\n").unwrap_err();
    assert_eq!(err2, ParseError::BadTime);
}

#[test]
fn formats_time_with_padding() {
    assert_eq!(format_time(0), "00:00:00,000");
    assert_eq!(format_time(3_661_001), "01:01:01,001");
    assert_eq!(format_time(359_999_999), "99:59:59,999");
}

#[test]
fn parses_time_line_to_milliseconds() {
    let line: Vec<char> = "00:00:01,500 --> 00:00:02,250".chars().collect();
    assert_eq!(parse_times_line(&line), Some((1500, 2250)));
    let bad: Vec<char> = "00:00:01,500".chars().collect();
    assert_eq!(parse_times_line(&bad), None);
}

#[test]
fn blocks_compare_by_content() {
    let a = SrtBlock { index: 1, start_ms: 0, end_ms: 10, text: vec!["x".to_string()] };
    let b = SrtBlock { index: 1, start_ms: 0, end_ms: 10, text: vec!["x".to_string()] };
    let c = SrtBlock { index: 1, start_ms: 0, end_ms: 10, text: vec!["y".to_string()] };
    assert!(a == b);
    assert!(!(a == c));
    let d = a.clone();
    assert!(d == b);
}
