use http_message::{LineEndingFormat, Message, ParseError};

#[test]
fn from_buffer_initial_line() {
    // A zeroed buffer holds no line feed at all.
    let mut buf_mut = [0u8; 1000];
    assert!(matches!(
        Message::from_buffer(&mut buf_mut),
        Err(ParseError::InvalidLineEndings)
    ));

    // Without the blank line that ends the header block the framing fails.
    let buf = b"random info\r\nHost: localhost";
    assert!(matches!(
        Message::from_buffer(buf),
        Err(ParseError::InvalidLineEndings)
    ));

    let complete = b"random info\r\nHost: localhost\r\n\r\n";
    let message = Message::from_buffer(complete).unwrap();
    assert_eq!(message.initial_line.to_string(), "random info".to_string());
}

#[test]
fn from_buffer_headers() {
    let buf = b"random info\r\nHost: localhost\r\n\r\nbody";
    let message = Message::from_buffer(buf).unwrap();

    assert_eq!(
        message.headers.get("host").unwrap().to_string(),
        "localhost".to_string()
    );
}

#[test]
fn get_line_endings() {
    let invalid_sample = "Some Random Info";

    match Message::get_line_endings(invalid_sample) {
        Err(ParseError::InvalidLineEndings) => assert!(true),
        _ => assert!(false),
    }

    let crlf_line_endings_sample = "Some Random Info\r\nMoreInfo\r\n\r\r\n";
    assert_eq!(
        Message::get_line_endings(crlf_line_endings_sample)
            .unwrap()
            .line_separator,
        LineEndingFormat::crlf().line_separator
    );

    let lf_line_endings_sample = "Some Random Info\nMoreInfo\n\n";
    assert_eq!(
        Message::get_line_endings(lf_line_endings_sample)
            .unwrap()
            .line_separator,
        LineEndingFormat::lf().line_separator
    );
}

#[test]
fn crlf_format_carries_both_separators() {
    let f = Message::get_line_endings("a\r\nb").unwrap();
    assert_eq!(f.line_separator, "\r\n");
    assert_eq!(f.headers_and_body_separator, "\r\n\r\n");
    let g = Message::get_line_endings("a\nb").unwrap();
    assert_eq!(g.line_separator, "\n");
    assert_eq!(g.headers_and_body_separator, "\r\n");
}

#[test]
fn line_feed_at_start_is_lf() {
    let f = Message::get_line_endings("\nrest\r\n").unwrap();
    assert_eq!(f.line_separator, "\n");
}

#[test]
fn stray_carriage_return_before_first_line_feed_is_lf() {
    // The first carriage return is not the one right before the first line feed.
    let f = Message::get_line_endings("a\rb\r\nc").unwrap();
    assert_eq!(f.line_separator, "\n");
    // A carriage return only after the first line feed.
    let g = Message::get_line_endings("a\nb\r\n").unwrap();
    assert_eq!(g.line_separator, "\n");
}

#[test]
fn empty_text_has_no_line_endings() {
    assert!(matches!(
        Message::get_line_endings(""),
        Err(ParseError::InvalidLineEndings)
    ));
    assert!(matches!(
        Message::from_buffer(b""),
        Err(ParseError::InvalidLineEndings)
    ));
}

#[test]
fn invalid_utf8_is_an_encoding_error() {
    let buf = [b'a', 0xff, b'\r', b'\n', b'\r', b'\n'];
    match Message::from_buffer(&buf) {
        Err(ParseError::InvalidEncoding(e)) => assert_eq!(e.valid_up_to(), 1),
        _ => panic!("expected an encoding error"),
    }
}

#[test]
fn header_names_fold_case() {
    let upper = Message::from_buffer(b"random info\r\nHOST: localhost\r\n\r\n").unwrap();
    assert_eq!(upper.headers.get("host"), Some("localhost"));
    assert_eq!(upper.headers.get("HOST"), None);
    let mixed = Message::from_buffer(b"random info\r\nHost: localhost\r\n\r\n").unwrap();
    assert_eq!(mixed.headers.get("host"), Some("localhost"));
}

#[test]
fn later_duplicate_header_wins() {
    let buf = b"GET / HTTP/1.1\r\nHost: first\r\nAccept: */*\r\nhost: second\r\n\r\n";
    let message = Message::from_buffer(buf).unwrap();
    assert_eq!(message.headers.get("host"), Some("second"));
    assert_eq!(message.headers.get("accept"), Some("*/*"));
}

#[test]
fn header_without_colon_fails_whole_parse() {
    let buf = b"random info\r\nHost: localhost\r\nMalformedHeader\r\nAccept: */*\r\n\r\nbody";
    assert!(matches!(
        Message::from_buffer(buf),
        Err(ParseError::InvalidHeaders)
    ));
}

#[test]
fn names_and_values_are_trimmed() {
    let buf = b"random info\r\n  Content-Type \t:  text/plain  \r\n\r\n";
    let message = Message::from_buffer(buf).unwrap();
    assert_eq!(message.headers.get("content-type"), Some("text/plain"));
}

#[test]
fn value_keeps_text_after_first_colon() {
    let buf = b"random info\r\nHost: localhost:8080\r\n\r\n";
    let message = Message::from_buffer(buf).unwrap();
    assert_eq!(message.headers.get("host"), Some("localhost:8080"));
}

#[test]
fn parsed_text_points_into_the_buffer() {
    let buf = b"random info\r\nHost: localhost\r\n\r\nbody";
    let message = Message::from_buffer(buf).unwrap();
    let start = buf.as_ptr() as usize;
    let end = start + buf.len();
    assert_eq!(message.initial_line.as_ptr() as usize, start);
    let value = message.headers.get("host").unwrap();
    let at = value.as_ptr() as usize;
    assert!(start <= at && at + value.len() <= end);
    assert_eq!(at - start, 19);
}

#[test]
fn lf_framing_ends_header_block_at_crlf() {
    // With LF framing the header block ends at the first "\r\n".
    let buf = b"info\nA: 1\n\nB: 2\r\nbody";
    let message = Message::from_buffer(buf).unwrap();
    assert_eq!(message.initial_line, "info");
    assert_eq!(message.headers.get("a"), Some("1"));
    assert_eq!(message.headers.get("b"), Some("2"));

    // Without a "\r\n" an LF message has no end of its header block.
    assert!(matches!(
        Message::from_buffer(b"info\nA: 1\n\nbody"),
        Err(ParseError::InvalidLineEndings)
    ));
}

#[test]
fn message_without_headers() {
    let message = Message::from_buffer(b"HTTP/1.1 200 OK\r\n\r\n\r\n").unwrap();
    assert_eq!(message.initial_line, "HTTP/1.1 200 OK");
    assert_eq!(message.headers.get("host"), None);
}
