use access_log_parser::parse_line;
use access_log_parser::ParseError;

fn reject(line: &[u8]) -> ParseError {
    parse_line(line).unwrap_err()
}

fn base(request: &str, status: &str, bytes: &str, agent: &str) -> Vec<u8> {
    format!(
        "192.0.2.10 - - [07/Oct/2025:07:35:03 +0700] {request} {status} {bytes} \"-\" {agent}"
    )
    .into_bytes()
}

fn find(line: &[u8], needle: &[u8]) -> usize {
    line.windows(needle.len()).position(|w| w == needle).unwrap()
}

#[test]
fn empty_line_misses_remote_host() {
    let error = reject(b"");
    assert_eq!(error.offset(), 0);
    assert_eq!(error.message(), "missing remote host");
    assert_eq!(error.to_string(), "byte 1: missing remote host");
}

#[test]
fn line_that_ends_after_host_misses_separator() {
    let error = reject(b"host");
    assert_eq!(error.offset(), 4);
    assert_eq!(error.to_string(), "byte 5: expected a space between fields");
}

#[test]
fn line_that_ends_after_separator_misses_ident() {
    let error = reject(b"host   ");
    assert_eq!(error.offset(), 7);
    assert_eq!(error.message(), "missing ident");
}

#[test]
fn timestamp_needs_brackets() {
    let error = reject(b"h - - 07/Oct/2025");
    assert_eq!(error.offset(), 6);
    assert_eq!(error.message(), "expected '[' before timestamp");

    let error = reject(b"h - - [07/Oct/2025");
    assert_eq!(error.offset(), 7);
    assert_eq!(error.message(), "unterminated timestamp");

    let error = reject(b"h - - [] \"-\" 200 1 \"-\" \"-\"");
    assert_eq!(error.offset(), 7);
    assert_eq!(error.message(), "empty timestamp");
}

#[test]
fn unreadable_timestamp_is_reported_at_its_first_byte() {
    let error = reject(b"h - - [yesterday] \"-\" 200 1 \"-\" \"-\"");
    assert_eq!(error.offset(), 7);
    assert!(error.message().starts_with("invalid timestamp: "));
    assert!(error.message().len() > "invalid timestamp: ".len());
}

#[test]
fn request_needs_quotes() {
    let line = base("GET / HTTP/1.1", "200", "1", "\"-\"");
    let error = reject(&line);
    assert_eq!(error.offset(), find(&line, b"GET"));
    assert_eq!(error.message(), "expected quote before request");
}

#[test]
fn each_escape_error_points_at_its_backslash() {
    let line = base("\"GET /\\xZZ HTTP/1.1\"", "200", "1", "\"-\"");
    let error = reject(&line);
    assert_eq!(error.offset(), find(&line, b"\\"));
    assert_eq!(error.message(), "invalid hexadecimal escape in request");

    let line = base("\"GET /\\x4 HTTP/1.1\"", "200", "1", "\"-\"");
    let error = reject(&line);
    assert_eq!(error.offset(), find(&line, b"\\"));
    assert_eq!(error.message(), "invalid hexadecimal escape in request");

    let line = base("\"GET /\\n HTTP/1.1\"", "200", "1", "\"-\"");
    let error = reject(&line);
    assert_eq!(error.offset(), find(&line, b"\\"));
    assert_eq!(error.message(), "unknown escape in request");

    let line = b"h - - [07/Oct/2025:07:35:03 +0700] \"GET \\".to_vec();
    let error = reject(&line);
    assert_eq!(error.offset(), line.len() - 1);
    assert_eq!(error.message(), "incomplete escape in request");
}

#[test]
fn unterminated_quote_points_after_the_opening_quote() {
    let line = b"h - - [07/Oct/2025:07:35:03 +0700] \"GET / HTTP/1.1".to_vec();
    let error = reject(&line);
    assert_eq!(error.offset(), find(&line, b"\"") + 1);
    assert_eq!(error.message(), "unterminated request");
}

#[test]
fn status_must_be_three_digits() {
    for status in ["20", "2000", "2x0", "+20"] {
        let line = base("\"-\"", status, "1", "\"-\"");
        let error = reject(&line);
        assert_eq!(error.offset(), find(&line, b"\"-\" ") + 4);
        assert_eq!(error.message(), "status must be three digits");
    }
}

#[test]
fn bytes_sent_must_be_digits_or_dash() {
    let line = base("\"-\"", "200", "12a", "\"-\"");
    let error = reject(&line);
    assert_eq!(error.offset(), find(&line, b"12a"));
    assert_eq!(error.message(), "bytes sent must be digits or '-'");

    let line = base("\"-\"", "200", "--", "\"-\"");
    assert_eq!(reject(&line).message(), "bytes sent must be digits or '-'");
}

#[test]
fn bytes_sent_must_fit_in_u64() {
    let line = base("\"-\"", "200", "18446744073709551616", "\"-\"");
    let error = reject(&line);
    assert_eq!(error.offset(), find(&line, b"18446744073709551616"));
    assert_eq!(error.message(), "bytes sent is out of range");

    let line = base("\"-\"", "200", "18446744073709551615", "\"-\"");
    assert_eq!(parse_line(&line).unwrap().bytes_sent, Some(u64::MAX));
}

#[test]
fn request_parts_must_be_present_and_non_empty() {
    let line = base("\"GET  / HTTP/1.1\"", "200", "1", "\"-\"");
    let error = reject(&line);
    assert_eq!(error.offset(), find(&line, b"GET"));
    assert_eq!(error.message(), "request must contain method, target, and protocol");

    for request in ["\" / HTTP/1.1\"", "\"GET  HTTP/1.1\"", "\"GET / \""] {
        let line = base(request, "200", "1", "\"-\"");
        let error = reject(&line);
        assert_eq!(error.offset(), find(&line, b"\"") + 1);
        assert_eq!(
            error.message(),
            "request method, target, and protocol must be non-empty"
        );
    }
}

#[test]
fn invalid_utf8_is_reported_where_validity_ends() {
    let error = reject(b"\xffhost - - [07/Oct/2025:07:35:03 +0700] \"-\" 200 1 \"-\" \"-\"");
    assert_eq!(error.offset(), 0);
    assert_eq!(error.message(), "remote host is not valid UTF-8");

    let error = reject(b"ho\xc3st - - [07/Oct/2025:07:35:03 +0700] \"-\" 200 1 \"-\" \"-\"");
    assert_eq!(error.offset(), 2);

    let line = base("\"-\"", "200", "1", "\"ok\\xc3\\xa9\\xed\\xa0\\x80\"");
    let error = reject(&line);
    let agent_start = line.len() - "ok\\xc3\\xa9\\xed\\xa0\\x80\"".len();
    assert_eq!(error.offset(), agent_start + 4);
    assert_eq!(error.message(), "user agent is not valid UTF-8");
}

#[test]
fn trailing_spaces_are_accepted_but_not_trailing_text() {
    let mut line = base("\"GET /a.b HTTP/1.1\"", "200", "1", "\"x y\"");
    let record = parse_line(&line).unwrap();
    line.extend_from_slice(b"   ");
    assert_eq!(parse_line(&line).unwrap(), record);
    line.extend_from_slice(b"x");
    let error = reject(&line);
    assert_eq!(error.offset(), line.len() - 1);
    assert_eq!(error.message(), "unexpected trailing data");
}

#[test]
fn trailing_data_is_checked_before_the_request_parts() {
    let mut line = base("\"GET /\"", "200", "1", "\"-\"");
    line.extend_from_slice(b" x");
    assert_eq!(reject(&line).message(), "unexpected trailing data");
}

#[test]
fn every_rejection_points_into_the_line() {
    let lines: Vec<Vec<u8>> = vec![
        b"".to_vec(),
        b"a".to_vec(),
        b"a ".to_vec(),
        b"a b c [".to_vec(),
        b"a b c [x".to_vec(),
        b"a b c [x] \"".to_vec(),
        b"a b c [x] \"\\".to_vec(),
        base("\"-\"", "200", "1", "\"\\xf0\\x90\\x80\""),
        base("\"GET / HTTP/1.1\"", "200", "1", "\"-\" trailing"),
    ];
    for line in lines {
        let error = reject(&line);
        assert!(error.offset() <= line.len());
    }
}
