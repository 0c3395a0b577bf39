use access_log_parser::parse_line;
use access_log_parser::split_request_target;

const VALID: &[u8] = br#"255.102.154.224 - - [07/Oct/2025:07:35:03 +0700] "HEAD /1.php HTTP/1.0" 302 137 "https://sub1.example/" "Test Agent""#;

#[test]
fn parses_combined_log_and_normalizes_timestamp() {
    let record = parse_line(VALID).unwrap();

    assert_eq!(record.remote_host, "255.102.154.224");
    assert_eq!(record.ident, None);
    assert_eq!(record.remote_user, None);
    assert_eq!(record.timestamp, "2025-10-07T00:35:03Z");
    assert_eq!(record.request.as_deref(), Some("HEAD /1.php HTTP/1.0"));
    assert_eq!(record.method.as_deref(), Some("HEAD"));
    assert_eq!(record.request_target.as_deref(), Some("/1.php"));
    assert_eq!(record.request_path.as_deref(), Some("/1.php"));
    assert_eq!(record.extension.as_deref(), Some("php"));
    assert_eq!(record.query_string, None);
    assert_eq!(record.protocol.as_deref(), Some("HTTP/1.0"));
    assert_eq!(record.status, 302);
    assert_eq!(record.bytes_sent, Some(137));
    assert_eq!(record.referer.as_deref(), Some("https://sub1.example/"));
    assert_eq!(record.user_agent.as_deref(), Some("Test Agent"));
}

#[test]
fn decodes_supported_quoted_escapes() {
    let line = br#"192.0.2.10 - alice [07/Oct/2025:07:35:03 +0700] "GET /search?q=\x22rust\x22 HTTP/1.1" 200 123 "-" "ExampleBot/1.0 \"crawler\" \\ Windows""#;
    let record = parse_line(line).unwrap();

    assert_eq!(record.request_target.as_deref(), Some("/search?q=\"rust\""));
    assert_eq!(record.request_path.as_deref(), Some("/search"));
    assert_eq!(record.extension, None);
    assert_eq!(record.query_string.as_deref(), Some("q=\"rust\""));
    assert_eq!(
        record.user_agent.as_deref(),
        Some("ExampleBot/1.0 \"crawler\" \\ Windows")
    );
    assert_eq!(record.referer, None);
}

#[test]
fn allows_hex_encoded_space_inside_request_target() {
    let line =
        br#"192.0.2.10 - - [07/Oct/2025:07:35:03 +0700] "GET /a\x20b HTTP/1.1" 200 0 "-" "-""#;
    let record = parse_line(line).unwrap();

    assert_eq!(record.request_target.as_deref(), Some("/a b"));
}

#[test]
fn accepts_missing_request_and_nullable_fields() {
    let line = br#"192.0.2.10 - - [07/Oct/2025:07:35:03 +0700] "-" 400 - "-" "-""#;
    let record = parse_line(line).unwrap();

    assert_eq!(record.request, None);
    assert_eq!(record.method, None);
    assert_eq!(record.request_target, None);
    assert_eq!(record.request_path, None);
    assert_eq!(record.extension, None);
    assert_eq!(record.query_string, None);
    assert_eq!(record.protocol, None);
    assert_eq!(record.bytes_sent, None);
    assert_eq!(record.referer, None);
    assert_eq!(record.user_agent, None);
}

#[test]
fn rejects_unknown_escape() {
    let line = br#"192.0.2.10 - - [07/Oct/2025:07:35:03 +0700] "GET / HTTP/1.1" 200 1 "-" "bad\qagent""#;
    let error = parse_line(line).unwrap_err();

    assert!(error.to_string().contains("unknown escape in user agent"));
}

#[test]
fn rejects_invalid_utf8_after_hex_decoding() {
    let line =
        br#"192.0.2.10 - - [07/Oct/2025:07:35:03 +0700] "GET / HTTP/1.1" 200 1 "-" "\xFF""#;
    let error = parse_line(line).unwrap_err();

    assert!(error.to_string().contains("user agent is not valid UTF-8"));
}

#[test]
fn rejects_invalid_timestamp() {
    let line = br#"192.0.2.10 - - [31/Feb/2025:07:35:03 +0700] "GET / HTTP/1.1" 200 1 "-" "-""#;
    let error = parse_line(line).unwrap_err();

    assert!(error.to_string().contains("invalid timestamp"));
}

#[test]
fn rejects_request_without_three_parts() {
    let line = br#"192.0.2.10 - - [07/Oct/2025:07:35:03 +0700] "GET /" 200 1 "-" "-""#;
    let error = parse_line(line).unwrap_err();

    assert!(error.to_string().contains("method, target, and protocol"));
}

#[test]
fn rejects_trailing_data() {
    let mut line = VALID.to_vec();
    line.extend_from_slice(b" surprise");
    let error = parse_line(&line).unwrap_err();

    assert!(error.to_string().contains("unexpected trailing data"));
}

#[test]
fn splits_path_extension_and_raw_query_string() {
    let line = br#"192.0.2.10 - - [07/Oct/2025:07:35:03 +0700] "GET /1.php?code=anon42aa906fd184&state=anon25e7ea81614c HTTP/1.0" 200 1 "-" "-""#;
    let record = parse_line(line).unwrap();

    assert_eq!(record.request_path.as_deref(), Some("/1.php"));
    assert_eq!(record.extension.as_deref(), Some("php"));
    assert_eq!(
        record.query_string.as_deref(),
        Some("code=anon42aa906fd184&state=anon25e7ea81614c")
    );
}

#[test]
fn derives_extension_from_only_the_final_path_segment() {
    for (target, expected) in [
        ("/assets/app.min.JS", Some("JS")),
        ("/archive", None),
        ("/.well-known", None),
        ("/path/file.", None),
        ("/directory.with-dot/file", None),
    ] {
        let (_, extension, _) = split_request_target(target);
        assert_eq!(extension.as_deref(), expected, "target: {target}");
    }
}

#[test]
fn splits_query_only_on_the_first_question_mark() {
    let (path, extension, query_string) = split_request_target("/a.php?one?two");

    assert_eq!(path, "/a.php");
    assert_eq!(extension.as_deref(), Some("php"));
    assert_eq!(query_string.as_deref(), Some("one?two"));
}
