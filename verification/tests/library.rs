use access_log_parser::lexer::Lexer;
use access_log_parser::decimal::{decimal_string, parse_digits_u64, parse_three_digits};
use access_log_parser::text::{decode_text, utf8_valid_up_to};
use access_log_parser::{
    finish_line, normalize_timestamp, parse_head, parse_line, split_request_target, CSV_HEADER,
};

const VALID: &[u8] = br#"255.102.154.224 - - [07/Oct/2025:07:35:03 +0700] "HEAD /1.php HTTP/1.0" 302 137 "https://sub1.example/" "Test Agent""#;

#[test]
fn csv_fields_follow_the_header_and_leave_absent_values_empty() {
    let record = parse_line(VALID).unwrap();
    let fields = record.csv_fields();
    assert_eq!(CSV_HEADER.len(), fields.len());
    assert_eq!(CSV_HEADER[11], "status");
    assert_eq!(
        fields,
        [
            "255.102.154.224",
            "",
            "",
            "2025-10-07T00:35:03Z",
            "HEAD /1.php HTTP/1.0",
            "HEAD",
            "/1.php",
            "/1.php",
            "php",
            "",
            "HTTP/1.0",
            "302",
            "137",
            "https://sub1.example/",
            "Test Agent",
        ]
        .map(String::from)
    );
}

#[test]
fn csv_fields_of_a_dash_request_are_empty() {
    let line = br#"192.0.2.10 - bob [07/Oct/2025:07:35:03 +0700] "-" 400 - "-" "-""#;
    let fields = parse_line(line).unwrap().csv_fields();
    assert_eq!(fields[2], "bob");
    for i in [4, 5, 6, 7, 8, 9, 10, 12, 13, 14] {
        assert_eq!(fields[i], "", "column {i}");
    }
    assert_eq!(fields[11], "400");
}

#[test]
fn request_is_its_method_target_and_protocol() {
    let line = br#"1.2.3.4 - - [07/Oct/2025:07:35:03 +0700] "POST /x/y.tar.gz?a=1?b HTTP/2" 201 5 "-" "-""#;
    let record = parse_line(line).unwrap();
    let method = record.method.clone().unwrap();
    let target = record.request_target.clone().unwrap();
    let protocol = record.protocol.clone().unwrap();
    assert_eq!(record.request.unwrap(), format!("{method} {target} {protocol}"));
    let path = record.request_path.unwrap();
    let query = record.query_string.unwrap();
    assert_eq!(target, format!("{path}?{query}"));
    assert_eq!(record.extension.as_deref(), Some("gz"));
    assert!(path.ends_with(".gz"));
}

#[test]
fn split_target_reassembles_and_keeps_text_intact() {
    for target in ["/", "/a?b", "/é/ü.ñ?q=€", "?", "/a.b/c.d?e.f", "no-slash.txt"] {
        let (path, extension, query) = split_request_target(target);
        match query {
            Some(q) => assert_eq!(format!("{path}?{q}"), target),
            None => assert_eq!(path, target),
        }
        assert!(!path.contains('?'));
        if let Some(e) = extension {
            assert!(!e.is_empty() && !e.contains('.') && !e.contains('/'));
            assert!(path.ends_with(&format!(".{e}")));
        }
    }
    assert_eq!(split_request_target("/é/ü.ñ?q=€").1.as_deref(), Some("ñ"));
    assert_eq!(split_request_target("no-slash.txt").1.as_deref(), Some("txt"));
}

#[test]
fn placeholders_never_survive_as_values() {
    let line = br#"- - - [07/Oct/2025:07:35:03 +0700] "-" 200 - "-" "-""#;
    let record = parse_line(line).unwrap();
    assert_eq!(record.remote_host, "-");
    assert_eq!(record.ident, None);
    assert_eq!(record.remote_user, None);
    assert_eq!(record.request, None);
    assert_eq!(record.referer, None);
    assert_eq!(record.user_agent, None);

    let line = br#"h - - [07/Oct/2025:07:35:03 +0700] "\x2d" 200 - "\x2d" "--""#;
    let record = parse_line(line).unwrap();
    assert_eq!(record.request, None);
    assert_eq!(record.referer, None);
    assert_eq!(record.user_agent.as_deref(), Some("--"));
}

#[test]
fn non_ascii_text_is_decoded() {
    let line = "h - jürgen [07/Oct/2025:07:35:03 +0700] \"GET /ünï.çödé HTTP/1.1\" 200 1 \"-\" \"Agent é\""
        .as_bytes();
    let record = parse_line(line).unwrap();
    assert_eq!(record.remote_user.as_deref(), Some("jürgen"));
    assert_eq!(record.extension.as_deref(), Some("çödé"));
    assert_eq!(record.user_agent.as_deref(), Some("Agent é"));
}

#[test]
fn timestamps_are_normalized_by_chrono() {
    assert_eq!(
        normalize_timestamp("07/Oct/2025:07:35:03 +0700").unwrap(),
        "2025-10-07T00:35:03Z"
    );
    assert_eq!(
        normalize_timestamp("31/Dec/1999:23:59:59 -0130").unwrap(),
        "2000-01-01T01:29:59Z"
    );
    assert!(normalize_timestamp("31/Feb/2025:07:35:03 +0700").is_err());
    assert!(normalize_timestamp("07/Oct/2025:07:35:03").is_err());
}

#[test]
fn head_then_finish_with_a_given_timestamp() {
    let head = parse_head(VALID).unwrap();
    assert_eq!(head.timestamp_text(), "07/Oct/2025:07:35:03 +0700");
    let record = finish_line(VALID, head, Ok(String::from("then"))).unwrap();
    assert_eq!(record.timestamp, "then");
    assert_eq!(record.status, 302);

    let head = parse_head(VALID).unwrap();
    let error = finish_line(VALID, head, Err(String::from("no such day"))).unwrap_err();
    assert_eq!(error.offset(), 21);
    assert_eq!(error.message(), "invalid timestamp: no such day");
    assert_eq!(error.to_string(), "byte 22: invalid timestamp: no such day");
}

#[test]
fn decimals_render_and_read_back() {
    assert_eq!(decimal_string(0), "0");
    assert_eq!(decimal_string(7), "7");
    assert_eq!(decimal_string(1234567890123), "1234567890123");
    assert_eq!(decimal_string(u64::MAX as u128), u64::MAX.to_string());
    for n in [0u64, 9, 10, 99, 100, 65535, 1 << 40, u64::MAX] {
        let text = decimal_string(n as u128);
        assert_eq!(parse_digits_u64(text.as_bytes()), Some(n));
    }
    assert_eq!(parse_digits_u64(b"18446744073709551616"), None);
    assert_eq!(parse_digits_u64(b"00012"), Some(12));
    assert_eq!(parse_three_digits(b"404"), 404);
    assert_eq!(parse_three_digits(b"007"), 7);
}

#[test]
fn utf8_validity_is_measured_scalar_by_scalar() {
    assert_eq!(utf8_valid_up_to(b"plain"), 5);
    assert_eq!(utf8_valid_up_to(b"ab\xc3\xa9\xff"), 4);
    assert_eq!(utf8_valid_up_to(b"\xed\xa0\x80"), 0);
    assert_eq!(utf8_valid_up_to(b"\xe2\x82"), 0);
    assert_eq!(utf8_valid_up_to(b"x\xc0\x80"), 1);
    assert_eq!(utf8_valid_up_to("\u{10348}z".as_bytes()), 5);
    assert_eq!(utf8_valid_up_to(b"\xf4\x90\x80\x80"), 0);
    assert_eq!(decode_text("€ü".as_bytes()), "€ü");
    for bytes in [&b"ab\xc3\xa9\xff"[..], b"\xed\xa0\x80", b"x\xc0\x80", b"\xe2\x82"] {
        let expected = std::str::from_utf8(bytes).unwrap_err().valid_up_to();
        assert_eq!(utf8_valid_up_to(bytes), expected);
    }
}

#[test]
fn quoted_decoding_undoes_escaping() {
    let plain: &[u8] = b"a \"b\\ c";
    let mut escaped = vec![b'"'];
    for &byte in plain {
        if byte == b'"' || byte == b'\\' {
            escaped.push(b'\\');
        }
        escaped.push(byte);
    }
    escaped.push(b'"');
    let written = escaped.len();
    escaped.extend_from_slice(b" rest");
    let mut lexer = Lexer::new(&escaped);
    let value = lexer.quoted("referer").unwrap();
    assert_eq!(value.bytes, plain);
    assert_eq!(value.literal_spaces, vec![1, 5]);
    assert_eq!(lexer.position, written);
}

#[test]
fn quoted_field_records_only_unescaped_spaces() {
    let mut lexer = Lexer::new(br#""a\x20b c" tail"#);
    let value = lexer.quoted("request").unwrap();
    assert_eq!(value.bytes, b"a b c");
    assert_eq!(value.literal_spaces, vec![3]);
    assert_eq!(lexer.position, 10);
}

#[test]
fn extension_is_found_exactly_when_the_last_segment_has_an_inner_dot() {
    for (target, expected) in [
        ("/a/b.c", Some("c")),
        ("/a.b/c", None),
        ("/a/.c", None),
        ("/a/b.", None),
        ("/a/b.c.d?x.y", Some("d")),
        ("b.c", Some("c")),
        ("/x/..c", Some("c")),
    ] {
        let (_, extension, _) = split_request_target(target);
        assert_eq!(extension.as_deref(), expected, "target: {target}");
    }
}

#[test]
fn leading_fields_are_single_words() {
    let line = br#"host-1 id user [07/Oct/2025:07:35:03 +0700] "-" 200 - "-" "-""#;
    let record = parse_line(line).unwrap();
    assert_eq!(record.remote_host, "host-1");
    assert_eq!(record.ident.as_deref(), Some("id"));
    assert_eq!(record.remote_user.as_deref(), Some("user"));
}

/// The positions of the spaces of `line` that stand outside quotes and brackets.
fn separator_spaces(line: &[u8]) -> Vec<usize> {
    let mut separators = Vec::new();
    let (mut in_quotes, mut in_brackets) = (false, false);
    for (i, b) in line.iter().enumerate() {
        match b {
            b'"' => in_quotes = !in_quotes,
            b'[' if !in_quotes => in_brackets = true,
            b']' if !in_quotes => in_brackets = false,
            b' ' if !in_quotes && !in_brackets => separators.push(i),
            _ => {}
        }
    }
    separators
}

#[test]
fn widening_any_separator_keeps_the_record() {
    let expected = parse_line(VALID).unwrap();
    let separators = separator_spaces(VALID);
    assert_eq!(separators.len(), 8);
    for q in separators {
        for n in 1..=4 {
            let mut widened = VALID.to_vec();
            widened.splice(q + 1..q + 1, std::iter::repeat(b' ').take(n));
            assert_eq!(parse_line(&widened).unwrap(), expected, "{n} spaces after byte {q}");
        }
    }
    let wide: &[u8] = br#"255.102.154.224  -   -  [07/Oct/2025:07:35:03 +0700]  "HEAD /1.php HTTP/1.0"   302    137  "https://sub1.example/"     "Test Agent""#;
    assert_eq!(parse_line(wide).unwrap(), expected);
    for q in separator_spaces(wide) {
        let mut widened = wide.to_vec();
        widened.insert(q + 1, b' ');
        assert_eq!(parse_line(&widened).unwrap(), expected, "extra space after byte {q}");
    }
}

#[test]
fn hex_escapes_with_digits_in_any_case_read_back_as_their_bytes() {
    let mut lexer = Lexer::new(b"\"\\x22\\x5C\\x5c\\xE9\\xaF \\x20\\x41z\" next");
    let value = lexer.quoted("referer").unwrap();
    assert_eq!(value.bytes, b"\"\\\\\xe9\xaf  Az");
    assert_eq!(value.literal_spaces, vec![5]);
    assert_eq!(lexer.position, 32);
}
