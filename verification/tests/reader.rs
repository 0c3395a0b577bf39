use access_log_parser::trim_line_ending;
use access_log_parser::ProcessStatus;

#[test]
fn trims_unix_and_windows_line_endings() {
    for (mut input, expected) in [
        (b"line\n".to_vec(), b"line".as_slice()),
        (b"line\r\n".to_vec(), b"line".as_slice()),
        (b"line".to_vec(), b"line".as_slice()),
    ] {
        trim_line_ending(&mut input);
        assert_eq!(input, expected);
    }
}

#[test]
fn trims_one_ending_only() {
    let mut line = b"line\r\r\n".to_vec();
    trim_line_ending(&mut line);
    assert_eq!(line, b"line\r".to_vec());

    let mut line = b"line\n\n".to_vec();
    trim_line_ending(&mut line);
    assert_eq!(line, b"line\n".to_vec());

    let mut line = b"line\n\r".to_vec();
    trim_line_ending(&mut line);
    assert_eq!(line, b"line\n".to_vec());

    let mut empty: Vec<u8> = Vec::new();
    trim_line_ending(&mut empty);
    assert!(empty.is_empty());
}

const GOOD: &[u8] = b"192.0.2.1 - - [07/Oct/2025:07:35:03 +0700] \"GET /one HTTP/1.1\" 200 12 \"-\" \"Agent\"\r\n";

#[test]
fn status_stays_clean_while_lines_parse() {
    let mut status = ProcessStatus::default();
    let mut line = GOOD.to_vec();
    let record = status.handle_line(&mut line, false).unwrap();
    assert_eq!(record.remote_host, "192.0.2.1");
    assert!(!status.invalid);
    assert!(!status.stop);
    assert!(!line.ends_with(b"\n"));
}

#[test]
fn strict_status_stops_at_first_rejected_line() {
    let mut status = ProcessStatus::default();
    let mut line = b"invalid\n".to_vec();
    let error = status.handle_line(&mut line, false).unwrap_err();
    assert_eq!(error.offset(), 7);
    assert!(status.invalid);
    assert!(status.stop);
}

#[test]
fn skipping_status_records_rejection_but_goes_on() {
    let mut status = ProcessStatus::default();
    let mut line = b"invalid\n".to_vec();
    assert!(status.handle_line(&mut line, true).is_err());
    assert!(status.invalid);
    assert!(!status.stop);

    let mut line = GOOD.to_vec();
    assert!(status.handle_line(&mut line, true).is_ok());
    assert!(status.invalid);
    assert!(!status.stop);
}
