use access_log_parser::lexer::Lexer;
use access_log_parser::{exit_status, is_log_file, order_by_file_name, AppError, ProcessStatus, RunStatus};

#[test]
fn only_regular_files_with_a_log_extension_are_read() {
    for (name, expected) in [
        ("a.log", true),
        ("b.old.log", true),
        ("..log", true),
        (".log", false),
        ("a.LOG", false),
        ("a.log:Zone.Identifier", false),
        ("ignored.txt", false),
        ("log", false),
        ("a.log.", false),
        ("a.logs", false),
        ("", false),
    ] {
        assert_eq!(is_log_file(name.as_bytes(), true), expected, "name: {name}");
        let through_std = std::path::Path::new(name)
            .extension()
            .is_some_and(|extension| extension == "log");
        assert_eq!(through_std, expected, "name: {name}");
    }
    assert!(!is_log_file(b"a.log", false));
}

#[test]
fn file_names_are_ordered_byte_by_byte() {
    let names: Vec<Vec<u8>> = ["b.log", "a.log", "B.log", "a.log.log", "ab.log", "a.log"]
        .iter()
        .map(|n| n.as_bytes().to_vec())
        .collect();
    let mut expected = names.clone();
    expected.sort();
    assert_eq!(order_by_file_name(names), expected);
    assert!(order_by_file_name(Vec::new()).is_empty());
}

#[test]
fn a_run_is_invalid_once_an_input_was_and_stops_when_an_input_stops() {
    let mut run = RunStatus::new();
    let clean = ProcessStatus::default();
    assert!(run.after_input(&clean));
    assert!(!run.invalid);
    let skipped = ProcessStatus { invalid: true, stop: false };
    assert!(run.after_input(&skipped));
    assert!(run.invalid);
    assert!(run.after_input(&clean));
    assert!(run.invalid);
    let stopped = ProcessStatus { invalid: true, stop: true };
    assert!(!run.after_input(&stopped));
}

#[test]
fn exit_status_follows_the_outcome() {
    assert_eq!(exit_status(&Ok(false)), 0);
    assert_eq!(exit_status(&Ok(true)), 1);
    assert_eq!(exit_status(&Err(AppError::BrokenPipe)), 0);
    assert_eq!(exit_status(&Err(AppError::other(String::from("boom")))), 2);
}

#[test]
fn lexer_stays_put_on_a_missing_opener() {
    let input = b"x]";
    let mut lexer = Lexer::new(input);
    assert!(lexer.bracketed("timestamp").is_err());
    assert_eq!(lexer.position, 0);
    assert!(lexer.quoted("request").is_err());
    assert_eq!(lexer.position, 0);
    assert!(lexer.separator().is_err());
    assert_eq!(lexer.position, 0);
    assert!(lexer.expect_byte(b'y', String::from("expected y")).is_err());
    assert_eq!(lexer.position, 0);

    let mut lexer = Lexer::new(b" x");
    assert_eq!(lexer.unquoted("ident").unwrap_err().offset(), 0);
    assert_eq!(lexer.position, 0);
}

#[test]
fn lexer_stops_where_its_error_says() {
    let mut lexer = Lexer::new(b"  x");
    let error = lexer.finish().unwrap_err();
    assert_eq!(error.offset(), 2);
    assert_eq!(lexer.position, 2);

    let mut lexer = Lexer::new(b"[abc");
    assert!(lexer.bracketed("timestamp").is_err());
    assert_eq!(lexer.position, 4);

    let mut lexer = Lexer::new(b"[]x");
    assert!(lexer.bracketed("timestamp").is_err());
    assert_eq!(lexer.position, 2);

    let mut lexer = Lexer::new(b"\"a\\qb\"");
    assert!(lexer.quoted("request").is_err());
    assert_eq!(lexer.position, 3);

    let mut lexer = Lexer::new(b"\"ab");
    assert!(lexer.quoted("request").is_err());
    assert_eq!(lexer.position, 3);
}
