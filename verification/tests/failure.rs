use std::io;

use access_log_parser::AppError;

#[test]
fn classifies_only_broken_pipe_write_errors_as_normal_termination() {
    let broken_pipe = io::Error::from(io::ErrorKind::BrokenPipe);
    assert!(matches!(
        AppError::from_io_write(broken_pipe, "writing output"),
        AppError::BrokenPipe
    ));

    let disk_full = io::Error::from(io::ErrorKind::StorageFull);
    let error = AppError::from_io_write(disk_full, "writing output");
    assert!(matches!(error, AppError::Other(_)));
    assert!(error.to_string().starts_with("writing output:"));
}

#[test]
fn recognizes_broken_pipe_wrapped_by_csv_writer() {
    let error = csv::Error::from(io::Error::from(io::ErrorKind::BrokenPipe));

    assert!(matches!(
        AppError::from_csv_write(error, "writing CSV"),
        AppError::BrokenPipe
    ));
}

#[test]
fn other_csv_failures_are_described_with_their_context() {
    let error = csv::Error::from(io::Error::from(io::ErrorKind::PermissionDenied));
    let failure = AppError::from_csv_write(error, "writing CSV");
    assert!(matches!(failure, AppError::Other(_)));
    let text = failure.to_string();
    assert!(text.starts_with("writing CSV: "));
    assert!(text.len() > "writing CSV: ".len());
}

#[test]
fn write_failures_are_described_by_context_and_detail() {
    let failure = AppError::from_write_failure(false, "cannot flush CSV output", "disk full");
    assert_eq!(failure.to_string(), "cannot flush CSV output: disk full");
    assert!(matches!(
        AppError::from_write_failure(true, "cannot flush CSV output", "disk full"),
        AppError::BrokenPipe
    ));
    assert_eq!(AppError::BrokenPipe.to_string(), "broken pipe");
    assert_eq!(AppError::other(String::from("same file")).to_string(), "same file");
}
