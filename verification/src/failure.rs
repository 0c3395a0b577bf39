//! The failures of a conversion run other than rejected lines: which end the
//! run quietly, and how the others are described.

use vstd::prelude::*;
use vstd::string::to_string_from_display_ensures;

verus! {

#[verifier::external_type_specification]
#[verifier::external_body]
pub struct ExIoError(std::io::Error);

#[verifier::external_type_specification]
#[verifier::external_body]
pub struct ExCsvError(csv::Error);

/// Whether the kind of an I/O error, `std::io::Error::kind`, is
/// `ErrorKind::BrokenPipe`: the reader at the other end of an output has
/// gone away. It depends on the error alone.
pub uninterp spec fn io_error_is_broken_pipe(error: std::io::Error) -> bool;

/// The I/O error that a CSV error wraps (`csv::ErrorKind::Io`), when it wraps
/// one. It depends on the error alone.
pub uninterp spec fn csv_io_cause(error: csv::Error) -> Option<std::io::Error>;

/// `std::io::Error::kind`, compared with `ErrorKind::BrokenPipe`. The answer
/// is the name `io_error_is_broken_pipe` applied to the error.
#[verifier::external_body]
fn is_broken_pipe(error: &std::io::Error) -> (r: bool)
    ensures
        r == io_error_is_broken_pipe(*error),
{
    error.kind() == std::io::ErrorKind::BrokenPipe
}

/// `csv::Error::kind`: the I/O error that a CSV error wraps, when its kind is
/// `csv::ErrorKind::Io`. The answer is the name `csv_io_cause` applied to the
/// error.
#[verifier::external_body]
fn csv_io_error(error: &csv::Error) -> (r: Option<&std::io::Error>)
    ensures
        match r {
            Some(inner) => csv_io_cause(*error) == Some(*inner),
            None => csv_io_cause(*error) is None,
        },
{
    match error.kind() {
        csv::ErrorKind::Io(inner) => Some(inner),
        _ => None,
    }
}

/// Whether a CSV error is a broken pipe: it wraps an I/O error of that kind.
pub open spec fn csv_error_is_broken_pipe(error: csv::Error) -> bool {
    match csv_io_cause(error) {
        Some(inner) => io_error_is_broken_pipe(inner),
        None => false,
    }
}

/// A failure that ends a run: a closed output pipe, which ends it quietly,
/// or anything else, with its description.
#[derive(Debug)]
pub enum AppError {
    BrokenPipe,
    Other(String),
}

/// The description of a failed write: what was being written, then why.
pub open spec fn write_failure_text(context: Seq<char>, detail: Seq<char>) -> Seq<char> {
    context + ": "@ + detail
}

impl AppError {
    /// A failure described by `message`.
    pub fn other(message: String) -> (r: AppError)
        ensures
            r matches AppError::Other(m) && m@ == message@,
    {
        AppError::Other(message)
    }

    /// A failed write: a closed pipe ends the run quietly; any other failure
    /// is described by `context` and `detail`.
    pub fn from_write_failure(broken_pipe: bool, context: &str, detail: &str) -> (r: AppError)
        ensures
            broken_pipe ==> r is BrokenPipe,
            !broken_pipe ==> (r matches AppError::Other(m) && m@ == write_failure_text(
                context@,
                detail@,
            )),
    {
        if broken_pipe {
            AppError::BrokenPipe
        } else {
            AppError::other(String::from_str(context).concat(": ").concat(detail))
        }
    }

    /// A failed write to an output, classified by the kind of the I/O error:
    /// a closed pipe ends the run quietly; any other failure is described by
    /// `context`, then the error's own text (its `Display`).
    pub fn from_io_write(error: std::io::Error, context: &str) -> (r: AppError)
        ensures
            (r is BrokenPipe) == io_error_is_broken_pipe(error),
            r is BrokenPipe || (r matches AppError::Other(m) && exists|detail: String|
                #[trigger] to_string_from_display_ensures::<std::io::Error>(&error, detail)
                    && m@ == write_failure_text(context@, detail@)),
    {
        let broken_pipe = is_broken_pipe(&error);
        let detail = error.to_string();
        AppError::from_write_failure(broken_pipe, context, detail.as_str())
    }

    /// A failed write of CSV: a broken pipe when the CSV error wraps an I/O
    /// error of that kind; any other failure is described by `context`, then
    /// the CSV error's own text (its `Display`).
    pub fn from_csv_write(error: csv::Error, context: &str) -> (r: AppError)
        ensures
            (r is BrokenPipe) == csv_error_is_broken_pipe(error),
            r is BrokenPipe || (r matches AppError::Other(m) && exists|detail: String|
                #[trigger] to_string_from_display_ensures::<csv::Error>(&error, detail)
                    && m@ == write_failure_text(context@, detail@)),
    {
        let broken_pipe = match csv_io_error(&error) {
            Some(inner) => is_broken_pipe(inner),
            None => false,
        };
        let detail = error.to_string();
        AppError::from_write_failure(broken_pipe, context, detail.as_str())
    }

    /// The failure as text.
    pub fn to_string(&self) -> (s: String)
        ensures
            match self {
                AppError::BrokenPipe => s@ == "broken pipe"@,
                AppError::Other(m) => s@ == m@,
            },
    {
        match self {
            AppError::BrokenPipe => String::from_str("broken pipe"),
            AppError::Other(message) => message.clone(),
        }
    }
}

/// The exit status of a run: 0 when every line was accepted or the output
/// pipe was closed, 1 when some line was rejected, 2 on any other failure.
pub open spec fn spec_exit_status(outcome: Result<bool, AppError>) -> u8 {
    match outcome {
        Ok(invalid) => if invalid {
            1
        } else {
            0
        },
        Err(AppError::BrokenPipe) => 0,
        Err(AppError::Other(_)) => 2,
    }
}

/// The exit status for the outcome of a run, which is whether any line was
/// rejected, or the failure that ended it.
pub fn exit_status(outcome: &Result<bool, AppError>) -> (code: u8)
    ensures
        code == spec_exit_status(*outcome),
{
    match outcome {
        Ok(false) => 0,
        Ok(true) => 1,
        Err(AppError::BrokenPipe) => 0,
        Err(AppError::Other(_)) => 2,
    }
}

} // verus!
