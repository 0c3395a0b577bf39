//! Parsing of Combined Log Format access-log records, with the contracts
//! that the parser is verified against.

pub mod decimal;
pub mod error;
pub mod failure;
pub mod laws;
pub mod lexer;
pub mod line;
pub mod listing;
pub mod reader;
pub mod spacing;
pub mod record;
pub mod target;
pub mod text;
pub mod timestamp;

pub use error::ParseError;
pub use failure::{exit_status, AppError};
pub use line::{finish_line, parse_head, parse_line, LineHead};
pub use listing::{is_log_file, order_by_file_name};
pub use reader::{trim_line_ending, ProcessStatus, RunStatus};
pub use record::{LogRecord, CSV_HEADER};
pub use target::split_request_target;
pub use timestamp::normalize_timestamp;
