//! One parsed access-log record and its CSV rendering.

use vstd::prelude::*;

use crate::decimal::{decimal_chars, decimal_string};
use crate::target::opt_view;

verus! {

/// The CSV column names, in the order of `LogRecord::csv_fields`.
pub const CSV_HEADER: [&'static str; 15] = [
    "remote_host",
    "ident",
    "remote_user",
    "timestamp",
    "request",
    "method",
    "request_target",
    "request_path",
    "extension",
    "query_string",
    "protocol",
    "status",
    "bytes_sent",
    "referer",
    "user_agent",
];

/// The content of a `LogRecord`, text as characters.
pub struct RecordModel {
    pub remote_host: Seq<char>,
    pub ident: Option<Seq<char>>,
    pub remote_user: Option<Seq<char>>,
    pub timestamp: Seq<char>,
    pub request: Option<Seq<char>>,
    pub method: Option<Seq<char>>,
    pub request_target: Option<Seq<char>>,
    pub request_path: Option<Seq<char>>,
    pub extension: Option<Seq<char>>,
    pub query_string: Option<Seq<char>>,
    pub protocol: Option<Seq<char>>,
    pub status: u16,
    pub bytes_sent: Option<u64>,
    pub referer: Option<Seq<char>>,
    pub user_agent: Option<Seq<char>>,
}

/// One access-log record. `None` stands for a `-` placeholder in the log;
/// the request's parts are `None` when the whole request is `-`.
#[derive(Debug, Clone, PartialEq, Eq)]
pub struct LogRecord {
    pub remote_host: String,
    pub ident: Option<String>,
    pub remote_user: Option<String>,
    pub timestamp: String,
    pub request: Option<String>,
    pub method: Option<String>,
    pub request_target: Option<String>,
    pub request_path: Option<String>,
    pub extension: Option<String>,
    pub query_string: Option<String>,
    pub protocol: Option<String>,
    pub status: u16,
    pub bytes_sent: Option<u64>,
    pub referer: Option<String>,
    pub user_agent: Option<String>,
}

impl View for LogRecord {
    type V = RecordModel;

    open spec fn view(&self) -> RecordModel {
        RecordModel {
            remote_host: self.remote_host@,
            ident: opt_view(self.ident),
            remote_user: opt_view(self.remote_user),
            timestamp: self.timestamp@,
            request: opt_view(self.request),
            method: opt_view(self.method),
            request_target: opt_view(self.request_target),
            request_path: opt_view(self.request_path),
            extension: opt_view(self.extension),
            query_string: opt_view(self.query_string),
            protocol: opt_view(self.protocol),
            status: self.status,
            bytes_sent: self.bytes_sent,
            referer: opt_view(self.referer),
            user_agent: opt_view(self.user_agent),
        }
    }
}

/// The text of an optional field, empty when it is absent.
pub open spec fn text_or_empty(o: Option<Seq<char>>) -> Seq<char> {
    match o {
        Some(s) => s,
        None => Seq::empty(),
    }
}

/// The CSV cells of a record, in the order of `CSV_HEADER`: absent fields
/// are empty, numbers are in decimal.
pub open spec fn spec_csv_fields(m: RecordModel) -> Seq<Seq<char>> {
    seq![
        m.remote_host,
        text_or_empty(m.ident),
        text_or_empty(m.remote_user),
        m.timestamp,
        text_or_empty(m.request),
        text_or_empty(m.method),
        text_or_empty(m.request_target),
        text_or_empty(m.request_path),
        text_or_empty(m.extension),
        text_or_empty(m.query_string),
        text_or_empty(m.protocol),
        decimal_chars(m.status as nat),
        match m.bytes_sent {
            Some(v) => decimal_chars(v as nat),
            None => Seq::empty(),
        },
        text_or_empty(m.referer),
        text_or_empty(m.user_agent),
    ]
}

/// `cell` is how an optional field shows in CSV: its text when present,
/// nothing when absent.
pub open spec fn shows_as(field: Option<Seq<char>>, cell: Seq<char>) -> bool {
    match field {
        Some(text) => cell == text,
        None => cell.len() == 0,
    }
}

/// Each CSV cell of a record is the record field that `CSV_HEADER` names in
/// its column: remote host, ident, remote user, timestamp, request, method,
/// request target, request path, extension, query string, protocol, status,
/// bytes sent, referer and user agent, in that order; numbers in decimal.
pub proof fn law_csv_cells_are_the_named_fields(m: RecordModel)
    ensures
        ({
            let c = spec_csv_fields(m);
            &&& c.len() == 15
            &&& c[0] == m.remote_host
            &&& shows_as(m.ident, c[1])
            &&& shows_as(m.remote_user, c[2])
            &&& c[3] == m.timestamp
            &&& shows_as(m.request, c[4])
            &&& shows_as(m.method, c[5])
            &&& shows_as(m.request_target, c[6])
            &&& shows_as(m.request_path, c[7])
            &&& shows_as(m.extension, c[8])
            &&& shows_as(m.query_string, c[9])
            &&& shows_as(m.protocol, c[10])
            &&& c[11] == decimal_chars(m.status as nat)
            &&& (m.bytes_sent matches Some(v) ==> c[12] == decimal_chars(v as nat))
            &&& (m.bytes_sent is None ==> c[12].len() == 0)
            &&& shows_as(m.referer, c[13])
            &&& shows_as(m.user_agent, c[14])
        }),
{
}

/// A copy of an optional field's text, empty when it is absent.
fn cell(o: &Option<String>) -> (s: String)
    ensures
        s@ == text_or_empty(opt_view(*o)),
{
    match o {
        Some(t) => t.clone(),
        None => String::new(),
    }
}

impl LogRecord {
    /// The record's CSV cells, in the order of `CSV_HEADER`.
    pub fn csv_fields(&self) -> (r: [String; 15])
        ensures
            r@.map_values(|s: String| s@) == spec_csv_fields(self@),
            r@[0]@ == self.remote_host@,
            shows_as(opt_view(self.ident), r@[1]@),
            shows_as(opt_view(self.remote_user), r@[2]@),
            r@[3]@ == self.timestamp@,
            shows_as(opt_view(self.request), r@[4]@),
            shows_as(opt_view(self.method), r@[5]@),
            shows_as(opt_view(self.request_target), r@[6]@),
            shows_as(opt_view(self.request_path), r@[7]@),
            shows_as(opt_view(self.extension), r@[8]@),
            shows_as(opt_view(self.query_string), r@[9]@),
            shows_as(opt_view(self.protocol), r@[10]@),
            r@[11]@ == decimal_chars(self.status as nat),
            shows_as(opt_view(self.referer), r@[13]@),
            shows_as(opt_view(self.user_agent), r@[14]@),
    {
        let bytes_sent = match self.bytes_sent {
            Some(value) => decimal_string(value as u128),
            None => String::new(),
        };
        let r = [
            self.remote_host.clone(),
            cell(&self.ident),
            cell(&self.remote_user),
            self.timestamp.clone(),
            cell(&self.request),
            cell(&self.method),
            cell(&self.request_target),
            cell(&self.request_path),
            cell(&self.extension),
            cell(&self.query_string),
            cell(&self.protocol),
            decimal_string(self.status as u128),
            bytes_sent,
            cell(&self.referer),
            cell(&self.user_agent),
        ];
        assert(r@.map_values(|s: String| s@) =~= spec_csv_fields(self@));
        proof {
            law_csv_cells_are_the_named_fields(self@);
            assert(r@.map_values(|s: String| s@)[9] == r@[9]@);
        }
        r
    }
}

/// A `-` placeholder stands for an absent value.
pub open spec fn spec_nullable(value: Seq<char>) -> Option<Seq<char>> {
    if value == "-"@ {
        None
    } else {
        Some(value)
    }
}

/// `None` for the placeholder `-`, the value itself otherwise.
pub fn nullable(value: String) -> (r: Option<String>)
    ensures
        opt_view(r) == spec_nullable(value@),
{
    let dash = String::from_str("-");
    if value == dash {
        None
    } else {
        Some(value)
    }
}

} // verus!
