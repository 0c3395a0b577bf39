//! Parsing one Combined Log Format line into a `LogRecord`.

use vstd::prelude::*;
use vstd::string::StringSliceAdditionalSpecFns;
use vstd::utf8::*;

use crate::decimal::{
    all_digit_bytes, digits_value, is_digit_byte, parse_digits_u64, parse_three_digits,
};
use crate::error::{perr, ParseError, ParseErrorModel};
use crate::lexer::{
    lemma_find_byte, spaces_wf, spec_bracketed, spec_finish, spec_quoted, spec_separator,
    spec_unquoted, usizes, Lexer, QuotedValue,
};
use crate::record::{nullable, spec_nullable, LogRecord, RecordModel};
use crate::target::{opt_view, spec_split_target, split_request_target};
use crate::text::{
    decode_text, lemma_valid_between_ascii, lemma_valid_split_at_ascii, utf8_valid_up_to,
    valid_up_to,
};
use crate::timestamp::{chrono_utc_rfc3339, clf_time_format, normalize_timestamp, text_result};

verus! {

broadcast use vstd::utf8::group_utf8_lib;

/// The descriptions of the errors found above the lexer.
pub open spec fn not_utf8_msg(field: Seq<char>) -> Seq<char> {
    field + " is not valid UTF-8"@
}

pub open spec fn invalid_timestamp_msg(detail: Seq<char>) -> Seq<char> {
    "invalid timestamp: "@ + detail
}

pub open spec fn status_msg() -> Seq<char> {
    "status must be three digits"@
}

pub open spec fn bytes_range_msg() -> Seq<char> {
    "bytes sent is out of range"@
}

pub open spec fn bytes_digits_msg() -> Seq<char> {
    "bytes sent must be digits or '-'"@
}

pub open spec fn three_parts_msg() -> Seq<char> {
    "request must contain method, target, and protocol"@
}

pub open spec fn empty_parts_msg() -> Seq<char> {
    "request method, target, and protocol must be non-empty"@
}

/// The text that `bytes` encode, or an error at `offset` plus the length of
/// their longest valid UTF-8 prefix.
pub open spec fn spec_utf8(bytes: Seq<u8>, field: Seq<char>, offset: int) -> Result<
    Seq<char>,
    ParseErrorModel,
> {
    if valid_utf8(bytes) {
        Ok(decode_utf8(bytes))
    } else {
        Err(perr(offset + valid_up_to(bytes), not_utf8_msg(field)))
    }
}

/// A text step, seen as its model.
pub open spec fn text_outcome(r: Result<String, ParseError>) -> Result<Seq<char>, ParseErrorModel> {
    match r {
        Ok(s) => Ok(s@),
        Err(e) => Err(e@),
    }
}

/// Decodes the bytes of a field that starts at byte `offset` of the line.
pub fn utf8(bytes: &[u8], field: &str, offset: usize) -> (r: Result<String, ParseError>)
    requires
        offset + bytes@.len() <= usize::MAX,
    ensures
        text_outcome(r) == spec_utf8(bytes@, field@, offset as int),
{
    let valid = utf8_valid_up_to(bytes);
    if valid == bytes.len() {
        Ok(decode_text(bytes))
    } else {
        Err(ParseError::new(offset + valid, String::from_str(field).concat(" is not valid UTF-8")))
    }
}

/// An unquoted field, decoded; the error offsets count from its start.
pub open spec fn spec_text_field(s: Seq<u8>, pos: int, field: Seq<char>) -> Result<
    (Seq<char>, int),
    ParseErrorModel,
> {
    match spec_unquoted(s, pos, field) {
        Err(e) => Err(e),
        Ok((raw, end)) => match spec_utf8(raw, field, pos) {
            Err(e) => Err(e),
            Ok(text) => Ok((text, end)),
        },
    }
}

/// The fields of a line up to and including the timestamp's text.
pub struct HeadModel {
    pub remote_host: Seq<char>,
    pub ident: Option<Seq<char>>,
    pub remote_user: Option<Seq<char>>,
    pub timestamp: Seq<char>,
    pub timestamp_offset: int,
    pub position: int,
}

/// The remote host, ident, remote user and timestamp text at the start of
/// the line `s`, with `-` standing for an absent ident or user.
pub open spec fn spec_head(s: Seq<u8>) -> Result<HeadModel, ParseErrorModel> {
    match spec_text_field(s, 0, "remote host"@) {
        Err(e) => Err(e),
        Ok((remote_host, p0)) => match spec_separator(s, p0) {
            Err(e) => Err(e),
            Ok(p1) => match spec_text_field(s, p1, "ident"@) {
                Err(e) => Err(e),
                Ok((ident, p1e)) => match spec_separator(s, p1e) {
                    Err(e) => Err(e),
                    Ok(p2) => match spec_text_field(s, p2, "remote user"@) {
                        Err(e) => Err(e),
                        Ok((remote_user, p2e)) => match spec_separator(s, p2e) {
                            Err(e) => Err(e),
                            Ok(p3) => match spec_bracketed(s, p3, "timestamp"@) {
                                Err(e) => Err(e),
                                Ok((raw, p3e)) => match spec_utf8(raw, "timestamp"@, p3 + 1) {
                                    Err(e) => Err(e),
                                    Ok(timestamp) => Ok(
                                        HeadModel {
                                            remote_host,
                                            ident: spec_nullable(ident),
                                            remote_user: spec_nullable(remote_user),
                                            timestamp,
                                            timestamp_offset: p3 + 1,
                                            position: p3e,
                                        },
                                    ),
                                },
                            },
                        },
                    },
                },
            },
        },
    }
}

/// The fields of a line up to the timestamp, which is left as text, and the
/// position after the timestamp.
pub struct LineHead {
    remote_host: String,
    ident: Option<String>,
    remote_user: Option<String>,
    timestamp: String,
    timestamp_offset: usize,
    position: usize,
}

impl View for LineHead {
    type V = HeadModel;

    closed spec fn view(&self) -> HeadModel {
        HeadModel {
            remote_host: self.remote_host@,
            ident: opt_view(self.ident),
            remote_user: opt_view(self.remote_user),
            timestamp: self.timestamp@,
            timestamp_offset: self.timestamp_offset as int,
            position: self.position as int,
        }
    }
}

impl LineHead {
    /// The timestamp as it stands in the line, between the brackets.
    pub fn timestamp_text(&self) -> (r: &str)
        ensures
            r@ == self@.timestamp,
    {
        self.timestamp.as_str()
    }
}

/// A head, seen as its model.
pub open spec fn head_outcome(r: Result<LineHead, ParseError>) -> Result<HeadModel, ParseErrorModel> {
    match r {
        Ok(h) => Ok(h@),
        Err(e) => Err(e@),
    }
}

/// Reads an unquoted field and decodes it.
fn text_field(lexer: &mut Lexer, field: &str) -> (r: Result<String, ParseError>)
    requires
        old(lexer).position <= old(lexer).input@.len(),
    ensures
        final(lexer).input == old(lexer).input,
        final(lexer).position <= final(lexer).input@.len(),
        match r {
            Ok(t) => spec_text_field(old(lexer).input@, old(lexer).position as int, field@) == Ok::<
                (Seq<char>, int),
                ParseErrorModel,
            >((t@, final(lexer).position as int)),
            Err(e) => spec_text_field(old(lexer).input@, old(lexer).position as int, field@)
                == Err::<(Seq<char>, int), ParseErrorModel>(e@),
        },
{
    let offset = lexer.position;
    let raw = lexer.unquoted(field)?;
    utf8(raw.as_slice(), field, offset)
}

/// Reads the remote host, ident, remote user and the timestamp's text.
pub fn parse_head(line: &[u8]) -> (r: Result<LineHead, ParseError>)
    ensures
        head_outcome(r) == spec_head(line@),
        r matches Ok(h) ==> h@.position <= line@.len(),
{
    let mut lexer = Lexer::new(line);
    let remote_host = text_field(&mut lexer, "remote host")?;
    lexer.separator()?;
    let ident = nullable(text_field(&mut lexer, "ident")?);
    lexer.separator()?;
    let remote_user = nullable(text_field(&mut lexer, "remote user")?);
    lexer.separator()?;
    let offset = lexer.position;
    let raw = lexer.bracketed("timestamp")?;
    let timestamp = utf8(raw.as_slice(), "timestamp", offset + 1)?;
    Ok(
        LineHead {
            remote_host,
            ident,
            remote_user,
            timestamp,
            timestamp_offset: offset + 1,
            position: lexer.position,
        },
    )
}

/// The status field: exactly three ASCII digits.
pub open spec fn spec_status(s: Seq<u8>, pos: int) -> Result<(u16, int), ParseErrorModel> {
    match spec_unquoted(s, pos, "status"@) {
        Err(e) => Err(e),
        Ok((raw, end)) => match spec_utf8(raw, "status"@, pos) {
            Err(e) => Err(e),
            Ok(_) => if raw.len() == 3 && all_digit_bytes(raw) {
                Ok((digits_value(raw) as u16, end))
            } else {
                Err(perr(pos, status_msg()))
            },
        },
    }
}

/// The bytes-sent field: `-` for none, or digits that fit in a `u64`.
pub open spec fn spec_bytes_sent(s: Seq<u8>, pos: int) -> Result<
    (Option<u64>, int),
    ParseErrorModel,
> {
    match spec_unquoted(s, pos, "bytes sent"@) {
        Err(e) => Err(e),
        Ok((raw, end)) => match spec_utf8(raw, "bytes sent"@, pos) {
            Err(e) => Err(e),
            Ok(_) => if raw == seq![45u8] {
                Ok((None, end))
            } else if raw.len() > 0 && all_digit_bytes(raw) {
                if digits_value(raw) <= u64::MAX {
                    Ok((Some(digits_value(raw) as u64), end))
                } else {
                    Err(perr(pos, bytes_range_msg()))
                }
            } else {
                Err(perr(pos, bytes_digits_msg()))
            },
        },
    }
}

/// A quoted field, decoded, with `-` standing for none.
pub open spec fn spec_quoted_field(s: Seq<u8>, pos: int, field: Seq<char>) -> Result<
    (Option<Seq<char>>, int),
    ParseErrorModel,
> {
    match spec_quoted(s, pos, field) {
        Err(e) => Err(e),
        Ok((raw, _, end)) => match spec_utf8(raw, field, pos + 1) {
            Err(e) => Err(e),
            Ok(text) => Ok((spec_nullable(text), end)),
        },
    }
}

/// The request and the parts that are read out of it.
pub struct RequestModel {
    pub request: Option<Seq<char>>,
    pub method: Option<Seq<char>>,
    pub request_target: Option<Seq<char>>,
    pub request_path: Option<Seq<char>>,
    pub extension: Option<Seq<char>>,
    pub query_string: Option<Seq<char>>,
    pub protocol: Option<Seq<char>>,
}

/// The request `-` has no parts; any other request is a method, a target
/// and a protocol, all non-empty, separated by exactly two unescaped spaces.
/// `raw` are the request's decoded bytes, `spaces` the indices in them of
/// its unescaped spaces, and `offset` the position of the request's first
/// byte in the line.
pub open spec fn spec_request_parts(
    raw: Seq<u8>,
    spaces: Seq<int>,
    request: Seq<char>,
    offset: int,
) -> Result<RequestModel, ParseErrorModel> {
    if request == "-"@ {
        Ok(
            RequestModel {
                request: None,
                method: None,
                request_target: None,
                request_path: None,
                extension: None,
                query_string: None,
                protocol: None,
            },
        )
    } else if spaces.len() != 2 {
        Err(perr(offset, three_parts_msg()))
    } else if spaces[0] == 0 || spaces[1] == spaces[0] + 1 || spaces[1] + 1 >= raw.len() {
        Err(perr(offset, empty_parts_msg()))
    } else {
        let target = raw.subrange(spaces[0] + 1, spaces[1]);
        let split = spec_split_target(target);
        Ok(
            RequestModel {
                request: Some(request),
                method: Some(decode_utf8(raw.subrange(0, spaces[0]))),
                request_target: Some(decode_utf8(target)),
                request_path: Some(split.0),
                extension: split.1,
                query_string: split.2,
                protocol: Some(decode_utf8(raw.subrange(spaces[1] + 1, raw.len() as int))),
            },
        )
    }
}

/// After the timestamp: a separator and the quoted request, decoded. Yields
/// the request's decoded bytes, the indices of its unescaped spaces, its
/// text, the position of its first byte, and the position after it.
pub open spec fn spec_request_field(s: Seq<u8>, pos: int) -> Result<
    (Seq<u8>, Seq<int>, Seq<char>, int, int),
    ParseErrorModel,
> {
    match spec_separator(s, pos) {
        Err(e) => Err(e),
        Ok(p) => match spec_quoted(s, p, "request"@) {
            Err(e) => Err(e),
            Ok((raw, spaces, end)) => match spec_utf8(raw, "request"@, p + 1) {
                Err(e) => Err(e),
                Ok(request) => Ok((raw, spaces, request, p + 1, end)),
            },
        },
    }
}

/// After the request: the status and the bytes sent, each after a separator.
pub open spec fn spec_numbers(s: Seq<u8>, pos: int) -> Result<
    (u16, Option<u64>, int),
    ParseErrorModel,
> {
    match spec_separator(s, pos) {
        Err(e) => Err(e),
        Ok(p5) => match spec_status(s, p5) {
            Err(e) => Err(e),
            Ok((status, p5e)) => match spec_separator(s, p5e) {
                Err(e) => Err(e),
                Ok(p6) => match spec_bytes_sent(s, p6) {
                    Err(e) => Err(e),
                    Ok((bytes_sent, p6e)) => Ok((status, bytes_sent, p6e)),
                },
            },
        },
    }
}

/// After the bytes sent: the referer and the user agent, each after a
/// separator, then nothing but spaces.
pub open spec fn spec_agents(s: Seq<u8>, pos: int) -> Result<
    (Option<Seq<char>>, Option<Seq<char>>),
    ParseErrorModel,
> {
    match spec_separator(s, pos) {
        Err(e) => Err(e),
        Ok(p7) => match spec_quoted_field(s, p7, "referer"@) {
            Err(e) => Err(e),
            Ok((referer, p7e)) => match spec_separator(s, p7e) {
                Err(e) => Err(e),
                Ok(p8) => match spec_quoted_field(s, p8, "user agent"@) {
                    Err(e) => Err(e),
                    Ok((user_agent, p8e)) => match spec_finish(s, p8e) {
                        Err(e) => Err(e),
                        Ok(_) => Ok((referer, user_agent)),
                    },
                },
            },
        },
    }
}

/// The rest of a line after its timestamp, given what became of the
/// timestamp (`stamp`: its UTC text, or the reason it was refused).
pub open spec fn spec_tail(s: Seq<u8>, h: HeadModel, stamp: Result<Seq<char>, Seq<char>>) -> Result<
    RecordModel,
    ParseErrorModel,
> {
    match stamp {
        Err(detail) => Err(perr(h.timestamp_offset, invalid_timestamp_msg(detail))),
        Ok(timestamp) => match spec_request_field(s, h.position) {
            Err(e) => Err(e),
            Ok((raw, spaces, request, request_offset, p4e)) => match spec_numbers(s, p4e) {
                Err(e) => Err(e),
                Ok((status, bytes_sent, p6e)) => match spec_agents(s, p6e) {
                    Err(e) => Err(e),
                    Ok((referer, user_agent)) => match spec_request_parts(
                        raw,
                        spaces,
                        request,
                        request_offset,
                    ) {
                        Err(e) => Err(e),
                        Ok(parts) => Ok(
                            RecordModel {
                                remote_host: h.remote_host,
                                ident: h.ident,
                                remote_user: h.remote_user,
                                timestamp,
                                request: parts.request,
                                method: parts.method,
                                request_target: parts.request_target,
                                request_path: parts.request_path,
                                extension: parts.extension,
                                query_string: parts.query_string,
                                protocol: parts.protocol,
                                status,
                                bytes_sent,
                                referer,
                                user_agent,
                            },
                        ),
                    },
                },
            },
        },
    }
}

/// What `parse_line` makes of the line `s`: its fields up to the timestamp,
/// the timestamp as chrono reads it, then the rest of the line.
pub open spec fn spec_parse_line(s: Seq<u8>) -> Result<RecordModel, ParseErrorModel> {
    match spec_head(s) {
        Err(e) => Err(e),
        Ok(h) => spec_tail(s, h, chrono_utc_rfc3339(h.timestamp, clf_time_format())),
    }
}

/// A parsed line, seen as its model.
pub open spec fn record_outcome(r: Result<LogRecord, ParseError>) -> Result<RecordModel, ParseErrorModel> {
    match r {
        Ok(v) => Ok(v@),
        Err(e) => Err(e@),
    }
}

/// Reads the status field.
fn status_field(lexer: &mut Lexer) -> (r: Result<u16, ParseError>)
    requires
        old(lexer).position <= old(lexer).input@.len(),
    ensures
        final(lexer).input == old(lexer).input,
        final(lexer).position <= final(lexer).input@.len(),
        match r {
            Ok(v) => spec_status(old(lexer).input@, old(lexer).position as int) == Ok::<
                (u16, int),
                ParseErrorModel,
            >((v, final(lexer).position as int)),
            Err(e) => spec_status(old(lexer).input@, old(lexer).position as int) == Err::<
                (u16, int),
                ParseErrorModel,
            >(e@),
        },
{
    let status_offset = lexer.position;
    let raw = lexer.unquoted("status")?;
    let _status_text = utf8(raw.as_slice(), "status", status_offset)?;
    let mut all_digits = raw.len() == 3;
    let mut i: usize = 0;
    while i < raw.len()
        invariant
            0 <= i <= raw@.len(),
            all_digits == (raw@.len() == 3 && forall|k: int|
                0 <= k < i ==> #[trigger] is_digit_byte(raw@[k])),
        decreases raw@.len() - i,
    {
        assert(is_digit_byte(raw@[i as int]) == (48 <= raw[i as int] && raw[i as int] <= 57));
        if !(48 <= raw[i] && raw[i] <= 57) {
            all_digits = false;
        }
        i = i + 1;
    }
    if !all_digits {
        return Err(ParseError::new(status_offset, String::from_str("status must be three digits")));
    }
    Ok(parse_three_digits(raw.as_slice()))
}

/// Reads the bytes-sent field.
fn bytes_sent_field(lexer: &mut Lexer) -> (r: Result<Option<u64>, ParseError>)
    requires
        old(lexer).position <= old(lexer).input@.len(),
    ensures
        final(lexer).input == old(lexer).input,
        final(lexer).position <= final(lexer).input@.len(),
        match r {
            Ok(v) => spec_bytes_sent(old(lexer).input@, old(lexer).position as int) == Ok::<
                (Option<u64>, int),
                ParseErrorModel,
            >((v, final(lexer).position as int)),
            Err(e) => spec_bytes_sent(old(lexer).input@, old(lexer).position as int) == Err::<
                (Option<u64>, int),
                ParseErrorModel,
            >(e@),
        },
{
    let bytes_offset = lexer.position;
    let raw = lexer.unquoted("bytes sent")?;
    let _bytes_text = utf8(raw.as_slice(), "bytes sent", bytes_offset)?;
    if raw.len() == 1 && raw[0] == 45 {
        assert(raw@ =~= seq![45u8]);
        return Ok(None);
    }
    let mut all_digits = raw.len() > 0;
    let mut i: usize = 0;
    while i < raw.len()
        invariant
            0 <= i <= raw@.len(),
            all_digits == (raw@.len() > 0 && forall|k: int|
                0 <= k < i ==> #[trigger] is_digit_byte(raw@[k])),
        decreases raw@.len() - i,
    {
        assert(is_digit_byte(raw@[i as int]) == (48 <= raw[i as int] && raw[i as int] <= 57));
        if !(48 <= raw[i] && raw[i] <= 57) {
            all_digits = false;
        }
        i = i + 1;
    }
    if all_digits {
        match parse_digits_u64(raw.as_slice()) {
            Some(value) => Ok(Some(value)),
            None => Err(ParseError::new(bytes_offset, String::from_str("bytes sent is out of range"))),
        }
    } else {
        Err(ParseError::new(bytes_offset, String::from_str("bytes sent must be digits or '-'")))
    }
}

/// Reads a quoted field, decodes it, and reads `-` as absent.
fn quoted_field(lexer: &mut Lexer, field: &str) -> (r: Result<Option<String>, ParseError>)
    requires
        old(lexer).position <= old(lexer).input@.len(),
    ensures
        final(lexer).input == old(lexer).input,
        final(lexer).position <= final(lexer).input@.len(),
        match r {
            Ok(v) => spec_quoted_field(old(lexer).input@, old(lexer).position as int, field@)
                == Ok::<(Option<Seq<char>>, int), ParseErrorModel>(
                (opt_view(v), final(lexer).position as int),
            ),
            Err(e) => spec_quoted_field(old(lexer).input@, old(lexer).position as int, field@)
                == Err::<(Option<Seq<char>>, int), ParseErrorModel>(e@),
        },
{
    let offset = lexer.position;
    let value = lexer.quoted(field)?;
    Ok(nullable(utf8(value.bytes.as_slice(), field, offset + 1)?))
}

/// The request and its parts.
struct RequestFields {
    request: Option<String>,
    method: Option<String>,
    request_target: Option<String>,
    request_path: Option<String>,
    extension: Option<String>,
    query_string: Option<String>,
    protocol: Option<String>,
}

impl View for RequestFields {
    type V = RequestModel;

    closed spec fn view(&self) -> RequestModel {
        RequestModel {
            request: opt_view(self.request),
            method: opt_view(self.method),
            request_target: opt_view(self.request_target),
            request_path: opt_view(self.request_path),
            extension: opt_view(self.extension),
            query_string: opt_view(self.query_string),
            protocol: opt_view(self.protocol),
        }
    }
}

/// The request's parts, seen as their model.
spec fn parts_outcome(r: Result<RequestFields, ParseError>) -> Result<RequestModel, ParseErrorModel> {
    match r {
        Ok(p) => Ok(p@),
        Err(e) => Err(e@),
    }
}

/// Splits a decoded request into its parts.
fn request_parts(request: String, value: &QuotedValue, offset: usize) -> (r: Result<
    RequestFields,
    ParseError,
>)
    requires
        valid_utf8(value.bytes@),
        request@ == decode_utf8(value.bytes@),
        spaces_wf(value.bytes@, usizes(value.literal_spaces@)),
    ensures
        parts_outcome(r) == spec_request_parts(
            value.bytes@,
            usizes(value.literal_spaces@),
            request@,
            offset as int,
        ),
{
    let ghost raw = value.bytes@;
    let ghost spaces = usizes(value.literal_spaces@);
    let dash = String::from_str("-");
    if request == dash {
        return Ok(
            RequestFields {
                request: None,
                method: None,
                request_target: None,
                request_path: None,
                extension: None,
                query_string: None,
                protocol: None,
            },
        );
    }
    if value.literal_spaces.len() != 2 {
        return Err(
            ParseError::new(
                offset,
                String::from_str("request must contain method, target, and protocol"),
            ),
        );
    }
    let first = value.literal_spaces[0];
    let second = value.literal_spaces[1];
    assert(spaces[0] == first && spaces[1] == second);
    assert(0 <= spaces[1] < raw.len() && spaces[0] < spaces[1]);
    let len = value.bytes.len();
    if first == 0 || second == first + 1 || second + 1 >= len {
        return Err(
            ParseError::new(
                offset,
                String::from_str("request method, target, and protocol must be non-empty"),
            ),
        );
    }
    let bytes = value.bytes.as_slice();
    proof {
        lemma_valid_split_at_ascii(raw, first as int);
        lemma_valid_split_at_ascii(raw, second as int);
        lemma_valid_between_ascii(raw, first as int, second as int);
    }
    let method = decode_text(vstd::slice::slice_subrange(bytes, 0, first));
    let target_bytes = vstd::slice::slice_subrange(bytes, first + 1, second);
    let request_target = decode_text(target_bytes);
    let protocol = decode_text(vstd::slice::slice_subrange(bytes, second + 1, bytes.len()));
    proof {
        decode_utf8_encode_utf8(target_bytes@);
    }
    let (request_path, extension, query_string) = split_request_target(request_target.as_str());
    Ok(
        RequestFields {
            request: Some(request),
            method: Some(method),
            request_target: Some(request_target),
            request_path: Some(request_path),
            extension,
            query_string,
            protocol: Some(protocol),
        },
    )
}

/// Reads the rest of a line after the timestamp whose fields up to it are
/// `head`, given what became of the timestamp: its UTC text, or the text of
/// the reason it was refused.
pub fn finish_line(line: &[u8], head: LineHead, timestamp: Result<String, String>) -> (r: Result<
    LogRecord,
    ParseError,
>)
    requires
        head_outcome(Ok(head)) == spec_head(line@),
    ensures
        record_outcome(r) == spec_tail(line@, head@, text_result(timestamp)),
{
    let timestamp = match timestamp {
        Ok(text) => text,
        Err(detail) => {
            return Err(
                ParseError::new(
                    head.timestamp_offset,
                    String::from_str("invalid timestamp: ").concat(detail.as_str()),
                ),
            );
        },
    };
    proof {
        lemma_head_position(line@);
    }
    let mut lexer = Lexer { input: line, position: head.position };
    lexer.separator()?;
    let request_offset = lexer.position;
    let request_value = lexer.quoted("request")?;
    let request = utf8(request_value.bytes.as_slice(), "request", request_offset + 1)?;
    lexer.separator()?;
    let status = status_field(&mut lexer)?;
    lexer.separator()?;
    let bytes_sent = bytes_sent_field(&mut lexer)?;
    lexer.separator()?;
    let referer = quoted_field(&mut lexer, "referer")?;
    lexer.separator()?;
    let user_agent = quoted_field(&mut lexer, "user agent")?;
    lexer.finish()?;
    let parts = request_parts(request, &request_value, request_offset + 1)?;
    Ok(
        LogRecord {
            remote_host: head.remote_host,
            ident: head.ident,
            remote_user: head.remote_user,
            timestamp,
            request: parts.request,
            method: parts.method,
            request_target: parts.request_target,
            request_path: parts.request_path,
            extension: parts.extension,
            query_string: parts.query_string,
            protocol: parts.protocol,
            status,
            bytes_sent,
            referer,
            user_agent,
        },
    )
}

/// A bracketed field that is read ends within the line.
pub proof fn lemma_bracketed_end(s: Seq<u8>, pos: int, field: Seq<char>)
    ensures
        spec_bracketed(s, pos, field) matches Ok((_, end)) ==> 0 < end <= s.len() && pos + 2 < end,
{
    if 0 <= pos + 1 <= s.len() {
        lemma_find_byte(s, pos + 1, 93);
    }
}

/// The position that a successful head ends at lies within the line.
proof fn lemma_head_position(s: Seq<u8>)
    ensures
        spec_head(s) matches Ok(h) ==> 0 <= h.position <= s.len(),
{
    if let Ok((_, p0)) = spec_text_field(s, 0, "remote host"@) {
        if let Ok(p1) = spec_separator(s, p0) {
            if let Ok((_, p1e)) = spec_text_field(s, p1, "ident"@) {
                if let Ok(p2) = spec_separator(s, p1e) {
                    if let Ok((_, p2e)) = spec_text_field(s, p2, "remote user"@) {
                        if let Ok(p3) = spec_separator(s, p2e) {
                            lemma_bracketed_end(s, p3, "timestamp"@);
                        }
                    }
                }
            }
        }
    }
}

/// Parses one Combined Log Format line (without its line ending).
pub fn parse_line(line: &[u8]) -> (r: Result<LogRecord, ParseError>)
    ensures
        record_outcome(r) == spec_parse_line(line@),
{
    let head = parse_head(line)?;
    let timestamp = normalize_timestamp(head.timestamp_text());
    finish_line(line, head, timestamp)
}

} // verus!
