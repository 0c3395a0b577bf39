//! Properties that hold of the parser as a whole, over every input.

use vstd::prelude::*;
use vstd::utf8::*;

use crate::decimal::{all_digit_bytes, digits_value, is_digit_byte};
use crate::error::ParseErrorModel;
use crate::lexer::{
    find_byte, lemma_find_byte, lemma_quoted_scan, lemma_skip_spaces, open_quote_msg, spaces_wf,
    quoted_scan, skip_spaces, spec_bracketed, spec_expect_byte, spec_hex_value, spec_quoted,
    spec_separator, spec_unquoted,
};
use crate::line::{
    spec_agents, spec_head, spec_numbers, spec_parse_line, spec_quoted_field, spec_request_field,
    spec_request_parts, spec_text_field, spec_utf8,
};
use crate::target::{
    last_index_of, lemma_last_index_of, path_bytes, query_mark, segment_bytes, spec_split_target,
};
use crate::text::{lemma_valid_split_at_ascii, lemma_valid_up_to};
use crate::timestamp::{chrono_utc_rfc3339, clf_time_format};

verus! {

broadcast use vstd::utf8::group_utf8_lib;

/// Decoding valid UTF-8 yields the ASCII character `c` only where the byte
/// `c` stands.
pub proof fn lemma_decode_avoids_ascii(b: Seq<u8>, c: u8)
    requires
        valid_utf8(b),
        c < 128,
        forall|i: int| 0 <= i < b.len() ==> b[i] != c,
    ensures
        forall|k: int| 0 <= k < decode_utf8(b).len() ==> decode_utf8(b)[k] != c as char,
    decreases b.len(),
{
    if b.len() > 0 {
        let n = length_of_first_scalar(b);
        let rest = pop_first_scalar(b);
        assert forall|i: int| 0 <= i < rest.len() implies rest[i] != c by {
            assert(rest[i] == b[i + n]);
        }
        lemma_decode_avoids_ascii(rest, c);
        let cp = decode_first_scalar(b);
        let b0 = b[0];
        if is_leading_byte_width_1(b0) {
            assert(b0 <= 0x7f ==> (b0 & 0x7f) == b0) by (bit_vector);
            assert(cp == b0 as u32);
        } else if is_leading_byte_width_2(b0) {
            let b1 = b[1];
            assert((((b0 & 0x1F) as u32) << 6) | ((b1 & 0x3f) as u32) <= 0x7ff) by (bit_vector);
        } else if is_leading_byte_width_3(b0) {
            let b1 = b[1];
            let b2 = b[2];
            assert((((b0 & 0x0F) as u32) << 12) | (((b1 & 0x3f) as u32) << 6) | ((b2 & 0x3f) as u32)
                <= 0xffff) by (bit_vector);
        }
        assert(cp != c as u32);
        assert(cp as char != c as char);
        assert(decode_utf8(b) == seq![cp as char] + decode_utf8(rest));
        assert forall|k: int| 0 <= k < decode_utf8(b).len() implies decode_utf8(b)[k]
            != c as char by {
            if k > 0 {
                assert(decode_utf8(b)[k] == decode_utf8(rest)[k - 1]);
            }
        }
    }
}

/// The text after an optional `?`.
pub open spec fn query_suffix(query: Option<Seq<char>>) -> Seq<char> {
    match query {
        Some(q) => seq!['?'] + q,
        None => Seq::empty(),
    }
}

/// Splitting a request target loses nothing: the path, then `?` and the
/// query string when there is one, spell the target again, and the path
/// holds no `?`.
pub proof fn law_split_target_reassembles(target: Seq<char>)
    ensures
        ({
            let (path, _, query) = spec_split_target(encode_utf8(target));
            &&& target == path + query_suffix(query)
            &&& forall|k: int| 0 <= k < path.len() ==> path[k] != '?'
            &&& (query is Some <==> target.contains('?'))
        }),
{
    let t = encode_utf8(target);
    let q = query_mark(t);
    lemma_find_byte(t, 0, 63);
    let p = path_bytes(t);
    if q < t.len() {
        lemma_valid_split_at_ascii(t, q);
        assert(t[q] as char == '?');
        let path = decode_utf8(p);
        assert(target[path.len() as int] == '?');
    } else {
        assert(p =~= t);
    }
    lemma_decode_avoids_ascii(p, 63);
}

/// Valid UTF-8 that is not empty decodes to text that is not empty.
pub proof fn lemma_decode_nonempty(b: Seq<u8>)
    requires
        valid_utf8(b),
        b.len() > 0,
    ensures
        decode_utf8(b).len() > 0,
{
}

/// The extension is taken from the last segment of the path only: the path
/// ends with a `.` and the extension, the text before that dot is not empty
/// and does not end the previous segment, and the extension itself is not
/// empty and holds neither `.` nor `/`.
pub proof fn law_extension_from_last_segment(target: Seq<char>)
    ensures
        ({
            let (path, extension, _) = spec_split_target(encode_utf8(target));
            extension matches Some(e) ==> {
                &&& e.len() > 0
                &&& forall|k: int| 0 <= k < e.len() ==> e[k] != '.' && e[k] != '/'
                &&& exists|stem: Seq<char>|
                    path == stem + seq!['.'] + e && stem.len() > 0 && stem.last() != '/'
            }
        }),
{
    let t = encode_utf8(target);
    let q = query_mark(t);
    lemma_find_byte(t, 0, 63);
    let p = path_bytes(t);
    if q < t.len() {
        lemma_valid_split_at_ascii(t, q);
    } else {
        assert(p =~= t);
    }
    let slash = last_index_of(p, 47, p.len() as int);
    lemma_last_index_of(p, 47, p.len() as int);
    let g = segment_bytes(t);
    let head = if slash >= 0 {
        decode_utf8(p.subrange(0, slash)) + seq!['/']
    } else {
        Seq::<char>::empty()
    };
    if slash >= 0 {
        lemma_valid_split_at_ascii(p, slash);
        assert(p[slash] as char == '/');
    } else {
        assert(g =~= p);
    }
    assert(decode_utf8(p) == head + decode_utf8(g));
    let d = last_index_of(g, 46, g.len() as int);
    lemma_last_index_of(g, 46, g.len() as int);
    if d > 0 && d + 1 < g.len() {
        let e = g.subrange(d + 1, g.len() as int);
        let before = g.subrange(0, d);
        lemma_valid_split_at_ascii(g, d);
        assert(g[d] as char == '.');
        assert forall|i: int| 0 <= i < e.len() implies e[i] != 46 && e[i] != 47 by {
            assert(e[i] == g[d + 1 + i]);
            assert(g[d + 1 + i] == p[slash + 1 + d + 1 + i]);
        }
        lemma_decode_avoids_ascii(e, 46);
        lemma_decode_avoids_ascii(e, 47);
        lemma_decode_nonempty(e);
        assert forall|i: int| 0 <= i < before.len() implies before[i] != 47 by {
            assert(before[i] == p[slash + 1 + i]);
        }
        lemma_decode_avoids_ascii(before, 47);
        lemma_decode_nonempty(before);
        let stem = head + decode_utf8(before);
        assert(decode_utf8(p) =~= stem + seq!['.'] + decode_utf8(e));
        assert(stem.last() == decode_utf8(before).last());
    }
}

/// How the request of a record relates to its parts: the request `-` has
/// none; any other request is its method, target and protocol, none of them
/// empty, joined by single spaces, and the target is the path followed by
/// the query string, if any, after a `?`.
pub open spec fn request_shape(
    request: Option<Seq<char>>,
    method: Option<Seq<char>>,
    request_target: Option<Seq<char>>,
    request_path: Option<Seq<char>>,
    extension: Option<Seq<char>>,
    query_string: Option<Seq<char>>,
    protocol: Option<Seq<char>>,
) -> bool {
    match request {
        None => {
            &&& method is None
            &&& request_target is None
            &&& request_path is None
            &&& extension is None
            &&& query_string is None
            &&& protocol is None
        },
        Some(q) => {
            &&& method is Some
            &&& request_target is Some
            &&& request_path is Some
            &&& protocol is Some
            &&& q == method->0 + seq![' '] + request_target->0 + seq![' '] + protocol->0
            &&& method->0.len() > 0
            &&& request_target->0.len() > 0
            &&& protocol->0.len() > 0
            &&& request_target->0 == request_path->0 + query_suffix(query_string)
        },
    }
}

proof fn lemma_request_parts_shape(raw: Seq<u8>, spaces: Seq<int>, offset: int)
    requires
        valid_utf8(raw),
        spaces_wf(raw, spaces),
    ensures
        spec_request_parts(raw, spaces, decode_utf8(raw), offset) matches Ok(p) ==> request_shape(
            p.request,
            p.method,
            p.request_target,
            p.request_path,
            p.extension,
            p.query_string,
            p.protocol,
        ),
{
    let request = decode_utf8(raw);
    if request != "-"@ && spaces.len() == 2 {
        let first = spaces[0];
        let second = spaces[1];
        assert(0 <= first < raw.len() && raw[first] == 32);
        assert(0 <= second < raw.len() && raw[second] == 32 && first < second);
        if !(first == 0 || second == first + 1 || second + 1 >= raw.len()) {
            let rest = raw.subrange(first + 1, raw.len() as int);
            let tb = raw.subrange(first + 1, second);
            lemma_valid_split_at_ascii(raw, first);
            lemma_valid_split_at_ascii(rest, second - first - 1);
            assert(rest.subrange(0, second - first - 1) =~= tb);
            assert(rest.subrange(second - first - 1 + 1, rest.len() as int) =~= raw.subrange(
                second + 1,
                raw.len() as int,
            ));
            assert(raw[first] as char == ' ');
            assert(rest[second - first - 1] == raw[second]);
            lemma_decode_nonempty(raw.subrange(0, first));
            lemma_decode_nonempty(tb);
            lemma_decode_nonempty(raw.subrange(second + 1, raw.len() as int));
            law_split_target_reassembles(decode_utf8(tb));
            assert(encode_utf8(decode_utf8(tb)) == tb);
            assert(request =~= decode_utf8(raw.subrange(0, first)) + seq![' '] + decode_utf8(tb)
                + seq![' '] + decode_utf8(raw.subrange(second + 1, raw.len() as int)));
        }
    }
}

/// Every record that `parse_line` returns has the request shape described
/// by `request_shape`.
pub proof fn law_request_is_method_target_protocol(line: Seq<u8>)
    ensures
        spec_parse_line(line) matches Ok(r) ==> request_shape(
            r.request,
            r.method,
            r.request_target,
            r.request_path,
            r.extension,
            r.query_string,
            r.protocol,
        ),
{
    if let Ok(h) = spec_head(line) {
        if let Ok(_) = chrono_utc_rfc3339(h.timestamp, clf_time_format()) {
            if let Ok(p) = spec_separator(line, h.position) {
                if let Ok(start) = spec_expect_byte(line, p, 34, open_quote_msg("request"@)) {
                    lemma_quoted_scan(line, start, start, seq![], seq![], "request"@);
                    if let Ok((raw, spaces, _)) = spec_quoted(line, p, "request"@) {
                        if valid_utf8(raw) {
                            lemma_request_parts_shape(raw, spaces, p + 1);
                        }
                    }
                }
            }
        }
    }
}

/// A `-` placeholder is never kept as a value: the fields that may hold one
/// are then absent instead.
pub proof fn law_placeholders_are_absent(line: Seq<u8>)
    ensures
        spec_parse_line(line) matches Ok(r) ==> {
            &&& r.ident != Some("-"@)
            &&& r.remote_user != Some("-"@)
            &&& r.request != Some("-"@)
            &&& r.referer != Some("-"@)
            &&& r.user_agent != Some("-"@)
        },
{
}

/// The status of every record is a three-digit number.
pub proof fn law_status_has_three_digits(line: Seq<u8>)
    ensures
        spec_parse_line(line) matches Ok(r) ==> r.status < 1000,
{
    if let Ok(h) = spec_head(line) {
        if let Ok(_) = chrono_utc_rfc3339(h.timestamp, clf_time_format()) {
            if let Ok((_, _, _, _, p4e)) = spec_request_field(line, h.position) {
                if let Ok(p5) = spec_separator(line, p4e) {
                    if let Ok((raw, _)) = spec_unquoted(line, p5, "status"@) {
                        if raw.len() == 3 && all_digit_bytes(raw) {
                            lemma_three_digits(raw);
                        }
                    }
                }
            }
        }
    }
}

/// The bytes sent of a record are what the field after the status holds:
/// none for `-`, else the number its ASCII digits spell in base ten, which
/// fits in a `u64`.
pub proof fn law_bytes_sent_is_the_number_its_digits_spell(line: Seq<u8>)
    ensures
        spec_parse_line(line) matches Ok(r) ==> {
            let w = word_at(line, skip_spaces(line, status_start(line) + 3));
            ||| w == seq![45u8] && r.bytes_sent is None
            ||| w.len() > 0 && all_digit_bytes(w) && digits_value(w) <= u64::MAX
                && r.bytes_sent == Some(digits_value(w) as u64)
        },
{
    if let Ok(h) = spec_head(line) {
        lemma_head_bounds(line);
        if let Ok(_) = chrono_utc_rfc3339(h.timestamp, clf_time_format()) {
            lemma_separator_bounds(line, h.position);
            if let Ok((_, _, _, _, p4e)) = spec_request_field(line, h.position) {
                let p = spec_separator(line, h.position)->Ok_0;
                lemma_quoted_bounds(line, p, "request"@);
                lemma_separator_bounds(line, p4e);
                if let Ok(p5) = spec_separator(line, p4e) {
                    lemma_find_byte(line, p5, 32);
                    if let Ok((raw, e)) = spec_unquoted(line, p5, "status"@) {
                        if raw.len() == 3 && all_digit_bytes(raw) {
                            assert(e == p5 + 3);
                            lemma_separator_bounds(line, e);
                            if let Ok(p6) = spec_separator(line, e) {
                                assert(skip_spaces(line, e) == p6);
                            }
                        }
                    }
                }
            }
        }
    }
}

proof fn lemma_three_digits(raw: Seq<u8>)
    requires
        raw.len() == 3,
        all_digit_bytes(raw),
    ensures
        digits_value(raw) < 1000,
        digits_value(raw) == (raw[0] - 48) * 100 + (raw[1] - 48) * 10 + (raw[2] - 48),
{
    reveal_with_fuel(digits_value, 4);
    assert(is_digit_byte(raw[0]) && is_digit_byte(raw[1]) && is_digit_byte(raw[2]));
    assert(raw.drop_last().drop_last().drop_last() =~= Seq::<u8>::empty());
    assert(raw.drop_last().drop_last() =~= seq![raw[0]]);
    assert(raw.drop_last() =~= seq![raw[0], raw[1]]);
}

/// Where the status field of the accepted line `line` begins: after the
/// request and the spaces that follow it.
pub open spec fn status_start(line: Seq<u8>) -> int {
    let h = spec_head(line)->Ok_0;
    let p4e = spec_request_field(line, h.position)->Ok_0.4;
    spec_separator(line, p4e)->Ok_0
}

/// The status of a record is the number that the status field's three
/// ASCII digits spell in base ten: the field stands between two spaces of
/// the line, and holds exactly those three digits.
pub proof fn law_status_is_the_number_its_digits_spell(line: Seq<u8>)
    ensures
        spec_parse_line(line) matches Ok(r) ==> {
            let p = status_start(line);
            &&& 0 < p && p + 3 < line.len()
            &&& line[p - 1] == 32 && line[p + 3] == 32
            &&& 48 <= line[p] <= 57 && 48 <= line[p + 1] <= 57 && 48 <= line[p + 2] <= 57
            &&& r.status == (line[p] - 48) * 100 + (line[p + 1] - 48) * 10 + (line[p + 2] - 48)
        },
{
    if let Ok(h) = spec_head(line) {
        lemma_head_bounds(line);
        if let Ok(_) = chrono_utc_rfc3339(h.timestamp, clf_time_format()) {
            lemma_separator_bounds(line, h.position);
            if let Ok((_, _, _, _, p4e)) = spec_request_field(line, h.position) {
                let p = spec_separator(line, h.position)->Ok_0;
                lemma_quoted_bounds(line, p, "request"@);
                lemma_separator_bounds(line, p4e);
                if let Ok(p5) = spec_separator(line, p4e) {
                    lemma_skip_spaces(line, p4e + 1);
                    lemma_find_byte(line, p5, 32);
                    if let Ok((raw, e)) = spec_unquoted(line, p5, "status"@) {
                        if raw.len() == 3 && all_digit_bytes(raw) {
                            lemma_three_digits(raw);
                            assert(raw[0] == line[p5] && raw[1] == line[p5 + 1] && raw[2]
                                == line[p5 + 2]);
                            assert(is_digit_byte(raw[0]) && is_digit_byte(raw[1])
                                && is_digit_byte(raw[2]));
                            lemma_separator_bounds(line, e);
                        }
                    }
                }
            }
        }
    }
}

pub proof fn lemma_unquoted_bounds(s: Seq<u8>, pos: int, field: Seq<char>)
    requires
        0 <= pos <= s.len(),
    ensures
        match spec_unquoted(s, pos, field) {
            Ok((v, end)) => pos < end <= s.len() && pos + v.len() == end,
            Err(e) => e.offset <= s.len(),
        },
{
    lemma_find_byte(s, pos, 32);
}

pub proof fn lemma_separator_bounds(s: Seq<u8>, pos: int)
    requires
        0 <= pos <= s.len(),
    ensures
        match spec_separator(s, pos) {
            Ok(p) => pos < p <= s.len(),
            Err(e) => e.offset <= s.len(),
        },
{
    if pos < s.len() {
        lemma_skip_spaces(s, pos + 1);
    }
}

pub proof fn lemma_utf8_bounds(raw: Seq<u8>, field: Seq<char>, offset: int)
    requires
        0 <= offset,
    ensures
        spec_utf8(raw, field, offset) matches Err(e) ==> e.offset <= offset + raw.len(),
{
    lemma_valid_up_to(raw);
}

pub proof fn lemma_text_field_bounds(s: Seq<u8>, pos: int, field: Seq<char>)
    requires
        0 <= pos <= s.len(),
    ensures
        match spec_text_field(s, pos, field) {
            Ok((_, end)) => pos < end <= s.len(),
            Err(e) => e.offset <= s.len(),
        },
{
    lemma_unquoted_bounds(s, pos, field);
    if let Ok((v, _)) = spec_unquoted(s, pos, field) {
        lemma_utf8_bounds(v, field, pos);
    }
}

pub proof fn lemma_quoted_bounds(s: Seq<u8>, pos: int, field: Seq<char>)
    requires
        0 <= pos <= s.len(),
    ensures
        match spec_quoted(s, pos, field) {
            Ok((v, _, end)) => pos + 1 + v.len() < end <= s.len(),
            Err(e) => e.offset <= s.len(),
        },
{
    if pos < s.len() && s[pos] == 34 {
        lemma_quoted_scan(s, pos + 1, pos + 1, seq![], seq![], field);
    }
}

pub proof fn lemma_quoted_field_bounds(s: Seq<u8>, pos: int, field: Seq<char>)
    requires
        0 <= pos <= s.len(),
    ensures
        match spec_quoted_field(s, pos, field) {
            Ok((_, end)) => pos < end <= s.len(),
            Err(e) => e.offset <= s.len(),
        },
{
    lemma_quoted_bounds(s, pos, field);
    if let Ok((v, _, _)) = spec_quoted(s, pos, field) {
        lemma_utf8_bounds(v, field, pos + 1);
    }
}

pub proof fn lemma_head_bounds(s: Seq<u8>)
    ensures
        match spec_head(s) {
            Ok(h) => 0 <= h.position <= s.len() && 0 <= h.timestamp_offset <= s.len(),
            Err(e) => e.offset <= s.len(),
        },
{
    lemma_text_field_bounds(s, 0, "remote host"@);
    if let Ok((_, p0)) = spec_text_field(s, 0, "remote host"@) {
        lemma_separator_bounds(s, p0);
        if let Ok(p1) = spec_separator(s, p0) {
            lemma_text_field_bounds(s, p1, "ident"@);
            if let Ok((_, p1e)) = spec_text_field(s, p1, "ident"@) {
                lemma_separator_bounds(s, p1e);
                if let Ok(p2) = spec_separator(s, p1e) {
                    lemma_text_field_bounds(s, p2, "remote user"@);
                    if let Ok((_, p2e)) = spec_text_field(s, p2, "remote user"@) {
                        lemma_separator_bounds(s, p2e);
                        if let Ok(p3) = spec_separator(s, p2e) {
                            if p3 < s.len() && s[p3] == 91 {
                                lemma_find_byte(s, p3 + 1, 93);
                            }
                            if let Ok((v, _)) = spec_bracketed(s, p3, "timestamp"@) {
                                lemma_utf8_bounds(v, "timestamp"@, p3 + 1);
                            }
                        }
                    }
                }
            }
        }
    }
}

pub proof fn lemma_numbers_bounds(s: Seq<u8>, pos: int)
    requires
        0 <= pos <= s.len(),
    ensures
        match spec_numbers(s, pos) {
            Ok((_, _, end)) => pos < end <= s.len(),
            Err(e) => e.offset <= s.len(),
        },
{
    lemma_separator_bounds(s, pos);
    if let Ok(p5) = spec_separator(s, pos) {
        lemma_unquoted_bounds(s, p5, "status"@);
        if let Ok((v, p5e)) = spec_unquoted(s, p5, "status"@) {
            lemma_utf8_bounds(v, "status"@, p5);
            lemma_separator_bounds(s, p5e);
            if let Ok(p6) = spec_separator(s, p5e) {
                lemma_unquoted_bounds(s, p6, "bytes sent"@);
                if let Ok((w, _)) = spec_unquoted(s, p6, "bytes sent"@) {
                    lemma_utf8_bounds(w, "bytes sent"@, p6);
                }
            }
        }
    }
}

proof fn lemma_agents_bounds(s: Seq<u8>, pos: int)
    requires
        0 <= pos <= s.len(),
    ensures
        spec_agents(s, pos) matches Err(e) ==> e.offset <= s.len(),
{
    lemma_separator_bounds(s, pos);
    if let Ok(p7) = spec_separator(s, pos) {
        lemma_quoted_field_bounds(s, p7, "referer"@);
        if let Ok((_, p7e)) = spec_quoted_field(s, p7, "referer"@) {
            lemma_separator_bounds(s, p7e);
            if let Ok(p8) = spec_separator(s, p7e) {
                lemma_quoted_field_bounds(s, p8, "user agent"@);
                if let Ok((_, p8e)) = spec_quoted_field(s, p8, "user agent"@) {
                    lemma_skip_spaces(s, p8e);
                }
            }
        }
    }
}

/// Every rejection points into the line: its offset is at most the line's
/// length (the length itself when the line ends too early).
pub proof fn law_error_offset_within_line(line: Seq<u8>)
    ensures
        spec_parse_line(line) matches Err(e) ==> e.offset <= line.len(),
{
    lemma_head_bounds(line);
    if let Ok(h) = spec_head(line) {
        if let Ok(_) = chrono_utc_rfc3339(h.timestamp, clf_time_format()) {
            lemma_separator_bounds(line, h.position);
            if let Ok(p) = spec_separator(line, h.position) {
                lemma_quoted_bounds(line, p, "request"@);
                if let Ok((raw, _, p4e)) = spec_quoted(line, p, "request"@) {
                    lemma_utf8_bounds(raw, "request"@, p + 1);
                    lemma_numbers_bounds(line, p4e);
                    if let Ok((_, _, p6e)) = spec_numbers(line, p4e) {
                        lemma_agents_bounds(line, p6e);
                    }
                }
            }
        }
    }
}

/// Every byte of `t` is a space.
pub open spec fn all_spaces(t: Seq<u8>) -> bool {
    forall|i: int| 0 <= i < t.len() ==> t[i] == 32
}

proof fn lemma_find_byte_extend(s: Seq<u8>, t: Seq<u8>, pos: int, b: u8)
    requires
        0 <= pos <= s.len(),
        find_byte(s, pos, b) < s.len(),
    ensures
        find_byte(s + t, pos, b) == find_byte(s, pos, b),
    decreases s.len() - pos,
{
    assert((s + t)[pos] == s[pos]);
    if s[pos] != b {
        lemma_find_byte_extend(s, t, pos + 1, b);
    }
}

proof fn lemma_skip_spaces_extend(s: Seq<u8>, t: Seq<u8>, pos: int)
    requires
        0 <= pos <= s.len(),
        skip_spaces(s, pos) < s.len(),
    ensures
        skip_spaces(s + t, pos) == skip_spaces(s, pos),
    decreases s.len() - pos,
{
    assert((s + t)[pos] == s[pos]);
    if s[pos] == 32 {
        lemma_skip_spaces_extend(s, t, pos + 1);
    }
}

proof fn lemma_skip_spaces_to_end(s: Seq<u8>, pos: int)
    requires
        0 <= pos <= s.len(),
        forall|i: int| pos <= i < s.len() ==> s[i] == 32,
    ensures
        skip_spaces(s, pos) == s.len(),
    decreases s.len() - pos,
{
    if pos < s.len() {
        lemma_skip_spaces_to_end(s, pos + 1);
    }
}

proof fn lemma_skip_spaces_end_extend(s: Seq<u8>, t: Seq<u8>, pos: int)
    requires
        0 <= pos <= s.len(),
        skip_spaces(s, pos) == s.len(),
        all_spaces(t),
    ensures
        skip_spaces(s + t, pos) == s.len() + t.len(),
    decreases s.len() - pos,
{
    let u = s + t;
    if pos < s.len() {
        assert(u[pos] == s[pos]);
        lemma_skip_spaces_end_extend(s, t, pos + 1);
    } else {
        assert forall|i: int| pos <= i < u.len() implies u[i] == 32 by {
            assert(u[i] == t[i - s.len()]);
        }
        lemma_skip_spaces_to_end(u, pos);
    }
}

proof fn lemma_quoted_scan_extend(
    s: Seq<u8>,
    t: Seq<u8>,
    start: int,
    pos: int,
    bytes: Seq<u8>,
    spaces: Seq<int>,
    field: Seq<char>,
)
    requires
        quoted_scan(s, start, pos, bytes, spaces, field) is Ok,
    ensures
        quoted_scan(s + t, start, pos, bytes, spaces, field) == quoted_scan(
            s,
            start,
            pos,
            bytes,
            spaces,
            field,
        ),
    decreases s.len() - pos,
{
    let u = s + t;
    assert(0 <= pos < s.len());
    assert(u[pos] == s[pos]);
    if s[pos] == 34 {
    } else if s[pos] == 92 {
        assert(u[pos + 1] == s[pos + 1]);
        if s[pos + 1] == 34 || s[pos + 1] == 92 {
            lemma_quoted_scan_extend(s, t, start, pos + 2, bytes.push(s[pos + 1]), spaces, field);
        } else {
            assert(u[pos + 2] == s[pos + 2] && u[pos + 3] == s[pos + 3]);
            let v = (spec_hex_value(s[pos + 2])->0 * 16 + spec_hex_value(s[pos + 3])->0) as u8;
            lemma_quoted_scan_extend(s, t, start, pos + 4, bytes.push(v), spaces, field);
        }
    } else if s[pos] == 32 {
        lemma_quoted_scan_extend(
            s,
            t,
            start,
            pos + 1,
            bytes.push(32),
            spaces.push(bytes.len() as int),
            field,
        );
    } else {
        lemma_quoted_scan_extend(s, t, start, pos + 1, bytes.push(s[pos]), spaces, field);
    }
}

proof fn lemma_unquoted_extend(s: Seq<u8>, t: Seq<u8>, pos: int, field: Seq<char>)
    requires
        0 <= pos <= s.len(),
        spec_unquoted(s, pos, field) matches Ok((_, end)) && end < s.len(),
    ensures
        spec_unquoted(s + t, pos, field) == spec_unquoted(s, pos, field),
{
    lemma_find_byte_extend(s, t, pos, 32);
    let end = find_byte(s, pos, 32);
    lemma_find_byte(s, pos, 32);
    assert((s + t).subrange(pos, end) =~= s.subrange(pos, end));
}

proof fn lemma_separator_extend(s: Seq<u8>, t: Seq<u8>, pos: int)
    requires
        0 <= pos <= s.len(),
        spec_separator(s, pos) matches Ok(p) && p < s.len(),
    ensures
        spec_separator(s + t, pos) == spec_separator(s, pos),
{
    assert((s + t)[pos] == s[pos]);
    lemma_skip_spaces_extend(s, t, pos + 1);
}

proof fn lemma_quoted_extend(s: Seq<u8>, t: Seq<u8>, pos: int, field: Seq<char>)
    requires
        0 <= pos <= s.len(),
        spec_quoted(s, pos, field) is Ok,
    ensures
        spec_quoted(s + t, pos, field) == spec_quoted(s, pos, field),
{
    assert((s + t)[pos] == s[pos]);
    lemma_quoted_scan_extend(s, t, pos + 1, pos + 1, seq![], seq![], field);
}

proof fn lemma_text_field_extend(s: Seq<u8>, t: Seq<u8>, pos: int, field: Seq<char>)
    requires
        0 <= pos <= s.len(),
        spec_text_field(s, pos, field) matches Ok((_, end)) && end < s.len(),
    ensures
        spec_text_field(s + t, pos, field) == spec_text_field(s, pos, field),
{
    lemma_unquoted_extend(s, t, pos, field);
}

proof fn lemma_head_extend(s: Seq<u8>, t: Seq<u8>)
    requires
        spec_head(s) is Ok,
    ensures
        spec_head(s + t) == spec_head(s),
{
    let u = s + t;
    lemma_text_field_bounds(s, 0, "remote host"@);
    let (_, p0) = spec_text_field(s, 0, "remote host"@)->Ok_0;
    lemma_separator_bounds(s, p0);
    assert(p0 < s.len());
    let p1 = spec_separator(s, p0)->Ok_0;
    lemma_text_field_bounds(s, p1, "ident"@);
    lemma_find_byte(s, p1, 32);
    let (_, p1e) = spec_text_field(s, p1, "ident"@)->Ok_0;
    lemma_separator_bounds(s, p1e);
    let p2 = spec_separator(s, p1e)->Ok_0;
    lemma_find_byte(s, p2, 32);
    lemma_text_field_bounds(s, p2, "remote user"@);
    let (_, p2e) = spec_text_field(s, p2, "remote user"@)->Ok_0;
    lemma_separator_bounds(s, p2e);
    let p3 = spec_separator(s, p2e)->Ok_0;
    lemma_text_field_extend(s, t, 0, "remote host"@);
    lemma_separator_extend(s, t, p0);
    lemma_text_field_extend(s, t, p1, "ident"@);
    lemma_separator_extend(s, t, p1e);
    lemma_text_field_extend(s, t, p2, "remote user"@);
    lemma_separator_extend(s, t, p2e);
    assert(u[p3] == s[p3]);
    lemma_find_byte(s, p3 + 1, 93);
    lemma_find_byte_extend(s, t, p3 + 1, 93);
    let close = find_byte(s, p3 + 1, 93);
    assert(u.subrange(p3 + 1, close) =~= s.subrange(p3 + 1, close));
}

proof fn lemma_request_field_extend(s: Seq<u8>, t: Seq<u8>, pos: int)
    requires
        0 <= pos <= s.len(),
        spec_request_field(s, pos) is Ok,
    ensures
        spec_request_field(s + t, pos) == spec_request_field(s, pos),
{
    lemma_separator_bounds(s, pos);
    let p = spec_separator(s, pos)->Ok_0;
    assert(p < s.len());
    lemma_separator_extend(s, t, pos);
    lemma_quoted_extend(s, t, p, "request"@);
}

proof fn lemma_numbers_extend(s: Seq<u8>, t: Seq<u8>, pos: int)
    requires
        0 <= pos <= s.len(),
        spec_numbers(s, pos) matches Ok((_, _, end)) && end < s.len(),
    ensures
        spec_numbers(s + t, pos) == spec_numbers(s, pos),
{
    lemma_separator_bounds(s, pos);
    let p5 = spec_separator(s, pos)->Ok_0;
    lemma_find_byte(s, p5, 32);
    lemma_unquoted_bounds(s, p5, "status"@);
    let (_, p5e) = spec_unquoted(s, p5, "status"@)->Ok_0;
    lemma_separator_bounds(s, p5e);
    let p6 = spec_separator(s, p5e)->Ok_0;
    lemma_find_byte(s, p6, 32);
    lemma_separator_extend(s, t, pos);
    lemma_unquoted_extend(s, t, p5, "status"@);
    lemma_separator_extend(s, t, p5e);
    lemma_unquoted_extend(s, t, p6, "bytes sent"@);
}

proof fn lemma_agents_extend(s: Seq<u8>, t: Seq<u8>, pos: int)
    requires
        0 <= pos <= s.len(),
        spec_agents(s, pos) is Ok,
        all_spaces(t),
    ensures
        spec_agents(s + t, pos) == spec_agents(s, pos),
{
    lemma_separator_bounds(s, pos);
    let p7 = spec_separator(s, pos)->Ok_0;
    assert(p7 < s.len());
    lemma_quoted_bounds(s, p7, "referer"@);
    let (_, _, p7e) = spec_quoted(s, p7, "referer"@)->Ok_0;
    lemma_separator_bounds(s, p7e);
    let p8 = spec_separator(s, p7e)->Ok_0;
    assert(p8 < s.len());
    lemma_quoted_bounds(s, p8, "user agent"@);
    let (_, _, p8e) = spec_quoted(s, p8, "user agent"@)->Ok_0;
    lemma_separator_extend(s, t, pos);
    lemma_quoted_extend(s, t, p7, "referer"@);
    lemma_separator_extend(s, t, p7e);
    lemma_quoted_extend(s, t, p8, "user agent"@);
    lemma_skip_spaces_end_extend(s, t, p8e);
}

/// Spaces after the last field change nothing: a line that is accepted is
/// accepted, as the same record, with any number of spaces appended.
pub proof fn law_trailing_spaces_are_ignored(line: Seq<u8>, spaces: Seq<u8>)
    requires
        all_spaces(spaces),
    ensures
        spec_parse_line(line) is Ok ==> spec_parse_line(line + spaces) == spec_parse_line(line),
{
    if spec_parse_line(line) is Ok {
        lemma_head_extend(line, spaces);
        lemma_head_bounds(line);
        let h = spec_head(line)->Ok_0;
        lemma_request_field_extend(line, spaces, h.position);
        lemma_separator_bounds(line, h.position);
        let p = spec_separator(line, h.position)->Ok_0;
        lemma_quoted_bounds(line, p, "request"@);
        let (_, _, _, _, p4e) = spec_request_field(line, h.position)->Ok_0;
        lemma_numbers_bounds(line, p4e);
        let (_, _, p6e) = spec_numbers(line, p4e)->Ok_0;
        lemma_separator_bounds(line, p6e);
        assert(p6e < line.len());
        lemma_numbers_extend(line, spaces, p4e);
        lemma_agents_extend(line, spaces, p6e);
    }
}

/// A field read up to a space is one word: the remote host, and the ident
/// and remote user when present, are not empty and hold no space.
pub proof fn law_leading_fields_are_words(line: Seq<u8>)
    ensures
        spec_parse_line(line) matches Ok(r) ==> {
            &&& is_word(r.remote_host)
            &&& r.ident matches Some(v) ==> is_word(v)
            &&& r.remote_user matches Some(v) ==> is_word(v)
        },
{
    if let Ok(_) = spec_head(line) {
        lemma_text_field_word(line, 0, "remote host"@);
        let (_, p0) = spec_text_field(line, 0, "remote host"@)->Ok_0;
        lemma_text_field_bounds(line, 0, "remote host"@);
        lemma_separator_bounds(line, p0);
        let p1 = spec_separator(line, p0)->Ok_0;
        lemma_text_field_word(line, p1, "ident"@);
        lemma_text_field_bounds(line, p1, "ident"@);
        let (_, p1e) = spec_text_field(line, p1, "ident"@)->Ok_0;
        lemma_separator_bounds(line, p1e);
        let p2 = spec_separator(line, p1e)->Ok_0;
        lemma_text_field_word(line, p2, "remote user"@);
    }
}

/// The bytes of the line `line` from `pos` up to the next space.
pub open spec fn word_at(line: Seq<u8>, pos: int) -> Seq<u8> {
    line.subrange(pos, find_byte(line, pos, 32))
}

/// The text a field holds, with `-` for none.
pub open spec fn text_unless_dash(raw: Seq<u8>) -> Option<Seq<char>> {
    if decode_utf8(raw) == "-"@ {
        None
    } else {
        Some(decode_utf8(raw))
    }
}

/// The remote host, ident and remote user of a record are the first three
/// words of its line, in that order, as text (ident and user `None` for a
/// `-`), whatever number of spaces stands between them.
pub proof fn law_leading_fields_are_the_first_words(line: Seq<u8>)
    ensures
        spec_parse_line(line) matches Ok(r) ==> {
            let e0 = find_byte(line, 0, 32);
            let p1 = skip_spaces(line, e0);
            let p2 = skip_spaces(line, find_byte(line, p1, 32));
            &&& r.remote_host == decode_utf8(word_at(line, 0))
            &&& r.ident == text_unless_dash(word_at(line, p1))
            &&& r.remote_user == text_unless_dash(word_at(line, p2))
        },
{
    if let Ok(_) = spec_head(line) {
        let (_, p0) = spec_text_field(line, 0, "remote host"@)->Ok_0;
        lemma_text_field_bounds(line, 0, "remote host"@);
        lemma_separator_bounds(line, p0);
        let p1 = spec_separator(line, p0)->Ok_0;
        assert(skip_spaces(line, p0) == p1);
        lemma_text_field_bounds(line, p1, "ident"@);
        let (_, p1e) = spec_text_field(line, p1, "ident"@)->Ok_0;
        lemma_separator_bounds(line, p1e);
        let p2 = spec_separator(line, p1e)->Ok_0;
        assert(skip_spaces(line, p1e) == p2);
    }
}

/// Not empty, and without a space.
pub open spec fn is_word(text: Seq<char>) -> bool {
    text.len() > 0 && forall|k: int| 0 <= k < text.len() ==> text[k] != ' '
}

proof fn lemma_text_field_word(s: Seq<u8>, pos: int, field: Seq<char>)
    requires
        0 <= pos <= s.len(),
    ensures
        spec_text_field(s, pos, field) matches Ok((text, _)) ==> is_word(text),
{
    lemma_find_byte(s, pos, 32);
    if let Ok((raw, end)) = spec_unquoted(s, pos, field) {
        if valid_utf8(raw) {
            assert forall|i: int| 0 <= i < raw.len() implies raw[i] != 32 by {
                assert(raw[i] == s[pos + i]);
            }
            lemma_decode_avoids_ascii(raw, 32);
            lemma_decode_nonempty(raw);
        }
    }
}

/// The number of space bytes in `b`.
pub open spec fn count_spaces(b: Seq<u8>) -> nat
    decreases b.len(),
{
    if b.len() == 0 {
        0
    } else {
        (if b[0] == 32 {
            1nat
        } else {
            0nat
        }) + count_spaces(b.drop_first())
    }
}

proof fn lemma_count_spaces_front(s: Seq<u8>, p: int, e: int)
    requires
        0 <= p < e <= s.len(),
    ensures
        count_spaces(s.subrange(p, e)) == (if s[p] == 32 {
            1nat
        } else {
            0nat
        }) + count_spaces(s.subrange(p + 1, e)),
{
    assert(s.subrange(p, e).drop_first() =~= s.subrange(p + 1, e));
}

pub proof fn lemma_quoted_scan_counts(
    s: Seq<u8>,
    start: int,
    p: int,
    acc: Seq<u8>,
    sp: Seq<int>,
    field: Seq<char>,
)
    requires
        0 <= p,
    ensures
        quoted_scan(s, start, p, acc, sp, field) matches Ok((_, sp2, end)) ==> {
            &&& p < end <= s.len()
            &&& s[end - 1] == 34
            &&& sp2.len() == sp.len() + count_spaces(s.subrange(p, end - 1))
        },
    decreases s.len() - p,
{
    if p < s.len() {
        if s[p] == 34 {
            assert(s.subrange(p, p) =~= Seq::<u8>::empty());
        } else if s[p] == 92 {
            if p + 1 < s.len() {
                if s[p + 1] == 34 || s[p + 1] == 92 {
                    lemma_quoted_scan_counts(s, start, p + 2, acc.push(s[p + 1]), sp, field);
                    if let Ok((_, _, end)) = quoted_scan(s, start, p, acc, sp, field) {
                        lemma_count_spaces_front(s, p, end - 1);
                        lemma_count_spaces_front(s, p + 1, end - 1);
                    }
                } else if s[p + 1] == 120 && p + 3 < s.len() && spec_hex_value(s[p + 2]) is Some
                    && spec_hex_value(s[p + 3]) is Some {
                    let v = (spec_hex_value(s[p + 2])->0 * 16 + spec_hex_value(s[p + 3])->0) as u8;
                    lemma_quoted_scan_counts(s, start, p + 4, acc.push(v), sp, field);
                    if let Ok((_, _, end)) = quoted_scan(s, start, p, acc, sp, field) {
                        lemma_count_spaces_front(s, p, end - 1);
                        lemma_count_spaces_front(s, p + 1, end - 1);
                        lemma_count_spaces_front(s, p + 2, end - 1);
                        lemma_count_spaces_front(s, p + 3, end - 1);
                    }
                }
            }
        } else if s[p] == 32 {
            lemma_quoted_scan_counts(
                s,
                start,
                p + 1,
                acc.push(32),
                sp.push(acc.len() as int),
                field,
            );
            if let Ok((_, _, end)) = quoted_scan(s, start, p, acc, sp, field) {
                lemma_count_spaces_front(s, p, end - 1);
            }
        } else {
            lemma_quoted_scan_counts(s, start, p + 1, acc.push(s[p]), sp, field);
            if let Ok((_, _, end)) = quoted_scan(s, start, p, acc, sp, field) {
                lemma_count_spaces_front(s, p, end - 1);
            }
        }
    }
}

/// A quoted field that is read starts and ends with a quote, spans at least
/// those two bytes, and records one index for each space that stands
/// unescaped between them (a `\x20` decodes to a space but records none).
pub proof fn law_quoted_field_is_delimited(s: Seq<u8>, pos: int, field: Seq<char>)
    requires
        0 <= pos,
    ensures
        spec_quoted(s, pos, field) matches Ok((_, spaces, end)) ==> {
            &&& s[pos] == 34
            &&& s[end - 1] == 34
            &&& pos + 2 <= end
            &&& spaces.len() == count_spaces(s.subrange(pos + 1, end - 1))
        },
{
    lemma_quoted_scan_counts(s, pos + 1, pos + 1, seq![], seq![], field);
}

/// How one byte is written inside a quoted field: as itself (with `"` and
/// `\` behind a backslash), or as `\x` and two hexadecimal digits, each of
/// them in lower or upper case.
pub enum EscapeForm {
    Plain,
    Hex { high_upper: bool, low_upper: bool },
}

/// The hexadecimal digit for `v` (below 16), in upper or lower case.
pub open spec fn hex_digit(v: u8, upper: bool) -> u8 {
    if v < 10 {
        (48 + v) as u8
    } else if upper {
        (65 + v - 10) as u8
    } else {
        (97 + v - 10) as u8
    }
}

/// The byte `c` written inside a quoted field in the form `form`.
pub open spec fn escape_byte(c: u8, form: EscapeForm) -> Seq<u8> {
    match form {
        EscapeForm::Plain => if c == 34 || c == 92 {
            seq![92u8, c]
        } else {
            seq![c]
        },
        EscapeForm::Hex { high_upper, low_upper } => seq![
            92u8,
            120u8,
            hex_digit(c / 16, high_upper),
            hex_digit(c % 16, low_upper),
        ],
    }
}

/// The bytes `b` written inside a quoted field, each in its form in `forms`.
pub open spec fn escape_bytes(b: Seq<u8>, forms: Seq<EscapeForm>) -> Seq<u8>
    decreases b.len(),
{
    if b.len() == 0 {
        Seq::empty()
    } else {
        escape_byte(b[0], forms[0]) + escape_bytes(b.drop_first(), forms.drop_first())
    }
}

/// The indices, counted from `base`, of the spaces of `b` that are written
/// as themselves.
pub open spec fn literal_space_indices(b: Seq<u8>, forms: Seq<EscapeForm>, base: int) -> Seq<int>
    decreases b.len(),
{
    if b.len() == 0 {
        Seq::empty()
    } else if b[0] == 32 && forms[0] is Plain {
        seq![base] + literal_space_indices(b.drop_first(), forms.drop_first(), base + 1)
    } else {
        literal_space_indices(b.drop_first(), forms.drop_first(), base + 1)
    }
}

proof fn lemma_hex_digit(v: u8, upper: bool)
    requires
        0 <= v < 16,
    ensures
        spec_hex_value(hex_digit(v, upper)) == Some(v),
{
}

proof fn lemma_scan_escaped(
    s: Seq<u8>,
    start: int,
    pos: int,
    acc: Seq<u8>,
    sp: Seq<int>,
    b: Seq<u8>,
    forms: Seq<EscapeForm>,
    field: Seq<char>,
)
    requires
        0 <= pos,
        forms.len() == b.len(),
        pos + escape_bytes(b, forms).len() < s.len(),
        s.subrange(pos, pos + escape_bytes(b, forms).len()) == escape_bytes(b, forms),
        s[pos + escape_bytes(b, forms).len()] == 34,
    ensures
        quoted_scan(s, start, pos, acc, sp, field) == Ok::<
            (Seq<u8>, Seq<int>, int),
            ParseErrorModel,
        >(
            (
                acc + b,
                sp + literal_space_indices(b, forms, acc.len() as int),
                pos + escape_bytes(b, forms).len() + 1,
            ),
        ),
    decreases b.len(),
{
    if b.len() == 0 {
        assert(acc + b =~= acc);
        assert(sp + literal_space_indices(b, forms, acc.len() as int) =~= sp);
    } else {
        let c = b[0];
        let form = forms[0];
        let rest = b.drop_first();
        let fs = forms.drop_first();
        let e = escape_byte(c, form);
        let n = e.len() as int;
        assert(escape_bytes(b, forms) == e + escape_bytes(rest, fs));
        let w = escape_bytes(b, forms);
        assert(s[pos] == w[0]);
        if n >= 2 {
            assert(s[pos + 1] == w[1]);
        }
        if n == 4 {
            assert(s[pos + 2] == w[2]);
            assert(s[pos + 3] == w[3]);
            lemma_hex_digit(c / 16, form->high_upper);
            lemma_hex_digit(c % 16, form->low_upper);
            assert(((c / 16) * 16 + c % 16) as u8 == c);
        }
        assert(s.subrange(pos + n, pos + n + escape_bytes(rest, fs).len()) =~= escape_bytes(
            rest,
            fs,
        )) by {
            assert forall|i: int| 0 <= i < escape_bytes(rest, fs).len() implies s.subrange(
                pos + n,
                pos + n + escape_bytes(rest, fs).len(),
            )[i] == escape_bytes(rest, fs)[i] by {
                assert(s[pos + n + i] == w[n + i]);
            }
        }
        assert(acc.push(c) + rest =~= acc + b);
        if c == 32 && form is Plain {
            lemma_scan_escaped(
                s,
                start,
                pos + n,
                acc.push(c),
                sp.push(acc.len() as int),
                rest,
                fs,
                field,
            );
            assert(sp.push(acc.len() as int) + literal_space_indices(rest, fs, acc.len() + 1int)
                =~= sp + literal_space_indices(b, forms, acc.len() as int));
        } else {
            lemma_scan_escaped(s, start, pos + n, acc.push(c), sp, rest, fs, field);
            assert(sp + literal_space_indices(rest, fs, acc.len() + 1int) =~= sp
                + literal_space_indices(b, forms, acc.len() as int));
        }
    }
}

/// Decoding undoes escaping: bytes written between quotes, each as itself
/// (with `"` and `\` behind a backslash) or as a `\x` escape whose two
/// digits are each in either case, read back as the same bytes, whatever
/// follows the closing quote; the recorded spaces are those written as
/// themselves.
pub proof fn law_quoted_decoding_undoes_escaping(
    b: Seq<u8>,
    forms: Seq<EscapeForm>,
    rest: Seq<u8>,
    field: Seq<char>,
)
    requires
        forms.len() == b.len(),
    ensures
        spec_quoted(seq![34u8] + escape_bytes(b, forms) + seq![34u8] + rest, 0, field) == Ok::<
            (Seq<u8>, Seq<int>, int),
            ParseErrorModel,
        >((b, literal_space_indices(b, forms, 0), escape_bytes(b, forms).len() + 2int)),
{
    let w = escape_bytes(b, forms);
    let s = seq![34u8] + w + seq![34u8] + rest;
    assert(s.subrange(1, 1 + w.len() as int) =~= w);
    assert(s[1 + w.len() as int] == 34);
    lemma_scan_escaped(s, 1, 1, seq![], seq![], b, forms, field);
    assert(Seq::<u8>::empty() + b =~= b);
    assert(Seq::<int>::empty() + literal_space_indices(b, forms, 0) =~= literal_space_indices(
        b,
        forms,
        0,
    ));
}

/// The last index below `end` at which `cs` holds `c`, or -1.
pub open spec fn last_char_index(cs: Seq<char>, c: char, end: int) -> int
    decreases end,
{
    if end <= 0 {
        -1
    } else if cs[end - 1] == c {
        end - 1
    } else {
        last_char_index(cs, c, end - 1)
    }
}

/// The extension of a path, read on its characters: what follows the last
/// `.` of the text after the last `/`, when the text before that dot and the
/// text after it are both non-empty.
pub open spec fn extension_of_path(path: Seq<char>) -> Option<Seq<char>> {
    let seg = path.subrange(last_char_index(path, '/', path.len() as int) + 1, path.len() as int);
    let d = last_char_index(seg, '.', seg.len() as int);
    if d > 0 && d + 1 < seg.len() {
        Some(seg.subrange(d + 1, seg.len() as int))
    } else {
        None
    }
}

proof fn lemma_last_char_index_none(cs: Seq<char>, c: char, end: int)
    requires
        0 <= end <= cs.len(),
        forall|k: int| 0 <= k < end ==> cs[k] != c,
    ensures
        last_char_index(cs, c, end) == -1,
    decreases end,
{
    if end > 0 {
        lemma_last_char_index_none(cs, c, end - 1);
    }
}

proof fn lemma_last_char_index_at(cs: Seq<char>, c: char, i: int, end: int)
    requires
        0 <= i < end <= cs.len(),
        cs[i] == c,
        forall|k: int| i < k < end ==> cs[k] != c,
    ensures
        last_char_index(cs, c, end) == i,
    decreases end,
{
    if end - 1 > i {
        lemma_last_char_index_at(cs, c, i, end - 1);
    }
}

/// Where the last ASCII byte `c` of valid UTF-8 stands, its character stands
/// last among the decoded characters, after the decoding of what precedes it.
proof fn lemma_last_ascii_decoded(b: Seq<u8>, c: u8)
    requires
        valid_utf8(b),
        c < 128,
    ensures
        ({
            let i = last_index_of(b, c, b.len() as int);
            let cs = decode_utf8(b);
            &&& i >= 0 ==> {
                &&& valid_utf8(b.subrange(0, i))
                &&& valid_utf8(b.subrange(i + 1, b.len() as int))
                &&& last_char_index(cs, c as char, cs.len() as int) == decode_utf8(
                    b.subrange(0, i),
                ).len()
                &&& cs.subrange(decode_utf8(b.subrange(0, i)).len() + 1int, cs.len() as int)
                    == decode_utf8(b.subrange(i + 1, b.len() as int))
            }
            &&& i < 0 ==> last_char_index(cs, c as char, cs.len() as int) == -1
        }),
{
    let i = last_index_of(b, c, b.len() as int);
    lemma_last_index_of(b, c, b.len() as int);
    let cs = decode_utf8(b);
    if i >= 0 {
        lemma_valid_split_at_ascii(b, i);
        let before = decode_utf8(b.subrange(0, i));
        let after_b = b.subrange(i + 1, b.len() as int);
        let after = decode_utf8(after_b);
        assert forall|k: int| 0 <= k < after_b.len() implies after_b[k] != c by {
            assert(after_b[k] == b[i + 1 + k]);
        }
        lemma_decode_avoids_ascii(after_b, c);
        assert(cs == before + seq![c as char] + after);
        assert(cs[before.len() as int] == c as char);
        assert forall|k: int| before.len() < k < cs.len() implies cs[k] != c as char by {
            assert(cs[k] == after[k - before.len() - 1]);
        }
        lemma_last_char_index_at(cs, c as char, before.len() as int, cs.len() as int);
        assert(cs.subrange(before.len() + 1int, cs.len() as int) =~= after);
    } else {
        lemma_decode_avoids_ascii(b, c);
        lemma_last_char_index_none(cs, c as char, cs.len() as int);
    }
}

/// Valid UTF-8 decodes to text of no characters exactly when it is empty.
proof fn lemma_decode_empty_iff(b: Seq<u8>)
    requires
        valid_utf8(b),
    ensures
        (decode_utf8(b).len() == 0) == (b.len() == 0),
{
    if b.len() > 0 {
        lemma_decode_nonempty(b);
    }
}

/// The extension that `split_request_target` finds is the extension of the
/// path read on its characters: there is one exactly when the path's last
/// segment has a dot with text on both sides, and it is the text after the
/// last such dot.
pub proof fn law_extension_is_that_of_the_path(target: Seq<char>)
    ensures
        ({
            let (path, extension, _) = spec_split_target(encode_utf8(target));
            extension == extension_of_path(path)
        }),
{
    let t = encode_utf8(target);
    let q = query_mark(t);
    lemma_find_byte(t, 0, 63);
    let p = path_bytes(t);
    if q < t.len() {
        lemma_valid_split_at_ascii(t, q);
    } else {
        assert(p =~= t);
    }
    let path = decode_utf8(p);
    lemma_last_ascii_decoded(p, 47);
    let slash = last_index_of(p, 47, p.len() as int);
    lemma_last_index_of(p, 47, p.len() as int);
    let g = segment_bytes(t);
    let seg = path.subrange(last_char_index(path, '/', path.len() as int) + 1, path.len() as int);
    if slash >= 0 {
        assert(g == p.subrange(slash + 1, p.len() as int));
        assert(seg == decode_utf8(g));
    } else {
        assert(slash + 1 == 0);
        assert(g == p.subrange(0, p.len() as int));
        assert(p.subrange(0, p.len() as int) =~= p);
        assert(seg =~= path);
    }
    lemma_last_ascii_decoded(g, 46);
    let d = last_index_of(g, 46, g.len() as int);
    lemma_last_index_of(g, 46, g.len() as int);
    if d >= 0 {
        let before = g.subrange(0, d);
        let after = g.subrange(d + 1, g.len() as int);
        lemma_decode_empty_iff(before);
        lemma_decode_empty_iff(after);
        assert(decode_utf8(g).len() == decode_utf8(before).len() + 1 + decode_utf8(after).len())
            by {
            lemma_valid_split_at_ascii(g, d);
        }
    }
}

} // verus!
