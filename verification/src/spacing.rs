//! Widening a separator: a line that is accepted is accepted, as the same
//! record, when one of the runs of spaces between its fields grows, by any
//! number of spaces.

use vstd::prelude::*;

use crate::lexer::{
    find_byte, lemma_find_byte, lemma_skip_spaces, quoted_scan, skip_spaces, spec_bracketed,
    spec_finish, spec_hex_value, spec_quoted, spec_separator, spec_unquoted,
};
use crate::error::ParseErrorModel;
use crate::laws::{
    lemma_quoted_bounds, lemma_quoted_scan_counts, lemma_separator_bounds,
    lemma_text_field_bounds, lemma_unquoted_bounds,
};
use crate::timestamp::{chrono_utc_rfc3339, clf_time_format};
use crate::line::{
    HeadModel, lemma_bracketed_end, spec_agents, spec_head, spec_numbers, spec_parse_line, spec_quoted_field,
    spec_request_field, spec_status, spec_tail, spec_text_field,
};

verus! {

/// `s2` holds, `d` places further on, what `s` holds from `a` up to `b`.
pub open spec fn agree(s: Seq<u8>, s2: Seq<u8>, a: int, b: int, d: int) -> bool {
    &&& 0 <= a <= b <= s.len()
    &&& 0 <= a + d
    &&& b + d <= s2.len()
    &&& forall|k: int| a <= k < b ==> #[trigger] s2[k + d] == s[k]
}

/// `agree`, and what follows `b` looks alike: the same byte, or the end of
/// both sequences.
pub open spec fn agree_through(s: Seq<u8>, s2: Seq<u8>, a: int, b: int, d: int) -> bool {
    &&& agree(s, s2, a, b, d)
    &&& (b < s.len() && b + d < s2.len() && s2[b + d] == s[b]) || (b == s.len() && b + d
        == s2.len())
}

proof fn lemma_agree_narrow(s: Seq<u8>, s2: Seq<u8>, a: int, b: int, a2: int, b2: int, d: int)
    requires
        agree_through(s, s2, a, b, d),
        a <= a2 <= b2 <= b,
    ensures
        agree_through(s, s2, a2, b2, d),
{
    if b2 < b {
        assert(s2[b2 + d] == s[b2]);
    }
}

proof fn lemma_find_byte_agree(s: Seq<u8>, s2: Seq<u8>, pos: int, c: u8, d: int)
    requires
        0 <= pos <= s.len(),
        agree_through(s, s2, pos, find_byte(s, pos, c), d),
    ensures
        find_byte(s2, pos + d, c) == find_byte(s, pos, c) + d,
    decreases s.len() - pos,
{
    lemma_find_byte(s, pos, c);
    let e = find_byte(s, pos, c);
    if pos < e {
        assert(s2[pos + d] == s[pos]);
        lemma_agree_narrow(s, s2, pos, e, pos + 1, e, d);
        lemma_find_byte_agree(s, s2, pos + 1, c, d);
    }
}

proof fn lemma_skip_spaces_agree(s: Seq<u8>, s2: Seq<u8>, pos: int, d: int)
    requires
        0 <= pos <= s.len(),
        agree_through(s, s2, pos, skip_spaces(s, pos), d),
    ensures
        skip_spaces(s2, pos + d) == skip_spaces(s, pos) + d,
    decreases s.len() - pos,
{
    lemma_skip_spaces(s, pos);
    let e = skip_spaces(s, pos);
    if pos < e {
        assert(s2[pos + d] == s[pos]);
        lemma_agree_narrow(s, s2, pos, e, pos + 1, e, d);
        lemma_skip_spaces_agree(s, s2, pos + 1, d);
    }
}

proof fn lemma_quoted_scan_agree(
    s: Seq<u8>,
    s2: Seq<u8>,
    start: int,
    pos: int,
    acc: Seq<u8>,
    sp: Seq<int>,
    field: Seq<char>,
    d: int,
)
    requires
        0 <= pos,
        quoted_scan(s, start, pos, acc, sp, field) is Ok,
        agree(s, s2, pos, quoted_scan(s, start, pos, acc, sp, field)->Ok_0.2, d),
    ensures
        quoted_scan(s, start, pos, acc, sp, field) matches Ok((v, sp2, end)) ==> quoted_scan(
            s2,
            start + d,
            pos + d,
            acc,
            sp,
            field,
        ) == Ok::<(Seq<u8>, Seq<int>, int), crate::error::ParseErrorModel>((v, sp2, end + d)),
    decreases s.len() - pos,
{
    let end = quoted_scan(s, start, pos, acc, sp, field)->Ok_0.2;
    lemma_quoted_scan_counts(s, start, pos, acc, sp, field);
    assert(s2[pos + d] == s[pos]);
    if s[pos] == 34 {
    } else if s[pos] == 92 {
        lemma_quoted_scan_counts(s, start, pos + 2, acc.push(s[pos + 1]), sp, field);
        assert(s2[pos + 1 + d] == s[pos + 1]);
        if s[pos + 1] == 34 || s[pos + 1] == 92 {
            lemma_quoted_scan_agree(s, s2, start, pos + 2, acc.push(s[pos + 1]), sp, field, d);
        } else {
            assert(s2[pos + 2 + d] == s[pos + 2] && s2[pos + 3 + d] == s[pos + 3]);
            let v = (spec_hex_value(s[pos + 2])->0 * 16 + spec_hex_value(s[pos + 3])->0) as u8;
            lemma_quoted_scan_counts(s, start, pos + 4, acc.push(v), sp, field);
            lemma_quoted_scan_agree(s, s2, start, pos + 4, acc.push(v), sp, field, d);
        }
    } else if s[pos] == 32 {
        lemma_quoted_scan_counts(s, start, pos + 1, acc.push(32), sp.push(acc.len() as int), field);
        lemma_quoted_scan_agree(
            s,
            s2,
            start,
            pos + 1,
            acc.push(32),
            sp.push(acc.len() as int),
            field,
            d,
        );
    } else {
        lemma_quoted_scan_counts(s, start, pos + 1, acc.push(s[pos]), sp, field);
        lemma_quoted_scan_agree(s, s2, start, pos + 1, acc.push(s[pos]), sp, field, d);
    }
}

/// `n` spaces.
pub open spec fn spaces(n: nat) -> Seq<u8> {
    Seq::new(n, |i: int| 32u8)
}

proof fn lemma_skip_run(s: Seq<u8>, a: int, b: int)
    requires
        0 <= a <= b <= s.len(),
        forall|i: int| a <= i < b ==> s[i] == 32,
    ensures
        skip_spaces(s, a) == skip_spaces(s, b),
    decreases b - a,
{
    if a < b {
        lemma_skip_run(s, a + 1, b);
    }
}

/// The line `s` with `n` more spaces after the space at `q`.
pub open spec fn widened(s: Seq<u8>, q: int, n: nat) -> Seq<u8> {
    s.subrange(0, q + 1) + spaces(n) + s.subrange(q + 1, s.len() as int)
}

/// Where a position of `s` stands in `widened(s, q, n)`.
pub open spec fn moved(x: int, q: int, n: nat) -> int {
    if x > q {
        x + n
    } else {
        x
    }
}

proof fn lemma_widened_agree(s: Seq<u8>, q: int, n: nat, a: int, b: int)
    requires
        0 <= q < s.len(),
        s[q] == 32,
        0 <= a <= b <= s.len(),
        b <= q || a > q,
    ensures
        agree_through(s, widened(s, q, n), a, b, moved(a, q, n) - a),
        moved(b, q, n) - b == moved(a, q, n) - a,
{
    let s2 = widened(s, q, n);
    assert(s2.len() == s.len() + n);
    if b <= q {
        assert forall|k: int| a <= k < b implies #[trigger] s2[k + 0] == s[k] by {}
        assert(s2[b] == s[b]);
    } else {
        assert forall|k: int| a <= k < b implies #[trigger] s2[k + n] == s[k] by {}
        if b < s.len() {
            assert(s2[b + n] == s[b]);
        }
    }
}

proof fn lemma_unquoted_map(s: Seq<u8>, q: int, n: nat, pos: int, field: Seq<char>)
    requires
        0 <= q < s.len(),
        s[q] == 32,
        0 <= pos <= s.len(),
        spec_unquoted(s, pos, field) matches Ok((_, end)) && (end <= q || pos > q),
    ensures
        spec_unquoted(s, pos, field) matches Ok((raw, end)) ==> spec_unquoted(
            widened(s, q, n),
            moved(pos, q, n),
            field,
        ) == Ok::<(Seq<u8>, int), ParseErrorModel>((raw, moved(end, q, n))),
{
    let s2 = widened(s, q, n);
    let end = find_byte(s, pos, 32);
    lemma_find_byte(s, pos, 32);
    lemma_widened_agree(s, q, n, pos, end);
    let d = moved(pos, q, n) - pos;
    lemma_find_byte_agree(s, s2, pos, 32, d);
    assert(s2.subrange(pos + d, end + d) =~= s.subrange(pos, end)) by {
        assert forall|k: int| 0 <= k < end - pos implies #[trigger] s2.subrange(
            pos + d,
            end + d,
        )[k] == s.subrange(pos, end)[k] by {
            assert(s2[pos + k + d] == s[pos + k]);
        }
    }
}

proof fn lemma_separator_map(s: Seq<u8>, q: int, n: nat, pos: int)
    requires
        0 <= q < s.len(),
        s[q] == 32,
        0 <= pos <= s.len(),
        spec_separator(s, pos) matches Ok(end) && (end <= q || pos >= q),
    ensures
        spec_separator(s, pos) matches Ok(end) ==> spec_separator(widened(s, q, n), moved(pos, q, n))
            == Ok::<int, ParseErrorModel>(moved(end, q, n)),
{
    let s2 = widened(s, q, n);
    let end = spec_separator(s, pos)->Ok_0;
    lemma_skip_spaces(s, pos + 1);
    if pos == q {
        assert(s2[q] == 32);
        assert forall|i: int| q + 1 <= i < q + 1 + n implies s2[i] == 32 by {}
        lemma_skip_run(s2, q + 1, q + 1 + n);
        lemma_widened_agree(s, q, n, q + 1, end);
        lemma_skip_spaces_agree(s, s2, q + 1, n as int);
    } else {
        lemma_widened_agree(s, q, n, pos, end);
        let d = moved(pos, q, n) - pos;
        assert(s2[pos + d] == s[pos]);
        lemma_agree_narrow(s, s2, pos, end, pos + 1, end, d);
        lemma_skip_spaces_agree(s, s2, pos + 1, d);
    }
}

proof fn lemma_bracketed_map(s: Seq<u8>, q: int, n: nat, pos: int, field: Seq<char>)
    requires
        0 <= q < s.len(),
        s[q] == 32,
        0 <= pos <= s.len(),
        spec_bracketed(s, pos, field) matches Ok((_, end)) && (end <= q || pos > q),
    ensures
        spec_bracketed(s, pos, field) matches Ok((raw, end)) ==> spec_bracketed(
            widened(s, q, n),
            moved(pos, q, n),
            field,
        ) == Ok::<(Seq<u8>, int), ParseErrorModel>((raw, moved(end, q, n))),
{
    let s2 = widened(s, q, n);
    let close = find_byte(s, pos + 1, 93);
    lemma_find_byte(s, pos + 1, 93);
    lemma_widened_agree(s, q, n, pos, close);
    let d = moved(pos, q, n) - pos;
    assert(s2[pos + d] == s[pos]);
    lemma_agree_narrow(s, s2, pos, close, pos + 1, close, d);
    lemma_find_byte_agree(s, s2, pos + 1, 93, d);
    assert(s2.subrange(pos + 1 + d, close + d) =~= s.subrange(pos + 1, close)) by {
        assert forall|k: int| 0 <= k < close - pos - 1 implies #[trigger] s2.subrange(
            pos + 1 + d,
            close + d,
        )[k] == s.subrange(pos + 1, close)[k] by {
            assert(s2[pos + 1 + k + d] == s[pos + 1 + k]);
        }
    }
}

proof fn lemma_quoted_map(s: Seq<u8>, q: int, n: nat, pos: int, field: Seq<char>)
    requires
        0 <= q < s.len(),
        s[q] == 32,
        0 <= pos <= s.len(),
        spec_quoted(s, pos, field) matches Ok((_, _, end)) && (end <= q || pos > q),
    ensures
        spec_quoted(s, pos, field) matches Ok((raw, spaces, end)) ==> spec_quoted(
            widened(s, q, n),
            moved(pos, q, n),
            field,
        ) == Ok::<(Seq<u8>, Seq<int>, int), ParseErrorModel>((raw, spaces, moved(end, q, n))),
{
    let s2 = widened(s, q, n);
    let end = spec_quoted(s, pos, field)->Ok_0.2;
    lemma_quoted_scan_counts(s, pos + 1, pos + 1, seq![], seq![], field);
    lemma_widened_agree(s, q, n, pos, end);
    let d = moved(pos, q, n) - pos;
    assert(s2[pos + d] == s[pos]);
    lemma_agree_narrow(s, s2, pos, end, pos + 1, end, d);
    lemma_quoted_scan_agree(s, s2, pos + 1, pos + 1, seq![], seq![], field, d);
}

proof fn lemma_finish_map(s: Seq<u8>, q: int, n: nat, pos: int)
    requires
        0 <= q < s.len(),
        s[q] == 32,
        q < pos <= s.len(),
        spec_finish(s, pos) is Ok,
    ensures
        spec_finish(widened(s, q, n), moved(pos, q, n)) is Ok,
{
    let s2 = widened(s, q, n);
    lemma_skip_spaces(s, pos);
    lemma_widened_agree(s, q, n, pos, s.len() as int);
    lemma_skip_spaces_agree(s, s2, pos, n as int);
}

/// Where the separators inside the head of the accepted line `s` begin:
/// after the remote host, after the ident, and after the remote user.
pub open spec fn head_separator_starts(s: Seq<u8>) -> (int, int, int) {
    let p0 = spec_text_field(s, 0, "remote host"@)->Ok_0.1;
    let p1 = spec_separator(s, p0)->Ok_0;
    let p1e = spec_text_field(s, p1, "ident"@)->Ok_0.1;
    let p2 = spec_separator(s, p1e)->Ok_0;
    let p2e = spec_text_field(s, p2, "remote user"@)->Ok_0.1;
    (p0, p1e, p2e)
}

/// The head of a line after a widening at `q`.
pub open spec fn moved_head(h: HeadModel, q: int, n: nat) -> HeadModel {
    HeadModel {
        timestamp_offset: moved(h.timestamp_offset, q, n),
        position: moved(h.position, q, n),
        ..h
    }
}

proof fn lemma_head_widened(s: Seq<u8>, q: int, n: nat)
    requires
        spec_head(s) is Ok,
        0 <= q < s.len(),
        s[q] == 32,
        ({
            let (p0, p1e, p2e) = head_separator_starts(s);
            q == p0 || q == p1e || q == p2e || q >= spec_head(s)->Ok_0.position
        }),
    ensures
        spec_head(widened(s, q, n)) == Ok::<HeadModel, ParseErrorModel>(
            moved_head(spec_head(s)->Ok_0, q, n),
        ),
{
    let (_, p0) = spec_text_field(s, 0, "remote host"@)->Ok_0;
    lemma_text_field_bounds(s, 0, "remote host"@);
    let p1 = spec_separator(s, p0)->Ok_0;
    lemma_separator_bounds(s, p0);
    let (_, p1e) = spec_text_field(s, p1, "ident"@)->Ok_0;
    lemma_text_field_bounds(s, p1, "ident"@);
    let p2 = spec_separator(s, p1e)->Ok_0;
    lemma_separator_bounds(s, p1e);
    let (_, p2e) = spec_text_field(s, p2, "remote user"@)->Ok_0;
    lemma_text_field_bounds(s, p2, "remote user"@);
    let p3 = spec_separator(s, p2e)->Ok_0;
    lemma_separator_bounds(s, p2e);
    lemma_bracketed_end(s, p3, "timestamp"@);
    lemma_unquoted_bounds(s, 0, "remote host"@);
    lemma_unquoted_bounds(s, p1, "ident"@);
    lemma_unquoted_bounds(s, p2, "remote user"@);
    assert(spec_unquoted(s, 0, "remote host"@)->Ok_0.1 == p0);
    assert(spec_unquoted(s, p1, "ident"@)->Ok_0.1 == p1e);
    assert(spec_unquoted(s, p2, "remote user"@)->Ok_0.1 == p2e);
    let h = spec_head(s)->Ok_0;
    assert(h.position > p3);
    assert(p0 < p1 <= p1e < p2 <= p2e < p3);
    assert(q >= p0);
    lemma_unquoted_map(s, q, n, 0, "remote host"@);
    lemma_separator_map(s, q, n, p0);
    lemma_unquoted_map(s, q, n, p1, "ident"@);
    lemma_separator_map(s, q, n, p1e);
    lemma_unquoted_map(s, q, n, p2, "remote user"@);
    lemma_separator_map(s, q, n, p2e);
    lemma_bracketed_map(s, q, n, p3, "timestamp"@);
}

proof fn lemma_request_field_widened(s: Seq<u8>, q: int, n: nat, pos: int)
    requires
        0 <= q < s.len(),
        s[q] == 32,
        0 <= pos <= s.len(),
        spec_request_field(s, pos) is Ok,
        q == pos || q >= spec_request_field(s, pos)->Ok_0.4 || pos > q,
    ensures
        spec_request_field(s, pos) matches Ok((raw, spaces, request, offset, end))
            ==> spec_request_field(widened(s, q, n), moved(pos, q, n)) == Ok::<
            (Seq<u8>, Seq<int>, Seq<char>, int, int),
            ParseErrorModel,
        >((raw, spaces, request, moved(offset, q, n), moved(end, q, n))),
{
    let p = spec_separator(s, pos)->Ok_0;
    lemma_separator_bounds(s, pos);
    lemma_quoted_bounds(s, p, "request"@);
    lemma_separator_map(s, q, n, pos);
    lemma_quoted_map(s, q, n, p, "request"@);
}

/// Where the separator between the status and the bytes sent begins, in the
/// numbers that start at `pos`.
pub open spec fn numbers_separator_start(s: Seq<u8>, pos: int) -> int {
    spec_status(s, spec_separator(s, pos)->Ok_0)->Ok_0.1
}

proof fn lemma_numbers_widened(s: Seq<u8>, q: int, n: nat, pos: int)
    requires
        0 <= q < s.len(),
        s[q] == 32,
        0 <= pos <= s.len(),
        spec_numbers(s, pos) is Ok,
        q == pos || q == numbers_separator_start(s, pos) || q >= spec_numbers(s, pos)->Ok_0.2
            || pos > q,
    ensures
        spec_numbers(s, pos) matches Ok((status, bytes_sent, end)) ==> spec_numbers(
            widened(s, q, n),
            moved(pos, q, n),
        ) == Ok::<(u16, Option<u64>, int), ParseErrorModel>(
            (status, bytes_sent, moved(end, q, n)),
        ),
{
    let p5 = spec_separator(s, pos)->Ok_0;
    lemma_separator_bounds(s, pos);
    lemma_unquoted_bounds(s, p5, "status"@);
    let p5e = spec_status(s, p5)->Ok_0.1;
    let p6 = spec_separator(s, p5e)->Ok_0;
    lemma_separator_bounds(s, p5e);
    lemma_unquoted_bounds(s, p6, "bytes sent"@);
    lemma_separator_map(s, q, n, pos);
    lemma_unquoted_map(s, q, n, p5, "status"@);
    lemma_separator_map(s, q, n, p5e);
    lemma_unquoted_map(s, q, n, p6, "bytes sent"@);
}

/// Where the separator between the referer and the user agent begins, in the
/// fields that start at `pos`.
pub open spec fn agents_separator_start(s: Seq<u8>, pos: int) -> int {
    spec_quoted_field(s, spec_separator(s, pos)->Ok_0, "referer"@)->Ok_0.1
}

proof fn lemma_agents_widened(s: Seq<u8>, q: int, n: nat, pos: int)
    requires
        0 <= q < s.len(),
        s[q] == 32,
        0 <= pos <= s.len(),
        spec_agents(s, pos) is Ok,
        q == pos || q == agents_separator_start(s, pos) || pos > q,
    ensures
        spec_agents(widened(s, q, n), moved(pos, q, n)) == spec_agents(s, pos),
{
    let p7 = spec_separator(s, pos)->Ok_0;
    lemma_separator_bounds(s, pos);
    lemma_quoted_bounds(s, p7, "referer"@);
    let p7e = spec_quoted_field(s, p7, "referer"@)->Ok_0.1;
    let p8 = spec_separator(s, p7e)->Ok_0;
    lemma_separator_bounds(s, p7e);
    lemma_quoted_bounds(s, p8, "user agent"@);
    let p8e = spec_quoted_field(s, p8, "user agent"@)->Ok_0.1;
    lemma_separator_map(s, q, n, pos);
    lemma_quoted_map(s, q, n, p7, "referer"@);
    lemma_separator_map(s, q, n, p7e);
    lemma_quoted_map(s, q, n, p8, "user agent"@);
    lemma_finish_map(s, q, n, p8e);
}


/// Where the separators after the timestamp begin, in the accepted line `s`
/// whose head is `h`: before the request, the status, the bytes sent, the
/// referer and the user agent.
pub open spec fn tail_separator_starts(s: Seq<u8>, h: HeadModel) -> (int, int, int, int, int) {
    let p4e = spec_request_field(s, h.position)->Ok_0.4;
    let p6e = spec_numbers(s, p4e)->Ok_0.2;
    (h.position, p4e, numbers_separator_start(s, p4e), p6e, agents_separator_start(s, p6e))
}

proof fn lemma_tail_widened(
    s: Seq<u8>,
    q: int,
    n: nat,
    h: HeadModel,
    stamp: Result<Seq<char>, Seq<char>>,
)
    requires
        0 <= q < s.len(),
        s[q] == 32,
        0 <= h.position <= s.len(),
        spec_tail(s, h, stamp) is Ok,
        ({
            let (a, b, c, d, e) = tail_separator_starts(s, h);
            q < h.position || q == a || q == b || q == c || q == d || q == e
        }),
    ensures
        spec_tail(widened(s, q, n), moved_head(h, q, n), stamp) == spec_tail(s, h, stamp),
{
    let p4e = spec_request_field(s, h.position)->Ok_0.4;
    let p = spec_separator(s, h.position)->Ok_0;
    lemma_separator_bounds(s, h.position);
    lemma_quoted_bounds(s, p, "request"@);
    let p5 = spec_separator(s, p4e)->Ok_0;
    lemma_separator_bounds(s, p4e);
    lemma_unquoted_bounds(s, p5, "status"@);
    let p5e = spec_status(s, p5)->Ok_0.1;
    let p6 = spec_separator(s, p5e)->Ok_0;
    lemma_separator_bounds(s, p5e);
    lemma_unquoted_bounds(s, p6, "bytes sent"@);
    let p6e = spec_numbers(s, p4e)->Ok_0.2;
    let p7 = spec_separator(s, p6e)->Ok_0;
    lemma_separator_bounds(s, p6e);
    lemma_quoted_bounds(s, p7, "referer"@);
    assert(h.position < p4e < p5e < p6e < agents_separator_start(s, p6e));
    lemma_request_field_widened(s, q, n, h.position);
    lemma_numbers_widened(s, q, n, p4e);
    lemma_agents_widened(s, q, n, p6e);
}

proof fn lemma_separator_start_is_space(s: Seq<u8>, pos: int)
    requires
        spec_separator(s, pos) is Ok,
    ensures
        0 <= pos < s.len(),
        s[pos] == 32,
{
}

proof fn lemma_head_separators_are_spaces(s: Seq<u8>)
    requires
        spec_head(s) is Ok,
    ensures
        ({
            let (p0, p1e, p2e) = head_separator_starts(s);
            &&& 0 <= p0 < s.len() && s[p0] == 32
            &&& 0 <= p1e < s.len() && s[p1e] == 32
            &&& 0 <= p2e < s.len() && s[p2e] == 32
            &&& p0 < p1e < p2e < spec_head(s)->Ok_0.position <= s.len()
        }),
{
    let (p0, p1e, p2e) = head_separator_starts(s);
    lemma_text_field_bounds(s, 0, "remote host"@);
    let p1 = spec_separator(s, p0)->Ok_0;
    lemma_separator_bounds(s, p0);
    lemma_text_field_bounds(s, p1, "ident"@);
    let p2 = spec_separator(s, p1e)->Ok_0;
    lemma_separator_bounds(s, p1e);
    lemma_text_field_bounds(s, p2, "remote user"@);
    lemma_separator_start_is_space(s, p0);
    lemma_separator_start_is_space(s, p1e);
    lemma_separator_start_is_space(s, p2e);
    let p3 = spec_separator(s, p2e)->Ok_0;
    lemma_separator_bounds(s, p2e);
    lemma_bracketed_end(s, p3, "timestamp"@);
}

proof fn lemma_tail_separators_are_spaces(
    s: Seq<u8>,
    h: HeadModel,
    stamp: Result<Seq<char>, Seq<char>>,
)
    requires
        spec_tail(s, h, stamp) is Ok,
        0 <= h.position <= s.len(),
    ensures
        ({
            let (a, b, c, d, e) = tail_separator_starts(s, h);
            &&& 0 <= a < s.len() && s[a] == 32
            &&& 0 <= b < s.len() && s[b] == 32
            &&& 0 <= c < s.len() && s[c] == 32
            &&& 0 <= d < s.len() && s[d] == 32
            &&& 0 <= e < s.len() && s[e] == 32
            &&& a <= b <= c <= d <= e
        }),
{
    let (a, b, c, d, e) = tail_separator_starts(s, h);
    let p4e = spec_request_field(s, h.position)->Ok_0.4;
    let p = spec_separator(s, h.position)->Ok_0;
    lemma_separator_bounds(s, h.position);
    lemma_quoted_bounds(s, p, "request"@);
    let p5 = spec_separator(s, p4e)->Ok_0;
    lemma_separator_bounds(s, p4e);
    lemma_unquoted_bounds(s, p5, "status"@);
    let p5e = spec_status(s, p5)->Ok_0.1;
    let p6 = spec_separator(s, p5e)->Ok_0;
    lemma_separator_bounds(s, p5e);
    lemma_unquoted_bounds(s, p6, "bytes sent"@);
    let p6e = spec_numbers(s, p4e)->Ok_0.2;
    let p7 = spec_separator(s, p6e)->Ok_0;
    lemma_separator_bounds(s, p6e);
    lemma_quoted_bounds(s, p7, "referer"@);
    lemma_separator_start_is_space(s, a);
    lemma_separator_start_is_space(s, b);
    lemma_separator_start_is_space(s, c);
    lemma_separator_start_is_space(s, d);
    lemma_separator_start_is_space(s, e);
}

proof fn lemma_parse_line_parts(s: Seq<u8>, h: HeadModel)
    requires
        spec_head(s) == Ok::<HeadModel, ParseErrorModel>(h),
    ensures
        spec_parse_line(s) == spec_tail(s, h, chrono_utc_rfc3339(h.timestamp, clf_time_format())),
{
}

/// `q` is where one of the runs of spaces between two fields of the line
/// `s` begins.
pub open spec fn is_separator_start(s: Seq<u8>, q: int) -> bool {
    spec_head(s) matches Ok(h) && {
        let (p0, p1e, p2e) = head_separator_starts(s);
        let (a, b, c, d, e) = tail_separator_starts(s, h);
        q == p0 || q == p1e || q == p2e || q == a || q == b || q == c || q == d || q == e
    }
}

proof fn lemma_widened_at_start(line: Seq<u8>, q: int, n: nat)
    requires
        spec_parse_line(line) is Ok,
        is_separator_start(line, q),
    ensures
        spec_parse_line(widened(line, q, n)) == spec_parse_line(line),
{
    let h = spec_head(line)->Ok_0;
    let stamp = chrono_utc_rfc3339(h.timestamp, clf_time_format());
    lemma_parse_line_parts(line, h);
    lemma_head_separators_are_spaces(line);
    lemma_tail_separators_are_spaces(line, h, stamp);
    lemma_head_widened(line, q, n);
    lemma_tail_widened(line, q, n, h, stamp);
    lemma_parse_line_parts(widened(line, q, n), moved_head(h, q, n));
}

proof fn lemma_separator_start_in_line(line: Seq<u8>, p: int)
    requires
        spec_parse_line(line) is Ok,
        is_separator_start(line, p),
    ensures
        0 <= p < line.len(),
        line[p] == 32,
{
    let h = spec_head(line)->Ok_0;
    let stamp = chrono_utc_rfc3339(h.timestamp, clf_time_format());
    lemma_parse_line_parts(line, h);
    lemma_head_separators_are_spaces(line);
    lemma_tail_separators_are_spaces(line, h, stamp);
}

/// `q` is one of the spaces that stand between two fields of the line `s`.
pub open spec fn is_separator_space(s: Seq<u8>, q: int) -> bool {
    exists|p: int| #[trigger] is_separator_start(s, p) && p <= q < skip_spaces(s, p + 1)
}

proof fn lemma_widened_in_run(s: Seq<u8>, p: int, q: int, n: nat)
    requires
        0 <= p <= q < s.len(),
        forall|k: int| p <= k <= q ==> s[k] == 32,
    ensures
        widened(s, q, n) == widened(s, p, n),
{
    let a = widened(s, q, n);
    let b = widened(s, p, n);
    assert(a =~= b) by {
        assert forall|i: int| 0 <= i < s.len() + n implies a[i] == b[i] by {
            if p + 1 <= i <= q + n {
                if i <= q {
                    assert(a[i] == s[i]);
                } else {
                    assert(a[i] == 32);
                }
                if i < p + 1 + n {
                    assert(b[i] == 32);
                } else {
                    assert(b[i] == s[i - n]);
                }
            }
        }
    }
}

/// Widening a separator: when a line is accepted, the line with any number
/// of further spaces at any of the spaces between its fields is accepted
/// too, as the same record.
pub proof fn law_widened_separator_is_ignored(line: Seq<u8>, q: int, n: nat)
    requires
        spec_parse_line(line) is Ok,
        is_separator_space(line, q),
    ensures
        spec_parse_line(widened(line, q, n)) == spec_parse_line(line),
{
    let p = choose|p: int| #[trigger] is_separator_start(line, p) && p <= q < skip_spaces(line, p + 1);
    lemma_separator_start_in_line(line, p);
    lemma_skip_spaces(line, p + 1);
    lemma_widened_in_run(line, p, q, n);
    lemma_widened_at_start(line, p, n);
}

} // verus!
