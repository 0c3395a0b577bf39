//! A byte-oriented lexer for the fields of a Combined Log Format line, and
//! the specification of each of its steps.

use vstd::prelude::*;

use crate::error::{perr, ParseError, ParseErrorModel};

verus! {

/// The first index at or after `pos` that holds `b`, or the end of `s`.
pub open spec fn find_byte(s: Seq<u8>, pos: int, b: u8) -> int
    decreases s.len() - pos,
{
    if 0 <= pos < s.len() && s[pos] != b {
        find_byte(s, pos + 1, b)
    } else {
        pos
    }
}

/// The first index at or after `pos` that does not hold a space.
pub open spec fn skip_spaces(s: Seq<u8>, pos: int) -> int
    decreases s.len() - pos,
{
    if 0 <= pos < s.len() && s[pos] == 32 {
        skip_spaces(s, pos + 1)
    } else {
        pos
    }
}

/// `find_byte` stops within `s`, on `b` when it stops before the end, and
/// skips only bytes other than `b`.
pub proof fn lemma_find_byte(s: Seq<u8>, pos: int, b: u8)
    requires
        0 <= pos <= s.len(),
    ensures
        pos <= find_byte(s, pos, b) <= s.len(),
        find_byte(s, pos, b) < s.len() ==> s[find_byte(s, pos, b)] == b,
        forall|k: int| pos <= k < find_byte(s, pos, b) ==> s[k] != b,
    decreases s.len() - pos,
{
    if pos < s.len() && s[pos] != b {
        lemma_find_byte(s, pos + 1, b);
    }
}

/// `skip_spaces` stops within `s`.
pub proof fn lemma_skip_spaces(s: Seq<u8>, pos: int)
    requires
        0 <= pos <= s.len(),
    ensures
        pos <= skip_spaces(s, pos) <= s.len(),
        skip_spaces(s, pos) < s.len() ==> s[skip_spaces(s, pos)] != 32,
        forall|k: int| pos <= k < skip_spaces(s, pos) ==> s[k] == 32,
    decreases s.len() - pos,
{
    if pos < s.len() && s[pos] == 32 {
        lemma_skip_spaces(s, pos + 1);
    }
}

/// The descriptions of the lexer's errors.
pub open spec fn missing_msg(field: Seq<char>) -> Seq<char> {
    "missing "@ + field
}

pub open spec fn open_bracket_msg(field: Seq<char>) -> Seq<char> {
    "expected '[' before "@ + field
}

pub open spec fn empty_msg(field: Seq<char>) -> Seq<char> {
    "empty "@ + field
}

pub open spec fn unterminated_msg(field: Seq<char>) -> Seq<char> {
    "unterminated "@ + field
}

pub open spec fn open_quote_msg(field: Seq<char>) -> Seq<char> {
    "expected quote before "@ + field
}

pub open spec fn incomplete_escape_msg(field: Seq<char>) -> Seq<char> {
    "incomplete escape in "@ + field
}

pub open spec fn bad_hex_escape_msg(field: Seq<char>) -> Seq<char> {
    "invalid hexadecimal escape in "@ + field
}

pub open spec fn unknown_escape_msg(field: Seq<char>) -> Seq<char> {
    "unknown escape in "@ + field
}

pub open spec fn separator_msg() -> Seq<char> {
    "expected a space between fields"@
}

pub open spec fn trailing_msg() -> Seq<char> {
    "unexpected trailing data"@
}

/// One byte `b` at `pos`; the position after it, or an error at `pos`.
pub open spec fn spec_expect_byte(s: Seq<u8>, pos: int, b: u8, msg: Seq<char>) -> Result<
    int,
    ParseErrorModel,
> {
    if 0 <= pos < s.len() && s[pos] == b {
        Ok(pos + 1)
    } else {
        Err(perr(pos, msg))
    }
}

/// A field that runs to the next space or the end of the line, and is not empty.
pub open spec fn spec_unquoted(s: Seq<u8>, pos: int, field: Seq<char>) -> Result<
    (Seq<u8>, int),
    ParseErrorModel,
> {
    let end = find_byte(s, pos, 32);
    if end == pos {
        Err(perr(pos, missing_msg(field)))
    } else {
        Ok((s.subrange(pos, end), end))
    }
}

/// A non-empty field between `[` and `]`.
pub open spec fn spec_bracketed(s: Seq<u8>, pos: int, field: Seq<char>) -> Result<
    (Seq<u8>, int),
    ParseErrorModel,
> {
    match spec_expect_byte(s, pos, 91, open_bracket_msg(field)) {
        Err(e) => Err(e),
        Ok(start) => {
            let close = find_byte(s, start, 93);
            if close >= s.len() {
                Err(perr(start, unterminated_msg(field)))
            } else if close == start {
                Err(perr(start, empty_msg(field)))
            } else {
                Ok((s.subrange(start, close), close + 1))
            }
        },
    }
}

/// The value of a hexadecimal digit, in either case.
pub open spec fn spec_hex_value(b: u8) -> Option<u8> {
    if 48 <= b <= 57 {
        Some((b - 48) as u8)
    } else if 97 <= b <= 102 {
        Some((b - 97 + 10) as u8)
    } else if 65 <= b <= 70 {
        Some((b - 65 + 10) as u8)
    } else {
        None
    }
}

/// The body of a quoted field, from `pos` on, decoded so far into `bytes`
/// with the indices of the unescaped spaces in `spaces`: the decoded bytes,
/// the indices in them of the literal spaces, and the position after the
/// closing quote. `start` is the position just after the opening quote.
pub open spec fn quoted_scan(
    s: Seq<u8>,
    start: int,
    pos: int,
    bytes: Seq<u8>,
    spaces: Seq<int>,
    field: Seq<char>,
) -> Result<(Seq<u8>, Seq<int>, int), ParseErrorModel>
    decreases s.len() - pos,
{
    if pos < 0 || pos >= s.len() {
        Err(perr(start, unterminated_msg(field)))
    } else if s[pos] == 34 {
        Ok((bytes, spaces, pos + 1))
    } else if s[pos] == 92 {
        if pos + 1 >= s.len() {
            Err(perr(pos, incomplete_escape_msg(field)))
        } else if s[pos + 1] == 34 || s[pos + 1] == 92 {
            quoted_scan(s, start, pos + 2, bytes.push(s[pos + 1]), spaces, field)
        } else if s[pos + 1] == 120 {
            if pos + 3 < s.len() && spec_hex_value(s[pos + 2]) is Some && spec_hex_value(
                s[pos + 3],
            ) is Some {
                let v = (spec_hex_value(s[pos + 2])->0 * 16 + spec_hex_value(s[pos + 3])->0) as u8;
                quoted_scan(s, start, pos + 4, bytes.push(v), spaces, field)
            } else {
                Err(perr(pos, bad_hex_escape_msg(field)))
            }
        } else {
            Err(perr(pos, unknown_escape_msg(field)))
        }
    } else if s[pos] == 32 {
        quoted_scan(s, start, pos + 1, bytes.push(32), spaces.push(bytes.len() as int), field)
    } else {
        quoted_scan(s, start, pos + 1, bytes.push(s[pos]), spaces, field)
    }
}

/// A field between double quotes, with `\"`, `\\` and `\xHH` escapes.
pub open spec fn spec_quoted(s: Seq<u8>, pos: int, field: Seq<char>) -> Result<
    (Seq<u8>, Seq<int>, int),
    ParseErrorModel,
> {
    match spec_expect_byte(s, pos, 34, open_quote_msg(field)) {
        Err(e) => Err(e),
        Ok(start) => quoted_scan(s, start, start, seq![], seq![], field),
    }
}

/// One space, then any number of further spaces.
pub open spec fn spec_separator(s: Seq<u8>, pos: int) -> Result<int, ParseErrorModel> {
    match spec_expect_byte(s, pos, 32, separator_msg()) {
        Err(e) => Err(e),
        Ok(p) => Ok(skip_spaces(s, p)),
    }
}

/// Nothing but spaces up to the end of the line.
pub open spec fn spec_finish(s: Seq<u8>, pos: int) -> Result<int, ParseErrorModel> {
    let p = skip_spaces(s, pos);
    if p == s.len() {
        Ok(p)
    } else {
        Err(perr(p, trailing_msg()))
    }
}

/// Where the lexer stands after reading a bracketed field from `pos`,
/// whether or not it succeeds: past the closing `]`, at the end of the line
/// when there is none, or still at `pos` when no `[` stands there.
pub open spec fn bracketed_stop(s: Seq<u8>, pos: int) -> int {
    if 0 <= pos < s.len() && s[pos] == 91 {
        let close = find_byte(s, pos + 1, 93);
        if close >= s.len() {
            close
        } else {
            close + 1
        }
    } else {
        pos
    }
}

/// Where the lexer stands after reading the body of a quoted field from
/// `pos`, whether or not it succeeds: past the closing quote; just after the
/// backslash of a faulty escape; or at the end of the line.
pub open spec fn quoted_scan_stop(s: Seq<u8>, pos: int) -> int
    decreases s.len() - pos,
{
    if pos < 0 || pos >= s.len() {
        pos
    } else if s[pos] == 34 {
        pos + 1
    } else if s[pos] == 92 {
        if pos + 1 >= s.len() {
            pos + 1
        } else if s[pos + 1] == 34 || s[pos + 1] == 92 {
            quoted_scan_stop(s, pos + 2)
        } else if s[pos + 1] == 120 {
            if pos + 3 < s.len() && spec_hex_value(s[pos + 2]) is Some && spec_hex_value(
                s[pos + 3],
            ) is Some {
                quoted_scan_stop(s, pos + 4)
            } else {
                pos + 1
            }
        } else {
            pos + 1
        }
    } else {
        quoted_scan_stop(s, pos + 1)
    }
}

/// Where the lexer stands after reading a quoted field from `pos`, whether
/// or not it succeeds; still at `pos` when no quote stands there.
pub open spec fn quoted_stop(s: Seq<u8>, pos: int) -> int {
    if 0 <= pos < s.len() && s[pos] == 34 {
        quoted_scan_stop(s, pos + 1)
    } else {
        pos
    }
}

/// The indices in `spaces` rise strictly and each holds a space in `bytes`.
pub open spec fn spaces_wf(bytes: Seq<u8>, spaces: Seq<int>) -> bool {
    &&& forall|k: int|
        0 <= k < spaces.len() ==> 0 <= #[trigger] spaces[k] < bytes.len() && bytes[spaces[k]]
            == 32
    &&& forall|k: int, j: int| 0 <= k < j < spaces.len() ==> spaces[k] < spaces[j]
}

/// What a quoted field decodes to is no longer than its raw text, and the
/// recorded spaces are spaces of it.
pub proof fn lemma_quoted_scan(
    s: Seq<u8>,
    start: int,
    pos: int,
    bytes: Seq<u8>,
    spaces: Seq<int>,
    field: Seq<char>,
)
    requires
        0 <= start <= pos <= s.len(),
        bytes.len() <= pos - start,
        spaces_wf(bytes, spaces),
    ensures
        quoted_scan(s, start, pos, bytes, spaces, field) matches Ok((b, sp, end)) ==> {
            &&& pos < end <= s.len()
            &&& b.len() <= end - 1 - start
            &&& spaces_wf(b, sp)
        },
        quoted_scan(s, start, pos, bytes, spaces, field) matches Err(e) ==> start <= e.offset
            <= s.len(),
    decreases s.len() - pos,
{
    if pos < s.len() {
        if s[pos] == 34 {
        } else if s[pos] == 92 {
            if pos + 1 >= s.len() {
            } else if s[pos + 1] == 34 || s[pos + 1] == 92 {
                lemma_quoted_scan(s, start, pos + 2, bytes.push(s[pos + 1]), spaces, field);
            } else if s[pos + 1] == 120 {
                if pos + 3 < s.len() && spec_hex_value(s[pos + 2]) is Some && spec_hex_value(
                    s[pos + 3],
                ) is Some {
                    let v = (spec_hex_value(s[pos + 2])->0 * 16 + spec_hex_value(s[pos + 3])->0) as u8;
                    lemma_quoted_scan(s, start, pos + 4, bytes.push(v), spaces, field);
                }
            }
        } else if s[pos] == 32 {
            let sp2 = spaces.push(bytes.len() as int);
            let b2 = bytes.push(32);
            assert(spaces_wf(b2, sp2));
            lemma_quoted_scan(s, start, pos + 1, b2, sp2, field);
        } else {
            lemma_quoted_scan(s, start, pos + 1, bytes.push(s[pos]), spaces, field);
        }
    }
}

/// The decoded value of a quoted field, with the indices in it of the spaces
/// that stood unescaped in the line.
pub struct QuotedValue {
    /// The decoded bytes.
    pub bytes: Vec<u8>,
    /// The indices in `bytes` of the spaces that were not escaped.
    pub literal_spaces: Vec<usize>,
}

/// Indices as integers.
pub open spec fn usizes(v: Seq<usize>) -> Seq<int> {
    v.map_values(|x: usize| x as int)
}

/// A lexing step that yields bytes, seen as its model.
pub open spec fn bytes_outcome(r: Result<Vec<u8>, ParseError>, end: int) -> Result<
    (Seq<u8>, int),
    ParseErrorModel,
> {
    match r {
        Ok(v) => Ok((v@, end)),
        Err(e) => Err(e@),
    }
}

/// A lexing step that yields nothing but a new position, seen as its model.
pub open spec fn unit_outcome(r: Result<(), ParseError>, end: int) -> Result<int, ParseErrorModel> {
    match r {
        Ok(_) => Ok(end),
        Err(e) => Err(e@),
    }
}

/// A quoted field, seen as its model.
pub open spec fn quoted_outcome(r: Result<QuotedValue, ParseError>, end: int) -> Result<
    (Seq<u8>, Seq<int>, int),
    ParseErrorModel,
> {
    match r {
        Ok(q) => Ok((q.bytes@, usizes(q.literal_spaces@), end)),
        Err(e) => Err(e@),
    }
}

/// A cursor over the bytes of one line.
pub struct Lexer<'a> {
    pub input: &'a [u8],
    pub position: usize,
}

/// The value of a hexadecimal digit, in either case.
pub fn hex_value(byte: u8) -> (r: Option<u8>)
    ensures
        r == spec_hex_value(byte),
{
    if 48 <= byte && byte <= 57 {
        Some(byte - 48)
    } else if 97 <= byte && byte <= 102 {
        Some(byte - 97 + 10)
    } else if 65 <= byte && byte <= 70 {
        Some(byte - 65 + 10)
    } else {
        None
    }
}

impl<'a> Lexer<'a> {
    /// A cursor at the start of `input`.
    pub fn new(input: &'a [u8]) -> (l: Lexer<'a>)
        ensures
            l.input == input,
            l.position == 0,
    {
        Lexer { input, position: 0 }
    }

    /// Reads a field that runs to the next space or the end of the line.
    pub fn unquoted(&mut self, field: &str) -> (r: Result<Vec<u8>, ParseError>)
        requires
            old(self).position <= old(self).input@.len(),
        ensures
            final(self).input == old(self).input,
            final(self).position <= final(self).input@.len(),
            bytes_outcome(r, final(self).position as int) == spec_unquoted(
                old(self).input@,
                old(self).position as int,
                field@,
            ),
            r matches Ok(v) ==> old(self).position + v@.len() == final(self).position,
            final(self).position == find_byte(old(self).input@, old(self).position as int, 32),
    {
        let start = self.position;
        while self.position < self.input.len() && self.input[self.position] != 32
            invariant
                start <= self.position <= self.input@.len(),
                self.input == old(self).input,
                start == old(self).position,
                find_byte(self.input@, start as int, 32) == find_byte(
                    self.input@,
                    self.position as int,
                    32,
                ),
            decreases self.input@.len() - self.position,
        {
            self.position = self.position + 1;
        }
        assert(find_byte(self.input@, self.position as int, 32) == self.position as int);
        if self.position == start {
            return Err(ParseError::new(start, String::from_str("missing ").concat(field)));
        }
        Ok(slice_to_vec_u8(vstd::slice::slice_subrange(self.input, start, self.position)))
    }

    /// Reads a non-empty field between `[` and `]`.
    pub fn bracketed(&mut self, field: &str) -> (r: Result<Vec<u8>, ParseError>)
        requires
            old(self).position <= old(self).input@.len(),
        ensures
            final(self).input == old(self).input,
            final(self).position <= final(self).input@.len(),
            bytes_outcome(r, final(self).position as int) == spec_bracketed(
                old(self).input@,
                old(self).position as int,
                field@,
            ),
            r matches Ok(v) ==> old(self).position + 1 + v@.len() < final(self).position,
            final(self).position == bracketed_stop(old(self).input@, old(self).position as int),
    {
        self.expect_byte(91, String::from_str("expected '[' before ").concat(field))?;
        let start = self.position;
        while self.position < self.input.len() && self.input[self.position] != 93
            invariant
                start <= self.position <= self.input@.len(),
                self.input == old(self).input,
                start == old(self).position + 1,
                find_byte(self.input@, start as int, 93) == find_byte(
                    self.input@,
                    self.position as int,
                    93,
                ),
            decreases self.input@.len() - self.position,
        {
            self.position = self.position + 1;
        }
        assert(find_byte(self.input@, self.position as int, 93) == self.position as int);
        if self.position >= self.input.len() {
            return Err(ParseError::new(start, String::from_str("unterminated ").concat(field)));
        }
        let value = slice_to_vec_u8(vstd::slice::slice_subrange(self.input, start, self.position));
        self.position = self.position + 1;
        if value.len() == 0 {
            return Err(ParseError::new(start, String::from_str("empty ").concat(field)));
        }
        Ok(value)
    }

    /// Reads a field between double quotes, decoding its escapes and noting
    /// where unescaped spaces stand in the decoded bytes.
    pub fn quoted(&mut self, field: &str) -> (r: Result<QuotedValue, ParseError>)
        requires
            old(self).position <= old(self).input@.len(),
        ensures
            final(self).input == old(self).input,
            final(self).position <= final(self).input@.len(),
            quoted_outcome(r, final(self).position as int) == spec_quoted(
                old(self).input@,
                old(self).position as int,
                field@,
            ),
            r matches Ok(q) ==> {
                &&& old(self).position + 1 + q.bytes@.len() < final(self).position
                &&& spaces_wf(q.bytes@, usizes(q.literal_spaces@))
            },
            final(self).position == quoted_stop(old(self).input@, old(self).position as int),
    {
        self.expect_byte(34, String::from_str("expected quote before ").concat(field))?;
        let start = self.position;
        let ghost s = self.input@;
        let mut bytes: Vec<u8> = Vec::new();
        let mut literal_spaces: Vec<usize> = Vec::new();
        assert(usizes(literal_spaces@) =~= Seq::<int>::empty());
        proof {
            lemma_quoted_scan(s, start as int, start as int, seq![], seq![], field@);
        }
        while self.position < self.input.len()
            invariant
                start <= self.position <= self.input@.len(),
                self.input == old(self).input,
                s == self.input@,
                start == old(self).position + 1,
                bytes@.len() <= self.position - start,
                quoted_scan_stop(s, self.position as int) == quoted_scan_stop(s, start as int),
                spec_quoted(s, old(self).position as int, field@) == quoted_scan(
                    s,
                    start as int,
                    start as int,
                    seq![],
                    seq![],
                    field@,
                ),
                quoted_scan(s, start as int, self.position as int, bytes@, usizes(literal_spaces@), field@)
                    == quoted_scan(s, start as int, start as int, seq![], seq![], field@),
                quoted_scan(s, start as int, start as int, seq![], seq![], field@) matches Ok(
                    (b, sp, end),
                ) ==> start + b.len() < end && spaces_wf(b, sp),
            decreases self.input@.len() - self.position,
        {
            let byte = self.input[self.position];
            if byte == 34 {
                assert(quoted_scan(s, start as int, self.position as int, bytes@, usizes(literal_spaces@), field@)
                    == Ok::<(Seq<u8>, Seq<int>, int), ParseErrorModel>(
                    (bytes@, usizes(literal_spaces@), self.position + 1),
                ));
                self.position = self.position + 1;
                return Ok(QuotedValue { bytes, literal_spaces });
            } else if byte == 92 {
                let escape_offset = self.position;
                self.position = self.position + 1;
                if self.position >= self.input.len() {
                    return Err(
                        ParseError::new(
                            escape_offset,
                            String::from_str("incomplete escape in ").concat(field),
                        ),
                    );
                }
                let escaped = self.input[self.position];
                if escaped == 34 || escaped == 92 {
                    bytes.push(escaped);
                    self.position = self.position + 1;
                } else if escaped == 120 {
                    let high = if self.input.len() - self.position > 1 {
                        hex_value(self.input[self.position + 1])
                    } else {
                        None
                    };
                    let low = if self.input.len() - self.position > 2 {
                        hex_value(self.input[self.position + 2])
                    } else {
                        None
                    };
                    match (high, low) {
                        (Some(high), Some(low)) => {
                            bytes.push(high * 16 + low);
                            self.position = self.position + 3;
                        },
                        _ => {
                            return Err(
                                ParseError::new(
                                    escape_offset,
                                    String::from_str("invalid hexadecimal escape in ").concat(field),
                                ),
                            );
                        },
                    }
                } else {
                    return Err(
                        ParseError::new(
                            escape_offset,
                            String::from_str("unknown escape in ").concat(field),
                        ),
                    );
                }
            } else if byte == 32 {
                let ghost old_spaces = literal_spaces@;
                literal_spaces.push(bytes.len());
                assert(usizes(literal_spaces@) =~= usizes(old_spaces).push(bytes@.len() as int));
                bytes.push(byte);
                self.position = self.position + 1;
            } else {
                bytes.push(byte);
                self.position = self.position + 1;
            }
        }
        Err(ParseError::new(start, String::from_str("unterminated ").concat(field)))
    }

    /// Reads one space and any further spaces.
    pub fn separator(&mut self) -> (r: Result<(), ParseError>)
        requires
            old(self).position <= old(self).input@.len(),
        ensures
            final(self).input == old(self).input,
            final(self).position <= final(self).input@.len(),
            unit_outcome(r, final(self).position as int) == spec_separator(
                old(self).input@,
                old(self).position as int,
            ),
            r is Err ==> final(self).position == old(self).position,
    {
        self.expect_byte(32, String::from_str("expected a space between fields"))?;
        let ghost after = self.position;
        while self.position < self.input.len() && self.input[self.position] == 32
            invariant
                after <= self.position <= self.input@.len(),
                self.input == old(self).input,
                skip_spaces(self.input@, after as int) == skip_spaces(
                    self.input@,
                    self.position as int,
                ),
            decreases self.input@.len() - self.position,
        {
            self.position = self.position + 1;
        }
        Ok(())
    }

    /// Accepts nothing but spaces up to the end of the line.
    pub fn finish(&mut self) -> (r: Result<(), ParseError>)
        requires
            old(self).position <= old(self).input@.len(),
        ensures
            final(self).input == old(self).input,
            final(self).position <= final(self).input@.len(),
            unit_outcome(r, final(self).position as int) == spec_finish(
                old(self).input@,
                old(self).position as int,
            ),
            final(self).position == skip_spaces(old(self).input@, old(self).position as int),
    {
        while self.position < self.input.len() && self.input[self.position] == 32
            invariant
                old(self).position <= self.position <= self.input@.len(),
                self.input == old(self).input,
                skip_spaces(self.input@, old(self).position as int) == skip_spaces(
                    self.input@,
                    self.position as int,
                ),
            decreases self.input@.len() - self.position,
        {
            self.position = self.position + 1;
        }
        if self.position == self.input.len() {
            Ok(())
        } else {
            Err(ParseError::new(self.position, String::from_str("unexpected trailing data")))
        }
    }

    /// Reads the byte `expected`, or fails with `message` where it is missing.
    pub fn expect_byte(&mut self, expected: u8, message: String) -> (r: Result<(), ParseError>)
        requires
            old(self).position <= old(self).input@.len(),
        ensures
            final(self).input == old(self).input,
            final(self).position <= final(self).input@.len(),
            unit_outcome(r, final(self).position as int) == spec_expect_byte(
                old(self).input@,
                old(self).position as int,
                expected,
                message@,
            ),
            r is Err ==> final(self).position == old(self).position,
    {
        if self.position < self.input.len() && self.input[self.position] == expected {
            self.position = self.position + 1;
            Ok(())
        } else {
            Err(ParseError::new(self.position, message))
        }
    }
}

/// A copy of a slice of bytes.
fn slice_to_vec_u8(s: &[u8]) -> (v: Vec<u8>)
    ensures
        v@ == s@,
{
    vstd::slice::slice_to_vec(s)
}

} // verus!
