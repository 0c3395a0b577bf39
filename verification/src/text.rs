//! UTF-8 validation of byte strings and their conversion to `String`.

use vstd::prelude::*;
use vstd::string::StringSliceAdditionalSpecFns;
use vstd::utf8::*;

verus! {

broadcast use vstd::utf8::group_utf8_lib;

/// The index at which validation of `b`, scalar by scalar from index `i`,
/// stops: the end of `b`, or the first index at which no well-formed UTF-8
/// scalar begins.
pub open spec fn scan_valid_from(b: Seq<u8>, i: int) -> int
    decreases b.len() - i,
{
    if 0 <= i < b.len() && valid_first_scalar(b.subrange(i, b.len() as int)) {
        scan_valid_from(b, i + length_of_first_scalar(b.subrange(i, b.len() as int)))
    } else {
        i
    }
}

/// How many leading bytes of `b` are valid UTF-8, as `Utf8Error::valid_up_to`
/// reports it.
pub open spec fn valid_up_to(b: Seq<u8>) -> int {
    scan_valid_from(b, 0)
}

/// Validation from index `i` reaches the end exactly when the rest of `b` is
/// valid UTF-8, and it never runs past the end.
pub proof fn lemma_scan_valid_from(b: Seq<u8>, i: int)
    requires
        0 <= i <= b.len(),
    ensures
        i <= scan_valid_from(b, i) <= b.len(),
        valid_utf8(b.subrange(i, b.len() as int)) <==> scan_valid_from(b, i) == b.len(),
    decreases b.len() - i,
{
    let rest = b.subrange(i, b.len() as int);
    if i < b.len() && valid_first_scalar(rest) {
        let k = length_of_first_scalar(rest);
        assert(pop_first_scalar(rest) =~= b.subrange(i + k, b.len() as int));
        lemma_scan_valid_from(b, i + k);
    } else if i == b.len() {
        assert(rest.len() == 0);
    }
}

/// `valid_up_to` lies within `b`, and equals its length exactly when `b` is
/// valid UTF-8.
pub proof fn lemma_valid_up_to(b: Seq<u8>)
    ensures
        0 <= valid_up_to(b) <= b.len(),
        valid_utf8(b) <==> valid_up_to(b) == b.len(),
{
    lemma_scan_valid_from(b, 0);
    assert(b.subrange(0, b.len() as int) =~= b);
}

/// The length of the UTF-8 scalar that begins `b[i..]`, when one does.
fn first_scalar_len(b: &[u8], i: usize) -> (r: Option<usize>)
    requires
        i < b@.len(),
    ensures
        r is Some <==> valid_first_scalar(b@.subrange(i as int, b@.len() as int)),
        r matches Some(k) ==> k == length_of_first_scalar(b@.subrange(i as int, b@.len() as int)),
{
    let ghost rest = b@.subrange(i as int, b@.len() as int);
    let n = b.len() - i;
    let b1 = b[i];
    if b1 <= 0x7f {
        return Some(1);
    }
    if 0xc0 <= b1 && b1 <= 0xdf {
        if n < 2 {
            return None;
        }
        let b2 = b[i + 1];
        if !(0x80 <= b2 && b2 <= 0xbf) {
            return None;
        }
        assert(rest[1] == b2);
        let cp: u32 = (((b1 & 0x1F) as u32) << 6) | ((b2 & 0x3f) as u32);
        assert((((b1 & 0x1F) as u32) << 6) | ((b2 & 0x3f) as u32) <= 0x7ff) by (bit_vector);
        if 0x80 <= cp {
            return Some(2);
        } else {
            return None;
        }
    }
    if 0xe0 <= b1 && b1 <= 0xef {
        if n < 3 {
            return None;
        }
        let b2 = b[i + 1];
        let b3 = b[i + 2];
        if !(0x80 <= b2 && b2 <= 0xbf && 0x80 <= b3 && b3 <= 0xbf) {
            return None;
        }
        assert(rest[1] == b2 && rest[2] == b3);
        let cp: u32 = (((b1 & 0x0F) as u32) << 12) | (((b2 & 0x3f) as u32) << 6) | ((b3
            & 0x3f) as u32);
        if 0x800 <= cp && !(0xD800 <= cp && cp <= 0xDFFF) {
            return Some(3);
        } else {
            return None;
        }
    }
    if 0xf0 <= b1 && b1 <= 0xf7 {
        if n < 4 {
            return None;
        }
        let b2 = b[i + 1];
        let b3 = b[i + 2];
        let b4 = b[i + 3];
        if !(0x80 <= b2 && b2 <= 0xbf && 0x80 <= b3 && b3 <= 0xbf && 0x80 <= b4 && b4 <= 0xbf) {
            return None;
        }
        assert(rest[1] == b2 && rest[2] == b3 && rest[3] == b4);
        let cp: u32 = (((b1 & 0x07) as u32) << 18) | (((b2 & 0x3f) as u32) << 12) | (((b3
            & 0x3f) as u32) << 6) | ((b4 & 0x3f) as u32);
        if 0x10000 <= cp && cp <= 0x10ffff && !(0xD800 <= cp && cp <= 0xDFFF) {
            return Some(4);
        } else {
            return None;
        }
    }
    None
}

/// How many leading bytes of `b` form valid UTF-8 (all of them when `b` is
/// valid), found by validating one scalar at a time.
pub fn utf8_valid_up_to(b: &[u8]) -> (r: usize)
    ensures
        r == valid_up_to(b@),
        r <= b@.len(),
        valid_utf8(b@) <==> r == b@.len(),
{
    proof { lemma_valid_up_to(b@); }
    let mut i: usize = 0;
    while i < b.len()
        invariant
            0 <= i <= b@.len(),
            scan_valid_from(b@, i as int) == scan_valid_from(b@, 0),
        decreases b@.len() - i,
    {
        match first_scalar_len(b, i) {
            Some(k) => {
                i = i + k;
            },
            None => {
                assert(scan_valid_from(b@, i as int) == i as int);
                proof { lemma_valid_up_to(b@); }
                return i;
            },
        }
    }
    i
}

/// `std::str::from_utf8`: it returns the text that `bytes` encode when they
/// are valid UTF-8 (the text's own bytes are then `bytes`), and an error
/// otherwise. The error's content is dropped here.
#[verifier::external_body]
fn str_from_utf8(bytes: &[u8]) -> (r: Option<&str>)
    ensures
        r is Some <==> valid_utf8(bytes@),
        r matches Some(s) ==> s.spec_bytes() == bytes@,
{
    std::str::from_utf8(bytes).ok()
}

/// The text that the valid UTF-8 bytes `bytes` encode.
pub fn decode_text(bytes: &[u8]) -> (s: String)
    requires
        valid_utf8(bytes@),
    ensures
        s@ == decode_utf8(bytes@),
{
    match str_from_utf8(bytes) {
        Some(t) => {
            proof {
                encode_utf8_decode_utf8(t@);
            }
            t.to_owned()
        },
        None => String::new(),
    }
}

/// Splitting valid UTF-8 around an ASCII byte leaves valid UTF-8 on both sides.
pub proof fn lemma_valid_split_at_ascii(b: Seq<u8>, i: int)
    requires
        valid_utf8(b),
        0 <= i < b.len(),
        b[i] < 0x80,
    ensures
        valid_utf8(b.subrange(0, i)),
        valid_utf8(b.subrange(i + 1, b.len() as int)),
        decode_utf8(b) == decode_utf8(b.subrange(0, i)) + seq![b[i] as char] + decode_utf8(
            b.subrange(i + 1, b.len() as int),
        ),
{
    is_char_boundary_iff_is_leading_byte(b, i);
    valid_utf8_split(b, i);
    decode_utf8_split(b, i);
    let rest = b.subrange(i, b.len() as int);
    assert(rest[0] == b[i]);
    let c = b[i];
    assert(rest[0] == c);
    assert(pop_first_scalar(rest) =~= b.subrange(i + 1, b.len() as int));
    assert(c < 0x80 ==> (c & 0x7f) == c) by (bit_vector);
    assert(decode_first_scalar(rest) == c as u32);
    assert(decode_utf8(rest) == seq![c as char] + decode_utf8(pop_first_scalar(rest)));
}

/// Valid UTF-8 stays valid when cut at an ASCII byte on each side.
pub proof fn lemma_valid_between_ascii(b: Seq<u8>, i: int, j: int)
    requires
        valid_utf8(b),
        0 <= i < j < b.len(),
        b[i] < 0x80,
        b[j] < 0x80,
    ensures
        valid_utf8(b.subrange(i + 1, j)),
{
    lemma_valid_split_at_ascii(b, i);
    let rest = b.subrange(i + 1, b.len() as int);
    lemma_valid_split_at_ascii(rest, j - i - 1);
    assert(rest.subrange(0, j - i - 1) =~= b.subrange(i + 1, j));
}

/// Validation from a valid prefix ends at a valid prefix.
proof fn lemma_scan_keeps_valid_prefix(b: Seq<u8>, i: int)
    requires
        partial_valid_utf8(b, i),
    ensures
        partial_valid_utf8(b, scan_valid_from(b, i)),
    decreases b.len() - i,
{
    if i < b.len() && valid_first_scalar(b.subrange(i, b.len() as int)) {
        partial_valid_utf8_extend(b, i);
        lemma_scan_keeps_valid_prefix(b, i + length_of_first_scalar(b.subrange(i, b.len() as int)));
    }
}

/// A well-formed scalar at the start of a sequence stays well formed when
/// more bytes follow it.
proof fn lemma_first_scalar_extends(x: Seq<u8>, y: Seq<u8>)
    requires
        x.len() <= y.len(),
        forall|i: int| 0 <= i < x.len() ==> x[i] == y[i],
        valid_first_scalar(x),
    ensures
        valid_first_scalar(y),
{
    assert(x[0] == y[0]);
    if x.len() > 1 {
        assert(x[1] == y[1]);
    }
    if x.len() > 2 {
        assert(x[2] == y[2]);
    }
    if x.len() > 3 {
        assert(x[3] == y[3]);
    }
}

/// `valid_up_to` is what `Utf8Error::valid_up_to` documents: the largest
/// length of a prefix of `b` that is valid UTF-8.
pub proof fn law_valid_up_to_is_longest_valid_prefix(b: Seq<u8>)
    ensures
        valid_utf8(b.subrange(0, valid_up_to(b))),
        forall|j: int| valid_up_to(b) < j <= b.len() ==> !valid_utf8(#[trigger] b.subrange(0, j)),
{
    let k = valid_up_to(b);
    lemma_valid_up_to(b);
    assert(b.subrange(0, 0) =~= Seq::<u8>::empty());
    lemma_scan_keeps_valid_prefix(b, 0);
    assert forall|j: int| k < j <= b.len() implies !valid_utf8(#[trigger] b.subrange(0, j)) by {
        let pre = b.subrange(0, j);
        let rest = b.subrange(k, b.len() as int);
        let part = pre.subrange(k, j);
        assert(scan_valid_from(b, k) == k) by {
            lemma_scan_fixed_point(b, 0);
        }
        if valid_first_scalar(rest) {
            lemma_scan_valid_from(b, k + length_of_first_scalar(rest));
        }
        assert(!valid_first_scalar(rest));
        if valid_utf8(part) {
            assert(part.len() > 0);
            assert forall|i: int| 0 <= i < part.len() implies part[i] == rest[i] by {
                assert(part[i] == b[k + i]);
            }
            lemma_first_scalar_extends(part, rest);
        }
        assert(pre.subrange(0, k) =~= b.subrange(0, k));
        partial_valid_partial_invalid_utf8(pre, k);
    }
}

/// Where validation stops, it stops for good.
proof fn lemma_scan_fixed_point(b: Seq<u8>, i: int)
    requires
        0 <= i <= b.len(),
    ensures
        scan_valid_from(b, scan_valid_from(b, i)) == scan_valid_from(b, i),
    decreases b.len() - i,
{
    if i < b.len() && valid_first_scalar(b.subrange(i, b.len() as int)) {
        lemma_scan_fixed_point(b, i + length_of_first_scalar(b.subrange(i, b.len() as int)));
    }
}

} // verus!
