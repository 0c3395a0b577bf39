//! Splitting a request target into its path, the path's extension, and the
//! raw query string.

use vstd::prelude::*;
use vstd::string::StringSliceAdditionalSpecFns;
use vstd::utf8::*;

use crate::lexer::{find_byte, lemma_find_byte};
use crate::text::{decode_text, lemma_valid_split_at_ascii};

verus! {

broadcast use vstd::utf8::group_utf8_lib;

/// The last index below `end` that holds `b`, or -1.
pub open spec fn last_index_of(s: Seq<u8>, b: u8, end: int) -> int
    decreases end,
{
    if end <= 0 {
        -1
    } else if s[end - 1] == b {
        end - 1
    } else {
        last_index_of(s, b, end - 1)
    }
}

pub proof fn lemma_last_index_of(s: Seq<u8>, b: u8, end: int)
    requires
        0 <= end <= s.len(),
    ensures
        -1 <= last_index_of(s, b, end) < end,
        last_index_of(s, b, end) >= 0 ==> s[last_index_of(s, b, end)] == b,
        forall|k: int| last_index_of(s, b, end) < k < end ==> s[k] != b,
    decreases end,
{
    if end > 0 && s[end - 1] != b {
        lemma_last_index_of(s, b, end - 1);
    }
}

/// The index of the first `?` of a target, or its length when it has none.
pub open spec fn query_mark(t: Seq<u8>) -> int {
    find_byte(t, 0, 63)
}

/// The bytes of a target before its first `?`.
pub open spec fn path_bytes(t: Seq<u8>) -> Seq<u8> {
    t.subrange(0, query_mark(t))
}

/// The bytes of a target after its first `?`, when it has one.
pub open spec fn query_bytes(t: Seq<u8>) -> Option<Seq<u8>> {
    if query_mark(t) < t.len() {
        Some(t.subrange(query_mark(t) + 1, t.len() as int))
    } else {
        None
    }
}

/// The last `/`-separated segment of a target's path.
pub open spec fn segment_bytes(t: Seq<u8>) -> Seq<u8> {
    let p = path_bytes(t);
    p.subrange(last_index_of(p, 47, p.len() as int) + 1, p.len() as int)
}

/// What follows the last `.` of the path's last segment, when both that text
/// and the text before the dot are non-empty.
pub open spec fn extension_bytes(t: Seq<u8>) -> Option<Seq<u8>> {
    let g = segment_bytes(t);
    let d = last_index_of(g, 46, g.len() as int);
    if d > 0 && d + 1 < g.len() {
        Some(g.subrange(d + 1, g.len() as int))
    } else {
        None
    }
}

/// Decodes the bytes inside an `Option`.
pub open spec fn decode_opt(b: Option<Seq<u8>>) -> Option<Seq<char>> {
    match b {
        Some(v) => Some(decode_utf8(v)),
        None => None,
    }
}

/// The text inside an `Option<String>`.
pub open spec fn opt_view(o: Option<String>) -> Option<Seq<char>> {
    match o {
        Some(s) => Some(s@),
        None => None,
    }
}

/// The path, extension and query string of a request target given by its
/// UTF-8 bytes `t`.
pub open spec fn spec_split_target(t: Seq<u8>) -> (Seq<char>, Option<Seq<char>>, Option<Seq<char>>) {
    (decode_utf8(path_bytes(t)), decode_opt(extension_bytes(t)), decode_opt(query_bytes(t)))
}

/// Splits a request target at its first `?` into the path and the raw query
/// string, and takes as the extension what follows the last `.` of the path's
/// last segment, when the text on both sides of that dot is non-empty.
pub fn split_request_target(target: &str) -> (r: (String, Option<String>, Option<String>))
    ensures
        (r.0@, opt_view(r.1), opt_view(r.2)) == spec_split_target(target.spec_bytes()),
{
    let b = target.as_bytes();
    let ghost t = b@;
    proof {
        encode_utf8_valid_utf8(target@);
        lemma_find_byte(t, 0, 63);
    }
    let mut q: usize = 0;
    while q < b.len() && b[q] != 63
        invariant
            0 <= q <= b@.len(),
            t == b@,
            find_byte(t, 0, 63) == find_byte(t, q as int, 63),
        decreases b@.len() - q,
    {
        q = q + 1;
    }
    assert(find_byte(t, q as int, 63) == q as int);
    let path_slice = vstd::slice::slice_subrange(b, 0, q);
    let query_string = if q < b.len() {
        proof { lemma_valid_split_at_ascii(t, q as int); }
        Some(decode_text(vstd::slice::slice_subrange(b, q + 1, b.len())))
    } else {
        None
    };
    proof {
        if q < b.len() {
            lemma_valid_split_at_ascii(t, q as int);
        } else {
            assert(t.subrange(0, q as int) =~= t);
        }
    }
    let ghost p = path_slice@;
    let path = decode_text(path_slice);
    let mut slash: usize = q;
    while slash > 0 && path_slice[slash - 1] != 47
        invariant
            0 <= slash <= q,
            q == p.len(),
            p == path_slice@,
            last_index_of(p, 47, q as int) == last_index_of(p, 47, slash as int),
        decreases slash,
    {
        slash = slash - 1;
    }
    let segment = vstd::slice::slice_subrange(path_slice, slash, q);
    let ghost g = segment@;
    proof {
        assert(last_index_of(p, 47, slash as int) == slash - 1);
        if slash > 0 {
            lemma_valid_split_at_ascii(p, slash - 1);
        } else {
            assert(p.subrange(0, q as int) =~= p);
        }
        assert(g =~= segment_bytes(t));
    }
    let mut dot: usize = segment.len();
    while dot > 0 && segment[dot - 1] != 46
        invariant
            0 <= dot <= g.len(),
            g == segment@,
            last_index_of(g, 46, g.len() as int) == last_index_of(g, 46, dot as int),
        decreases dot,
    {
        dot = dot - 1;
    }
    let extension = if dot > 1 && dot < segment.len() {
        proof {
            assert(last_index_of(g, 46, dot as int) == dot - 1);
            lemma_valid_split_at_ascii(g, dot - 1);
        }
        Some(decode_text(vstd::slice::slice_subrange(segment, dot, segment.len())))
    } else {
        None
    };
    proof {
        assert(last_index_of(g, 46, dot as int) == dot - 1);
    }
    (path, extension, query_string)
}

} // verus!
