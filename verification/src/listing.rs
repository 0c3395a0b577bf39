//! Which entries of a directory are read as logs, and in what order.

use vstd::prelude::*;

use vstd::multiset::Multiset;

use crate::target::{last_index_of, lemma_last_index_of};

verus! {

broadcast use vstd::seq_lib::group_to_multiset_ensures;

/// A file name whose extension, as `Path::extension` finds it, is exactly
/// `log`: what follows the last `.`, where that dot is not the name's first
/// byte.
pub open spec fn has_log_extension(name: Seq<u8>) -> bool {
    let d = last_index_of(name, 46, name.len() as int);
    d > 0 && name.subrange(d + 1, name.len() as int) == seq![108u8, 111u8, 103u8]
}

/// A name that ends in `.log` after at least one other byte: `access.log`,
/// `a.b.log` or `..log`, but neither `.log` nor `access.log.1`.
pub open spec fn ends_in_dot_log(name: Seq<u8>) -> bool {
    name.len() > 4 && name.subrange(name.len() - 4, name.len() as int) == seq![
        46u8,
        108u8,
        111u8,
        103u8,
    ]
}

/// A name has the extension `log` exactly when it ends in `.log` after at
/// least one other byte: the last dot then stands four bytes from the end,
/// and it is not the first byte.
pub proof fn law_log_extension_is_a_dot_log_ending(name: Seq<u8>)
    ensures
        has_log_extension(name) == ends_in_dot_log(name),
{
    let n = name.len() as int;
    let d = last_index_of(name, 46, n);
    lemma_last_index_of(name, 46, n);
    if has_log_extension(name) {
        let after = name.subrange(d + 1, n);
        assert(after.len() == 3);
        assert(name.subrange(n - 4, n) =~= seq![46u8, 108u8, 111u8, 103u8]) by {
            assert(name[n - 3] == after[0] && name[n - 2] == after[1] && name[n - 1] == after[2]);
        }
    }
    if ends_in_dot_log(name) {
        let tail = name.subrange(n - 4, n);
        assert(name[n - 4] == tail[0] && name[n - 3] == tail[1] && name[n - 2] == tail[2]
            && name[n - 1] == tail[3]);
        if d < n - 4 {
            assert(name[n - 4] != 46);
        }
        assert(d == n - 4);
        assert(name.subrange(d + 1, n) =~= seq![108u8, 111u8, 103u8]);
    }
}

/// Whether a directory entry is read as a log: a regular file whose name has
/// the extension `log` (case-sensitive).
pub fn is_log_file(name: &[u8], is_regular_file: bool) -> (r: bool)
    ensures
        r == (is_regular_file && has_log_extension(name@)),
        r == (is_regular_file && ends_in_dot_log(name@)),
{
    proof {
        law_log_extension_is_a_dot_log_ending(name@);
    }
    let mut dot: usize = name.len();
    while dot > 0 && name[dot - 1] != 46
        invariant
            0 <= dot <= name@.len(),
            last_index_of(name@, 46, name@.len() as int) == last_index_of(name@, 46, dot as int),
        decreases dot,
    {
        dot = dot - 1;
    }
    proof {
        lemma_last_index_of(name@, 46, dot as int);
    }
    let n = name.len();
    let extension_is_log = dot > 1 && n - dot == 3 && name[dot] == 108 && name[dot + 1] == 111
        && name[dot + 2] == 103;
    assert(extension_is_log == has_log_extension(name@)) by {
        assert(last_index_of(name@, 46, dot as int) == dot - 1);
        let after = name@.subrange(dot as int, n as int);
        if n - dot != 3 {
            assert(after.len() != 3);
        }
        if dot > 1 && n - dot == 3 {
            let after = name@.subrange(dot as int, n as int);
            if name[dot as int] == 108 && name[dot + 1] == 111 && name[dot + 2] == 103 {
                assert(after =~= seq![108u8, 111u8, 103u8]);
            } else {
                assert(after[0] == name@[dot as int] && after[1] == name@[dot + 1] && after[2]
                    == name@[dot + 2]);
            }
        }
    }
    is_regular_file && extension_is_log
}

/// Byte-wise lexicographic order: `a` sorts before or with `b`.
pub open spec fn bytes_le(a: Seq<u8>, b: Seq<u8>) -> bool
    decreases a.len(),
{
    if a.len() == 0 {
        true
    } else if b.len() == 0 {
        false
    } else if a[0] != b[0] {
        a[0] < b[0]
    } else {
        bytes_le(a.drop_first(), b.drop_first())
    }
}

/// `a` is a prefix of `b` (or equal to it).
pub open spec fn is_prefix_of(a: Seq<u8>, b: Seq<u8>) -> bool {
    a.len() <= b.len() && b.subrange(0, a.len() as int) == a
}

/// At the first index where `a` and `b` differ, `a` holds the smaller byte.
pub open spec fn differs_first_below(a: Seq<u8>, b: Seq<u8>) -> bool {
    exists|i: int|
        0 <= i < a.len() && i < b.len() && a.subrange(0, i) == b.subrange(0, i) && #[trigger] a[i]
            < b[i]
}

/// The byte-wise order is the lexicographic order of the bytes as numbers:
/// `a` sorts before or with `b` exactly when it is a prefix of `b`, or the
/// first byte where they differ is smaller in `a`.
pub proof fn law_bytes_order_is_lexicographic(a: Seq<u8>, b: Seq<u8>)
    ensures
        bytes_le(a, b) == (is_prefix_of(a, b) || differs_first_below(a, b)),
    decreases a.len(),
{
    if a.len() == 0 {
        assert(b.subrange(0, 0) =~= a);
    } else if b.len() == 0 {
    } else if a[0] != b[0] {
        if is_prefix_of(a, b) {
            assert(b.subrange(0, a.len() as int)[0] == b[0]);
        }
        if differs_first_below(a, b) {
            let i = choose|i: int|
                0 <= i < a.len() && i < b.len() && a.subrange(0, i) == b.subrange(0, i)
                    && #[trigger] a[i] < b[i];
            if i > 0 {
                assert(a.subrange(0, i)[0] == b.subrange(0, i)[0]);
            }
        }
        if a[0] < b[0] {
            assert(a.subrange(0, 0) =~= b.subrange(0, 0));
            assert(a[0] < b[0]);
        }
    } else {
        let a1 = a.drop_first();
        let b1 = b.drop_first();
        law_bytes_order_is_lexicographic(a1, b1);
        if is_prefix_of(a, b) {
            assert(b1.subrange(0, a1.len() as int) =~= a1) by {
                assert forall|k: int| 0 <= k < a1.len() implies #[trigger] b1.subrange(
                    0,
                    a1.len() as int,
                )[k] == a1[k] by {
                    assert(b.subrange(0, a.len() as int)[k + 1] == a[k + 1]);
                }
            }
        }
        if is_prefix_of(a1, b1) {
            assert(b.subrange(0, a.len() as int) =~= a) by {
                assert forall|k: int| 0 <= k < a.len() implies #[trigger] b.subrange(
                    0,
                    a.len() as int,
                )[k] == a[k] by {
                    if k > 0 {
                        assert(b1.subrange(0, a1.len() as int)[k - 1] == a1[k - 1]);
                    }
                }
            }
        }
        if differs_first_below(a, b) {
            let i = choose|i: int|
                0 <= i < a.len() && i < b.len() && a.subrange(0, i) == b.subrange(0, i)
                    && #[trigger] a[i] < b[i];
            assert(i > 0);
            assert(a1.subrange(0, i - 1) =~= b1.subrange(0, i - 1)) by {
                assert forall|k: int| 0 <= k < i - 1 implies #[trigger] a1.subrange(0, i - 1)[k]
                    == b1.subrange(0, i - 1)[k] by {
                    assert(a.subrange(0, i)[k + 1] == b.subrange(0, i)[k + 1]);
                }
            }
            assert(a1[i - 1] < b1[i - 1]);
        }
        if differs_first_below(a1, b1) {
            let i = choose|i: int|
                0 <= i < a1.len() && i < b1.len() && a1.subrange(0, i) == b1.subrange(0, i)
                    && #[trigger] a1[i] < b1[i];
            assert(a.subrange(0, i + 1) =~= b.subrange(0, i + 1)) by {
                assert forall|k: int| 0 <= k < i + 1 implies #[trigger] a.subrange(0, i + 1)[k]
                    == b.subrange(0, i + 1)[k] by {
                    if k > 0 {
                        assert(a1.subrange(0, i)[k - 1] == b1.subrange(0, i)[k - 1]);
                    }
                }
            }
            assert(a[i + 1] < b[i + 1]);
        }
    }
}

/// Of two byte strings, one sorts before or with the other.
pub proof fn lemma_bytes_le_total(a: Seq<u8>, b: Seq<u8>)
    ensures
        bytes_le(a, b) || bytes_le(b, a),
    decreases a.len(),
{
    if a.len() > 0 && b.len() > 0 && a[0] == b[0] {
        lemma_bytes_le_total(a.drop_first(), b.drop_first());
    }
}

/// The byte-wise order is transitive.
pub proof fn lemma_bytes_le_transitive(a: Seq<u8>, b: Seq<u8>, c: Seq<u8>)
    requires
        bytes_le(a, b),
        bytes_le(b, c),
    ensures
        bytes_le(a, c),
    decreases a.len(),
{
    if a.len() > 0 && b.len() > 0 && c.len() > 0 && a[0] == b[0] && b[0] == c[0] {
        lemma_bytes_le_transitive(a.drop_first(), b.drop_first(), c.drop_first());
    }
}

/// The names rise in byte-wise order.
pub open spec fn sorted_by_bytes(names: Seq<Vec<u8>>) -> bool {
    forall|i: int, j: int|
        0 <= i < j < names.len() ==> #[trigger] bytes_le(names[i]@, names[j]@)
}

/// Whether `a` sorts before or with `b`, byte by byte.
pub fn bytes_le_exec(a: &[u8], b: &[u8]) -> (r: bool)
    ensures
        r == bytes_le(a@, b@),
        r == (is_prefix_of(a@, b@) || differs_first_below(a@, b@)),
{
    proof {
        law_bytes_order_is_lexicographic(a@, b@);
    }
    let mut i: usize = 0;
    assert(a@.skip(0) =~= a@ && b@.skip(0) =~= b@);
    while i < a.len() && i < b.len() && a[i] == b[i]
        invariant
            0 <= i <= a@.len(),
            i <= b@.len(),
            bytes_le(a@, b@) == bytes_le(a@.skip(i as int), b@.skip(i as int)),
        decreases a@.len() - i,
    {
        assert(a@.skip(i as int).drop_first() =~= a@.skip(i + 1));
        assert(b@.skip(i as int).drop_first() =~= b@.skip(i + 1));
        i = i + 1;
    }
    if i == a.len() {
        true
    } else if i == b.len() {
        false
    } else {
        a[i] < b[i]
    }
}

/// The file names in byte-wise ascending order, as `OsStr`'s order sorts
/// them: the same names, each as often as given.
pub fn order_by_file_name(names: Vec<Vec<u8>>) -> (r: Vec<Vec<u8>>)
    ensures
        r@.to_multiset() == names@.to_multiset(),
        sorted_by_bytes(r@),
        forall|i: int, j: int|
            0 <= i < j < r@.len() ==> is_prefix_of(#[trigger] r@[i]@, #[trigger] r@[j]@)
                || differs_first_below(r@[i]@, r@[j]@),
{
    let ghost given = names@;
    let mut rest = names;
    let mut sorted: Vec<Vec<u8>> = Vec::new();
    assert(sorted@.to_multiset().add(rest@.to_multiset()) =~= given.to_multiset());
    while rest.len() > 0
        invariant
            sorted@.to_multiset().add(rest@.to_multiset()) == given.to_multiset(),
            sorted_by_bytes(sorted@),
        decreases rest@.len(),
    {
        let ghost before = rest@;
        let x = match rest.pop() {
            Some(x) => x,
            None => {
                return sorted;
            },
        };
        proof {
            assert(before =~= rest@.push(x));
        }
        let mut i: usize = 0;
        while i < sorted.len() && bytes_le_exec(sorted[i].as_slice(), x.as_slice())
            invariant
                0 <= i <= sorted@.len(),
                forall|k: int| 0 <= k < i ==> #[trigger] bytes_le(sorted@[k]@, x@),
            decreases sorted@.len() - i,
        {
            i = i + 1;
        }
        let ghost old_sorted = sorted@;
        proof {
            assert forall|k: int| i <= k < old_sorted.len() implies #[trigger] bytes_le(
                x@,
                old_sorted[k]@,
            ) by {
                lemma_bytes_le_total(old_sorted[i as int]@, x@);
                if k > i {
                    assert(bytes_le(old_sorted[i as int]@, old_sorted[k]@));
                    lemma_bytes_le_transitive(x@, old_sorted[i as int]@, old_sorted[k]@);
                }
            }
        }
        sorted.insert(i, x);
        proof {
            let s = sorted@;
            assert forall|a: int, b: int| 0 <= a < b < s.len() implies #[trigger] bytes_le(
                s[a]@,
                s[b]@,
            ) by {
                if b < i {
                } else if b == i {
                } else if a < i {
                    assert(bytes_le(old_sorted[a]@, x@));
                    assert(bytes_le(x@, old_sorted[b - 1]@));
                    lemma_bytes_le_transitive(old_sorted[a]@, x@, old_sorted[b - 1]@);
                } else if a == i {
                } else {
                    assert(bytes_le(old_sorted[a - 1]@, old_sorted[b - 1]@));
                }
            }
            assert(sorted@.to_multiset().add(rest@.to_multiset()) =~= given.to_multiset());
        }
    }
    assert(rest@.to_multiset() =~= Multiset::empty());
    assert(sorted@.to_multiset().add(rest@.to_multiset()) =~= sorted@.to_multiset());
    proof {
        assert forall|i: int, j: int| 0 <= i < j < sorted@.len() implies is_prefix_of(
            #[trigger] sorted@[i]@,
            #[trigger] sorted@[j]@,
        ) || differs_first_below(sorted@[i]@, sorted@[j]@) by {
            assert(bytes_le(sorted@[i]@, sorted@[j]@));
            law_bytes_order_is_lexicographic(sorted@[i]@, sorted@[j]@);
        }
    }
    sorted
}

} // verus!
