//! Decimal digits: rendering unsigned integers as text and reading them back.

use vstd::prelude::*;

verus! {

/// The character that stands for the digit `d` (`d < 10`).
pub open spec fn digit_char(d: nat) -> char {
    (48 + d) as char
}

/// The decimal notation of `n`, without sign or leading zeros.
pub open spec fn decimal_chars(n: nat) -> Seq<char>
    decreases n,
{
    if n < 10 {
        seq![digit_char(n)]
    } else {
        decimal_chars(n / 10).push(digit_char(n % 10))
    }
}

/// True for the bytes `'0'..='9'`.
pub open spec fn is_digit_byte(b: u8) -> bool {
    48 <= b <= 57
}

/// Every byte of `s` is an ASCII digit.
pub open spec fn all_digit_bytes(s: Seq<u8>) -> bool {
    forall|i: int| 0 <= i < s.len() ==> #[trigger] is_digit_byte(s[i])
}

/// The number that the ASCII digits `s` spell in base ten.
pub open spec fn digits_value(s: Seq<u8>) -> nat
    decreases s.len(),
{
    if s.len() == 0 {
        0
    } else {
        digits_value(s.drop_last()) * 10 + (s.last() - 48) as nat
    }
}

fn digit_text(d: u8) -> (s: &'static str)
    requires
        d < 10,
    ensures
        s@ == seq![digit_char(d as nat)],
{
    match d {
        0 => {
            proof { reveal_strlit("0"); }
            "0"
        },
        1 => {
            proof { reveal_strlit("1"); }
            "1"
        },
        2 => {
            proof { reveal_strlit("2"); }
            "2"
        },
        3 => {
            proof { reveal_strlit("3"); }
            "3"
        },
        4 => {
            proof { reveal_strlit("4"); }
            "4"
        },
        5 => {
            proof { reveal_strlit("5"); }
            "5"
        },
        6 => {
            proof { reveal_strlit("6"); }
            "6"
        },
        7 => {
            proof { reveal_strlit("7"); }
            "7"
        },
        8 => {
            proof { reveal_strlit("8"); }
            "8"
        },
        _ => {
            proof { reveal_strlit("9"); }
            "9"
        },
    }
}

/// Renders `n` in decimal, as `n.to_string()` does.
pub fn decimal_string(n: u128) -> (s: String)
    ensures
        s@ == decimal_chars(n as nat),
    decreases n,
{
    if n < 10 {
        String::from_str(digit_text(n as u8))
    } else {
        let mut s = decimal_string(n / 10);
        s.append(digit_text((n % 10) as u8));
        s
    }
}

/// Reads the ASCII digits `s` as a `u64`; `None` when the number does not fit.
pub fn parse_digits_u64(s: &[u8]) -> (r: Option<u64>)
    requires
        all_digit_bytes(s@),
    ensures
        r matches Some(v) ==> v as nat == digits_value(s@),
        r is None <==> digits_value(s@) > u64::MAX,
{
    let mut acc: u64 = 0;
    let mut i: usize = 0;
    while i < s.len()
        invariant
            0 <= i <= s.len(),
            all_digit_bytes(s@),
            acc as nat == digits_value(s@.subrange(0, i as int)),
        decreases s.len() - i,
    {
        assert(is_digit_byte(s@[i as int]));
        let d = s[i] - 48;
        assert(s@.subrange(0, i + 1).drop_last() =~= s@.subrange(0, i as int));
        match acc.checked_mul(10) {
            Some(m) => match m.checked_add(d as u64) {
                Some(v) => {
                    acc = v;
                },
                None => {
                    proof { lemma_digits_value_prefix(s@, i + 1); }
                    return None;
                },
            },
            None => {
                proof { lemma_digits_value_prefix(s@, i + 1); }
                return None;
            },
        }
        i = i + 1;
    }
    assert(s@.subrange(0, i as int) =~= s@);
    Some(acc)
}

/// A prefix of digits never spells a larger number than the whole.
pub proof fn lemma_digits_value_prefix(s: Seq<u8>, k: int)
    requires
        0 <= k <= s.len(),
        all_digit_bytes(s),
    ensures
        digits_value(s.subrange(0, k)) <= digits_value(s),
    decreases s.len() - k,
{
    if k < s.len() {
        lemma_digits_value_prefix(s, k + 1);
        let t = s.subrange(0, k + 1);
        assert(t.drop_last() =~= s.subrange(0, k));
        assert(is_digit_byte(s[k]));
    } else {
        assert(s.subrange(0, k) =~= s);
    }
}

/// Reads exactly three ASCII digits as a `u16`.
pub fn parse_three_digits(s: &[u8]) -> (v: u16)
    requires
        s@.len() == 3,
        all_digit_bytes(s@),
    ensures
        v as nat == digits_value(s@),
        v < 1000,
{
    assert(is_digit_byte(s@[0]) && is_digit_byte(s@[1]) && is_digit_byte(s@[2]));
    let a = (s[0] - 48) as u16;
    let b = (s[1] - 48) as u16;
    let c = (s[2] - 48) as u16;
    proof {
        reveal_with_fuel(digits_value, 4);
        assert(s@.drop_last().drop_last().drop_last() =~= Seq::<u8>::empty());
        assert(s@.drop_last().drop_last() =~= seq![s@[0]]);
        assert(s@.drop_last() =~= seq![s@[0], s@[1]]);
    }
    a * 100 + b * 10 + c
}

/// The ASCII bytes of a text made of characters below 128.
pub open spec fn ascii_bytes(chars: Seq<char>) -> Seq<u8> {
    chars.map_values(|c: char| c as u8)
}

/// A number written in decimal reads back as the same number: the digits
/// that `decimal_string` writes are what `parse_digits_u64` and
/// `parse_three_digits` read.
pub proof fn law_decimal_reads_back(n: nat)
    ensures
        all_digit_bytes(ascii_bytes(decimal_chars(n))),
        digits_value(ascii_bytes(decimal_chars(n))) == n,
        decimal_chars(n).len() > 0,
    decreases n,
{
    let bs = ascii_bytes(decimal_chars(n));
    if n < 10 {
        assert(bs =~= seq![(48 + n) as u8]);
        assert(bs.drop_last() =~= Seq::<u8>::empty());
        assert(bs.last() == 48 + n);
        assert(digits_value(bs) == digits_value(bs.drop_last()) * 10 + (bs.last() - 48) as nat);
    } else {
        law_decimal_reads_back(n / 10);
        let prefix = ascii_bytes(decimal_chars(n / 10));
        assert(bs =~= prefix.push((48 + n % 10) as u8));
        assert(bs.drop_last() =~= prefix);
        assert(bs.last() == 48 + n % 10);
        assert(digits_value(bs) == digits_value(prefix) * 10 + (bs.last() - 48) as nat);
        assert((n / 10) * 10 + n % 10 == n) by (nonlinear_arith);
    }
}

} // verus!
