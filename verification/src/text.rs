//! Decimal text helpers: the item timestamps of the tracked records travel as
//! string-encoded unsigned integers, so parsing and printing them exactly is
//! part of the reconciliation rules.

use vstd::prelude::*;

verus! {

/// A decimal digit character.
pub open spec fn is_digit_char(c: char) -> bool {
    '0' <= c && c <= '9'
}

/// The numeric value of one digit character.
pub open spec fn digit_val(c: char) -> int {
    c as int - '0' as int
}

/// Every character of `s` is a decimal digit.
pub open spec fn all_digits(s: Seq<char>) -> bool {
    forall|i: int| 0 <= i < s.len() ==> is_digit_char(s[i])
}

/// The integer value of a digit string, most significant digit first.
pub open spec fn digits_val(s: Seq<char>) -> int
    decreases s.len(),
{
    if s.len() == 0 {
        0
    } else {
        digits_val(s.drop_last()) * 10 + digit_val(s.last())
    }
}

/// The digit part of a decimal string: everything after an optional
/// leading `+`.
pub open spec fn spec_digits_of(s: Seq<char>) -> Seq<char> {
    if s.len() > 0 && s[0] == '+' {
        s.subrange(1, s.len() as int)
    } else {
        s
    }
}

/// What `parse_u64` returns: an optional leading `+`, then at least one
/// digit, and a value that fits in a `u64`; anything else is rejected.
pub open spec fn spec_parse_u64(s: Seq<char>) -> Option<u64> {
    let digits = spec_digits_of(s);
    if digits.len() > 0 && all_digits(digits) && digits_val(digits) <= u64::MAX {
        Some(digits_val(digits) as u64)
    } else {
        None
    }
}

/// A digit string never has a negative value.
pub proof fn lemma_digits_val_nonneg(s: Seq<char>)
    requires
        all_digits(s),
    ensures
        digits_val(s) >= 0,
    decreases s.len(),
{
    if s.len() > 0 {
        lemma_digits_val_nonneg(s.drop_last());
    }
}

/// Extending a digit string on the right multiplies its value by ten and
/// adds the new digit.
pub proof fn lemma_digits_val_push(s: Seq<char>, c: char)
    ensures
        digits_val(s.push(c)) == digits_val(s) * 10 + digit_val(c),
{
    assert(s.push(c).drop_last() =~= s);
    assert(s.push(c).last() == c);
}

/// The value of a digit string never goes down as the string grows.
pub proof fn lemma_digits_val_prefix_le(s: Seq<char>, n: int)
    requires
        all_digits(s),
        0 <= n <= s.len(),
    ensures
        digits_val(s.subrange(0, n)) <= digits_val(s),
    decreases s.len() - n,
{
    if n < s.len() {
        let t = s.subrange(0, n + 1);
        assert(t.drop_last() =~= s.subrange(0, n));
        lemma_digits_val_nonneg(s.subrange(0, n));
        assert(forall|i: int| 0 <= i < t.len() ==> is_digit_char(#[trigger] t[i]));
        assert(digits_val(t) == digits_val(s.subrange(0, n)) * 10 + digit_val(t.last()));
        lemma_digits_val_prefix_le(s, n + 1);
    } else {
        assert(s.subrange(0, n) =~= s);
    }
}

/// Reads an unsigned decimal integer exactly as the standard library's
/// `u64` parser does: optional `+`, one or more digits, no overflow.
pub fn parse_u64(s: &str) -> (r: Option<u64>)
    ensures
        r == spec_parse_u64(s@),
{
    let len = s.unicode_len();
    let start: usize = if len > 0 && s.get_char(0) == '+' {
        1
    } else {
        0
    };
    let ghost digits = spec_digits_of(s@);
    assert(digits =~= s@.subrange(start as int, len as int));
    if start == len {
        return None;
    }
    let mut val: u64 = 0;
    let mut i: usize = start;
    while i < len
        invariant
            start <= i <= len,
            len == s@.len(),
            digits == spec_digits_of(s@),
            digits =~= s@.subrange(start as int, len as int),
            all_digits(s@.subrange(start as int, i as int)),
            val == digits_val(s@.subrange(start as int, i as int)),
        decreases len - i,
    {
        let c = s.get_char(i);
        if c < '0' || c > '9' {
            assert(digits[i - start] == c);
            assert(!all_digits(digits));
            return None;
        }
        let d: u64 = (c as u32 - 48) as u64;
        assert(d == digit_val(c)) by {
            assert('0' as int == 48);
        }
        let ghost prefix = s@.subrange(start as int, i as int);
        let ghost extended = s@.subrange(start as int, i as int + 1);
        assert(extended =~= prefix.push(c));
        proof {
            lemma_digits_val_push(prefix, c);
        }
        if val > 1844674407370955161 || (val == 1844674407370955161 && d > 5) {
            // The value no longer fits in a u64, and appending further
            // digits can only make it larger.
            proof {
                assert(forall|k: int| 0 <= k < extended.len() ==> is_digit_char(#[trigger] extended[k]));
                assert(digits_val(extended) > u64::MAX);
                assert(digits =~= s@.subrange(start as int, len as int));
                assert(extended =~= digits.subrange(0, i - start + 1));
                if all_digits(digits) {
                    lemma_digits_val_prefix_le(digits, i - start + 1);
                }
            }
            return None;
        }
        val = val * 10 + d;
        i = i + 1;
    }
    assert(digits =~= s@.subrange(start as int, len as int));
    Some(val)
}

/// One digit as a string slice.
fn digit_str(d: u64) -> (r: &'static str)
    requires
        d < 10,
    ensures
        r@.len() == 1,
        is_digit_char(r@[0]),
        digit_val(r@[0]) == d,
{
    proof {
        reveal_strlit("0");
        reveal_strlit("1");
        reveal_strlit("2");
        reveal_strlit("3");
        reveal_strlit("4");
        reveal_strlit("5");
        reveal_strlit("6");
        reveal_strlit("7");
        reveal_strlit("8");
        reveal_strlit("9");
    }
    match d {
        0 => "0",
        1 => "1",
        2 => "2",
        3 => "3",
        4 => "4",
        5 => "5",
        6 => "6",
        7 => "7",
        8 => "8",
        _ => "9",
    }
}

/// The one decimal form of `n`: all digits, the right value, and no
/// leading zero.
pub open spec fn is_decimal_of(s: Seq<char>, n: int) -> bool {
    &&& all_digits(s)
    &&& digits_val(s) == n
    &&& s.len() >= 1
    &&& (s[0] == '0' ==> s.len() == 1)
}

/// Prints `n` in decimal: all digits, the right value, no leading zero.
/// Those three facts pin the result down to the one decimal form of `n`.
pub fn u64_to_string(n: u64) -> (r: String)
    ensures
        all_digits(r@),
        digits_val(r@) == n as int,
        r@.len() >= 1,
        r@[0] == '0' ==> r@.len() == 1,
    decreases n,
{
    if n < 10 {
        let r = String::from_str(digit_str(n));
        proof {
            assert(digits_val(Seq::<char>::empty()) == 0);
            assert(r@.drop_last() =~= Seq::<char>::empty());
            assert(digits_val(r@) == digits_val(r@.drop_last()) * 10 + digit_val(r@.last()));
            assert(r@.last() == r@[0]);
        }
        r
    } else {
        let q = n / 10;
        let d = n % 10;
        let mut s = u64_to_string(q);
        let ghost sv = s@;
        s.append(digit_str(d));
        proof {
            assert(s@ =~= sv.push(s@.last()));
            lemma_digits_val_push(sv, s@.last());
            assert(digit_val(s@.last()) == d);
            assert(n as int == q as int * 10 + d as int) by (nonlinear_arith)
                requires
                    q == n / 10,
                    d == n % 10,
            ;
            assert(forall|k: int| 0 <= k < s@.len() ==> is_digit_char(#[trigger] s@[k]));
            assert(s@[0] == sv[0]);
            if s@[0] == '0' {
                // A leading zero would force the printed prefix to be the
                // single digit 0, contradicting q >= 1.
                assert(sv.len() == 1);
                assert(sv.drop_last() =~= Seq::<char>::empty());
                assert(digits_val(sv) == digits_val(sv.drop_last()) * 10 + digit_val(sv.last()));
                assert(digits_val(sv) == 0);
            }
        }
        s
    }
}

/// Printing then parsing gives the number back: the decimal form of a
/// `u64` always re-reads as that same value.
pub proof fn lemma_decimal_round_trip(printed: Seq<char>, n: u64)
    requires
        all_digits(printed),
        digits_val(printed) == n as int,
        printed.len() >= 1,
    ensures
        spec_parse_u64(printed) == Some(n),
{
    assert(is_digit_char(printed[0]));
    assert(printed[0] != '+');
}

} // verus!

