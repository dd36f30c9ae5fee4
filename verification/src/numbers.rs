//! Decimal formatting and parsing of integers, with exact specifications.

use vstd::prelude::*;
use vstd::string::*;

verus! {

/// The decimal digit character for a value below ten.
pub open spec fn digit_char(d: int) -> char
    recommends
        0 <= d < 10,
{
    if d == 0 {
        '0'
    } else if d == 1 {
        '1'
    } else if d == 2 {
        '2'
    } else if d == 3 {
        '3'
    } else if d == 4 {
        '4'
    } else if d == 5 {
        '5'
    } else if d == 6 {
        '6'
    } else if d == 7 {
        '7'
    } else if d == 8 {
        '8'
    } else {
        '9'
    }
}

/// The decimal digit sequence of a nonnegative value, most significant
/// digit first, without leading zeros (a single `'0'` for zero).
pub open spec fn dec_digits(n: nat) -> Seq<char>
    decreases n,
{
    if n < 10 {
        seq![digit_char(n as int)]
    } else {
        dec_digits(n / 10).push(digit_char((n % 10) as int))
    }
}

/// The decimal rendering of an integer: a `'-'` before the digits of the
/// magnitude when negative.
pub open spec fn dec_int(n: int) -> Seq<char> {
    if n < 0 {
        seq!['-'] + dec_digits((-n) as nat)
    } else {
        dec_digits(n as nat)
    }
}

fn digit_str(d: u64) -> (r: String)
    requires
        d < 10,
    ensures
        r@ == seq![digit_char(d as int)],
{
    let s: &str = if d == 0 {
        "0"
    } else if d == 1 {
        "1"
    } else if d == 2 {
        "2"
    } else if d == 3 {
        "3"
    } else if d == 4 {
        "4"
    } else if d == 5 {
        "5"
    } else if d == 6 {
        "6"
    } else if d == 7 {
        "7"
    } else if d == 8 {
        "8"
    } else {
        "9"
    };
    proof {
        reveal_strlit("0");
        reveal_strlit("1");
        reveal_strlit("2");
        reveal_strlit("3");
        reveal_strlit("4");
        reveal_strlit("5");
        reveal_strlit("6");
        reveal_strlit("7");
        reveal_strlit("8");
        reveal_strlit("9");
        assert(s@ =~= seq![digit_char(d as int)]);
    }
    s.to_owned()
}

/// Renders an unsigned value in decimal.
pub fn u64_to_string(n: u64) -> (r: String)
    ensures
        r@ == dec_digits(n as nat),
    decreases n,
{
    if n < 10 {
        digit_str(n)
    } else {
        let mut r = u64_to_string(n / 10);
        let d = digit_str(n % 10);
        r.append(d.as_str());
        proof {
            assert(r@ =~= dec_digits(n as nat));
        }
        r
    }
}

/// Renders a signed value in decimal, matching its standard `Display` form.
pub fn i64_to_string(n: i64) -> (r: String)
    ensures
        r@ == dec_int(n as int),
{
    if n >= 0 {
        u64_to_string(n as u64)
    } else {
        let m: u64 = if n == i64::MIN {
            9223372036854775808u64
        } else {
            (-n) as u64
        };
        assert(m as nat == (-(n as int)) as nat);
        let mut r = String::from_str("-");
        let digits = u64_to_string(m);
        r.append(digits.as_str());
        proof {
            reveal_strlit("-");
            assert(r@ =~= dec_int(n as int));
        }
        r
    }
}

/// Whether a character is a decimal digit.
pub open spec fn is_dec_digit(c: char) -> bool {
    48 <= c as u32 <= 57
}

/// Whether every character of the sequence is a decimal digit.
pub open spec fn all_dec_digits(s: Seq<char>) -> bool {
    forall|i: int| 0 <= i < s.len() ==> is_dec_digit(s[i])
}

/// The value of a digit sequence read in base ten.
pub open spec fn digits_val(s: Seq<char>) -> int
    decreases s.len(),
{
    if s.len() == 0 {
        0
    } else {
        digits_val(s.drop_last()) * 10 + (s.last() as u32 - 48)
    }
}

/// Whether a character sequence is a decimal integer literal as
/// `i64::from_str` accepts it: an optional sign followed by one or more
/// digits.
pub open spec fn is_int_literal(s: Seq<char>) -> bool {
    if s.len() == 0 {
        false
    } else if s[0] == '+' || s[0] == '-' {
        s.len() >= 2 && all_dec_digits(s.skip(1))
    } else {
        all_dec_digits(s)
    }
}

/// The mathematical value of a decimal integer literal.
pub open spec fn int_literal_val(s: Seq<char>) -> int
    recommends
        is_int_literal(s),
{
    if s.len() > 0 && s[0] == '-' {
        -digits_val(s.skip(1))
    } else if s.len() > 0 && s[0] == '+' {
        digits_val(s.skip(1))
    } else {
        digits_val(s)
    }
}

proof fn lemma_digits_val_nonneg(s: Seq<char>)
    requires
        all_dec_digits(s),
    ensures
        digits_val(s) >= 0,
    decreases s.len(),
{
    if s.len() > 0 {
        lemma_digits_val_nonneg(s.drop_last());
    }
}

/// Parses a decimal integer exactly as `str::parse::<i64>` does: `Some`
/// for a well-formed literal whose value fits in `i64`, `None` otherwise.
pub fn parse_i64(s: &str) -> (r: Option<i64>)
    ensures
        r is Some <==> is_int_literal(s@) && i64::MIN <= int_literal_val(s@) <= i64::MAX,
        r matches Some(v) ==> v as int == int_literal_val(s@),
{
    let n = s.unicode_len();
    if n == 0 {
        return None;
    }
    let first = s.get_char(0);
    let neg: bool = first == '-';
    let start: usize = if first == '-' || first == '+' {
        1
    } else {
        0
    };
    if start >= n {
        // A bare sign has no digits.
        return None;
    }
    let ghost digits: Seq<char> = s@.skip(start as int);
    let mut i: usize = start;
    let mut acc: u64 = 0;
    let mut overflow: bool = false;
    while i < n
        invariant
            start <= i <= n,
            n == s@.len(),
            start < n,
            (s@[0] == '-' || s@[0] == '+') <==> start == 1,
            digits == s@.skip(start as int),
            forall|j: int| start <= j < i ==> is_dec_digit(s@[j]),
            !overflow ==> acc as int == digits_val(s@.subrange(start as int, i as int)),
            overflow ==> digits_val(s@.subrange(start as int, i as int)) > u64::MAX,
        decreases n - i,
    {
        let c = s.get_char(i);
        let cu = c as u32;
        if cu < 48 || cu > 57 {
            // A non-digit after the optional sign: not an integer literal.
            proof {
                if is_int_literal(s@) {
                    if s@[0] == '-' || s@[0] == '+' {
                        assert(is_dec_digit(s@.skip(1)[i - 1]));
                        assert(s@.skip(1)[i - 1] == s@[i as int]);
                    } else {
                        assert(is_dec_digit(s@[i as int]));
                    }
                }
            }
            return None;
        }
        let d: u64 = (cu - 48) as u64;
        let ghost prev = s@.subrange(start as int, i as int);
        let ghost cur = s@.subrange(start as int, i + 1 as int);
        proof {
            assert(cur.drop_last() =~= prev);
            assert(cur.last() == s@[i as int]);
            assert(digits_val(cur) == digits_val(prev) * 10 + d);
        }
        if !overflow {
            match acc.checked_mul(10) {
                Some(t) => {
                    match t.checked_add(d) {
                        Some(t2) => {
                            acc = t2;
                        },
                        None => {
                            overflow = true;
                        },
                    }
                },
                None => {
                    overflow = true;
                },
            }
        } else {
            proof {
                lemma_digits_val_nonneg(prev);
                assert(digits_val(cur) > u64::MAX) by (nonlinear_arith)
                    requires
                        digits_val(cur) == digits_val(prev) * 10 + d,
                        digits_val(prev) > u64::MAX,
                        d >= 0,
                {
                }
            }
        }
        i += 1;
    }
    proof {
        assert(s@.subrange(start as int, n as int) =~= digits);
        assert(forall|j: int| 0 <= j < digits.len() ==> digits[j] == s@[start + j]);
        assert(all_dec_digits(digits));
        if start == 1 {
            assert(digits =~= s@.skip(1));
        } else {
            assert(digits =~= s@);
        }
        assert(is_int_literal(s@));
        lemma_digits_val_nonneg(digits);
    }
    if overflow {
        return None;
    }
    assert(acc as int == digits_val(digits));
    if neg {
        if acc > 9223372036854775808u64 {
            None
        } else if acc == 9223372036854775808u64 {
            Some(i64::MIN)
        } else {
            Some(-(acc as i64))
        }
    } else {
        if acc > 9223372036854775807u64 {
            None
        } else {
            Some(acc as i64)
        }
    }
}

/// Addition on `i64` clamped at the type's bounds.
pub open spec fn i64_sat_add(a: int, b: int) -> int {
    if a + b > i64::MAX {
        i64::MAX as int
    } else if a + b < i64::MIN {
        i64::MIN as int
    } else {
        a + b
    }
}

/// Adds two signed values, clamping at the bounds of `i64`.
pub fn sat_add_i64(a: i64, b: i64) -> (r: i64)
    ensures
        r as int == i64_sat_add(a as int, b as int),
{
    match a.checked_add(b) {
        Some(s) => s,
        None => {
            if b > 0 {
                i64::MAX
            } else {
                i64::MIN
            }
        },
    }
}

} // verus!
