//! Decimal numerals, read and written.

use vstd::prelude::*;
use vstd::string::{StrSliceExecFns, StringExecFns};

verus! {

/// The characters of `s`, one by one.
pub fn chars_of(s: &str) -> (r: Vec<char>)
    ensures
        r@ == s@,
{
    let n: usize = s.unicode_len();
    let mut out: Vec<char> = Vec::new();
    let mut i: usize = 0;
    while i < n
        invariant
            n == s@.len(),
            i <= n,
            out@ == s@.take(i as int),
        decreases n - i,
    {
        out.push(s.get_char(i));
        i += 1;
        assert(out@ =~= s@.take(i as int));
    }
    assert(s@.take(n as int) =~= s@);
    out
}

/// The value of a decimal digit.
pub open spec fn digit_value(c: char) -> nat {
    (c as u32 - '0' as u32) as nat
}

/// Whether `c` is one of `0` to `9`.
pub open spec fn spec_is_digit(c: char) -> bool {
    '0' <= c <= '9'
}

/// Whether `c` is one of `0` to `9`, and which.
pub fn digit_of(c: char) -> (r: Option<u8>)
    ensures
        r is Some <==> spec_is_digit(c),
        r matches Some(d) ==> d == digit_value(c) && d < 10,
{
    if '0' <= c && c <= '9' {
        Some((c as u32 - '0' as u32) as u8)
    } else {
        None
    }
}

/// The number that a run of digits writes, most significant digit first.
pub open spec fn decimal_value(digits: Seq<char>) -> nat
    decreases digits.len(),
{
    if digits.len() == 0 {
        0
    } else {
        decimal_value(digits.drop_last()) * 10 + digit_value(digits.last())
    }
}

/// Whether every character is a decimal digit.
pub open spec fn all_digits(s: Seq<char>) -> bool {
    forall|i: int| 0 <= i < s.len() ==> spec_is_digit(#[trigger] s[i])
}

/// The integer that a run of digits writes under a sign. Nothing, if the
/// run is empty or holds anything but digits, or the integer does not fit.
pub open spec fn spec_parse_digits(digits: Seq<char>, negative: bool) -> Option<i64> {
    let amount = decimal_value(digits) as int;
    let v = if negative {
        -amount
    } else {
        amount
    };
    if digits.len() == 0 || !all_digits(digits) || v < i64::MIN || v > i64::MAX {
        None
    } else {
        Some(v as i64)
    }
}

/// The integer that `s` writes in decimal: an optional `+` or `-`, then one
/// digit or more and nothing else. Nothing, if `s` is not of that form or
/// the integer does not fit.
pub open spec fn spec_parse_i64(s: Seq<char>) -> Option<i64> {
    if s.len() > 0 && (s[0] == '-' || s[0] == '+') {
        spec_parse_digits(s.skip(1), s[0] == '-')
    } else {
        spec_parse_digits(s, false)
    }
}

/// More digits never write a smaller number.
pub proof fn lemma_decimal_value_grows(digits: Seq<char>, shorter: int)
    requires
        0 <= shorter <= digits.len(),
    ensures
        decimal_value(digits.take(shorter)) <= decimal_value(digits),
    decreases digits.len(),
{
    if shorter == digits.len() {
        assert(digits.take(shorter) =~= digits);
    } else {
        lemma_decimal_value_grows(digits.drop_last(), shorter);
        assert(digits.drop_last().take(shorter) =~= digits.take(shorter));
    }
}

/// Reads `chars[from..to]` as a decimal integer.
pub fn parse_i64_between(chars: &[char], from: usize, to: usize) -> (r: Option<i64>)
    requires
        from <= to <= chars@.len(),
    ensures
        r == spec_parse_i64(chars@.subrange(from as int, to as int)),
{
    let ghost s = chars@.subrange(from as int, to as int);
    if from == to {
        return None;
    }
    let first: char = chars[from];
    assert(first == s[0]);
    let negative: bool = first == '-';
    let start: usize = if first == '-' || first == '+' {
        from + 1
    } else {
        from
    };
    let ghost digits = chars@.subrange(start as int, to as int);
    assert(digits =~= if start > from {
        s.skip(1)
    } else {
        s
    });
    let ghost goal = spec_parse_i64(s);
    assert(goal == spec_parse_digits(digits, negative));
    if start == to {
        return None;
    }
    let limit: u128 = if negative {
        0x8000_0000_0000_0000
    } else {
        0x7fff_ffff_ffff_ffff
    };
    let mut amount: u128 = 0;
    let mut i: usize = start;
    while i < to
        invariant
            start <= i <= to <= chars@.len(),
            digits == chars@.subrange(start as int, to as int),
            goal == spec_parse_digits(digits, negative),
            goal == spec_parse_i64(chars@.subrange(from as int, to as int)),
            all_digits(digits.take(i - start)),
            amount == decimal_value(digits.take(i - start)),
            amount <= limit,
            limit == (if negative {
                0x8000_0000_0000_0000u128
            } else {
                0x7fff_ffff_ffff_ffffu128
            }),
        decreases to - i,
    {
        let ghost before = digits.take(i - start);
        let ghost after = digits.take(i + 1 - start);
        assert(after.drop_last() =~= before);
        assert(after.last() == chars@[i as int]);
        match digit_of(chars[i]) {
            None => {
                assert(!spec_is_digit(digits[i - start]));
                return None;
            },
            Some(d) => {
                amount = amount * 10 + d as u128;
                if amount > limit {
                    proof {
                        lemma_decimal_value_grows(digits, i + 1 - start);
                        if all_digits(digits) {
                            assert(decimal_value(digits) > limit);
                        }
                    }
                    return None;
                }
            },
        }
        i += 1;
    }
    assert(digits.take(i - start) =~= digits);
    if negative {
        if amount == 0x8000_0000_0000_0000 {
            Some(i64::MIN)
        } else {
            Some(-(amount as i64))
        }
    } else {
        Some(amount as i64)
    }
}

/// Reads `s` as a decimal integer.
pub fn parse_i64(s: &str) -> (r: Option<i64>)
    ensures
        r == spec_parse_i64(s@),
{
    let chars: Vec<char> = chars_of(s);
    assert(chars@.subrange(0, chars@.len() as int) =~= s@);
    parse_i64_between(chars.as_slice(), 0, chars.len())
}

/// The character of a decimal digit.
pub open spec fn digit_char(d: nat) -> char {
    ('0' as u32 + d) as char
}

/// `n` written in decimal, without leading zeros.
pub open spec fn decimal_digits(n: nat) -> Seq<char>
    decreases n,
{
    if n < 10 {
        seq![digit_char(n)]
    } else {
        decimal_digits(n / 10).push(digit_char(n % 10))
    }
}

/// What is written in decimal reads back as the number it was: the digits
/// of `n` are digits only, at least one, and their value is `n`.
pub proof fn lemma_decimal_round_trip(n: nat)
    ensures
        decimal_digits(n).len() > 0,
        all_digits(decimal_digits(n)),
        decimal_value(decimal_digits(n)) == n,
        n <= i64::MAX ==> spec_parse_i64(decimal_digits(n)) == Some(n as i64),
    decreases n,
{
    let written = decimal_digits(n);
    if n < 10 {
        assert(written.drop_last() =~= Seq::<char>::empty());
        assert(decimal_value(written.drop_last()) == 0);
        assert(digit_value(digit_char(n)) == n);
    } else {
        lemma_decimal_round_trip(n / 10);
        assert(written.drop_last() =~= decimal_digits(n / 10));
        assert(digit_value(digit_char(n % 10)) == n % 10);
        assert(spec_is_digit(digit_char(n % 10)));
        assert forall|i: int| 0 <= i < written.len() implies spec_is_digit(
            #[trigger] written[i],
        ) by {
            if i < written.len() - 1 {
                assert(written[i] == decimal_digits(n / 10)[i]);
            }
        }
        assert(written[0] == decimal_digits(n / 10)[0]);
    }
    assert(spec_is_digit(written[0]));
}

/// The text of one decimal digit.
fn digit_text(d: u64) -> (r: &'static str)
    requires
        d < 10,
    ensures
        r@ == seq![digit_char(d as nat)],
{
    proof {
        reveal_strlit("0");
        reveal_strlit("1");
        reveal_strlit("2");
        reveal_strlit("3");
        reveal_strlit("4");
        reveal_strlit("5");
        reveal_strlit("6");
        reveal_strlit("7");
        reveal_strlit("8");
        reveal_strlit("9");
    }
    let text: &'static str = if d == 0 {
        "0"
    } else if d == 1 {
        "1"
    } else if d == 2 {
        "2"
    } else if d == 3 {
        "3"
    } else if d == 4 {
        "4"
    } else if d == 5 {
        "5"
    } else if d == 6 {
        "6"
    } else if d == 7 {
        "7"
    } else if d == 8 {
        "8"
    } else {
        "9"
    };
    assert(text@ =~= seq![digit_char(d as nat)]);
    text
}

/// Appends `n` in decimal to `out`.
pub fn push_decimal(out: &mut String, n: u64)
    ensures
        final(out)@ == old(out)@ + decimal_digits(n as nat),
    decreases n,
{
    if n >= 10 {
        push_decimal(out, n / 10);
    }
    out.append(digit_text(n % 10));
    assert(final(out)@ =~= old(out)@ + decimal_digits(n as nat));
}

} // verus!
