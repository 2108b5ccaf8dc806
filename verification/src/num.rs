//! Decimal text for the priority field: printing a `u8` and parsing one back.

use vstd::prelude::*;

verus! {

/// Whether `c` is a decimal digit.
pub open spec fn is_digit(c: char) -> bool {
    '0' as int <= c as int && c as int <= '9' as int
}

/// The numeric value of the digit `c`.
pub open spec fn digit_val(c: char) -> int {
    c as int - '0' as int
}

/// The digit character for a value `d` in `0 ..= 9`.
pub open spec fn char_of_digit(d: int) -> char {
    ((d + '0' as int) as u8) as char
}

/// Whether every character of `s` is a decimal digit.
pub open spec fn all_digits(s: Seq<char>) -> bool {
    forall|i: int| 0 <= i < s.len() ==> is_digit(#[trigger] s[i])
}

/// The numeric value of a digit string, most significant digit first.
pub open spec fn digits_val(s: Seq<char>) -> int
    decreases s.len(),
{
    if s.len() == 0 {
        0
    } else {
        digits_val(s.drop_last()) * 10 + digit_val(s.last())
    }
}

/// The canonical decimal digits of `n`, without leading zeros.
pub open spec fn dec_digits(n: int) -> Seq<char>
    decreases n,
{
    if n < 10 {
        seq![char_of_digit(n)]
    } else {
        dec_digits(n / 10).push(char_of_digit(n % 10))
    }
}

/// The digits of a priority argument: everything after an optional
/// leading `+`.
pub open spec fn priority_digits(s: Seq<char>) -> Seq<char> {
    if s.len() > 0 && s[0] == '+' {
        s.skip(1)
    } else {
        s
    }
}

/// How `str::parse::<u8>` reads a string: an optional leading `+`, then one
/// or more decimal digits whose value fits in eight bits; leading zeros are
/// accepted.
pub open spec fn spec_parse_u8(s: Seq<char>) -> Option<u8> {
    let body = priority_digits(s);
    if body.len() > 0 && all_digits(body) && digits_val(body) <= 255 {
        Some(digits_val(body) as u8)
    } else {
        None
    }
}

/// The value of a digit string is never negative.
pub proof fn lemma_digits_val_nonneg(s: Seq<char>)
    requires
        all_digits(s),
    ensures
        digits_val(s) >= 0,
    decreases s.len(),
{
    if s.len() > 0 {
        assert(all_digits(s.drop_last()));
        lemma_digits_val_nonneg(s.drop_last());
    }
}

/// Extending a digit string to the right can only increase its value.
pub proof fn lemma_digits_val_prefix(s: Seq<char>, i: int)
    requires
        all_digits(s),
        0 <= i <= s.len(),
    ensures
        digits_val(s.take(i)) <= digits_val(s),
    decreases s.len() - i,
{
    if i < s.len() {
        assert(s.take(i + 1).drop_last() =~= s.take(i));
        assert(all_digits(s.take(i + 1)));
        lemma_digits_val_nonneg(s.take(i));
        lemma_digits_val_prefix(s, i + 1);
    } else {
        assert(s.take(i) =~= s);
    }
}

/// The canonical digits of `n` are digits, their value is `n`, and the first
/// of them is not `'0'` unless `n` is zero.
pub proof fn lemma_dec_digits_val(n: int)
    requires
        0 <= n,
    ensures
        all_digits(dec_digits(n)),
        digits_val(dec_digits(n)) == n,
        dec_digits(n).len() >= 1,
        dec_digits(n)[0] != '0' || n < 10,
    decreases n,
{
    if n < 10 {
        let d = dec_digits(n);
        assert(d == seq![char_of_digit(n)]);
        assert(d.drop_last() =~= Seq::<char>::empty());
        assert(digits_val(d.drop_last()) == 0);
        assert(digits_val(d) == digit_val(char_of_digit(n)));
        assert(char_of_digit(n) as int == n + '0' as int);
    } else {
        lemma_dec_digits_val(n / 10);
        let d = dec_digits(n);
        assert(d.drop_last() =~= dec_digits(n / 10));
        assert(d.last() == char_of_digit(n % 10));
        assert(digit_val(char_of_digit(n % 10)) == n % 10);
        assert(digits_val(d) == (n / 10) * 10 + n % 10);
        assert((n / 10) * 10 + n % 10 == n) by (nonlinear_arith)
            requires n >= 0;
    }
}

/// Parses `s` as an unsigned 8-bit integer, the way `str::parse::<u8>` does.
pub fn parse_u8_str(s: &str) -> (r: Option<u8>)
    ensures
        r == spec_parse_u8(s@),
{
    let len = s.unicode_len();
    let mut start: usize = 0;
    if len > 0 && s.get_char(0) == '+' {
        start = 1;
    }
    let ghost body = priority_digits(s@);
    assert(body =~= s@.subrange(start as int, len as int));
    if start == len {
        return None;
    }
    let mut acc: u16 = 0;
    let mut i: usize = start;
    while i < len
        invariant
            start <= i <= len,
            len == s@.len(),
            body == priority_digits(s@),
            body == s@.subrange(start as int, len as int),
            all_digits(body.take(i - start)),
            acc <= 255,
            acc == digits_val(body.take(i - start)),
        decreases len - i,
    {
        let c = s.get_char(i);
        let u = c as u32;
        assert(u as int == c as int);
        assert(body[i - start] == c);
        if u < 48 || u > 57 {
            assert(!is_digit(body[i - start]));
            assert(!all_digits(body));
            return None;
        }
        assert(is_digit(c));
        let d: u16 = (u - 48) as u16;
        assert(d as int == digit_val(c));
        proof {
            assert(body.take(i - start + 1).drop_last() =~= body.take(i - start));
            assert(body.take(i - start + 1).last() == s@[i as int]);
        }
        let next: u32 = acc as u32 * 10 + d as u32;
        if next > 255 {
            proof {
                let j = i - start + 1;
                assert(digits_val(body.take(j)) > 255);
                if all_digits(body) {
                    lemma_digits_val_prefix(body, j);
                }
            }
            return None;
        }
        acc = next as u16;
        i = i + 1;
    }
    proof {
        assert(body.take(len - start) =~= body);
    }
    Some(acc as u8)
}

/// Appends the canonical decimal digits of `n` to `out`.
pub fn push_u8_digits(out: &mut Vec<char>, n: u8)
    ensures
        final(out)@ == old(out)@ + dec_digits(n as int),
{
    proof {
        lemma_dec_digits_val(n as int);
    }
    if n >= 100 {
        out.push(digit_char(n / 100));
        out.push(digit_char((n / 10) % 10));
        out.push(digit_char(n % 10));
        proof {
            let v = n as int;
            assert(v / 10 >= 10);
            assert(dec_digits(v) == dec_digits(v / 10).push(char_of_digit(v % 10)));
            assert(dec_digits(v / 10) == dec_digits(v / 10 / 10).push(char_of_digit(v / 10 % 10)));
            assert(v / 10 / 10 == v / 100) by (nonlinear_arith)
                requires v >= 0;
            assert(v / 100 < 10);
            assert(dec_digits(v / 100) =~= seq![char_of_digit(v / 100)]);
            assert(final(out)@ =~= old(out)@ + dec_digits(n as int));
        }
    } else if n >= 10 {
        out.push(digit_char(n / 10));
        out.push(digit_char(n % 10));
        proof {
            let v = n as int;
            assert(dec_digits(v) == dec_digits(v / 10).push(char_of_digit(v % 10)));
            assert(dec_digits(v / 10) =~= seq![char_of_digit(v / 10)]);
            assert(final(out)@ =~= old(out)@ + dec_digits(n as int));
        }
    } else {
        out.push(digit_char(n));
        proof {
            assert(final(out)@ =~= old(out)@ + dec_digits(n as int));
        }
    }
}

/// The digit character for `d`, which must be below ten.
fn digit_char(d: u8) -> (c: char)
    requires
        d < 10,
    ensures
        c == char_of_digit(d as int),
{
    (d + 48) as char
}

} // verus!
