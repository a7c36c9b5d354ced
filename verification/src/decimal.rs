//! Decimal numbers as text: reading an integer from its digits and writing
//! one out.
//!
//! Only the ASCII digits `0` to `9` count as digits. A number is read from a
//! whole text: an optional sign, one digit or more, and nothing else.

use vstd::prelude::*;
use crate::text::chars_of;

verus! {

/// `c` is one of `0` to `9`.
pub open spec fn is_digit(c: char) -> bool {
    '0' <= c && c <= '9'
}

/// The number that the digit `c` stands for.
pub open spec fn digit_value(c: char) -> int {
    c as int - '0' as int
}

/// The digit that stands for `d`, for `0 <= d <= 9`.
pub open spec fn digit_char(d: int) -> char {
    (d + '0' as int) as char
}

/// Every character of `s` is a digit.
pub open spec fn all_digits(s: Seq<char>) -> bool {
    forall|i: int| 0 <= i < s.len() ==> is_digit(#[trigger] s[i])
}

/// The number written by the digits `s`, most significant digit first.
pub open spec fn decimal_value(s: Seq<char>) -> int
    decreases s.len(),
{
    if s.len() == 0 {
        0
    } else {
        10 * decimal_value(s.drop_last()) + digit_value(s.last())
    }
}

/// The number that `s` writes without a sign: `s` is one digit or more.
pub open spec fn unsigned_decimal(s: Seq<char>) -> Option<int> {
    if s.len() > 0 && all_digits(s) {
        Some(decimal_value(s))
    } else {
        None
    }
}

/// The number that `s` writes: digits, with `+` or `-` in front or neither.
pub open spec fn signed_decimal(s: Seq<char>) -> Option<int> {
    if s.len() > 0 && s[0] == '-' {
        match unsigned_decimal(s.drop_first()) {
            Some(n) => Some(-n),
            None => None,
        }
    } else if s.len() > 0 && s[0] == '+' {
        unsigned_decimal(s.drop_first())
    } else {
        unsigned_decimal(s)
    }
}

/// The `i32` that `s` writes, if it writes a number and the number fits.
pub open spec fn parse_i32_spec(s: Seq<char>) -> Option<i32> {
    match signed_decimal(s) {
        Some(n) => if i32::MIN <= n <= i32::MAX {
            Some(n as i32)
        } else {
            None
        },
        None => None,
    }
}

/// The `u32` that `s` writes, if it writes a number and the number fits. A
/// text that starts with `-` writes no `u32`, not even `-0`.
pub open spec fn parse_u32_spec(s: Seq<char>) -> Option<u32> {
    if s.len() > 0 && s[0] == '-' {
        None
    } else {
        match signed_decimal(s) {
            Some(n) => if n <= u32::MAX {
                Some(n as u32)
            } else {
                None
            },
            None => None,
        }
    }
}

/// Digits write a number that is not negative, and more digits never write
/// a smaller one.
pub proof fn lemma_decimal_value_prefix(s: Seq<char>, k: int)
    requires
        all_digits(s),
        0 <= k <= s.len(),
    ensures
        0 <= decimal_value(s.take(k)) <= decimal_value(s),
    decreases s.len(),
{
    if k == s.len() {
        assert(s.take(k) =~= s);
        if s.len() > 0 {
            assert(all_digits(s.drop_last())) by {
                assert forall|i: int| 0 <= i < s.drop_last().len() implies is_digit(
                    #[trigger] s.drop_last()[i],
                ) by {
                    assert(s.drop_last()[i] == s[i]);
                }
            }
            assert(is_digit(s[s.len() - 1]));
            lemma_decimal_value_prefix(s.drop_last(), k - 1);
            assert(s.drop_last().take(k - 1) =~= s.drop_last());
        }
    } else {
        assert(all_digits(s.drop_last())) by {
            assert forall|i: int| 0 <= i < s.drop_last().len() implies is_digit(
                #[trigger] s.drop_last()[i],
            ) by {
                assert(s.drop_last()[i] == s[i]);
            }
        }
        assert(is_digit(s[s.len() - 1]));
        lemma_decimal_value_prefix(s.drop_last(), k);
        assert(s.drop_last().take(k) =~= s.take(k));
        lemma_decimal_value_prefix(s.drop_last(), s.len() - 1);
        assert(s.drop_last().take(s.len() - 1) =~= s.drop_last());
    }
}

/// What is written behind zeros is the number that is written without
/// them.
pub proof fn lemma_leading_zeros(zeros: nat, s: Seq<char>)
    ensures
        decimal_value(Seq::new(zeros, |i: int| '0') + s) == decimal_value(s),
    decreases s.len(), zeros,
{
    let front = Seq::new(zeros, |i: int| '0');
    if s.len() > 0 {
        assert((front + s).drop_last() =~= front + s.drop_last());
        lemma_leading_zeros(zeros, s.drop_last());
    } else if zeros > 0 {
        let fewer = Seq::new((zeros - 1) as nat, |i: int| '0');
        assert(front + s =~= front);
        assert(front.drop_last() =~= fewer + Seq::<char>::empty());
        lemma_leading_zeros((zeros - 1) as nat, Seq::<char>::empty());
    } else {
        assert(front + s =~= s);
    }
}

/// Reads the digits `v[from..]` as a number up to `limit`.
fn read_digits(v: &Vec<char>, from: usize, limit: u64) -> (r: Option<u64>)
    requires
        from <= v@.len(),
        limit <= 0x1_0000_0000,
    ensures
        match r {
            Some(n) => n <= limit && unsigned_decimal(v@.skip(from as int)) == Some(n as int),
            None => match unsigned_decimal(v@.skip(from as int)) {
                Some(n) => n > limit,
                None => true,
            },
        },
{
    let ghost digits = v@.skip(from as int);
    if from == v.len() {
        return None;
    }
    let mut acc: u64 = 0;
    let mut i: usize = from;
    assert(digits.take(0) =~= Seq::<char>::empty());
    while i < v.len()
        invariant
            from <= i <= v@.len(),
            digits == v@.skip(from as int),
            limit <= 0x1_0000_0000,
            all_digits(digits.take(i - from)),
            acc == decimal_value(digits.take(i - from)),
            acc <= limit,
        decreases v@.len() - i,
    {
        let c: char = v[i];
        assert(digits[i - from] == c);
        if !(c >= '0' && c <= '9') {
            return None;
        }
        let d: u64 = (c as u32 - '0' as u32) as u64;
        let next: u64 = acc * 10 + d;
        proof {
            let longer = digits.take(i - from + 1);
            assert(longer.drop_last() =~= digits.take(i - from));
            assert(longer.last() == c);
            assert(all_digits(longer)) by {
                assert forall|j: int| 0 <= j < longer.len() implies is_digit(#[trigger] longer[j]) by {
                    if j < i - from {
                        assert(longer[j] == digits.take(i - from)[j]);
                    }
                }
            }
            assert(next == decimal_value(longer));
            if all_digits(digits) {
                lemma_decimal_value_prefix(digits, i - from + 1);
            }
        }
        if next > limit {
            return None;
        }
        acc = next;
        i = i + 1;
    }
    assert(digits.take(digits.len() as int) =~= digits);
    Some(acc)
}

/// Reads `s` as an `i32`.
pub fn parse_i32(s: &str) -> (r: Option<i32>)
    ensures
        r == parse_i32_spec(s@),
{
    let v = chars_of(s);
    if v.len() > 0 && v[0] == '-' {
        assert(v@.skip(1) =~= v@.drop_first());
        match read_digits(&v, 1, 0x8000_0000) {
            Some(n) => Some((0 - n as i64) as i32),
            None => None,
        }
    } else if v.len() > 0 && v[0] == '+' {
        assert(v@.skip(1) =~= v@.drop_first());
        match read_digits(&v, 1, 0x7fff_ffff) {
            Some(n) => Some(n as i32),
            None => None,
        }
    } else {
        assert(v@.skip(0) =~= v@);
        match read_digits(&v, 0, 0x7fff_ffff) {
            Some(n) => Some(n as i32),
            None => None,
        }
    }
}

/// Reads `s` as a `u32`.
pub fn parse_u32(s: &str) -> (r: Option<u32>)
    ensures
        r == parse_u32_spec(s@),
{
    let v = chars_of(s);
    if v.len() > 0 && v[0] == '-' {
        None
    } else if v.len() > 0 && v[0] == '+' {
        assert(v@.skip(1) =~= v@.drop_first());
        match read_digits(&v, 1, 0xffff_ffff) {
            Some(n) => Some(n as u32),
            None => None,
        }
    } else {
        assert(v@.skip(0) =~= v@);
        match read_digits(&v, 0, 0xffff_ffff) {
            Some(n) => Some(n as u32),
            None => None,
        }
    }
}

/// The digits that write `n`, without leading zeros (`0` itself is `"0"`).
pub open spec fn decimal_digits(n: nat) -> Seq<char>
    decreases n,
{
    if n < 10 {
        seq![digit_char(n as int)]
    } else {
        decimal_digits(n / 10).push(digit_char((n % 10) as int))
    }
}

/// The digits of a number are digits, one at least.
pub proof fn lemma_decimal_digits(n: nat)
    ensures
        decimal_digits(n).len() >= 1,
        all_digits(decimal_digits(n)),
        n >= 10 ==> decimal_digits(n).len() >= 2,
    decreases n,
{
    if n >= 10 {
        lemma_decimal_digits(n / 10);
        let d = digit_char((n % 10) as int);
        assert(is_digit(d));
        assert forall|i: int| 0 <= i < decimal_digits(n).len() implies is_digit(
            #[trigger] decimal_digits(n)[i],
        ) by {
            if i < decimal_digits(n / 10).len() {
                assert(decimal_digits(n)[i] == decimal_digits(n / 10)[i]);
            }
        }
    } else {
        assert(is_digit(digit_char(n as int)));
    }
}

/// Appends the digits of `n` to `out`.
pub fn push_decimal(out: &mut Vec<char>, n: u64)
    ensures
        final(out)@ == old(out)@ + decimal_digits(n as nat),
    decreases n,
{
    if n >= 10 {
        push_decimal(out, n / 10);
    }
    let d: u8 = (n % 10) as u8;
    let c: char = (d + 48) as char;
    assert(c == digit_char((n % 10) as int));
    out.push(c);
    assert(out@ =~= old(out)@ + decimal_digits(n as nat));
}

} // verus!
