//! Counts written in decimal.

use crate::encoding::push_text;
use vstd::prelude::*;
use vstd::string::StringSliceAdditionalSpecFns;
use vstd::utf8::encode_utf8;

verus! {

pub const PLUS: u8 = 0x2b;

pub const ZERO: u8 = 0x30;

/// `b` is one of the ten digits.
pub open spec fn is_digit(b: u8) -> bool {
    0x30 <= b <= 0x39
}

/// Every byte of `s` is a digit.
pub open spec fn all_digits(s: Seq<u8>) -> bool {
    forall|i: int| 0 <= i < s.len() ==> is_digit(#[trigger] s[i])
}

/// The number that the digits `s` write, most significant digit first.
pub open spec fn decimal_value(s: Seq<u8>) -> nat
    decreases s.len(),
{
    if s.len() == 0 {
        0
    } else {
        decimal_value(s.drop_last()) * 10 + (s.last() - ZERO) as nat
    }
}

/// `s` without the plus sign that may stand before its digits.
pub open spec fn unsigned(s: Seq<u8>) -> Seq<u8> {
    if s.len() > 0 && s[0] == PLUS {
        s.skip(1)
    } else {
        s
    }
}

/// The count that `s` writes: a plus sign or none, then one digit or more
/// and nothing else, for a number that is not zero and that a `usize` can
/// hold. Any other text writes no count.
pub open spec fn count_in(s: Seq<u8>) -> Option<nat> {
    let digits = unsigned(s);
    if digits.len() > 0 && all_digits(digits) && 0 < decimal_value(digits) <= usize::MAX {
        Some(decimal_value(digits))
    } else {
        None
    }
}

/// The digit for `d`.
pub open spec fn digit(d: nat) -> u8 {
    (ZERO + d) as u8
}

/// `n` written in decimal, without a sign or leading zeros.
pub open spec fn decimal(n: nat) -> Seq<u8>
    decreases n,
{
    if n < 10 {
        seq![digit(n)]
    } else {
        decimal(n / 10).push(digit(n % 10))
    }
}

/// The first digits of a number write no more than all of them do.
pub proof fn lemma_value_of_prefix(s: Seq<u8>, i: int)
    requires
        all_digits(s),
        0 <= i <= s.len(),
    ensures
        decimal_value(s.take(i)) <= decimal_value(s),
    decreases s.len(),
{
    if i == s.len() {
        assert(s.take(i) =~= s);
    } else {
        let t = s.drop_last();
        assert(t.take(i) =~= s.take(i));
        lemma_value_of_prefix(t, i);
    }
}

/// What `decimal` writes is digits only, at least one, and they write `n`.
pub proof fn lemma_decimal(n: nat)
    ensures
        decimal(n).len() > 0,
        all_digits(decimal(n)),
        decimal_value(decimal(n)) == n,
    decreases n,
{
    if n < 10 {
        let s = seq![digit(n)];
        assert(decimal_value(s) == decimal_value(s.drop_last()) * 10 + (s.last() - ZERO) as nat);
    } else {
        let t = decimal(n / 10);
        let s = t.push(digit(n % 10));
        lemma_decimal(n / 10);
        assert(s.drop_last() =~= t);
    }
}

/// A count that is written out and read again is the count there was.
pub proof fn lemma_count_in_decimal(n: nat)
    requires
        0 < n <= usize::MAX,
    ensures
        count_in(decimal(n)) == Some(n),
{
    lemma_decimal(n);
}

/// Reads a count.
pub fn parse_count(s: &[u8]) -> (r: Option<usize>)
    ensures
        match r {
            Some(n) => count_in(s@) == Some(n as nat),
            None => count_in(s@) is None,
        },
{
    let n = s.len();
    let start: usize = if n > 0 && s[0] == PLUS {
        1
    } else {
        0
    };
    let ghost digits = unsigned(s@);
    if start == n {
        return None;
    }
    let mut value: usize = 0;
    let mut i: usize = start;
    while i < n
        invariant
            n == s@.len(),
            start <= i <= n,
            digits == unsigned(s@),
            digits == s@.skip(start as int),
            all_digits(digits.take(i - start)),
            value == decimal_value(digits.take(i - start)),
        decreases n - i,
    {
        let b = s[i];
        if b < 0x30 || b > 0x39 {
            assert(!is_digit(digits[i - start]));
            return None;
        }
        let d: usize = (b - ZERO) as usize;
        proof {
            let seen = digits.take(i - start + 1);
            assert(seen.drop_last() =~= digits.take(i - start));
            if all_digits(digits) {
                lemma_value_of_prefix(digits, i - start + 1);
            }
        }
        if value > (usize::MAX - d) / 10 {
            return None;
        }
        value = value * 10 + d;
        i += 1;
    }
    assert(digits.take(n - start) =~= digits);
    if value == 0 {
        None
    } else {
        Some(value)
    }
}

/// The text of one digit.
fn digit_text(d: usize) -> (text: &'static str)
    requires
        d < 10,
    ensures
        text.spec_bytes() == seq![digit(d as nat)],
{
    let text = match d {
        0 => "0",
        1 => "1",
        2 => "2",
        3 => "3",
        4 => "4",
        5 => "5",
        6 => "6",
        7 => "7",
        8 => "8",
        _ => "9",
    };
    proof {
        reveal_strlit("0");
        reveal_strlit("1");
        reveal_strlit("2");
        reveal_strlit("3");
        reveal_strlit("4");
        reveal_strlit("5");
        reveal_strlit("6");
        reveal_strlit("7");
        reveal_strlit("8");
        reveal_strlit("9");
        vstd::string::is_ascii_spec_bytes(text);
    }
    text
}

/// Appends `n` in decimal to `out`.
pub fn push_decimal(out: &mut String, n: usize)
    ensures
        encode_utf8(final(out)@) == encode_utf8(old(out)@) + decimal(n as nat),
    decreases n,
{
    if n >= 10 {
        push_decimal(out, n / 10);
    }
    push_text(out, digit_text(n % 10));
}

} // verus!
