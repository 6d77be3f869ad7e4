//! Decimal text: reading a signed 64-bit integer the way `i64::from_str` does,
//! and writing a length in decimal the way `{}` formats a `usize`.
use vstd::prelude::*;

verus! {

/// ASCII code of `'0'`.
pub const ZERO: u8 = 48u8;

/// ASCII code of `'-'`.
pub const MINUS: u8 = 45u8;

/// ASCII code of `'+'`.
pub const PLUS: u8 = 43u8;

/// True when `c` is an ASCII decimal digit.
pub open spec fn is_digit(c: u8) -> bool {
    48 <= c <= 57
}

/// True when every byte of `s` is an ASCII decimal digit.
pub open spec fn all_digits(s: Seq<u8>) -> bool {
    forall|i: int| 0 <= i < s.len() ==> is_digit(#[trigger] s[i])
}

/// The number written by the decimal digits `s` (most significant first).
pub open spec fn digits_value(s: Seq<u8>) -> nat
    decreases s.len(),
{
    if s.len() == 0 {
        0
    } else {
        digits_value(s.drop_last()) * 10 + (s.last() - 48) as nat
    }
}

/// The digits of `s` once an optional leading sign is taken off.
pub open spec fn unsigned_part(s: Seq<u8>) -> Seq<u8> {
    if s.len() > 0 && (s[0] == MINUS || s[0] == PLUS) {
        s.drop_first()
    } else {
        s
    }
}

/// What `i64::from_str` reads from the text `s`: an optional `+` or `-`,
/// then one or more decimal digits (leading zeros allowed), whose value
/// fits in an `i64`. Anything else is refused.
pub open spec fn spec_parse_i64(s: Seq<u8>) -> Option<int> {
    let digits = unsigned_part(s);
    if digits.len() == 0 || !all_digits(digits) {
        None
    } else {
        let magnitude = digits_value(digits) as int;
        let v = if s[0] == MINUS { -magnitude } else { magnitude };
        if i64::MIN <= v <= i64::MAX {
            Some(v)
        } else {
            None
        }
    }
}

/// The shortest decimal text of `n`, as `{}` writes an unsigned integer.
pub open spec fn decimal(n: nat) -> Seq<u8>
    decreases n,
{
    if n < 10 {
        seq![(48 + n) as u8]
    } else {
        decimal(n / 10).push((48 + n % 10) as u8)
    }
}

/// The decimal text of an integer: a `-` before the digits of its magnitude when
/// it is negative, as `{}` writes an `i64`.
pub open spec fn integer_text(n: int) -> Seq<u8> {
    if n < 0 {
        seq![MINUS] + decimal((-n) as nat)
    } else {
        decimal(n as nat)
    }
}

/// A longer run of digits never has a smaller value than its prefix.
pub proof fn lemma_digits_value_prefix(s: Seq<u8>, j: int)
    requires
        all_digits(s),
        0 <= j <= s.len(),
    ensures
        digits_value(s.take(j)) <= digits_value(s),
    decreases s.len(),
{
    if j < s.len() {
        assert(s.drop_last().take(j) =~= s.take(j));
        lemma_digits_value_prefix(s.drop_last(), j);
    } else {
        assert(s.take(j) =~= s);
    }
}

/// The decimal text of `n` is a non-empty run of digits that reads back as `n`.
pub proof fn lemma_decimal_reads_back(n: nat)
    ensures
        decimal(n).len() > 0,
        all_digits(decimal(n)),
        digits_value(decimal(n)) == n,
    decreases n,
{
    if n >= 10 {
        lemma_decimal_reads_back(n / 10);
        let d = decimal(n);
        assert(d.drop_last() =~= decimal(n / 10));
        assert(n == (n / 10) * 10 + n % 10) by (nonlinear_arith);
        assert(d.last() == 48 + n % 10);
        assert(digits_value(d) == digits_value(decimal(n / 10)) * 10 + n % 10);
    } else {
        let d = decimal(n);
        assert(d.drop_last() =~= Seq::<u8>::empty());
        assert(d.last() == 48 + n);
        assert(digits_value(d) == digits_value(d.drop_last()) * 10 + (d.last() - 48) as nat);
    }
}

/// Reads an `i64` from `s` exactly as `i64::from_str` reads it from the same text.
pub fn parse_i64(s: &[u8]) -> (res: Option<i64>)
    ensures
        match res {
            Some(v) => spec_parse_i64(s@) == Some(v as int),
            None => spec_parse_i64(s@) is None,
        },
{
    let n = s.len();
    if n == 0 {
        return None;
    }
    let negative = s[0] == MINUS;
    let start: usize = if s[0] == MINUS || s[0] == PLUS { 1 } else { 0 };
    let ghost digits = unsigned_part(s@);
    assert(digits =~= s@.subrange(start as int, n as int));
    if start == n {
        return None;
    }
    let limit: u128 = if negative { 9223372036854775808u128 } else { 9223372036854775807u128 };
    let mut acc: u128 = 0;
    let mut i: usize = start;
    while i < n
        invariant
            start <= i <= n,
            n == s@.len(),
            start < n,
            digits == s@.subrange(start as int, n as int),
            digits == unsigned_part(s@),
            negative == (s@[0] == MINUS),
            limit == (if negative { 9223372036854775808u128 } else { 9223372036854775807u128 }),
            all_digits(s@.subrange(start as int, i as int)),
            acc == digits_value(s@.subrange(start as int, i as int)),
            acc <= limit,
        decreases n - i,
    {
        let c = s[i];
        if c < ZERO || c > 57u8 {
            assert(!is_digit(digits[i - start]));
            return None;
        }
        let ghost prev = s@.subrange(start as int, i as int);
        let next = acc * 10 + (c - ZERO) as u128;
        assert(s@.subrange(start as int, i + 1).drop_last() =~= prev);
        assert(all_digits(s@.subrange(start as int, i + 1))) by {
            assert forall|k: int| 0 <= k < i + 1 - start implies is_digit(
                #[trigger] s@.subrange(start as int, i + 1)[k],
            ) by {
                if k < i - start {
                    assert(s@.subrange(start as int, i + 1)[k] == prev[k]);
                }
            }
        }
        if next > limit {
            proof {
                if all_digits(digits) {
                    assert(digits.take(i + 1 - start) =~= s@.subrange(start as int, i + 1));
                    lemma_digits_value_prefix(digits, i + 1 - start);
                }
            }
            return None;
        }
        acc = next;
        i = i + 1;
    }
    assert(s@.subrange(start as int, n as int) == digits);
    if negative {
        if acc == 9223372036854775808u128 {
            Some(-9223372036854775807i64 - 1)
        } else {
            let m = acc as i64;
            Some(-m)
        }
    } else {
        Some(acc as i64)
    }
}

/// The shortest decimal text of `n`.
pub fn decimal_bytes(n: usize) -> (res: Vec<u8>)
    ensures
        res@ == decimal(n as nat),
    decreases n,
{
    if n < 10 {
        let mut v: Vec<u8> = Vec::new();
        v.push(ZERO + n as u8);
        v
    } else {
        let mut v = decimal_bytes(n / 10);
        v.push(ZERO + (n % 10) as u8);
        v
    }
}

} // verus!
