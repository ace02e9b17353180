//! Byte counts in human-readable notation: `"1234"`, `"1 KB"`, `"1 KiB"`.
//!
//! A size is a decimal number, any number of spaces, and an optional unit.
//! The unit is one of the letters `K`, `M` and `G`, which multiply by a
//! power of 1000, or one of them followed by `i`, which multiplies by a
//! power of 1024; either may be followed by `B`, and `B` may stand alone.
//! Upper and lower case are the same.

use crate::error::Error;
use vstd::prelude::*;
use vstd::string::StringSliceAdditionalSpecFns;

verus! {

/// A number of bytes.
pub type Bytes = u64;

/// `b` is an ASCII decimal digit.
pub open spec fn is_digit(b: u8) -> bool {
    0x30 <= b <= 0x39
}

/// `b` with an ASCII upper-case letter turned into lower case.
pub open spec fn lower(b: u8) -> u8 {
    if 0x41 <= b <= 0x5a {
        (b + 0x20) as u8
    } else {
        b
    }
}

/// The number that the decimal digits `digits` write.
pub open spec fn decimal_value(digits: Seq<u8>) -> nat
    decreases digits.len(),
{
    if digits.len() == 0 {
        0
    } else {
        decimal_value(digits.drop_last()) * 10 + (digits.last() - 0x30) as nat
    }
}

/// The index of the first byte at or after `from` that is no digit.
pub open spec fn skip_digits(s: Seq<u8>, from: int) -> int
    decreases s.len() - from,
{
    if 0 <= from < s.len() && is_digit(s[from]) {
        skip_digits(s, from + 1)
    } else {
        from
    }
}

/// The index of the first byte at or after `from` that is no space.
pub open spec fn skip_spaces(s: Seq<u8>, from: int) -> int
    decreases s.len() - from,
{
    if 0 <= from < s.len() && s[from] == 0x20 {
        skip_spaces(s, from + 1)
    } else {
        from
    }
}

/// The factor of a decimal prefix: `k`, `m` or `g`.
pub open spec fn decimal_prefix(b: u8) -> Option<nat> {
    if b == 0x6b {
        Some(1_000nat)
    } else if b == 0x6d {
        Some(1_000_000nat)
    } else if b == 0x67 {
        Some(1_000_000_000nat)
    } else {
        None
    }
}

/// The factor of a binary prefix: `k`, `m` or `g` before an `i`.
pub open spec fn binary_prefix(b: u8) -> Option<nat> {
    if b == 0x6b {
        Some(1_024nat)
    } else if b == 0x6d {
        Some(1_048_576nat)
    } else if b == 0x67 {
        Some(1_073_741_824nat)
    } else {
        None
    }
}

/// The factor that the unit `unit` stands for, if it is a unit.
pub open spec fn unit_multiplier(unit: Seq<u8>) -> Option<nat> {
    let prefix = if unit.len() > 0 && lower(unit.last()) == 0x62 {
        unit.drop_last()
    } else {
        unit
    };
    if prefix.len() == 0 {
        Some(1nat)
    } else if prefix.len() == 1 {
        decimal_prefix(lower(prefix[0]))
    } else if prefix.len() == 2 && lower(prefix[1]) == 0x69 {
        binary_prefix(lower(prefix[0]))
    } else {
        None
    }
}

/// The number of bytes that `s` writes, if it writes one.
pub open spec fn size_of(s: Seq<u8>) -> Option<nat> {
    let digits_end = skip_digits(s, 0);
    let unit_start = skip_spaces(s, digits_end);
    if digits_end == 0 {
        None
    } else {
        match unit_multiplier(s.skip(unit_start)) {
            None => None,
            Some(factor) => Some(decimal_value(s.take(digits_end)) * factor),
        }
    }
}

/// What parsing `s` gives: the size where it fits in 64 bits.
pub open spec fn parse_result(s: Seq<u8>) -> Result<Bytes, Error> {
    match size_of(s) {
        None => Err(Error::MalformedSize),
        Some(n) => if n <= Bytes::MAX {
            Ok(n as Bytes)
        } else {
            Err(Error::SizeOutOfRange)
        },
    }
}

/// More digits do not write a smaller number.
pub proof fn lemma_decimal_value_prefix(digits: Seq<u8>, k: int)
    requires
        0 <= k <= digits.len(),
        forall|t: int| 0 <= t < digits.len() ==> is_digit(#[trigger] digits[t]),
    ensures
        decimal_value(digits.take(k)) <= decimal_value(digits),
    decreases digits.len(),
{
    if k == digits.len() {
        assert(digits.take(k) == digits);
    } else {
        assert(digits.take(k) == digits.drop_last().take(k));
        lemma_decimal_value_prefix(digits.drop_last(), k);
    }
}

/// Skipping digits from `from` ends at `to` when everything between the
/// two is a digit and what stands at `to` is none.
pub proof fn lemma_skip_digits(s: Seq<u8>, from: int, to: int)
    requires
        0 <= from <= to <= s.len(),
        forall|t: int| from <= t < to ==> is_digit(#[trigger] s[t]),
        to == s.len() || !is_digit(s[to]),
    ensures
        skip_digits(s, from) == to,
    decreases to - from,
{
    if from < to {
        lemma_skip_digits(s, from + 1, to);
    }
}

/// Skipping spaces from `from` ends at `to` when everything between the
/// two is a space and what stands at `to` is none.
pub proof fn lemma_skip_spaces(s: Seq<u8>, from: int, to: int)
    requires
        0 <= from <= to <= s.len(),
        forall|t: int| from <= t < to ==> #[trigger] s[t] == 0x20,
        to == s.len() || s[to] != 0x20,
    ensures
        skip_spaces(s, from) == to,
    decreases to - from,
{
    if from < to {
        lemma_skip_spaces(s, from + 1, to);
    }
}

/// `b` with an ASCII upper-case letter turned into lower case.
fn to_lower(b: u8) -> (l: u8)
    ensures
        l == lower(b),
{
    if 0x41 <= b && b <= 0x5a {
        b + 0x20
    } else {
        b
    }
}

/// The factor that the bytes of `s` from `start` on stand for as a unit.
fn parse_unit(s: &[u8], start: usize) -> (r: Option<Bytes>)
    requires
        start <= s@.len(),
    ensures
        match unit_multiplier(s@.skip(start as int)) {
            None => r is None,
            Some(factor) => r == Some(factor as Bytes) && factor <= 1_073_741_824,
        },
{
    let ghost unit = s@.skip(start as int);
    let mut end = s.len();
    if end > start && to_lower(s[end - 1]) == 0x62 {
        end = end - 1;
        assert(s@.subrange(start as int, end as int) == unit.drop_last());
    } else {
        assert(s@.subrange(start as int, end as int) == unit);
    }
    let ghost prefix = s@.subrange(start as int, end as int);
    let len = end - start;
    if len == 0 {
        Some(1)
    } else if len == 1 {
        assert(prefix[0] == s@[start as int]);
        let p = to_lower(s[start]);
        if p == 0x6b {
            Some(1_000)
        } else if p == 0x6d {
            Some(1_000_000)
        } else if p == 0x67 {
            Some(1_000_000_000)
        } else {
            None
        }
    } else if len == 2 && to_lower(s[start + 1]) == 0x69 {
        assert(prefix[0] == s@[start as int]);
        assert(prefix[1] == s@[start + 1]);
        let p = to_lower(s[start]);
        if p == 0x6b {
            Some(1_024)
        } else if p == 0x6d {
            Some(1_048_576)
        } else if p == 0x67 {
            Some(1_073_741_824)
        } else {
            None
        }
    } else {
        assert(len == 2 ==> prefix[1] == s@[start + 1]);
        None
    }
}

/// Parses a byte count in human-readable notation from its bytes.
pub fn parse_size_bytes(s: &[u8]) -> (r: Result<Bytes, Error>)
    ensures
        r == parse_result(s@),
{
    let n = s.len();
    let mut digits_end: usize = 0;
    while digits_end < n && 0x30 <= s[digits_end] && s[digits_end] <= 0x39
        invariant
            digits_end <= n,
            n == s@.len(),
            forall|t: int| 0 <= t < digits_end ==> is_digit(#[trigger] s@[t]),
        decreases n - digits_end,
    {
        digits_end += 1;
    }
    proof {
        lemma_skip_digits(s@, 0, digits_end as int);
    }
    if digits_end == 0 {
        return Err(Error::MalformedSize);
    }
    let mut unit_start: usize = digits_end;
    while unit_start < n && s[unit_start] == 0x20
        invariant
            digits_end <= unit_start <= n,
            n == s@.len(),
            forall|t: int| digits_end <= t < unit_start ==> #[trigger] s@[t] == 0x20,
        decreases n - unit_start,
    {
        unit_start += 1;
    }
    proof {
        lemma_skip_spaces(s@, digits_end as int, unit_start as int);
    }
    let factor = match parse_unit(s, unit_start) {
        None => {
            return Err(Error::MalformedSize);
        },
        Some(factor) => factor,
    };
    let ghost digits = s@.take(digits_end as int);
    let mut value: Bytes = 0;
    let mut k: usize = 0;
    while k < digits_end
        invariant
            k <= digits_end <= n,
            n == s@.len(),
            digits == s@.take(digits_end as int),
            forall|t: int| 0 <= t < digits.len() ==> is_digit(#[trigger] digits[t]),
            value == decimal_value(digits.take(k as int)),
            1 <= factor,
            size_of(s@) == Some(decimal_value(digits) * (factor as nat)),
        decreases digits_end - k,
    {
        assert(digits[k as int] == s@[k as int]);
        let d = (s[k] - 0x30) as Bytes;
        proof {
            assert(digits.take(k + 1).drop_last() == digits.take(k as int));
            lemma_decimal_value_prefix(digits, k + 1);
            lemma_no_smaller_with_factor(decimal_value(digits), factor as nat);
        }
        if value > (Bytes::MAX - d) / 10 {
            return Err(Error::SizeOutOfRange);
        }
        value = value * 10 + d;
        k += 1;
    }
    assert(digits.take(k as int) == digits);
    if factor > 1 && value > Bytes::MAX / factor {
        proof {
            lemma_product_too_large(value as nat, factor as nat);
        }
        return Err(Error::SizeOutOfRange);
    }
    proof {
        lemma_product_fits(value as nat, factor as nat);
    }
    Ok(value * factor)
}

/// Parses a byte count in human-readable notation: `"1 KiB"` is 1024,
/// `"1 KB"` is 1000, `"1234"` is 1234.
pub fn parse_size(input: &str) -> (r: Result<Bytes, Error>)
    ensures
        r == parse_result(input.spec_bytes()),
{
    parse_size_bytes(input.as_bytes())
}

/// A number times a positive factor is no smaller than the number.
proof fn lemma_no_smaller_with_factor(value: nat, factor: nat)
    requires
        1 <= factor,
    ensures
        value <= value * factor,
{
    assert(value <= value * factor) by (nonlinear_arith)
        requires
            1 <= factor,
    ;
}

/// A value above the 64-bit limit divided by the factor overflows when
/// multiplied by the factor.
proof fn lemma_product_too_large(value: nat, factor: nat)
    requires
        1 <= factor,
        value > Bytes::MAX as nat / factor,
    ensures
        value * factor > Bytes::MAX,
{
    let q = Bytes::MAX as nat / factor;
    assert(value * factor > Bytes::MAX as nat) by (nonlinear_arith)
        requires
            1 <= factor,
            value >= q + 1,
            q == Bytes::MAX as nat / factor,
    ;
}

/// A value at most the 64-bit limit divided by the factor does not
/// overflow when multiplied by the factor.
proof fn lemma_product_fits(value: nat, factor: nat)
    requires
        1 <= factor,
        factor == 1 || value <= Bytes::MAX as nat / factor,
    ensures
        value * factor <= Bytes::MAX || (factor == 1 && value * factor == value),
{
    if factor == 1 {
        assert(value * 1 == value);
    } else {
        let q = Bytes::MAX as nat / factor;
        assert(value * factor <= Bytes::MAX as nat) by (nonlinear_arith)
            requires
                1 <= factor,
                value <= q,
                q == Bytes::MAX as nat / factor,
        ;
    }
}

} // verus!
