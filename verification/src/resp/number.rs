//! Decimal numerals: how integers, lengths and counts are written on the wire.
use vstd::prelude::*;
use crate::resp::line::{has_line_break, is_line_break};

verus! {

/// `+`
pub const PLUS: u8 = 43;

/// `-`
pub const MINUS: u8 = 45;

/// `0`, the first of the ten digit bytes.
pub const ZERO: u8 = 48;

/// The magnitude of `i64::MIN`, the largest magnitude a numeral may have.
pub const MAX_MAGNITUDE: u64 = 0x8000_0000_0000_0000;

/// Whether `b` is one of the ten digit bytes.
pub open spec fn is_digit(b: u8) -> bool {
    ZERO <= b <= ZERO + 9
}

/// The byte that writes the digit `d`.
pub open spec fn digit_byte(d: int) -> u8
    recommends
        0 <= d < 10,
{
    (ZERO + d) as u8
}

/// The decimal numeral of `n`: most significant digit first, no leading zero
/// but for `0` itself.
pub open spec fn decimal(n: nat) -> Seq<u8>
    decreases n,
{
    if n < 10 {
        seq![digit_byte(n as int)]
    } else {
        decimal(n / 10).push(digit_byte((n % 10) as int))
    }
}

/// The numeral of `v` with its sign written out: `+` for zero and above.
pub open spec fn signed_decimal(v: int) -> Seq<u8> {
    if v < 0 {
        seq![MINUS] + decimal((-v) as nat)
    } else {
        seq![PLUS] + decimal(v as nat)
    }
}

/// Whether every byte of `s` is a digit.
pub open spec fn all_digits(s: Seq<u8>) -> bool {
    forall|i: int| 0 <= i < s.len() ==> is_digit(#[trigger] s[i])
}

/// The number that a sequence of digits writes; leading zeros count for nothing.
pub open spec fn digits_value(s: Seq<u8>) -> nat
    decreases s.len(),
{
    if s.len() == 0 {
        0
    } else {
        (digits_value(s.drop_last()) * 10 + (s.last() - ZERO)) as nat
    }
}

/// Whether `s` starts with a sign.
pub open spec fn is_signed(s: Seq<u8>) -> bool {
    s.len() > 0 && (s[0] == PLUS || s[0] == MINUS)
}

/// The digits of a numeral: all of it but the sign.
pub open spec fn numeral_digits(s: Seq<u8>) -> Seq<u8> {
    if is_signed(s) {
        s.skip(1)
    } else {
        s
    }
}

/// The integer that `s` writes: an optional sign and at least one digit, with
/// a value that fits 64 bits. `None` for anything else.
pub open spec fn integer_value(s: Seq<u8>) -> Option<i64> {
    let digits = numeral_digits(s);
    let magnitude = digits_value(digits) as int;
    let value = if s.len() > 0 && s[0] == MINUS {
        -magnitude
    } else {
        magnitude
    };
    if digits.len() == 0 || !all_digits(digits) || value < i64::MIN || value > i64::MAX {
        None
    } else {
        Some(value as i64)
    }
}

/// The magnitude of `v`, which for `i64::MIN` does not fit an `i64`.
pub fn magnitude(v: i64) -> (m: u64)
    ensures
        v >= 0 ==> m == v,
        v < 0 ==> m == -v,
{
    if v >= 0 {
        v as u64
    } else {
        let below: i64 = -(v + 1);
        below as u64 + 1
    }
}

/// Appends the decimal numeral of `n`.
pub fn push_decimal(buf: &mut Vec<u8>, n: u64)
    ensures
        final(buf)@ == old(buf)@ + decimal(n as nat),
    decreases n,
{
    if n >= 10 {
        push_decimal(buf, n / 10);
    }
    let d: u8 = (n % 10) as u8;
    buf.push(ZERO + d);
    proof {
        if n >= 10 {
            assert(final(buf)@ == old(buf)@ + decimal(n as nat / 10).push(
                digit_byte((n % 10) as int),
            ));
        }
        assert(final(buf)@ =~= old(buf)@ + decimal(n as nat));
    }
}

/// Appends the numeral of `v` with an explicit sign.
pub fn push_signed_decimal(buf: &mut Vec<u8>, v: i64)
    ensures
        final(buf)@ == old(buf)@ + signed_decimal(v as int),
{
    if v < 0 {
        buf.push(MINUS);
    } else {
        buf.push(PLUS);
    }
    push_decimal(buf, magnitude(v));
    proof {
        assert(final(buf)@ =~= old(buf)@ + signed_decimal(v as int));
    }
}

/// A longer run of digits writes a number that is no smaller.
pub proof fn lemma_digits_value_grows(s: Seq<u8>, k: int)
    requires
        0 <= k <= s.len(),
        all_digits(s),
    ensures
        digits_value(s.take(k)) <= digits_value(s),
    decreases s.len(),
{
    if k == s.len() {
        assert(s.take(k) =~= s);
    } else {
        let t = s.drop_last();
        assert(t.take(k) =~= s.take(k));
        assert(is_digit(s.last()));
        assert forall|i: int| 0 <= i < t.len() implies is_digit(#[trigger] t[i]) by {
            assert(t[i] == s[i]);
        }
        lemma_digits_value_grows(t, k);
    }
}

/// Reads the numeral held in `buf[start..end]`, as `integer_value` defines it.
pub fn parse_integer(buf: &[u8], start: usize, end: usize) -> (r: Option<i64>)
    requires
        start <= end <= buf@.len(),
    ensures
        r == integer_value(buf@.subrange(start as int, end as int)),
{
    let ghost s = buf@.subrange(start as int, end as int);
    let negative: bool = start < end && buf[start] == MINUS;
    let signed: bool = start < end && (buf[start] == PLUS || buf[start] == MINUS);
    let first: usize = if signed { start + 1 } else { start };
    let ghost digits = numeral_digits(s);
    proof {
        assert(signed == is_signed(s));
        assert(digits =~= buf@.subrange(first as int, end as int));
    }
    if first == end {
        return None;
    }
    let mut acc: u64 = 0;
    let mut i: usize = first;
    while i < end
        invariant
            first <= i <= end <= buf@.len(),
            s == buf@.subrange(start as int, end as int),
            digits == numeral_digits(s),
            digits == buf@.subrange(first as int, end as int),
            all_digits(digits.take(i - first)),
            acc == digits_value(digits.take(i - first)),
            acc <= MAX_MAGNITUDE,
        decreases end - i,
    {
        let b: u8 = buf[i];
        let ghost before = digits.take(i - first);
        let ghost after = digits.take(i - first + 1);
        proof {
            assert(after.drop_last() =~= before);
            assert(after.last() == b);
        }
        if b < ZERO || b > ZERO + 9 {
            proof {
                assert(digits[i - first] == b);
            }
            return None;
        }
        proof {
            assert forall|j: int| 0 <= j < after.len() implies is_digit(#[trigger] after[j]) by {
                if j < before.len() {
                    assert(after[j] == before[j]);
                }
            }
        }
        let d: u64 = (b - ZERO) as u64;
        if acc > (MAX_MAGNITUDE - d) / 10 {
            proof {
                assert(digits_value(after) > MAX_MAGNITUDE);
                if all_digits(digits) {
                    lemma_digits_value_grows(digits, i - first + 1);
                }
            }
            return None;
        }
        acc = acc * 10 + d;
        i += 1;
    }
    proof {
        assert(digits.take(end - first) =~= digits);
    }
    if negative {
        if acc == MAX_MAGNITUDE {
            Some(i64::MIN)
        } else {
            let m: i64 = acc as i64;
            Some(-m)
        }
    } else if acc == MAX_MAGNITUDE {
        None
    } else {
        Some(acc as i64)
    }
}

/// The numeral of `n` is one digit or more, all of them digits, and writes `n`.
pub proof fn lemma_decimal(n: nat)
    ensures
        decimal(n).len() >= 1,
        all_digits(decimal(n)),
        digits_value(decimal(n)) == n,
    decreases n,
{
    if n < 10 {
        let s = decimal(n);
        assert(s.drop_last() =~= Seq::<u8>::empty());
        assert(digits_value(s.drop_last()) == 0);
    } else {
        lemma_decimal(n / 10);
        let s = decimal(n);
        let t = decimal(n / 10);
        assert(s.drop_last() =~= t);
        assert forall|i: int| 0 <= i < s.len() implies is_digit(#[trigger] s[i]) by {
            if i < t.len() {
                assert(s[i] == t[i]);
            }
        }
    }
}

/// Reading the numeral of a length gives the length back.
pub proof fn lemma_decimal_value(n: nat)
    requires
        n <= i64::MAX,
    ensures
        integer_value(decimal(n)) == Some(n as i64),
{
    lemma_decimal(n);
    let s = decimal(n);
    assert(is_digit(s[0]));
}

/// Reading the signed numeral of an integer gives the integer back.
pub proof fn lemma_signed_decimal_value(v: i64)
    ensures
        integer_value(signed_decimal(v as int)) == Some(v),
{
    let s = signed_decimal(v as int);
    let m: nat = if v < 0 { (-v) as nat } else { v as nat };
    lemma_decimal(m);
    assert(s.skip(1) =~= decimal(m));
}

/// Digits hold no CR and no LF.
pub proof fn lemma_digits_are_one_line(s: Seq<u8>)
    requires
        all_digits(s),
    ensures
        !has_line_break(s),
{
    assert forall|i: int| 0 <= i < s.len() implies !is_line_break(#[trigger] s[i]) by {
        assert(is_digit(s[i]));
    }
}

/// No numeral holds a CR or an LF.
pub proof fn lemma_numerals_are_one_line(n: nat)
    ensures
        !has_line_break(decimal(n)),
        !has_line_break(seq![PLUS] + decimal(n)),
        !has_line_break(seq![MINUS] + decimal(n)),
{
    lemma_decimal(n);
    let d = decimal(n);
    let p = seq![PLUS] + d;
    let m = seq![MINUS] + d;
    assert forall|i: int| 0 <= i < d.len() implies !is_line_break(#[trigger] d[i]) by {
        assert(is_digit(d[i]));
    }
    assert forall|i: int| 0 <= i < p.len() implies !is_line_break(#[trigger] p[i]) by {
        if i > 0 {
            assert(p[i] == d[i - 1]);
            assert(is_digit(d[i - 1]));
        }
    }
    assert forall|i: int| 0 <= i < m.len() implies !is_line_break(#[trigger] m[i]) by {
        if i > 0 {
            assert(m[i] == d[i - 1]);
            assert(is_digit(d[i - 1]));
        }
    }
}

/// The numeral `-1` writes minus one.
pub proof fn lemma_minus_one_value()
    ensures
        integer_value(seq![MINUS, 49u8]) == Some(-1i64),
        !has_line_break(seq![MINUS, 49u8]),
{
    let s = seq![MINUS, 49u8];
    let digits = numeral_digits(s);
    assert(s.len() == 2 && s[0] == MINUS && s[1] == 49);
    assert(digits =~= seq![49u8]);
    assert(digits.len() == 1 && digits[0] == 49);
    assert(digits.drop_last() =~= Seq::<u8>::empty());
    assert(digits_value(digits.drop_last()) == 0);
    assert(digits_value(digits) == 1);
}

} // verus!
