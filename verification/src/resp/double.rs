//! The text of a double: a sign, then a decimal literal, `inf` or `nan`.
use vstd::prelude::*;
use crate::resp::line::{has_line_break, is_line_break, lemma_line_break_concat};
use crate::resp::number::{
    all_digits, is_digit, is_signed, lemma_digits_are_one_line, MINUS, numeral_digits, PLUS, ZERO,
};

verus! {

/// `.`
pub const DOT: u8 = 46;

/// `e`
pub const LOWER_E: u8 = 101;

/// `E`
pub const UPPER_E: u8 = 69;

/// How many digits `s` starts with.
pub open spec fn leading_digits(s: Seq<u8>) -> int
    decreases s.len(),
{
    if s.len() == 0 || !is_digit(s[0]) {
        0
    } else {
        1 + leading_digits(s.drop_first())
    }
}

/// An exponent: `e` or `E`, an optional sign, and at least one digit.
pub open spec fn is_exponent(s: Seq<u8>) -> bool {
    &&& s.len() >= 2
    &&& s[0] == LOWER_E || s[0] == UPPER_E
    &&& numeral_digits(s.skip(1)).len() >= 1
    &&& all_digits(numeral_digits(s.skip(1)))
}

/// What may follow the integer part of a decimal literal: nothing, a
/// fraction, an exponent, or a fraction and an exponent.
pub open spec fn is_decimal_tail(s: Seq<u8>) -> bool {
    if s.len() == 0 {
        true
    } else if s[0] == DOT {
        let n = leading_digits(s.skip(1));
        n >= 1 && (s.len() == 1 + n || is_exponent(s.skip(1 + n)))
    } else {
        is_exponent(s)
    }
}

/// A decimal literal without sign: digits, then an optional fraction and an
/// optional exponent.
pub open spec fn is_decimal_literal(s: Seq<u8>) -> bool {
    leading_digits(s) >= 1 && is_decimal_tail(s.skip(leading_digits(s)))
}

/// The spellings `inf`, `nan` and `NaN`.
pub open spec fn is_special(s: Seq<u8>) -> bool {
    ||| s == seq![105u8, 110u8, 102u8]
    ||| s == seq![110u8, 97u8, 110u8]
    ||| s == seq![78u8, 97u8, 78u8]
}

/// The magnitude of a double: what follows its sign.
pub open spec fn is_magnitude(s: Seq<u8>) -> bool {
    is_special(s) || is_decimal_literal(s)
}

/// The text of a double as a frame keeps it: an explicit sign and a magnitude.
pub open spec fn is_double_text(s: Seq<u8>) -> bool {
    is_signed(s) && is_magnitude(s.skip(1))
}

/// `s` with a `+` put before it where it has no sign of its own.
pub open spec fn with_sign(s: Seq<u8>) -> Seq<u8> {
    if is_signed(s) {
        s
    } else {
        seq![PLUS] + s
    }
}

/// `leading_digits(s)` is in range, the bytes before it are digits, and the
/// byte at it, if any, is none.
pub proof fn lemma_leading_digits(s: Seq<u8>)
    ensures
        0 <= leading_digits(s) <= s.len(),
        forall|i: int| 0 <= i < leading_digits(s) ==> is_digit(#[trigger] s[i]),
        leading_digits(s) < s.len() ==> !is_digit(s[leading_digits(s)]),
    decreases s.len(),
{
    if s.len() == 0 || !is_digit(s[0]) {
    } else {
        let t = s.drop_first();
        lemma_leading_digits(t);
        assert forall|i: int| 0 <= i < leading_digits(s) implies is_digit(#[trigger] s[i]) by {
            if i > 0 {
                assert(s[i] == t[i - 1]);
            }
        }
    }
}

/// An index with the properties of `leading_digits` is `leading_digits`.
pub proof fn lemma_leading_digits_is(s: Seq<u8>, k: int)
    requires
        0 <= k <= s.len(),
        forall|i: int| 0 <= i < k ==> is_digit(#[trigger] s[i]),
        k < s.len() ==> !is_digit(s[k]),
    ensures
        leading_digits(s) == k,
    decreases s.len(),
{
    if s.len() == 0 || !is_digit(s[0]) {
    } else {
        let t = s.drop_first();
        assert forall|i: int| 0 <= i < k - 1 implies is_digit(#[trigger] t[i]) by {
            assert(t[i] == s[i + 1]);
        }
        lemma_leading_digits_is(t, k - 1);
    }
}

/// The three spellings, byte by byte.
pub proof fn lemma_special(s: Seq<u8>)
    ensures
        is_special(s) <==> s.len() == 3 && {
            ||| s[0] == 105 && s[1] == 110 && s[2] == 102
            ||| s[0] == 110 && s[1] == 97 && s[2] == 110
            ||| s[0] == 78 && s[1] == 97 && s[2] == 78
        },
{
    let inf = seq![105u8, 110u8, 102u8];
    let nan = seq![110u8, 97u8, 110u8];
    let upper = seq![78u8, 97u8, 78u8];
    assert(inf.len() == 3 && inf[0] == 105 && inf[1] == 110 && inf[2] == 102);
    assert(nan.len() == 3 && nan[0] == 110 && nan[1] == 97 && nan[2] == 110);
    assert(upper.len() == 3 && upper[0] == 78 && upper[1] == 97 && upper[2] == 78);
    if s.len() == 3 {
        if s[0] == 105 && s[1] == 110 && s[2] == 102 {
            assert(s =~= inf);
        }
        if s[0] == 110 && s[1] == 97 && s[2] == 110 {
            assert(s =~= nan);
        }
        if s[0] == 78 && s[1] == 97 && s[2] == 78 {
            assert(s =~= upper);
        }
    }
}

/// Counts the digits that `buf[start..end]` starts with.
pub fn count_digits(buf: &[u8], start: usize, end: usize) -> (n: usize)
    requires
        start <= end <= buf@.len(),
    ensures
        n == leading_digits(buf@.subrange(start as int, end as int)),
        start + n <= end,
{
    let ghost s = buf@.subrange(start as int, end as int);
    let mut i: usize = start;
    while i < end && ZERO <= buf[i] && buf[i] <= ZERO + 9
        invariant
            start <= i <= end <= buf@.len(),
            s == buf@.subrange(start as int, end as int),
            forall|j: int| 0 <= j < i - start ==> is_digit(#[trigger] s[j]),
        decreases end - i,
    {
        i += 1;
    }
    proof {
        lemma_leading_digits_is(s, i - start);
    }
    i - start
}

/// Whether `buf[start..end]` is an exponent.
pub fn check_exponent(buf: &[u8], start: usize, end: usize) -> (r: bool)
    requires
        start <= end <= buf@.len(),
    ensures
        r == is_exponent(buf@.subrange(start as int, end as int)),
{
    let ghost s = buf@.subrange(start as int, end as int);
    if end - start < 2 || !(buf[start] == LOWER_E || buf[start] == UPPER_E) {
        return false;
    }
    let signed: bool = buf[start + 1] == PLUS || buf[start + 1] == MINUS;
    let first: usize = if signed { start + 2 } else { start + 1 };
    let ghost digits = numeral_digits(s.skip(1));
    proof {
        assert(s.skip(1)[0] == buf@[start + 1]);
        assert(digits =~= buf@.subrange(first as int, end as int));
    }
    let n: usize = count_digits(buf, first, end);
    proof {
        lemma_leading_digits(digits);
    }
    first < end && first + n == end
}

/// Whether `buf[start..end]` may follow the integer part of a decimal literal.
pub fn check_decimal_tail(buf: &[u8], start: usize, end: usize) -> (r: bool)
    requires
        start <= end <= buf@.len(),
    ensures
        r == is_decimal_tail(buf@.subrange(start as int, end as int)),
{
    let ghost s = buf@.subrange(start as int, end as int);
    if start == end {
        true
    } else if buf[start] == DOT {
        let n: usize = count_digits(buf, start + 1, end);
        proof {
            assert(s.skip(1) =~= buf@.subrange(start + 1, end as int));
            assert(s.skip(1 + n) =~= buf@.subrange(start + 1 + n, end as int));
        }
        n >= 1 && (start + 1 + n == end || check_exponent(buf, start + 1 + n, end))
    } else {
        check_exponent(buf, start, end)
    }
}

/// Whether `buf[start..end]` is the magnitude of a double.
pub fn check_magnitude(buf: &[u8], start: usize, end: usize) -> (r: bool)
    requires
        start <= end <= buf@.len(),
    ensures
        r == is_magnitude(buf@.subrange(start as int, end as int)),
{
    let ghost s = buf@.subrange(start as int, end as int);
    let n: usize = count_digits(buf, start, end);
    proof {
        lemma_special(s);
        lemma_leading_digits(s);
    }
    if n >= 1 {
        proof {
            assert(s.skip(n as int) =~= buf@.subrange(start + n, end as int));
            assert(is_digit(s[0]));
        }
        check_decimal_tail(buf, start + n, end)
    } else if end - start == 3 {
        let a: u8 = buf[start];
        let b: u8 = buf[start + 1];
        let c: u8 = buf[start + 2];
        (a == 105 && b == 110 && c == 102) || (a == 110 && b == 97 && c == 110) || (a == 78 && b
            == 97 && c == 78)
    } else {
        false
    }
}

/// Whether `buf[start..end]`, given a `+` where it has no sign, is the text
/// of a double.
pub fn check_double(buf: &[u8], start: usize, end: usize) -> (r: bool)
    requires
        start <= end <= buf@.len(),
    ensures
        r == is_double_text(with_sign(buf@.subrange(start as int, end as int))),
{
    let ghost s = buf@.subrange(start as int, end as int);
    let signed: bool = start < end && (buf[start] == PLUS || buf[start] == MINUS);
    let first: usize = if signed { start + 1 } else { start };
    proof {
        assert(signed == is_signed(s));
        assert(with_sign(s).skip(1) =~= buf@.subrange(first as int, end as int));
    }
    check_magnitude(buf, first, end)
}

/// An exponent holds no CR and no LF.
proof fn lemma_exponent_is_one_line(s: Seq<u8>)
    requires
        is_exponent(s),
    ensures
        !has_line_break(s),
{
    let digits = numeral_digits(s.skip(1));
    lemma_digits_are_one_line(digits);
    let mark = s.take(1);
    assert(!has_line_break(mark)) by {
        assert forall|i: int| 0 <= i < mark.len() implies !is_line_break(#[trigger] mark[i]) by {
            assert(mark[i] == s[0]);
        }
    }
    if is_signed(s.skip(1)) {
        let sign = s.subrange(1, 2);
        assert(!has_line_break(sign)) by {
            assert forall|i: int| 0 <= i < sign.len() implies !is_line_break(
                #[trigger] sign[i],
            ) by {
                assert(sign[i] == s.skip(1)[0]);
            }
        }
        lemma_line_break_concat(mark, sign);
        lemma_line_break_concat(mark + sign, digits);
        assert(s =~= mark + sign + digits);
    } else {
        lemma_line_break_concat(mark, digits);
        assert(s =~= mark + digits);
    }
}

/// What may follow the integer part of a decimal literal holds no CR and no LF.
proof fn lemma_decimal_tail_is_one_line(s: Seq<u8>)
    requires
        is_decimal_tail(s),
    ensures
        !has_line_break(s),
{
    if s.len() == 0 {
    } else if s[0] == DOT {
        let after = s.skip(1);
        let n = leading_digits(after);
        lemma_leading_digits(after);
        let dot = s.take(1);
        let fraction = after.take(n);
        let last = after.skip(n);
        assert(!has_line_break(dot)) by {
            assert forall|i: int| 0 <= i < dot.len() implies !is_line_break(#[trigger] dot[i]) by {
                assert(dot[i] == s[0]);
            }
        }
        assert(all_digits(fraction)) by {
            assert forall|i: int| 0 <= i < fraction.len() implies is_digit(
                #[trigger] fraction[i],
            ) by {
                assert(fraction[i] == after[i]);
            }
        }
        lemma_digits_are_one_line(fraction);
        if s.len() == 1 + n {
            assert(last =~= Seq::<u8>::empty());
        } else {
            assert(last =~= s.skip(1 + n));
            lemma_exponent_is_one_line(last);
        }
        lemma_line_break_concat(dot, fraction);
        lemma_line_break_concat(dot + fraction, last);
        assert(s =~= dot + fraction + last);
    } else {
        lemma_exponent_is_one_line(s);
    }
}

/// The text of a double holds no CR and no LF.
pub proof fn lemma_double_text_is_one_line(s: Seq<u8>)
    requires
        is_double_text(s),
    ensures
        !has_line_break(s),
{
    let sign = s.take(1);
    let magnitude = s.skip(1);
    assert(!has_line_break(sign)) by {
        assert forall|i: int| 0 <= i < sign.len() implies !is_line_break(#[trigger] sign[i]) by {
            assert(sign[i] == s[0]);
        }
    }
    assert(!has_line_break(magnitude)) by {
        lemma_special(magnitude);
        if is_special(magnitude) {
            assert forall|i: int| 0 <= i < magnitude.len() implies !is_line_break(
                #[trigger] magnitude[i],
            ) by {
                assert(i == 0 || i == 1 || i == 2);
            }
        } else {
            let n = leading_digits(magnitude);
            lemma_leading_digits(magnitude);
            let whole = magnitude.take(n);
            let tail = magnitude.skip(n);
            assert(all_digits(whole)) by {
                assert forall|i: int| 0 <= i < whole.len() implies is_digit(
                    #[trigger] whole[i],
                ) by {
                    assert(whole[i] == magnitude[i]);
                }
            }
            lemma_digits_are_one_line(whole);
            lemma_decimal_tail_is_one_line(tail);
            lemma_line_break_concat(whole, tail);
            assert(magnitude =~= whole + tail);
        }
    }
    lemma_line_break_concat(sign, magnitude);
    assert(s =~= sign + magnitude);
}

} // verus!
