//! Fixed-point decimals with one fractional digit.
//!
//! A measurement such as `-5.1` is held as the integer number of tenths it
//! stands for (`-51`), so that sums are exact. This module states the textual
//! form of such a value and converts between text and tenths.

use vstd::prelude::*;

verus! {

/// The byte `-`.
pub const MINUS: u8 = 45;

/// The byte `.`.
pub const POINT: u8 = 46;

/// The byte `0`.
pub const DIGIT_ZERO: u8 = 48;

/// The byte `9`.
pub const DIGIT_NINE: u8 = 57;

/// The largest integer part whose tenths can still fit in an `i64`.
pub const MAX_WHOLE: u64 = 922337203685477580;

pub open spec fn is_digit(b: u8) -> bool {
    DIGIT_ZERO <= b <= DIGIT_NINE
}

/// The number a digit byte stands for.
pub open spec fn digit_value(b: u8) -> nat {
    (b - DIGIT_ZERO) as nat
}

pub open spec fn all_digits(s: Seq<u8>) -> bool {
    forall|i: int| 0 <= i < s.len() ==> is_digit(#[trigger] s[i])
}

/// The number written by a run of decimal digits, most significant first.
pub open spec fn digits_value(s: Seq<u8>) -> nat
    decreases s.len(),
{
    if s.len() == 0 {
        0
    } else {
        digits_value(s.drop_last()) * 10 + digit_value(s.last())
    }
}

/// An unsigned value: one or more digits, a point, exactly one digit.
pub open spec fn is_magnitude(s: Seq<u8>) -> bool {
    &&& s.len() >= 3
    &&& all_digits(s.take(s.len() - 2))
    &&& s[s.len() - 2] == POINT
    &&& is_digit(s[s.len() - 1])
}

/// The tenths that an unsigned value stands for.
pub open spec fn magnitude_tenths(s: Seq<u8>) -> nat {
    digits_value(s.take(s.len() - 2)) * 10 + digit_value(s[s.len() - 1])
}

pub open spec fn has_sign(s: Seq<u8>) -> bool {
    s.len() > 0 && s[0] == MINUS
}

/// The field without its leading minus sign, if it has one.
pub open spec fn unsigned_part(s: Seq<u8>) -> Seq<u8> {
    if has_sign(s) {
        s.skip(1)
    } else {
        s
    }
}

/// What a value field means: an optional minus sign, one or more digits, a
/// point and one digit denote that many tenths. Anything else, and any value
/// whose tenths exceed `i64::MAX` in magnitude, denotes nothing.
pub open spec fn parse_tenths(s: Seq<u8>) -> Option<int> {
    let body = unsigned_part(s);
    if is_magnitude(body) && magnitude_tenths(body) <= i64::MAX {
        if has_sign(s) {
            Some(-(magnitude_tenths(body) as int))
        } else {
            Some(magnitude_tenths(body) as int)
        }
    } else {
        None
    }
}

/// The decimal digits of `n`, most significant first, without leading zeros.
pub open spec fn digits_of(n: nat) -> Seq<u8>
    decreases n,
{
    if n < 10 {
        seq![(DIGIT_ZERO + n) as u8]
    } else {
        digits_of(n / 10).push((DIGIT_ZERO + n % 10) as u8)
    }
}

pub open spec fn abs(t: int) -> nat {
    if t < 0 {
        (-t) as nat
    } else {
        t as nat
    }
}

/// The text of a number of tenths: sign, integer part, point, one digit.
pub open spec fn render_tenths(t: int) -> Seq<u8> {
    let sign = if t < 0 {
        seq![MINUS]
    } else {
        Seq::<u8>::empty()
    };
    sign + digits_of(abs(t) / 10) + seq![POINT, (DIGIT_ZERO + abs(t) % 10) as u8]
}

/// A run of digits is worth at least as much as any of its prefixes.
pub proof fn lemma_digits_value_monotone(s: Seq<u8>, k: int)
    requires
        0 <= k <= s.len(),
    ensures
        digits_value(s.take(k)) <= digits_value(s),
    decreases s.len(),
{
    if k == s.len() {
        assert(s.take(k) =~= s);
    } else {
        lemma_digits_value_monotone(s.drop_last(), k);
        assert(s.drop_last().take(k) =~= s.take(k));
    }
}

/// Reading one more digit multiplies by ten and adds the digit.
pub proof fn lemma_digits_value_step(s: Seq<u8>, k: int)
    requires
        0 <= k < s.len(),
    ensures
        digits_value(s.take(k + 1)) == digits_value(s.take(k)) * 10 + digit_value(s[k]),
{
    assert(s.take(k + 1).drop_last() =~= s.take(k));
}

pub proof fn lemma_digits_of_are_digits(n: nat)
    ensures
        digits_of(n).len() >= 1,
        all_digits(digits_of(n)),
        digits_value(digits_of(n)) == n,
    decreases n,
{
    if n < 10 {
        let s = digits_of(n);
        assert(s.drop_last() =~= Seq::<u8>::empty());
        assert(digits_value(s.drop_last()) == 0);
    } else {
        lemma_digits_of_are_digits(n / 10);
        let s = digits_of(n);
        assert(s.drop_last() =~= digits_of(n / 10));
    }
}

/// Rendering and parsing are inverse: every number of tenths that parsing
/// can produce is recovered from its own text.
pub proof fn lemma_render_then_parse(t: int)
    requires
        -i64::MAX <= t <= i64::MAX,
    ensures
        parse_tenths(render_tenths(t)) == Some(t),
{
    let whole = digits_of(abs(t) / 10);
    let last = (DIGIT_ZERO + abs(t) % 10) as u8;
    let body = whole + seq![POINT, last];
    let text = render_tenths(t);
    lemma_digits_of_are_digits(abs(t) / 10);
    if t < 0 {
        assert(text =~= seq![MINUS] + body);
        assert(text[0] == MINUS);
        assert(text.skip(1) =~= body);
    } else {
        assert(text =~= body);
        assert(whole[0] != MINUS);
        assert(text[0] == whole[0]);
    }
    assert(unsigned_part(text) == body);
    assert(body.take(body.len() - 2) =~= whole);
    assert(body[body.len() - 2] == POINT);
    assert(body[body.len() - 1] == last);
}

/// The text of a number holds only the sign, the point and digits, all of
/// them ASCII.
pub proof fn lemma_render_is_ascii(t: int)
    ensures
        forall|i: int| 0 <= i < render_tenths(t).len() ==> (#[trigger] render_tenths(t)[i]) < 128,
{
    let whole = digits_of(abs(t) / 10);
    lemma_digits_of_are_digits(abs(t) / 10);
    let tail = seq![POINT, (DIGIT_ZERO + abs(t) % 10) as u8];
    let text = render_tenths(t);
    assert forall|i: int| 0 <= i < text.len() implies (#[trigger] text[i]) < 128 by {
        let sign_len = if t < 0 {
            1int
        } else {
            0int
        };
        if i < sign_len {
        } else if i < sign_len + whole.len() {
            assert(text[i] == whole[i - sign_len]);
            assert(is_digit(whole[i - sign_len]));
        } else {
            assert(text[i] == tail[i - sign_len - whole.len()]);
        }
    }
}

/// Whether `b` is a decimal digit.
pub fn digit(b: u8) -> (r: bool)
    ensures
        r == is_digit(b),
{
    DIGIT_ZERO <= b && b <= DIGIT_NINE
}

/// Reads a value field as a number of tenths.
pub fn parse_value(field: &[u8]) -> (r: Option<i64>)
    ensures
        match r {
            Some(v) => parse_tenths(field@) == Some(v as int),
            None => parse_tenths(field@) is None,
        },
{
    let n: usize = field.len();
    let negative: bool = n > 0 && field[0] == MINUS;
    let start: usize = if negative {
        1
    } else {
        0
    };
    let ghost body = unsigned_part(field@);
    assert(body =~= field@.skip(start as int));
    if n - start < 3 {
        return None;
    }
    if field[n - 2] != POINT || !digit(field[n - 1]) {
        return None;
    }
    let ghost whole = body.take(body.len() - 2);
    let mut acc: u64 = 0;
    let mut i: usize = start;
    while i < n - 2
        invariant
            start <= i <= n - 2,
            n == field.len(),
            body == field@.skip(start as int),
            body == unsigned_part(field@),
            body.len() == n - start,
            whole == body.take(body.len() - 2),
            acc == digits_value(whole.take(i - start)),
            acc <= MAX_WHOLE,
            all_digits(whole.take(i - start)),
        decreases n - i,
    {
        let b: u8 = field[i];
        assert(whole[i - start] == b);
        if !digit(b) {
            assert(!all_digits(whole));
            return None;
        }
        proof {
            lemma_digits_value_step(whole, i - start);
            assert(whole.take(i - start + 1).drop_last() =~= whole.take(i - start));
        }
        acc = acc * 10 + (b - DIGIT_ZERO) as u64;
        if acc > MAX_WHOLE {
            proof {
                lemma_digits_value_monotone(whole, i - start + 1);
                assert(magnitude_tenths(body) >= acc * 10);
            }
            return None;
        }
        i = i + 1;
    }
    assert(whole.take(i - start) =~= whole);
    let tenths: u64 = acc * 10 + (field[n - 1] - DIGIT_ZERO) as u64;
    assert(tenths == magnitude_tenths(body));
    if tenths > i64::MAX as u64 {
        return None;
    }
    if negative {
        Some(-(tenths as i64))
    } else {
        Some(tenths as i64)
    }
}

/// The magnitude of `value`.
pub fn magnitude(value: i64) -> (r: u64)
    ensures
        r == abs(value as int),
{
    if value < 0 {
        (-(value + 1)) as u64 + 1
    } else {
        value as u64
    }
}

/// Appends the decimal digits of `n` to `out`.
pub fn push_digits(out: &mut Vec<u8>, n: u64)
    ensures
        final(out)@ == old(out)@ + digits_of(n as nat),
    decreases n,
{
    if n >= 10 {
        push_digits(out, n / 10);
    }
    out.push(DIGIT_ZERO + (n % 10) as u8);
    proof {
        if n < 10 {
            assert(final(out)@ =~= old(out)@ + digits_of(n as nat));
        } else {
            assert(final(out)@ =~= old(out)@ + digits_of(n as nat));
        }
    }
}

/// Appends the text of `value` tenths to `out`.
pub fn push_tenths(out: &mut Vec<u8>, value: i64)
    ensures
        final(out)@ == old(out)@ + render_tenths(value as int),
{
    let m: u64 = magnitude(value);
    if value < 0 {
        out.push(MINUS);
    }
    push_digits(out, m / 10);
    out.push(POINT);
    out.push(DIGIT_ZERO + (m % 10) as u8);
    assert(final(out)@ =~= old(out)@ + render_tenths(value as int));
}

} // verus!
