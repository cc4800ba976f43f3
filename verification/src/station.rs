//! The running statistic kept for one station name.
//!
//! Values are whole numbers of tenths. A [`Station`] keeps the smallest and
//! the largest value seen, their exact sum and how many there were. Its
//! mathematical content is a [`Summary`]; every contract here is stated over
//! summaries, where arithmetic is unbounded.

use vstd::prelude::*;
use crate::decimal::{lemma_render_is_ascii, push_tenths, render_tenths};

verus! {

/// The byte `=`.
pub const EQUALS: u8 = 61;

/// The byte `/`.
pub const SLASH: u8 = 47;

/// The most values one station can hold. With this cap the sum of that many
/// `i64` values always fits in an `i128`.
pub const MAX_COUNT: u128 = 0xFFFF_FFFF_FFFF_FFFF;

pub open spec fn min_of(a: int, b: int) -> int {
    if a <= b {
        a
    } else {
        b
    }
}

pub open spec fn max_of(a: int, b: int) -> int {
    if a >= b {
        a
    } else {
        b
    }
}

/// What a station has seen, as unbounded numbers.
pub struct Summary {
    pub min: int,
    pub max: int,
    pub sum: int,
    pub count: nat,
}

impl Summary {
    /// Nothing seen yet. The bounds are the neutral elements of `min` and
    /// `max` over `i64`, so that joining with `empty()` changes nothing.
    pub open spec fn empty() -> Summary {
        Summary { min: i64::MAX as int, max: i64::MIN as int, sum: 0, count: 0 }
    }

    /// One value seen.
    pub open spec fn seed(value: int) -> Summary {
        Summary { min: value, max: value, sum: value, count: 1 }
    }

    /// One more value seen.
    pub open spec fn fold(self, value: int) -> Summary {
        Summary {
            min: min_of(self.min, value),
            max: max_of(self.max, value),
            sum: self.sum + value,
            count: self.count + 1,
        }
    }

    /// Everything that either side has seen.
    pub open spec fn join(self, other: Summary) -> Summary {
        Summary {
            min: min_of(self.min, other.min),
            max: max_of(self.max, other.max),
            sum: self.sum + other.sum,
            count: self.count + other.count,
        }
    }

    /// The mean in tenths, rounded to the nearest tenth, a tie going up:
    /// the floor of `sum / count + 1/2`.
    pub open spec fn mean(self) -> int
        recommends
            self.count > 0,
    {
        (2 * self.sum + self.count) / (2 * self.count as int)
    }

    /// What holds of every summary that a station can reach.
    pub open spec fn valid(self) -> bool {
        &&& i64::MIN <= self.min <= i64::MAX
        &&& i64::MIN <= self.max <= i64::MAX
        &&& self.count <= MAX_COUNT
        &&& self.count * self.min <= self.sum <= self.count * self.max
        &&& self.count == 0 ==> self == Summary::empty()
        &&& self.count >= 1 ==> self.min <= self.max
    }

    /// The text `=min/mean/max`, each number with one fractional digit.
    pub open spec fn text(self) -> Seq<u8> {
        seq![EQUALS] + render_tenths(self.min) + seq![SLASH] + render_tenths(self.mean())
            + seq![SLASH] + render_tenths(self.max)
    }
}

/// Whether every byte is an ASCII character.
pub open spec fn is_ascii(bytes: Seq<u8>) -> bool {
    forall|i: int| 0 <= i < bytes.len() ==> (#[trigger] bytes[i]) < 128
}

/// The characters that a run of ASCII bytes spells.
pub open spec fn ascii_chars(bytes: Seq<u8>) -> Seq<char> {
    Seq::new(bytes.len(), |i: int| bytes[i] as char)
}

/// The text of a summary is ASCII.
pub proof fn lemma_text_is_ascii(a: Summary)
    ensures
        is_ascii(a.text()),
{
    lemma_render_is_ascii(a.min);
    lemma_render_is_ascii(a.mean());
    lemma_render_is_ascii(a.max);
    let lo = render_tenths(a.min);
    let mid = render_tenths(a.mean());
    let hi = render_tenths(a.max);
    let text = a.text();
    assert forall|i: int| 0 <= i < text.len() implies (#[trigger] text[i]) < 128 by {
        if i < 1 {
        } else if i < 1 + lo.len() {
            assert(text[i] == lo[i - 1]);
        } else if i < 2 + lo.len() {
        } else if i < 2 + lo.len() + mid.len() {
            assert(text[i] == mid[i - 2 - lo.len()]);
        } else if i < 3 + lo.len() + mid.len() {
        } else {
            assert(text[i] == hi[i - 3 - lo.len() - mid.len()]);
        }
    }
}

/// `String::from_utf8` on ASCII bytes: a string with one character for each
/// byte, the character with that byte's code.
#[verifier::external_body]
fn string_from_ascii(bytes: Vec<u8>) -> (s: String)
    requires
        is_ascii(bytes@),
    ensures
        s@ == ascii_chars(bytes@),
{
    String::from_utf8(bytes).unwrap_or_default()
}

/// Joining is commutative.
pub proof fn lemma_join_commutative(a: Summary, b: Summary)
    ensures
        a.join(b) == b.join(a),
{
}

/// Joining is associative.
pub proof fn lemma_join_associative(a: Summary, b: Summary, c: Summary)
    ensures
        a.join(b).join(c) == a.join(b.join(c)),
{
}

/// The empty summary is neutral for joining.
pub proof fn lemma_join_empty(a: Summary)
    requires
        a.valid(),
    ensures
        a.join(Summary::empty()) == a,
        Summary::empty().join(a) == a,
{
}

/// Folding a value is joining with the summary of that value alone.
pub proof fn lemma_fold_is_join_seed(a: Summary, value: int)
    ensures
        a.fold(value) == a.join(Summary::seed(value)),
{
}

/// A summary of one value has that value as its minimum, mean and maximum.
pub proof fn lemma_seed_finalizes_to_itself(value: int)
    ensures
        Summary::seed(value).min == value,
        Summary::seed(value).max == value,
        Summary::seed(value).mean() == value,
{
    assert((2 * value + 1) / 2 == value);
}

/// Folding keeps a summary valid while there is room for one more value.
pub proof fn lemma_fold_valid(a: Summary, value: int)
    requires
        a.valid(),
        a.count < MAX_COUNT,
        i64::MIN <= value <= i64::MAX,
    ensures
        a.fold(value).valid(),
{
    lemma_join_valid(a, Summary::seed(value));
}

/// Joining keeps summaries valid while the counts together stay in range.
pub proof fn lemma_join_valid(a: Summary, b: Summary)
    requires
        a.valid(),
        b.valid(),
        a.count + b.count <= MAX_COUNT,
    ensures
        a.join(b).valid(),
{
    let j = a.join(b);
    assert(a.count * j.min <= a.count * a.min) by (nonlinear_arith)
        requires
            j.min <= a.min,
            a.count >= 0,
    ;
    assert(b.count * j.min <= b.count * b.min) by (nonlinear_arith)
        requires
            j.min <= b.min,
            b.count >= 0,
    ;
    assert(a.count * a.max <= a.count * j.max) by (nonlinear_arith)
        requires
            a.max <= j.max,
            a.count >= 0,
    ;
    assert(b.count * b.max <= b.count * j.max) by (nonlinear_arith)
        requires
            b.max <= j.max,
            b.count >= 0,
    ;
    assert((a.count + b.count) * j.min == a.count * j.min + b.count * j.min)
        by (nonlinear_arith);
    assert((a.count + b.count) * j.max == a.count * j.max + b.count * j.max)
        by (nonlinear_arith);
}

/// The sum of a valid summary fits in an `i128` with room to spare.
pub proof fn lemma_sum_bounds(a: Summary)
    requires
        a.valid(),
    ensures
        -(MAX_COUNT * 0x8000_0000_0000_0000) <= a.sum <= MAX_COUNT * 0x7FFF_FFFF_FFFF_FFFF,
{
    assert(a.count * a.min >= -(MAX_COUNT * 0x8000_0000_0000_0000)) by (nonlinear_arith)
        requires
            0 <= a.count <= MAX_COUNT,
            a.min >= -0x8000_0000_0000_0000,
    ;
    assert(a.count * a.max <= MAX_COUNT * 0x7FFF_FFFF_FFFF_FFFF) by (nonlinear_arith)
        requires
            0 <= a.count <= MAX_COUNT,
            a.max <= 0x7FFF_FFFF_FFFF_FFFF,
    ;
}

/// The mean of a valid, non-empty summary lies between its minimum and its
/// maximum.
pub proof fn lemma_mean_between(a: Summary)
    requires
        a.valid(),
        a.count >= 1,
    ensures
        a.min <= a.mean() <= a.max,
{
    let c = a.count as int;
    let n = 2 * a.sum + c;
    let d = 2 * c;
    assert(n >= d * a.min) by (nonlinear_arith)
        requires
            n == 2 * a.sum + c,
            d == 2 * c,
            c * a.min <= a.sum,
            c >= 1,
    ;
    assert(n < d * (a.max + 1)) by (nonlinear_arith)
        requires
            n == 2 * a.sum + c,
            d == 2 * c,
            a.sum <= c * a.max,
            c >= 1,
    ;
    assert(n / d >= a.min) by (nonlinear_arith)
        requires
            n >= d * a.min,
            d > 0,
    ;
    assert(n / d < a.max + 1) by (nonlinear_arith)
        requires
            n < d * (a.max + 1),
            d > 0,
    ;
}

/// The mean is the one number of tenths that is within half a tenth of the
/// exact quotient, the upper end of that range left out.
pub proof fn lemma_mean_is(a: Summary, mean: int)
    requires
        a.count >= 1,
        2 * a.count * mean <= 2 * a.sum + a.count < 2 * a.count * (mean + 1),
    ensures
        a.mean() == mean,
{
    let d = 2 * a.count as int;
    let n = 2 * a.sum + a.count;
    assert(d * mean == 2 * a.count * mean && d * (mean + 1) == 2 * a.count * (mean + 1)
        && d * (mean + 1) == d * mean + d) by (nonlinear_arith)
        requires
            d == 2 * a.count as int,
    ;
    assert(0 <= n - d * mean < d);
    vstd::arithmetic::div_mod::lemma_fundamental_div_mod_converse(n, d, mean, n - d * mean);
}

/// The floor of `sum / count` also lies between minimum and maximum.
proof fn lemma_quotient_between(a: Summary)
    requires
        a.valid(),
        a.count >= 1,
    ensures
        a.min <= a.sum / (a.count as int) <= a.max,
{
    let c = a.count as int;
    assert(a.sum / c >= a.min) by (nonlinear_arith)
        requires
            a.sum >= c * a.min,
            c > 0,
    ;
    assert(a.sum / c <= a.max) by (nonlinear_arith)
        requires
            a.sum <= c * a.max,
            c > 0,
    ;
}

/// The running statistic of one station.
#[derive(Clone, Copy, Debug, PartialEq, Eq)]
pub struct Station {
    min: i64,
    max: i64,
    sum: i128,
    count: u128,
}

impl View for Station {
    type V = Summary;

    closed spec fn view(&self) -> Summary {
        Summary {
            min: self.min as int,
            max: self.max as int,
            sum: self.sum as int,
            count: self.count as nat,
        }
    }
}

impl Station {
    /// The invariant of a station: its summary is valid.
    pub open spec fn wf(&self) -> bool {
        self@.valid()
    }

    /// A station that has seen nothing.
    pub fn new() -> (s: Station)
        ensures
            s@ == Summary::empty(),
            s.wf(),
    {
        Station { min: i64::MAX, max: i64::MIN, sum: 0, count: 0 }
    }

    /// A station that has seen `value`.
    pub fn from(value: i64) -> (s: Station)
        ensures
            s@ == Summary::seed(value as int),
            s.wf(),
    {
        Station { min: value, max: value, sum: value as i128, count: 1 }
    }

    /// Takes one more value in.
    pub fn update(&mut self, value: i64)
        requires
            old(self).wf(),
            old(self)@.count < MAX_COUNT,
        ensures
            final(self)@ == old(self)@.fold(value as int),
            final(self).wf(),
    {
        proof {
            lemma_sum_bounds(self@);
            lemma_fold_valid(self@, value as int);
        }
        if value < self.min {
            self.min = value;
        }
        if value > self.max {
            self.max = value;
        }
        self.sum = self.sum + value as i128;
        self.count = self.count + 1;
    }

    /// Takes in everything that `other` has seen.
    pub fn join(&mut self, other: &Station)
        requires
            old(self).wf(),
            other.wf(),
            old(self)@.count + other@.count <= MAX_COUNT,
        ensures
            final(self)@ == old(self)@.join(other@),
            final(self).wf(),
    {
        proof {
            lemma_sum_bounds(self@);
            lemma_sum_bounds(other@);
            lemma_join_valid(self@, other@);
            lemma_sum_bounds(self@.join(other@));
        }
        if other.min < self.min {
            self.min = other.min;
        }
        if other.max > self.max {
            self.max = other.max;
        }
        self.sum = self.sum + other.sum;
        self.count = self.count + other.count;
    }

    /// The smallest value seen.
    pub fn min(&self) -> (r: i64)
        ensures
            r == self@.min,
    {
        self.min
    }

    /// The largest value seen.
    pub fn max(&self) -> (r: i64)
        ensures
            r == self@.max,
    {
        self.max
    }

    /// The sum of the values seen.
    pub fn sum(&self) -> (r: i128)
        ensures
            r == self@.sum,
    {
        self.sum
    }

    /// How many values were seen.
    pub fn count(&self) -> (r: u128)
        ensures
            r == self@.count,
    {
        self.count
    }

    /// The mean in tenths, rounded to the nearest tenth, a tie going up.
    pub fn mean(&self) -> (r: i64)
        requires
            self.wf(),
            self@.count >= 1,
        ensures
            r == self@.mean(),
            self@.min <= r <= self@.max,
    {
        let c: i128 = self.count as i128;
        proof {
            lemma_sum_bounds(self@);
            lemma_mean_between(self@);
            lemma_quotient_between(self@);
        }
        let q: i128 = self.sum.checked_div_euclid(c).unwrap();
        let r: i128 = self.sum.checked_rem_euclid(c).unwrap();
        let ghost n = 2 * self.sum + c;
        let ghost d = 2 * c;
        proof {
            assert(self.sum == c * q + r && 0 <= r < c) by {
                vstd::arithmetic::div_mod::lemma_fundamental_div_mod(self.sum as int, c as int);
                vstd::arithmetic::div_mod::lemma_mod_bound(self.sum as int, c as int);
            }
        }
        if 2 * r >= c {
            proof {
                assert(n == d * (q + 1) + (2 * r - c)) by (nonlinear_arith)
                    requires
                        n == 2 * self.sum + c,
                        d == 2 * c,
                        self.sum == c * q + r,
                ;
                vstd::arithmetic::div_mod::lemma_fundamental_div_mod_converse(
                    n,
                    d as int,
                    q + 1,
                    2 * r - c,
                );
            }
            (q + 1) as i64
        } else {
            proof {
                assert(n == d * q + (2 * r + c)) by (nonlinear_arith)
                    requires
                        n == 2 * self.sum + c,
                        d == 2 * c,
                        self.sum == c * q + r,
                ;
                vstd::arithmetic::div_mod::lemma_fundamental_div_mod_converse(
                    n,
                    d as int,
                    q as int,
                    2 * r + c,
                );
            }
            q as i64
        }
    }

    /// Minimum, mean and maximum, in tenths.
    pub fn finalize(&self) -> (r: (i64, i64, i64))
        requires
            self.wf(),
            self@.count >= 1,
        ensures
            r.0 == self@.min,
            r.1 == self@.mean(),
            r.2 == self@.max,
    {
        (self.min, self.mean(), self.max)
    }

    /// Gives the station up for its text, `=min/mean/max`.
    pub fn drain(self) -> (text: String)
        requires
            self.wf(),
            self@.count >= 1,
        ensures
            text@ == ascii_chars(self@.text()),
    {
        let mut out: Vec<u8> = Vec::new();
        self.render(&mut out);
        proof {
            lemma_text_is_ascii(self@);
            assert(out@ =~= self@.text());
        }
        string_from_ascii(out)
    }

    /// Appends `=min/mean/max` to `out`.
    pub fn render(&self, out: &mut Vec<u8>)
        requires
            self.wf(),
            self@.count >= 1,
        ensures
            final(out)@ == old(out)@ + self@.text(),
    {
        out.push(EQUALS);
        push_tenths(out, self.min);
        out.push(SLASH);
        push_tenths(out, self.mean());
        out.push(SLASH);
        push_tenths(out, self.max);
        assert(final(out)@ =~= old(out)@ + self@.text());
    }
}

} // verus!
