//! The numeric part of a duration: a signed decimal numeral, read exactly.

use crate::error::Error;
use crate::unit::{Unit, YEAR};
use vstd::prelude::*;

verus! {

/// Whether `b` is one of the ASCII digits `0` to `9`.
pub open spec fn spec_is_digit(b: u8) -> bool {
    '0' as u8 <= b <= '9' as u8
}

/// Whether `b` is one of the ASCII digits `0` to `9`.
#[verifier::when_used_as_spec(spec_is_digit)]
pub fn is_digit(b: u8) -> (r: bool)
    ensures
        r == spec_is_digit(b),
{
    '0' as u8 <= b && b <= '9' as u8
}

/// Whether every byte of `s` is an ASCII digit.
pub open spec fn all_digits(s: Seq<u8>) -> bool {
    forall|i: int| 0 <= i < s.len() ==> is_digit(#[trigger] s[i])
}

/// How many ASCII digits `s` starts with.
pub open spec fn digit_run(s: Seq<u8>) -> nat
    decreases s.len(),
{
    if s.len() > 0 && is_digit(s[0]) {
        1 + digit_run(s.drop_first())
    } else {
        0
    }
}

/// The number that the decimal digits `s` spell, most significant digit first.
pub open spec fn digits_value(s: Seq<u8>) -> nat
    decreases s.len(),
{
    if s.len() == 0 {
        0
    } else {
        digits_value(s.drop_last()) * 10 + (s.last() - '0' as u8) as nat
    }
}

/// Ten to the power of `n`.
pub open spec fn pow10(n: nat) -> nat
    decreases n,
{
    if n == 0 {
        1
    } else {
        10 * pow10((n - 1) as nat)
    }
}

/// The quotient `n / d` rounded to the nearest integer, a half rounded up.
pub open spec fn round_div(n: int, d: int) -> int {
    (2 * n + d) / (2 * d)
}

/// `v` where it fits in an `i64`, else the nearest bound of `i64`.
pub open spec fn saturate(v: int) -> i64 {
    if v > i64::MAX {
        i64::MAX
    } else if v < i64::MIN {
        i64::MIN
    } else {
        v as i64
    }
}

/// A decimal numeral: whether it has a minus sign, the digits before the
/// point and the digits after it.
pub struct Decimal {
    pub negative: bool,
    pub whole: Seq<u8>,
    pub fraction: Seq<u8>,
}

impl Decimal {
    /// The number that all the digits spell when the point is left out: the
    /// magnitude of the numeral times `10^scale`.
    pub open spec fn mantissa(self) -> nat {
        digits_value(self.whole + self.fraction)
    }

    /// How many digits stand after the point.
    pub open spec fn scale(self) -> nat {
        self.fraction.len()
    }

    /// The numeral times `factor`, rounded to the nearest integer, a half
    /// rounded away from zero.
    pub open spec fn times(self, factor: int) -> int {
        let magnitude = round_div(self.mantissa() * factor, pow10(self.scale()) as int);
        if self.negative {
            -magnitude
        } else {
            magnitude
        }
    }

    /// The milliseconds in this many `unit`s, rounded to the nearest
    /// millisecond, a half rounded away from zero, and kept within the range
    /// of `i64`.
    pub open spec fn millis(self, unit: Unit) -> i64 {
        saturate(self.times(unit.multiplier() as int))
    }
}

/// Whether `token` starts with a sign, `-` or `+`.
pub open spec fn has_sign(token: Seq<u8>) -> bool {
    token.len() > 0 && (token[0] == '-' as u8 || token[0] == '+' as u8)
}

/// `token` without its sign, if it has one.
pub open spec fn unsigned_part(token: Seq<u8>) -> Seq<u8> {
    if has_sign(token) {
        token.drop_first()
    } else {
        token
    }
}

/// The numeral that `token` is, where it is one: an optional sign, then
/// digits, then optionally a point and more digits, and nothing else. At least
/// one byte follows the sign; a point needs no digit on either side.
pub open spec fn number_of(token: Seq<u8>) -> Option<Decimal> {
    let body = unsigned_part(token);
    let negative = token.len() > 0 && token[0] == '-' as u8;
    let point = digit_run(body) as int;
    if body.len() == 0 {
        None
    } else if point == body.len() {
        Some(Decimal { negative, whole: body, fraction: Seq::empty() })
    } else if body[point] == '.' as u8 && all_digits(body.skip(point + 1)) {
        Some(Decimal { negative, whole: body.take(point), fraction: body.skip(point + 1) })
    } else {
        None
    }
}

/// A numeral read from a byte string: its sign, and the digits before and
/// after the point, borrowed from the input.
#[derive(Debug, Clone, Copy)]
pub struct Number<'a> {
    negative: bool,
    whole: &'a [u8],
    fraction: &'a [u8],
}

impl<'a> View for Number<'a> {
    type V = Decimal;

    closed spec fn view(&self) -> Decimal {
        Decimal { negative: self.negative, whole: self.whole@, fraction: self.fraction@ }
    }
}

/// What a quotient is: the one `q` with `q * d <= x < q * d + d`.
pub proof fn lemma_quotient(x: int, d: int, q: int)
    requires
        d > 0,
        q * d <= x < q * d + d,
    ensures
        x / d == q,
{
    vstd::arithmetic::div_mod::lemma_fundamental_div_mod_converse_div(x, d, q, x - q * d);
}

/// A quotient times its divisor is within one divisor below the dividend.
pub proof fn lemma_quotient_bounds(x: int, d: int)
    requires
        d > 0,
    ensures
        (x / d) * d <= x < (x / d) * d + d,
{
    vstd::arithmetic::div_mod::lemma_fundamental_div_mod(x, d);
    vstd::arithmetic::div_mod::lemma_mod_bound(x, d);
    assert((x / d) * d == d * (x / d)) by (nonlinear_arith);
}

/// The quotient that `round_div` gives is the integer nearest to the exact
/// quotient; where two integers are equally near, it is the larger.
pub proof fn lemma_round_div_nearest(n: int, d: int)
    requires
        d > 0,
    ensures
        -d <= 2 * (n - round_div(n, d) * d) < d,
{
    lemma_quotient_bounds(2 * n + d, 2 * d);
    assert(round_div(n, d) * (2 * d) == 2 * (round_div(n, d) * d)) by (nonlinear_arith);
}

/// A power of ten is positive.
pub proof fn lemma_pow10_positive(n: nat)
    ensures
        pow10(n) > 0,
    decreases n,
{
    if n > 0 {
        lemma_pow10_positive((n - 1) as nat);
    }
}

/// The digits of `a` followed by those of `b` spell `a` shifted left by the
/// length of `b`, plus `b`.
pub proof fn lemma_digits_value_concat(a: Seq<u8>, b: Seq<u8>)
    ensures
        digits_value(a + b) == digits_value(a) * pow10(b.len()) + digits_value(b),
    decreases b.len(),
{
    if b.len() == 0 {
        assert(a + b =~= a);
        assert(pow10(0) == 1);
    } else {
        assert((a + b).drop_last() =~= a + b.drop_last());
        assert((a + b).last() == b.last());
        lemma_digits_value_concat(a, b.drop_last());
        let x = digits_value(a) as int;
        let y = digits_value(b.drop_last()) as int;
        let p = pow10(b.drop_last().len()) as int;
        let last = (b.last() - '0' as u8) as nat;
        assert(pow10(b.len()) == 10 * p);
        assert(digits_value(b) == y * 10 + last);
        assert(digits_value(a + b) == (x * p + y) * 10 + last);
        assert((x * p + y) * 10 == x * (10 * p) + y * 10) by (nonlinear_arith);
    }
}

/// The run of digits that `s` starts with holds digits only, and no digit
/// follows it.
pub proof fn lemma_digit_run_ends(s: Seq<u8>)
    ensures
        digit_run(s) <= s.len(),
        forall|i: int| 0 <= i < digit_run(s) ==> is_digit(#[trigger] s[i]),
        digit_run(s) < s.len() ==> !is_digit(s[digit_run(s) as int]),
    decreases s.len(),
{
    if s.len() > 0 && is_digit(s[0]) {
        let t = s.drop_first();
        lemma_digit_run_ends(t);
        assert forall|i: int| 0 <= i < digit_run(s) implies is_digit(#[trigger] s[i]) by {
            if i > 0 {
                assert(s[i] == t[i - 1]);
            }
        }
    }
}

/// A run of `n` digits that ends at the end of `s` or in front of a byte that is
/// no digit is the longest run of digits that `s` starts with.
pub proof fn lemma_digit_run(s: Seq<u8>, n: int)
    requires
        0 <= n <= s.len(),
        all_digits(s.take(n)),
        n < s.len() ==> !is_digit(s[n]),
    ensures
        digit_run(s) == n,
    decreases n,
{
    if n > 0 {
        assert(s.take(n)[0] == s[0]);
        let t = s.drop_first();
        assert forall|i: int| 0 <= i < n - 1 implies is_digit(#[trigger] t.take(n - 1)[i]) by {
            assert(t.take(n - 1)[i] == s.take(n)[i + 1]);
        }
        lemma_digit_run(t, n - 1);
    }
}

/// A token with two points is no numeral.
pub proof fn lemma_second_point(token: Seq<u8>, i: int, j: int)
    requires
        0 <= i < j < token.len(),
        token[i] == '.' as u8,
        token[j] == '.' as u8,
    ensures
        number_of(token) is None,
{
    let body = unsigned_part(token);
    let point = digit_run(body) as int;
    let sign = token.len() - body.len();
    lemma_digit_run_ends(body);
    assert(body[i - sign] == token[i] && body[j - sign] == token[j]);
    if number_of(token) is Some {
        if i - sign > point {
            assert(body.skip(point + 1)[i - sign - point - 1] == body[i - sign]);
        }
        assert(i - sign == point);
        assert(body.skip(point + 1)[j - sign - point - 1] == body[j - sign]);
    }
}

/// A token with a sign anywhere but in front is no numeral.
pub proof fn lemma_inner_sign(token: Seq<u8>, i: int)
    requires
        0 < i < token.len(),
        token[i] == '-' as u8 || token[i] == '+' as u8,
    ensures
        number_of(token) is None,
{
    let body = unsigned_part(token);
    let point = digit_run(body) as int;
    let sign = token.len() - body.len();
    lemma_digit_run_ends(body);
    assert(body[i - sign] == token[i]);
    if number_of(token) is Some {
        if i - sign > point {
            assert(body.skip(point + 1)[i - sign - point - 1] == body[i - sign]);
        }
    }
}

/// Putting a digit in front of a fraction: the scaled fraction is found from
/// the scaled rest by one division by ten.
proof fn lemma_shift_in_digit(digit: int, rest: int, p: int, factor: int)
    requires
        0 <= digit,
        0 <= rest,
        0 < p,
        0 <= factor,
    ensures
        ((digit * p + rest) * factor) / (10 * p) == (digit * factor + (rest * factor) / p) / 10,
{
    let q = (rest * factor) / p;
    let t = digit * factor + q;
    let k = t / 10;
    let x = (digit * p + rest) * factor;
    lemma_quotient_bounds(rest * factor, p);
    lemma_quotient_bounds(t, 10);
    assert(x == digit * factor * p + rest * factor) by (nonlinear_arith)
        requires
            x == (digit * p + rest) * factor,
    ;
    assert(t * p == digit * factor * p + q * p) by (nonlinear_arith)
        requires
            t == digit * factor + q,
    ;
    assert(k * (10 * p) <= t * p && (t + 1) * p <= k * (10 * p) + 10 * p) by (nonlinear_arith)
        requires
            k * 10 <= t < k * 10 + 10,
            0 < p,
    ;
    assert((t + 1) * p == t * p + p) by (nonlinear_arith);
    lemma_quotient(x, 10 * p, k);
}

/// Rounding the product of a decimal number and a factor: the part before the
/// point contributes exactly, the part after it contributes its doubled
/// product, cut to an integer, plus one, halved.
proof fn lemma_round_split(whole: int, fraction: int, p: int, factor: int)
    requires
        0 <= whole,
        0 <= fraction,
        0 < p,
        0 < factor,
    ensures
        round_div((whole * p + fraction) * factor, p) == whole * factor + ((fraction * (2
            * factor)) / p + 1) / 2,
{
    let b = fraction * (2 * factor);
    let h = b / p;
    let r = (h + 1) / 2;
    let n = 2 * ((whole * p + fraction) * factor) + p;
    lemma_quotient_bounds(b, p);
    lemma_quotient_bounds(h + 1, 2);
    assert(n == (whole * factor) * (2 * p) + b + p) by (nonlinear_arith)
        requires
            n == 2 * ((whole * p + fraction) * factor) + p,
            b == fraction * (2 * factor),
    ;
    assert(r * (2 * p) <= (h + 1) * p && (h + 2) * p <= r * (2 * p) + 2 * p) by (nonlinear_arith)
        requires
            r * 2 <= h + 1 < r * 2 + 2,
            0 < p,
    ;
    assert((h + 1) * p == h * p + p && (h + 2) * p == h * p + 2 * p) by (nonlinear_arith);
    assert((whole * factor + r) * (2 * p) == (whole * factor) * (2 * p) + r * (2 * p))
        by (nonlinear_arith);
    lemma_quotient(n, 2 * p, whole * factor + r);
}

/// From this value of the digits before the point on, every product with a
/// unit lies at a bound of `i64` or beyond it.
const WHOLE_LIMIT: u128 = 0x8000_0000_0000_0000;

/// The value of a run of digits, or `limit` where the value is beyond it.
fn capped_value(digits: &[u8], limit: u128) -> (v: u128)
    requires
        all_digits(digits@),
        limit <= WHOLE_LIMIT,
    ensures
        v == if digits_value(digits@) <= limit {
            digits_value(digits@)
        } else {
            limit as nat
        },
{
    let mut v: u128 = 0;
    let mut i: usize = 0;
    assert(digits@.take(0) =~= Seq::<u8>::empty());
    while i < digits.len()
        invariant
            i <= digits.len(),
            all_digits(digits@),
            limit <= WHOLE_LIMIT,
            v == if digits_value(digits@.take(i as int)) <= limit {
                digits_value(digits@.take(i as int))
            } else {
                limit as nat
            },
        decreases digits.len() - i,
    {
        assert(digits@.take(i + 1).drop_last() =~= digits@.take(i as int));
        assert(digits@.take(i + 1).last() == digits@[i as int]);
        let next = v * 10 + (digits[i] - '0' as u8) as u128;
        v = if next > limit {
            limit
        } else {
            next
        };
        i += 1;
    }
    assert(digits@.take(i as int) =~= digits@);
    v
}

/// The fraction `0.digits` times `factor`, cut to an integer. The digits are
/// taken from the last to the first, so that no digit is lost however many
/// there are.
fn scaled_fraction(digits: &[u8], factor: u128) -> (w: u128)
    requires
        all_digits(digits@),
        factor <= u64::MAX,
    ensures
        w <= factor,
        w == (digits_value(digits@) * factor) / (pow10(digits@.len()) as int),
{
    let len = digits.len();
    let mut w: u128 = 0;
    let mut i: usize = len;
    assert(digits@.skip(len as int) =~= Seq::<u8>::empty());
    while i > 0
        invariant
            i <= len,
            len == digits@.len(),
            all_digits(digits@),
            factor <= u64::MAX,
            w <= factor,
            w == (digits_value(digits@.skip(i as int)) * factor) / (pow10((len - i) as nat) as int),
        decreases i,
    {
        i -= 1;
        let digit = (digits[i] - '0' as u8) as u128;
        proof {
            let first = seq![digits@[i as int]];
            let rest = digits@.skip(i + 1);
            let p = pow10((len - i - 1) as nat) as int;
            assert(digits@.skip(i as int) =~= first + rest);
            assert(first.drop_last() =~= Seq::<u8>::empty());
            assert(digits_value(Seq::<u8>::empty()) == 0);
            assert(digits_value(first) == digit);
            lemma_digits_value_concat(first, rest);
            lemma_pow10_positive((len - i - 1) as nat);
            lemma_shift_in_digit(digit as int, digits_value(rest) as int, p, factor as int);
            assert(pow10((len - i) as nat) == 10 * p);
            assert(digit * factor <= 9 * factor) by (nonlinear_arith)
                requires
                    digit <= 9,
                    0 <= factor,
            ;
        }
        w = (digit * factor + w) / 10;
    }
    assert(digits@.skip(0) =~= digits@);
    w
}

impl<'a> Number<'a> {
    #[verifier::type_invariant]
    spec fn well_formed(self) -> bool {
        all_digits(self.whole@) && all_digits(self.fraction@)
    }

    /// Whether the numeral has a minus sign.
    pub fn is_negative(&self) -> (r: bool)
        ensures
            r == self@.negative,
    {
        self.negative
    }

    /// The digits before the point.
    pub fn whole(&self) -> (d: &'a [u8])
        ensures
            d@ == self@.whole,
            all_digits(d@),
    {
        proof {
            use_type_invariant(self);
        }
        self.whole
    }

    /// The digits after the point.
    pub fn fraction(&self) -> (d: &'a [u8])
        ensures
            d@ == self@.fraction,
            all_digits(d@),
    {
        proof {
            use_type_invariant(self);
        }
        self.fraction
    }

    /// The milliseconds in this many `unit`s, rounded to the nearest
    /// millisecond, a half rounded away from zero. A result beyond the range of
    /// `i64` is replaced by the nearest bound of `i64`.
    pub fn to_millis(&self, unit: Unit) -> (ms: i64)
        ensures
            ms == self@.millis(unit),
    {
        proof {
            use_type_invariant(self);
        }
        let factor: u128 = unit.multiplier() as u128;
        let whole = capped_value(self.whole, WHOLE_LIMIT);
        let halves = scaled_fraction(self.fraction, 2 * factor);
        assert(whole * factor <= WHOLE_LIMIT * YEAR) by (nonlinear_arith)
            requires
                whole <= WHOLE_LIMIT,
                factor <= YEAR,
        ;
        let magnitude: u128 = whole * factor + (halves + 1) / 2;
        proof {
            let w = digits_value(self.whole@) as int;
            let f = digits_value(self.fraction@) as int;
            let p = pow10(self.fraction@.len()) as int;
            lemma_pow10_positive(self.fraction@.len());
            lemma_digits_value_concat(self.whole@, self.fraction@);
            lemma_round_split(w, f, p, factor as int);
            assert(self@.mantissa() == w * p + f);
            if w > WHOLE_LIMIT {
                assert(w * factor >= WHOLE_LIMIT * 1) by (nonlinear_arith)
                    requires
                        w > WHOLE_LIMIT,
                        factor >= 1,
                ;
            }
        }
        if magnitude >= WHOLE_LIMIT {
            if self.negative {
                i64::MIN
            } else {
                i64::MAX
            }
        } else if self.negative {
            -(magnitude as i64)
        } else {
            magnitude as i64
        }
    }
}

/// Reads the numeral that fills the whole of `num`: an optional sign, digits,
/// and optionally a point and more digits.
pub fn parse<'a>(num: &'a [u8]) -> (r: Result<Number<'a>, Error>)
    ensures
        match number_of(num@) {
            Some(numeral) => r is Ok && r->Ok_0@ == numeral,
            None => r == Err::<Number<'a>, Error>(Error::invalid_value()),
        },
{
    let len = num.len();
    let negative = len > 0 && num[0] == '-' as u8;
    let start: usize = if len > 0 && (num[0] == '-' as u8 || num[0] == '+' as u8) {
        1
    } else {
        0
    };
    let ghost body = unsigned_part(num@);
    assert(body =~= num@.skip(start as int));
    if start == len {
        return Err(Error::new("invalid value"));
    }
    let mut point = start;
    while point < len && is_digit(num[point])
        invariant
            start <= point <= len,
            len == num@.len(),
            all_digits(num@.subrange(start as int, point as int)),
        decreases len - point,
    {
        point += 1;
    }
    let whole = &num[start..point];
    proof {
        assert(body.take(point - start) =~= whole@);
        lemma_digit_run(body, point - start);
    }
    if point == len {
        let fraction = &num[len..len];
        assert(whole@ =~= body);
        assert(fraction@ =~= Seq::<u8>::empty());
        return Ok(Number { negative, whole, fraction });
    }
    if num[point] != '.' as u8 {
        return Err(Error::new("invalid value"));
    }
    let mut end = point + 1;
    while end < len && is_digit(num[end])
        invariant
            point < end <= len,
            len == num@.len(),
            all_digits(num@.subrange(point + 1, end as int)),
        decreases len - end,
    {
        end += 1;
    }
    let ghost rest = body.skip(point - start + 1);
    assert(rest =~= num@.subrange(point + 1, len as int));
    if end != len {
        assert(rest[end - point - 1] == num@[end as int]);
        return Err(Error::new("invalid value"));
    }
    let fraction = &num[point + 1..len];
    assert(fraction@ =~= rest);
    Ok(Number { negative, whole, fraction })
}

} // verus!
