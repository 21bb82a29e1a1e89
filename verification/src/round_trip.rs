//! Writing a duration and reading it back.

use crate::bytes::lemma_bytes_concat;
use crate::duration::{duration_of, lemma_number_then_unit};
use crate::error::Error;
use crate::format::{
    count_in, decimal_text, digit_char, fitting_unit, formatted, is_plural, lemma_long_postfix,
    lemma_short_postfix, long_form, long_postfix, magnitude_of, natural_text, short_form,
    short_postfix,
};
use crate::number::{
    all_digits, digits_value, lemma_digit_run, lemma_quotient, number_of, pow10, round_div,
    saturate, unsigned_part, Decimal,
};
use crate::postfix::{trimmed, unit_of};
use crate::unit::Unit;
use vstd::prelude::*;
use vstd::string::StringSliceAdditionalSpecFns;
use vstd::utf8::{encode_utf8, is_ascii_chars, is_ascii_chars_encode_utf8};

verus! {

/// The digits that are written for `n` are ASCII digits, and they spell `n`.
pub proof fn lemma_natural_text_value(n: nat)
    ensures
        encode_utf8(natural_text(n)).len() > 0,
        all_digits(encode_utf8(natural_text(n))),
        digits_value(encode_utf8(natural_text(n))) == n,
    decreases n,
{
    let last = (n % 10) as int;
    let unit = seq![digit_char(last)];
    assert(is_ascii_chars(unit));
    is_ascii_chars_encode_utf8(unit);
    assert(encode_utf8(unit) =~= seq![('0' as u8 + last) as u8]);
    if n < 10 {
        assert(encode_utf8(unit).drop_last() =~= Seq::<u8>::empty());
        assert(digits_value(Seq::<u8>::empty()) == 0);
    } else {
        let front = encode_utf8(natural_text(n / 10));
        lemma_natural_text_value(n / 10);
        assert(natural_text(n) =~= natural_text(n / 10) + unit);
        lemma_bytes_concat(natural_text(n / 10), unit);
        let bytes = encode_utf8(natural_text(n));
        assert(bytes =~= front.push(('0' as u8 + last) as u8));
        assert(bytes.drop_last() =~= front);
    }
}

/// The text that is written for the integer `n` spells that integer.
pub proof fn lemma_decimal_text_number(n: int)
    ensures
        number_of(encode_utf8(decimal_text(n))) == Some(
            Decimal {
                negative: n < 0,
                whole: encode_utf8(natural_text(magnitude_of(n))),
                fraction: Seq::empty(),
            },
        ),
        digits_value(encode_utf8(natural_text(magnitude_of(n)))) == magnitude_of(n),
{
    let digits = encode_utf8(natural_text(magnitude_of(n)));
    lemma_natural_text_value(magnitude_of(n));
    assert(digits.take(digits.len() as int) =~= digits);
    lemma_digit_run(digits, digits.len() as int);
    if n < 0 {
        let sign = seq!['-'];
        assert(is_ascii_chars(sign));
        is_ascii_chars_encode_utf8(sign);
        assert(encode_utf8(sign) =~= seq!['-' as u8]);
        lemma_bytes_concat(sign, natural_text(magnitude_of(n)));
        let token = encode_utf8(decimal_text(n));
        assert(token =~= seq!['-' as u8] + digits);
        assert(unsigned_part(token) =~= digits);
    }
}

/// A whole number of units, rounded to units, is that number.
pub proof fn lemma_count_of_whole_units(count: int, unit: Unit)
    ensures
        count_in(count * unit.multiplier(), unit) == count,
{
    let m = unit.multiplier() as int;
    let c = magnitude_of(count) as int;
    assert(magnitude_of(count * m) == c * m && (count < 0 <==> count * m < 0))
        by (nonlinear_arith)
        requires
            m >= 1,
            c == if count < 0 {
                -count
            } else {
                count
            },
    ;
    assert(c * (2 * m) <= 2 * (c * m) + m < c * (2 * m) + 2 * m) by (nonlinear_arith)
        requires
            m >= 1,
    ;
    lemma_quotient(2 * (c * m) + m, 2 * m, c);
}

/// What `get_duration_by_postfix` writes is read back as the count that was
/// written, times the unit: the milliseconds rounded to whole units.
pub proof fn lemma_formatted_reads_back(milliseconds: i64, postfix: &str)
    requires
        formatted(milliseconds, postfix) is Ok,
    ensures
        ({
            let unit = unit_of(trimmed(postfix.spec_bytes()))->Some_0;
            duration_of(encode_utf8(formatted(milliseconds, postfix)->Ok_0)) == Ok::<i64, Error>(
                saturate(count_in(milliseconds as int, unit) * unit.multiplier()),
            )
        }),
{
    let unit = unit_of(trimmed(postfix.spec_bytes()))->Some_0;
    let count = count_in(milliseconds as int, unit);
    let m = unit.multiplier() as int;
    let value = encode_utf8(decimal_text(count));
    lemma_bytes_concat(decimal_text(count), postfix@);
    lemma_decimal_text_number(count);
    lemma_number_then_unit(value, postfix.spec_bytes());
    let digits = encode_utf8(natural_text(magnitude_of(count)));
    assert(digits + Seq::<u8>::empty() =~= digits);
    let c = magnitude_of(count) as int;
    assert(pow10(0) == 1);
    assert(round_div(c * m, 1) == c * m) by {
        lemma_quotient(2 * (c * m) + 1, 2, c * m);
    }
    assert((-c) * m == -(c * m)) by (nonlinear_arith);
}

/// What `get_max_possible_duration` writes is read back as the milliseconds
/// rounded to whole units of the unit that was chosen.
pub proof fn lemma_short_form_reads_back(milliseconds: i64)
    ensures
        ({
            let unit = fitting_unit(magnitude_of(milliseconds as int));
            duration_of(encode_utf8(short_form(milliseconds))) == Ok::<i64, Error>(
                saturate(count_in(milliseconds as int, unit) * unit.multiplier()),
            )
        }),
{
    let unit = fitting_unit(magnitude_of(milliseconds as int));
    lemma_short_postfix(unit);
    lemma_formatted_reads_back(milliseconds, short_postfix(unit));
}

/// What `get_max_possible_duration_long` writes is read back as the
/// milliseconds rounded to whole units of the unit that was chosen.
pub proof fn lemma_long_form_reads_back(milliseconds: i64)
    ensures
        ({
            let unit = fitting_unit(magnitude_of(milliseconds as int));
            duration_of(encode_utf8(long_form(milliseconds))) == Ok::<i64, Error>(
                saturate(count_in(milliseconds as int, unit) * unit.multiplier()),
            )
        }),
{
    let magnitude = magnitude_of(milliseconds as int);
    let unit = fitting_unit(magnitude);
    let plural = is_plural(magnitude, unit.multiplier() as int);
    lemma_long_postfix(unit, plural);
    lemma_formatted_reads_back(milliseconds, long_postfix(unit, plural));
}

/// A whole number of units in short form, where the unit is the one that fits
/// the duration, is read as that many units, and the duration read is written
/// in the same form again.
pub proof fn lemma_short_form_round_trip(count: int, unit: Unit)
    requires
        i64::MIN <= count * unit.multiplier() <= i64::MAX,
        fitting_unit(magnitude_of(count * unit.multiplier())) == unit,
    ensures
        ({
            let text = decimal_text(count) + short_postfix(unit)@;
            let milliseconds = (count * unit.multiplier()) as i64;
            &&& duration_of(encode_utf8(text)) == Ok::<i64, Error>(milliseconds)
            &&& short_form(milliseconds) == text
        }),
{
    let m = unit.multiplier() as int;
    let milliseconds = (count * m) as i64;
    let postfix = short_postfix(unit);
    lemma_count_of_whole_units(count, unit);
    lemma_short_postfix(unit);
    lemma_formatted_reads_back(milliseconds, postfix);
}

} // verus!
