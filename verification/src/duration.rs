//! Reading a duration: a number, then the unit it is counted in.

use crate::error::Error;
use crate::number::{
    digit_run, is_digit, lemma_digit_run_ends, lemma_inner_sign, lemma_second_point, number_of,
    parse, unsigned_part,
};
use crate::postfix::{get_modification, lemma_named_suffix_start, trim, trimmed, unit_of};
use std::time::Duration;
use vstd::prelude::*;
use vstd::string::StringSliceAdditionalSpecFns;

verus! {

/// Whether `b` can stand in the numeric part of a duration: a digit, a point
/// or a sign.
pub open spec fn spec_is_numeric(b: u8) -> bool {
    is_digit(b) || b == '.' as u8 || b == '-' as u8 || b == '+' as u8
}

/// Whether `b` can stand in the numeric part of a duration: a digit, a point
/// or a sign.
#[verifier::when_used_as_spec(spec_is_numeric)]
pub fn is_numeric(b: u8) -> (r: bool)
    ensures
        r == spec_is_numeric(b),
{
    is_digit(b) || b == '.' as u8 || b == '-' as u8 || b == '+' as u8
}

/// The length of the numeric part of `text`: how many digits, points and signs
/// it starts with.
pub open spec fn numeric_len(text: Seq<u8>) -> nat
    decreases text.len(),
{
    if text.len() > 0 && is_numeric(text[0]) {
        1 + numeric_len(text.drop_first())
    } else {
        0
    }
}

/// The milliseconds that `text` stands for. The numeric part reaches up to the
/// first byte that is no digit, point or sign; the rest, without the blanks
/// around it, names the unit. A malformed number is reported before an unknown
/// unit. The product is rounded to the nearest millisecond, a half away from
/// zero, and kept within the range of `i64`.
pub open spec fn duration_of(text: Seq<u8>) -> Result<i64, Error> {
    let split = numeric_len(text) as int;
    match number_of(text.take(split)) {
        None => Err(Error::invalid_value()),
        Some(number) => match unit_of(trimmed(text.skip(split))) {
            None => Err(Error::invalid_postfix()),
            Some(unit) => Ok(number.millis(unit)),
        },
    }
}

/// The `Duration` that `Duration::from_millis` makes of a number of
/// milliseconds.
pub uninterp spec fn duration_from_millis(millis: u64) -> Duration;

/// `Duration::from_millis` is a function of its argument; the result is known
/// here only by that name.
pub assume_specification[ Duration::from_millis ](millis: u64) -> (d: Duration)
    ensures
        d == duration_from_millis(millis),
;

/// The `Duration` that `text` stands for. A `Duration` cannot be negative, so
/// a negative number of milliseconds is an error.
pub open spec fn time_of(text: Seq<u8>) -> Result<Duration, Error> {
    match duration_of(text) {
        Ok(millis) => if millis < 0 {
            Err(Error::negative_duration_unsupported())
        } else {
            Ok(duration_from_millis(millis as u64))
        },
        Err(e) => Err(e),
    }
}

/// A run of `n` numeric bytes that ends at the end of `text` or in front of a
/// byte that is not numeric is the numeric part of `text`.
pub proof fn lemma_numeric_len(text: Seq<u8>, n: int)
    requires
        0 <= n <= text.len(),
        forall|i: int| 0 <= i < n ==> is_numeric(#[trigger] text[i]),
        n < text.len() ==> !is_numeric(text[n]),
    ensures
        numeric_len(text) == n,
    decreases n,
{
    if n > 0 {
        let rest = text.drop_first();
        assert forall|i: int| 0 <= i < n - 1 implies is_numeric(#[trigger] rest[i]) by {
            assert(rest[i] == text[i + 1]);
        }
        lemma_numeric_len(rest, n - 1);
    }
}

/// The numeric part of `text` holds numeric bytes only.
pub proof fn lemma_numeric_part(text: Seq<u8>)
    ensures
        numeric_len(text) <= text.len(),
        forall|i: int| 0 <= i < numeric_len(text) ==> is_numeric(#[trigger] text[i]),
    decreases text.len(),
{
    if text.len() > 0 && is_numeric(text[0]) {
        let rest = text.drop_first();
        lemma_numeric_part(rest);
        assert forall|i: int| 0 <= i < numeric_len(text) implies is_numeric(#[trigger] text[i]) by {
            if i > 0 {
                assert(text[i] == rest[i - 1]);
            }
        }
    }
}

/// A token that spells a number holds digits, points and signs only.
pub proof fn lemma_number_is_numeric(token: Seq<u8>)
    requires
        number_of(token) is Some,
    ensures
        forall|i: int| 0 <= i < token.len() ==> is_numeric(#[trigger] token[i]),
{
    let body = unsigned_part(token);
    let point = digit_run(body) as int;
    lemma_digit_run_ends(body);
    assert forall|i: int| 0 <= i < token.len() implies is_numeric(#[trigger] token[i]) by {
        let k = i - (token.len() - body.len());
        if k >= 0 {
            assert(token[i] == body[k]);
            if k > point {
                assert(body.skip(point + 1)[k - point - 1] == body[k]);
            }
        }
    }
}

/// A number directly followed by a suffix that names a unit, with or without
/// blanks around the suffix, stands for the product of the number and the
/// unit's multiplier, rounded to the nearest millisecond and kept within the
/// range of `i64`.
pub proof fn lemma_number_then_unit(value: Seq<u8>, suffix: Seq<u8>)
    requires
        number_of(value) is Some,
        unit_of(trimmed(suffix)) is Some,
    ensures
        duration_of(value + suffix) == Ok::<i64, Error>(
            number_of(value)->Some_0.millis(unit_of(trimmed(suffix))->Some_0),
        ),
{
    let text = value + suffix;
    lemma_number_is_numeric(value);
    if suffix.len() > 0 {
        lemma_named_suffix_start(suffix);
    }
    lemma_numeric_len(text, value.len() as int);
    assert(text.take(value.len() as int) =~= value);
    assert(text.skip(value.len() as int) =~= suffix);
}

/// A text with two points in its numeric part stands for no duration: its
/// number is malformed.
pub proof fn lemma_two_points(text: Seq<u8>, i: int, j: int)
    requires
        0 <= i < j < numeric_len(text),
        text[i] == '.' as u8,
        text[j] == '.' as u8,
    ensures
        duration_of(text) == Err::<i64, Error>(Error::invalid_value()),
{
    lemma_numeric_part(text);
    lemma_second_point(text.take(numeric_len(text) as int), i, j);
}

/// A text with a sign in its numeric part anywhere but in front stands for no
/// duration: its number is malformed.
pub proof fn lemma_sign_inside(text: Seq<u8>, i: int)
    requires
        0 < i < numeric_len(text),
        text[i] == '-' as u8 || text[i] == '+' as u8,
    ensures
        duration_of(text) == Err::<i64, Error>(Error::invalid_value()),
{
    lemma_numeric_part(text);
    lemma_inner_sign(text.take(numeric_len(text) as int), i);
}

/// A text whose number is well formed and whose suffix names no unit stands
/// for no duration: its suffix is unknown.
pub proof fn lemma_unknown_unit(text: Seq<u8>)
    requires
        number_of(text.take(numeric_len(text) as int)) is Some,
        unit_of(trimmed(text.skip(numeric_len(text) as int))) is None,
    ensures
        duration_of(text) == Err::<i64, Error>(Error::invalid_postfix()),
{
}

/// Converts a human-readable duration, such as `1d`, `2.5 hrs` or `-100`, into
/// milliseconds.
///
/// The text is a number, then a unit. The number is an optional sign, digits,
/// and optionally a point and more digits. The unit may have blanks around it
/// and is one of
/// * years: `years`, `year`, `yrs`, `yr`, `y`
/// * weeks: `weeks`, `week`, `w`
/// * days: `days`, `day`, `d`
/// * hours: `hours`, `hour`, `hrs`, `hr`, `h`
/// * minutes: `minutes`, `minute`, `mins`, `min`, `m`
/// * seconds: `seconds`, `second`, `secs`, `sec`, `s`
/// * milliseconds: `milliseconds`, `millisecond`, `msecs`, `msec`, `ms`, or no
///   unit at all
///
/// The number is multiplied by the unit exactly, whatever the count of its
/// digits, and the product is rounded once, to the nearest millisecond, a half
/// away from zero. A product beyond the range of `i64` gives the nearest bound
/// of `i64`.
///
/// A missing or malformed number is an error, "invalid value"; after a well
/// formed number, an unknown unit is an error, "invalid postfix".
pub fn ms(s: &str) -> (r: Result<i64, Error>)
    ensures
        r == duration_of(s.spec_bytes()),
{
    let bytes = s.as_bytes();
    let len = bytes.len();
    let mut split: usize = 0;
    while split < len && is_numeric(bytes[split])
        invariant
            split <= len,
            len == bytes@.len(),
            forall|i: int| 0 <= i < split ==> is_numeric(#[trigger] bytes@[i]),
        decreases len - split,
    {
        split += 1;
    }
    proof {
        lemma_numeric_len(bytes@, split as int);
    }
    let (value, postfix) = bytes.split_at(split);
    let number = match parse(value) {
        Ok(number) => number,
        Err(e) => {
            return Err(e);
        },
    };
    let unit = match get_modification(trim(postfix)) {
        Ok(unit) => unit,
        Err(e) => {
            return Err(e);
        },
    };
    Ok(number.to_millis(unit))
}

/// Converts a human-readable duration into a `Duration`, as `ms` converts it
/// into milliseconds. A `Duration` holds no negative value, so a negative
/// number of milliseconds is an error.
pub fn ms_into_time(s: &str) -> (r: Result<Duration, Error>)
    ensures
        r == time_of(s.spec_bytes()),
{
    let milliseconds = match ms(s) {
        Ok(milliseconds) => milliseconds,
        Err(e) => {
            return Err(e);
        },
    };
    if milliseconds < 0 {
        return Err(Error::new("time.Duration cannot work with negative values"));
    }
    Ok(Duration::from_millis(milliseconds as u64))
}

} // verus!
