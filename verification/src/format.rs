//! Writing a duration: a count of units in decimal, then the suffix.

use crate::bytes::{lemma_ascii_bytes, lemma_bytes_concat};
use crate::error::Error;
use crate::number::round_div;
use crate::postfix::{
    get_byte_postfix, get_modification, is_blank, lemma_trimmed_after_space, lemma_trimmed_bare,
    lemma_unit_of, spelled, trimmed, unit_of,
};
use crate::unit::{Unit, DAY, HOUR, MINUTE, SECOND};
use vstd::prelude::*;
use vstd::string::StringExecFns;
use vstd::string::StringSliceAdditionalSpecFns;

verus! {

/// The character for the decimal digit `d`.
pub open spec fn digit_char(d: int) -> char {
    ('0' as int + d) as char
}

/// The decimal digits of `n`, without leading zeros.
pub open spec fn natural_text(n: nat) -> Seq<char>
    decreases n,
{
    if n < 10 {
        seq![digit_char(n as int)]
    } else {
        natural_text(n / 10).push(digit_char((n % 10) as int))
    }
}

/// `n` in decimal, with a minus sign in front where it is negative.
pub open spec fn decimal_text(n: int) -> Seq<char> {
    if n < 0 {
        seq!['-'] + natural_text((-n) as nat)
    } else {
        natural_text(n as nat)
    }
}

/// The absolute value of `v`.
pub open spec fn magnitude_of(v: int) -> nat {
    if v < 0 {
        (-v) as nat
    } else {
        v as nat
    }
}

/// How many `unit`s `milliseconds` are, rounded to the nearest whole number,
/// a half rounded away from zero.
pub open spec fn count_in(milliseconds: int, unit: Unit) -> int {
    let count = round_div(magnitude_of(milliseconds) as int, unit.multiplier() as int);
    if milliseconds < 0 {
        -count
    } else {
        count
    }
}

/// What `get_duration_by_postfix` writes: the count of units that the postfix
/// names, then the postfix as it was given, blanks included.
pub open spec fn formatted(milliseconds: i64, postfix: &str) -> Result<Seq<char>, Error> {
    match unit_of(trimmed(postfix.spec_bytes())) {
        Some(unit) => Ok(decimal_text(count_in(milliseconds as int, unit)) + postfix@),
        None => Err(Error::invalid_postfix()),
    }
}

/// The text of a result that holds a string.
pub open spec fn text_of(r: Result<String, Error>) -> Result<Seq<char>, Error> {
    match r {
        Ok(s) => Ok(s@),
        Err(e) => Err(e),
    }
}

/// The largest unit up to the day of which `magnitude` milliseconds hold at
/// least one; the millisecond where they hold less than a second.
pub open spec fn fitting_unit(magnitude: nat) -> Unit {
    if magnitude >= DAY {
        Unit::Day
    } else if magnitude >= HOUR {
        Unit::Hour
    } else if magnitude >= MINUTE {
        Unit::Minute
    } else if magnitude >= SECOND {
        Unit::Second
    } else {
        Unit::Millisecond
    }
}

/// The short suffix of a unit up to the day.
pub open spec fn short_postfix(unit: Unit) -> &'static str {
    match unit {
        Unit::Day => "d",
        Unit::Hour => "h",
        Unit::Minute => "m",
        Unit::Second => "s",
        _ => "ms",
    }
}

/// Whether `magnitude` milliseconds are at least one and a half of `period`.
pub open spec fn is_plural(magnitude: nat, period: int) -> bool {
    2 * magnitude >= 3 * period
}

/// The long suffix of a unit up to the day, in the singular or the plural,
/// with the space that separates it from the count.
pub open spec fn long_postfix(unit: Unit, plural: bool) -> &'static str {
    match unit {
        Unit::Day => if plural {
            " days"
        } else {
            " day"
        },
        Unit::Hour => if plural {
            " hours"
        } else {
            " hour"
        },
        Unit::Minute => if plural {
            " minutes"
        } else {
            " minute"
        },
        Unit::Second => if plural {
            " seconds"
        } else {
            " second"
        },
        _ => if plural {
            " milliseconds"
        } else {
            " millisecond"
        },
    }
}

/// What `get_max_possible_duration` writes: the count of the largest fitting
/// unit, then the short suffix of that unit.
pub open spec fn short_form(milliseconds: i64) -> Seq<char> {
    let unit = fitting_unit(magnitude_of(milliseconds as int));
    decimal_text(count_in(milliseconds as int, unit)) + short_postfix(unit)@
}

/// What `get_max_possible_duration_long` writes: the count of the largest
/// fitting unit, a space, then the name of that unit, in the plural from one
/// and a half units on.
pub open spec fn long_form(milliseconds: i64) -> Seq<char> {
    let magnitude = magnitude_of(milliseconds as int);
    let unit = fitting_unit(magnitude);
    let plural = is_plural(magnitude, unit.multiplier() as int);
    decimal_text(count_in(milliseconds as int, unit)) + long_postfix(unit, plural)@
}

/// The bytes of a space followed by `bare` name what `bare` names.
proof fn lemma_space_before(padded: &str, bare: &str)
    requires
        vstd::string::is_ascii(bare),
        padded@ == seq![' '] + bare@,
        bare@.len() > 0,
        !is_blank(bare@[0] as u8),
        !is_blank(bare@.last() as u8),
    ensures
        trimmed(padded.spec_bytes()) == bare.spec_bytes(),
{
    assert(vstd::string::is_ascii(padded));
    lemma_ascii_bytes(padded);
    lemma_ascii_bytes(bare);
    assert(padded.spec_bytes() =~= seq![0x20u8] + bare.spec_bytes());
    lemma_trimmed_after_space(padded.spec_bytes(), bare.spec_bytes());
}

/// The long suffixes of the day are its name after a space.
proof fn lemma_long_day()
    ensures
        trimmed(" day".spec_bytes()) == "day".spec_bytes(),
        trimmed(" days".spec_bytes()) == "days".spec_bytes(),
{
    reveal_strlit("day");
    reveal_strlit(" day");
    assert(" day"@ =~= seq![' '] + "day"@);
    lemma_space_before(" day", "day");
    reveal_strlit("days");
    reveal_strlit(" days");
    assert(" days"@ =~= seq![' '] + "days"@);
    lemma_space_before(" days", "days");
}

/// The long suffixes of the hour are its name after a space.
proof fn lemma_long_hour()
    ensures
        trimmed(" hour".spec_bytes()) == "hour".spec_bytes(),
        trimmed(" hours".spec_bytes()) == "hours".spec_bytes(),
{
    reveal_strlit("hour");
    reveal_strlit(" hour");
    assert(" hour"@ =~= seq![' '] + "hour"@);
    lemma_space_before(" hour", "hour");
    reveal_strlit("hours");
    reveal_strlit(" hours");
    assert(" hours"@ =~= seq![' '] + "hours"@);
    lemma_space_before(" hours", "hours");
}

/// The long suffixes of the minute are its name after a space.
proof fn lemma_long_minute()
    ensures
        trimmed(" minute".spec_bytes()) == "minute".spec_bytes(),
        trimmed(" minutes".spec_bytes()) == "minutes".spec_bytes(),
{
    reveal_strlit("minute");
    reveal_strlit(" minute");
    assert(" minute"@ =~= seq![' '] + "minute"@);
    lemma_space_before(" minute", "minute");
    reveal_strlit("minutes");
    reveal_strlit(" minutes");
    assert(" minutes"@ =~= seq![' '] + "minutes"@);
    lemma_space_before(" minutes", "minutes");
}

/// The long suffixes of the second are its name after a space.
proof fn lemma_long_second()
    ensures
        trimmed(" second".spec_bytes()) == "second".spec_bytes(),
        trimmed(" seconds".spec_bytes()) == "seconds".spec_bytes(),
{
    reveal_strlit("second");
    reveal_strlit(" second");
    assert(" second"@ =~= seq![' '] + "second"@);
    lemma_space_before(" second", "second");
    reveal_strlit("seconds");
    reveal_strlit(" seconds");
    assert(" seconds"@ =~= seq![' '] + "seconds"@);
    lemma_space_before(" seconds", "seconds");
}

/// The long suffixes of the millisecond are its name after a space.
proof fn lemma_long_millisecond()
    ensures
        trimmed(" millisecond".spec_bytes()) == "millisecond".spec_bytes(),
        trimmed(" milliseconds".spec_bytes()) == "milliseconds".spec_bytes(),
{
    reveal_strlit("millisecond");
    reveal_strlit(" millisecond");
    assert(" millisecond"@ =~= seq![' '] + "millisecond"@);
    lemma_space_before(" millisecond", "millisecond");
    reveal_strlit("milliseconds");
    reveal_strlit(" milliseconds");
    assert(" milliseconds"@ =~= seq![' '] + "milliseconds"@);
    lemma_space_before(" milliseconds", "milliseconds");
}

/// The short suffix that is written for a unit is read as that unit.
pub proof fn lemma_short_postfix(unit: Unit)
    requires
        unit.rank() <= Unit::Day.rank(),
    ensures
        unit_of(trimmed(short_postfix(unit).spec_bytes())) == Some(unit),
{
    let suffix = short_postfix(unit).spec_bytes();
    reveal(spelled);
    match unit {
        Unit::Day => {
            reveal_strlit("d");
            lemma_ascii_bytes("d");
        },
        Unit::Hour => {
            reveal_strlit("h");
            lemma_ascii_bytes("h");
        },
        Unit::Minute => {
            reveal_strlit("m");
            lemma_ascii_bytes("m");
        },
        Unit::Second => {
            reveal_strlit("s");
            lemma_ascii_bytes("s");
        },
        _ => {
            reveal_strlit("ms");
            lemma_ascii_bytes("ms");
        },
    }
    lemma_trimmed_bare(suffix);
    lemma_unit_of(suffix);
}

/// The long suffix that is written for a unit, singular or plural, is read as
/// that unit.
pub proof fn lemma_long_postfix(unit: Unit, plural: bool)
    requires
        unit.rank() <= Unit::Day.rank(),
    ensures
        unit_of(trimmed(long_postfix(unit, plural).spec_bytes())) == Some(unit),
{
    reveal(spelled);
    lemma_unit_of(trimmed(long_postfix(unit, plural).spec_bytes()));
    lemma_long_day();
    lemma_long_hour();
    lemma_long_minute();
    lemma_long_second();
    lemma_long_millisecond();
}

/// The short and the long form are what `get_duration_by_postfix` writes with
/// the short and the long suffix of the fitting unit.
pub proof fn lemma_forms_are_formatted(milliseconds: i64)
    ensures
        ({
            let magnitude = magnitude_of(milliseconds as int);
            let unit = fitting_unit(magnitude);
            let plural = is_plural(magnitude, unit.multiplier() as int);
            &&& formatted(milliseconds, short_postfix(unit)) == Ok::<Seq<char>, Error>(
                short_form(milliseconds),
            )
            &&& formatted(milliseconds, long_postfix(unit, plural)) == Ok::<Seq<char>, Error>(
                long_form(milliseconds),
            )
        }),
{
    let magnitude = magnitude_of(milliseconds as int);
    let unit = fitting_unit(magnitude);
    lemma_short_postfix(unit);
    lemma_long_postfix(unit, is_plural(magnitude, unit.multiplier() as int));
}

/// A space in front of the postfix puts a space behind the count and changes
/// nothing else: the unit, and with it the count, stay the same.
pub proof fn lemma_space_before_postfix(milliseconds: i64, postfix: &str, spaced: &str)
    requires
        spaced@ == seq![' '] + postfix@,
    ensures
        formatted(milliseconds, spaced) == match unit_of(trimmed(postfix.spec_bytes())) {
            Some(unit) => Ok::<Seq<char>, Error>(
                decimal_text(count_in(milliseconds as int, unit)) + seq![' '] + postfix@,
            ),
            None => Err(Error::invalid_postfix()),
        },
        formatted(milliseconds, postfix) == match unit_of(trimmed(postfix.spec_bytes())) {
            Some(unit) => Ok::<Seq<char>, Error>(
                decimal_text(count_in(milliseconds as int, unit)) + postfix@,
            ),
            None => Err(Error::invalid_postfix()),
        },
{
    let space = seq![' '];
    assert(vstd::utf8::is_ascii_chars(space));
    vstd::utf8::is_ascii_chars_encode_utf8(space);
    lemma_bytes_concat(space, postfix@);
    assert(spaced.spec_bytes().drop_first() =~= postfix.spec_bytes());
    assert(is_blank(spaced.spec_bytes()[0]));
    match unit_of(trimmed(postfix.spec_bytes())) {
        Some(unit) => {
            let count = decimal_text(count_in(milliseconds as int, unit));
            assert(count + spaced@ =~= count + seq![' '] + postfix@);
        },
        None => {},
    }
}

/// The absolute value of `v`.
fn magnitude(v: i64) -> (m: u64)
    ensures
        m == magnitude_of(v as int),
{
    if v >= 0 {
        v as u64
    } else {
        (-(v + 1)) as u64 + 1
    }
}

/// The text of one decimal digit.
fn digit_text(d: u64) -> (s: &'static str)
    requires
        d < 10,
    ensures
        s@ == seq![digit_char(d as int)],
{
    proof {
        reveal_strlit("0");
        reveal_strlit("1");
        reveal_strlit("2");
        reveal_strlit("3");
        reveal_strlit("4");
        reveal_strlit("5");
        reveal_strlit("6");
        reveal_strlit("7");
        reveal_strlit("8");
        reveal_strlit("9");
    }
    let s = if d == 0 {
        "0"
    } else if d == 1 {
        "1"
    } else if d == 2 {
        "2"
    } else if d == 3 {
        "3"
    } else if d == 4 {
        "4"
    } else if d == 5 {
        "5"
    } else if d == 6 {
        "6"
    } else if d == 7 {
        "7"
    } else if d == 8 {
        "8"
    } else {
        "9"
    };
    assert(s@ =~= seq![digit_char(d as int)]);
    s
}

/// Appends the decimal digits of `n` to `out`.
fn push_natural(out: &mut String, n: u64)
    ensures
        final(out)@ == old(out)@ + natural_text(n as nat),
    decreases n,
{
    if n >= 10 {
        push_natural(out, n / 10);
    }
    out.append(digit_text(n % 10));
    assert(final(out)@ =~= old(out)@ + natural_text(n as nat));
}

/// Writes `milliseconds` as a count of the unit that `postfix` names, followed
/// by `postfix` itself: a postfix that starts with a space gives a space
/// between the count and the unit. The count is rounded to the nearest whole
/// number, a half away from zero.
pub fn get_duration_by_postfix(milliseconds: i64, postfix: &str) -> (r: Result<String, Error>)
    ensures
        text_of(r) == formatted(milliseconds, postfix),
{
    let unit = match get_modification(get_byte_postfix(postfix)) {
        Ok(unit) => unit,
        Err(e) => {
            return Err(e);
        },
    };
    let period = unit.multiplier() as u128;
    let count = (2 * (magnitude(milliseconds) as u128) + period) / (2 * period);
    assert(count == round_div(magnitude_of(milliseconds as int) as int, period as int));
    assert(count <= magnitude_of(milliseconds as int)) by (nonlinear_arith)
        requires
            count == (2 * magnitude_of(milliseconds as int) + period) / (2 * period),
            period >= 1,
    ;
    let mut out = String::new();
    if milliseconds < 0 && count > 0 {
        proof {
            reveal_strlit("-");
        }
        out.append("-");
        assert(out@ =~= seq!['-']);
    }
    push_natural(&mut out, count as u64);
    out.append(postfix);
    Ok(out)
}

/// The plural `postfix_mul` where `milliseconds` are at least one and a half
/// of `period`, else the singular `postfix`.
fn check_postfix<'a>(
    milliseconds: u64,
    period: i64,
    postfix: &'a str,
    postfix_mul: &'a str,
) -> (r: &'a str)
    requires
        period >= 1,
    ensures
        r == if is_plural(milliseconds as nat, period as int) {
            postfix_mul
        } else {
            postfix
        },
{
    if 2 * (milliseconds as u128) >= 3 * (period as u128) {
        return postfix_mul;
    }
    postfix
}

/// Writes `milliseconds` in the largest unit, from milliseconds up to days, of
/// which they hold at least one, with the short suffix of that unit: `14d` for
/// two weeks.
pub fn get_max_possible_duration(milliseconds: i64) -> (r: Result<String, Error>)
    ensures
        text_of(r) == Ok::<Seq<char>, Error>(short_form(milliseconds)),
{
    let m = magnitude(milliseconds);
    let postfix = if m >= DAY as u64 {
        "d"
    } else if m >= HOUR as u64 {
        "h"
    } else if m >= MINUTE as u64 {
        "m"
    } else if m >= SECOND as u64 {
        "s"
    } else {
        "ms"
    };
    proof {
        lemma_short_postfix(fitting_unit(m as nat));
    }
    get_duration_by_postfix(milliseconds, postfix)
}

/// Writes `milliseconds` in the largest unit, from milliseconds up to days, of
/// which they hold at least one, with the name of that unit after a space:
/// `1 day`, and `14 days` for two weeks.
pub fn get_max_possible_duration_long(milliseconds: i64) -> (r: Result<String, Error>)
    ensures
        text_of(r) == Ok::<Seq<char>, Error>(long_form(milliseconds)),
{
    let m = magnitude(milliseconds);
    let postfix = if m >= DAY as u64 {
        check_postfix(m, DAY, " day", " days")
    } else if m >= HOUR as u64 {
        check_postfix(m, HOUR, " hour", " hours")
    } else if m >= MINUTE as u64 {
        check_postfix(m, MINUTE, " minute", " minutes")
    } else if m >= SECOND as u64 {
        check_postfix(m, SECOND, " second", " seconds")
    } else {
        check_postfix(m, 1, " millisecond", " milliseconds")
    };
    proof {
        let unit = fitting_unit(m as nat);
        lemma_long_postfix(unit, is_plural(m as nat, unit.multiplier() as int));
    }
    get_duration_by_postfix(milliseconds, postfix)
}

} // verus!
