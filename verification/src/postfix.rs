//! The unit suffix of a duration: its spellings, and the blanks around it.

use crate::bytes::{lemma_ascii_bytes, same_bytes};
use crate::error::Error;
use crate::unit::Unit;
use vstd::prelude::*;
use vstd::string::StringSliceAdditionalSpecFns;

verus! {

/// Whether `b` is a blank: a space, a tab, a line feed, a form feed or a
/// carriage return.
pub open spec fn spec_is_blank(b: u8) -> bool {
    b == 0x20 || b == 0x09 || b == 0x0a || b == 0x0c || b == 0x0d
}

/// Whether `b` is a blank: a space, a tab, a line feed, a form feed or a
/// carriage return.
#[verifier::when_used_as_spec(spec_is_blank)]
pub fn is_blank(b: u8) -> (r: bool)
    ensures
        r == spec_is_blank(b),
{
    b == 0x20 || b == 0x09 || b == 0x0a || b == 0x0c || b == 0x0d
}

/// `s` without the blanks it starts with.
pub open spec fn trim_start(s: Seq<u8>) -> Seq<u8>
    decreases s.len(),
{
    if s.len() > 0 && is_blank(s[0]) {
        trim_start(s.drop_first())
    } else {
        s
    }
}

/// `s` without the blanks it ends with.
pub open spec fn trim_end(s: Seq<u8>) -> Seq<u8>
    decreases s.len(),
{
    if s.len() > 0 && is_blank(s.last()) {
        trim_end(s.drop_last())
    } else {
        s
    }
}

/// `s` without the blanks at either end.
pub open spec fn trimmed(s: Seq<u8>) -> Seq<u8> {
    trim_end(trim_start(s))
}

/// Whether `suffix` is exactly the text `name`.
#[verifier::opaque]
pub open spec fn spelled(suffix: Seq<u8>, name: &str) -> bool {
    suffix == name.spec_bytes()
}

/// Whether `suffix` is one of the spellings of a year.
pub open spec fn names_year(suffix: Seq<u8>) -> bool {
    spelled(suffix, "years")
        || spelled(suffix, "year")
        || spelled(suffix, "yrs")
        || spelled(suffix, "yr")
        || spelled(suffix, "y")
}

/// Whether `suffix` is one of the spellings of a week.
pub open spec fn names_week(suffix: Seq<u8>) -> bool {
    spelled(suffix, "weeks")
        || spelled(suffix, "week")
        || spelled(suffix, "w")
}

/// Whether `suffix` is one of the spellings of a day.
pub open spec fn names_day(suffix: Seq<u8>) -> bool {
    spelled(suffix, "days")
        || spelled(suffix, "day")
        || spelled(suffix, "d")
}

/// Whether `suffix` is one of the spellings of an hour.
pub open spec fn names_hour(suffix: Seq<u8>) -> bool {
    spelled(suffix, "hours")
        || spelled(suffix, "hour")
        || spelled(suffix, "hrs")
        || spelled(suffix, "hr")
        || spelled(suffix, "h")
}

/// Whether `suffix` is one of the spellings of a minute.
pub open spec fn names_minute(suffix: Seq<u8>) -> bool {
    spelled(suffix, "minutes")
        || spelled(suffix, "minute")
        || spelled(suffix, "mins")
        || spelled(suffix, "min")
        || spelled(suffix, "m")
}

/// Whether `suffix` is one of the spellings of a millisecond; the empty suffix
/// is one of them.
pub open spec fn names_millisecond(suffix: Seq<u8>) -> bool {
    spelled(suffix, "milliseconds")
        || spelled(suffix, "millisecond")
        || spelled(suffix, "msecs")
        || spelled(suffix, "msec")
        || spelled(suffix, "ms")
        || spelled(suffix, "")
}

/// Whether `suffix` is one of the spellings of a second.
pub open spec fn names_second(suffix: Seq<u8>) -> bool {
    spelled(suffix, "seconds")
        || spelled(suffix, "second")
        || spelled(suffix, "secs")
        || spelled(suffix, "sec")
        || spelled(suffix, "s")
}

/// The unit that `suffix` names. The match is exact and case-sensitive; the
/// empty suffix names the millisecond.
pub open spec fn unit_of(suffix: Seq<u8>) -> Option<Unit> {
    if names_year(suffix) {
        Some(Unit::Year)
    } else if names_week(suffix) {
        Some(Unit::Week)
    } else if names_day(suffix) {
        Some(Unit::Day)
    } else if names_hour(suffix) {
        Some(Unit::Hour)
    } else if names_minute(suffix) {
        Some(Unit::Minute)
    } else if names_millisecond(suffix) {
        Some(Unit::Millisecond)
    } else if names_second(suffix) {
        Some(Unit::Second)
    } else {
        None
    }
}

/// Whether `s` has `len` bytes, of which the first two, as far as it has them,
/// are `a` and `b`.
spec fn starts(s: Seq<u8>, len: nat, a: char, b: char) -> bool {
    &&& s.len() == len
    &&& len > 0 ==> s[0] == a as u8
    &&& len > 1 ==> s[1] == b as u8
}

/// The length and the first two bytes of each spelling of the year.
proof fn lemma_year_starts()
    ensures
        starts("years".spec_bytes(), 5, 'y', 'e'),
        starts("year".spec_bytes(), 4, 'y', 'e'),
        starts("yrs".spec_bytes(), 3, 'y', 'r'),
        starts("yr".spec_bytes(), 2, 'y', 'r'),
        starts("y".spec_bytes(), 1, 'y', ' '),
{
    reveal_strlit("years");
    lemma_ascii_bytes("years");
    reveal_strlit("year");
    lemma_ascii_bytes("year");
    reveal_strlit("yrs");
    lemma_ascii_bytes("yrs");
    reveal_strlit("yr");
    lemma_ascii_bytes("yr");
    reveal_strlit("y");
    lemma_ascii_bytes("y");
}

/// The length and the first two bytes of each spelling of the week.
proof fn lemma_week_starts()
    ensures
        starts("weeks".spec_bytes(), 5, 'w', 'e'),
        starts("week".spec_bytes(), 4, 'w', 'e'),
        starts("w".spec_bytes(), 1, 'w', ' '),
{
    reveal_strlit("weeks");
    lemma_ascii_bytes("weeks");
    reveal_strlit("week");
    lemma_ascii_bytes("week");
    reveal_strlit("w");
    lemma_ascii_bytes("w");
}

/// The length and the first two bytes of each spelling of the day.
proof fn lemma_day_starts()
    ensures
        starts("days".spec_bytes(), 4, 'd', 'a'),
        starts("day".spec_bytes(), 3, 'd', 'a'),
        starts("d".spec_bytes(), 1, 'd', ' '),
{
    reveal_strlit("days");
    lemma_ascii_bytes("days");
    reveal_strlit("day");
    lemma_ascii_bytes("day");
    reveal_strlit("d");
    lemma_ascii_bytes("d");
}

/// The length and the first two bytes of each spelling of the hour.
proof fn lemma_hour_starts()
    ensures
        starts("hours".spec_bytes(), 5, 'h', 'o'),
        starts("hour".spec_bytes(), 4, 'h', 'o'),
        starts("hrs".spec_bytes(), 3, 'h', 'r'),
        starts("hr".spec_bytes(), 2, 'h', 'r'),
        starts("h".spec_bytes(), 1, 'h', ' '),
{
    reveal_strlit("hours");
    lemma_ascii_bytes("hours");
    reveal_strlit("hour");
    lemma_ascii_bytes("hour");
    reveal_strlit("hrs");
    lemma_ascii_bytes("hrs");
    reveal_strlit("hr");
    lemma_ascii_bytes("hr");
    reveal_strlit("h");
    lemma_ascii_bytes("h");
}

/// The length and the first two bytes of each spelling of the minute.
proof fn lemma_minute_starts()
    ensures
        starts("minutes".spec_bytes(), 7, 'm', 'i'),
        starts("minute".spec_bytes(), 6, 'm', 'i'),
        starts("mins".spec_bytes(), 4, 'm', 'i'),
        starts("min".spec_bytes(), 3, 'm', 'i'),
        starts("m".spec_bytes(), 1, 'm', ' '),
{
    reveal_strlit("minutes");
    lemma_ascii_bytes("minutes");
    reveal_strlit("minute");
    lemma_ascii_bytes("minute");
    reveal_strlit("mins");
    lemma_ascii_bytes("mins");
    reveal_strlit("min");
    lemma_ascii_bytes("min");
    reveal_strlit("m");
    lemma_ascii_bytes("m");
}

/// The length and the first two bytes of each spelling of the millisecond.
proof fn lemma_millisecond_starts()
    ensures
        starts("milliseconds".spec_bytes(), 12, 'm', 'i'),
        starts("millisecond".spec_bytes(), 11, 'm', 'i'),
        starts("msecs".spec_bytes(), 5, 'm', 's'),
        starts("msec".spec_bytes(), 4, 'm', 's'),
        starts("ms".spec_bytes(), 2, 'm', 's'),
        starts("".spec_bytes(), 0, ' ', ' '),
{
    reveal_strlit("milliseconds");
    lemma_ascii_bytes("milliseconds");
    reveal_strlit("millisecond");
    lemma_ascii_bytes("millisecond");
    reveal_strlit("msecs");
    lemma_ascii_bytes("msecs");
    reveal_strlit("msec");
    lemma_ascii_bytes("msec");
    reveal_strlit("ms");
    lemma_ascii_bytes("ms");
    reveal_strlit("");
    lemma_ascii_bytes("");
}

/// The length and the first two bytes of each spelling of the second.
proof fn lemma_second_starts()
    ensures
        starts("seconds".spec_bytes(), 7, 's', 'e'),
        starts("second".spec_bytes(), 6, 's', 'e'),
        starts("secs".spec_bytes(), 4, 's', 'e'),
        starts("sec".spec_bytes(), 3, 's', 'e'),
        starts("s".spec_bytes(), 1, 's', ' '),
{
    reveal_strlit("seconds");
    lemma_ascii_bytes("seconds");
    reveal_strlit("second");
    lemma_ascii_bytes("second");
    reveal_strlit("secs");
    lemma_ascii_bytes("secs");
    reveal_strlit("sec");
    lemma_ascii_bytes("sec");
    reveal_strlit("s");
    lemma_ascii_bytes("s");
}

/// Whether `s` starts with the character `c`.
pub open spec fn starts_with(s: Seq<u8>, c: char) -> bool {
    s.len() > 0 && s[0] == c as u8
}

/// How the spellings of each unit start, and that no spelling of the minute is
/// one of the millisecond: together this tells the units apart.
pub proof fn lemma_starts(suffix: Seq<u8>)
    ensures
        names_year(suffix) ==> starts_with(suffix, 'y'),
        names_week(suffix) ==> starts_with(suffix, 'w'),
        names_day(suffix) ==> starts_with(suffix, 'd'),
        names_hour(suffix) ==> starts_with(suffix, 'h'),
        names_minute(suffix) ==> starts_with(suffix, 'm'),
        names_millisecond(suffix) ==> suffix.len() == 0 || starts_with(suffix, 'm'),
        names_second(suffix) ==> starts_with(suffix, 's'),
        !(names_minute(suffix) && names_millisecond(suffix)),
{
    reveal(spelled);
    lemma_year_starts();
    lemma_week_starts();
    lemma_day_starts();
    lemma_hour_starts();
    lemma_minute_starts();
    lemma_millisecond_starts();
    lemma_second_starts();
}

/// No spelling belongs to two units: whichever unit a suffix spells is the
/// unit that it names.
pub proof fn lemma_unit_of(suffix: Seq<u8>)
    ensures
        names_year(suffix) ==> unit_of(suffix) == Some(Unit::Year),
        names_week(suffix) ==> unit_of(suffix) == Some(Unit::Week),
        names_day(suffix) ==> unit_of(suffix) == Some(Unit::Day),
        names_hour(suffix) ==> unit_of(suffix) == Some(Unit::Hour),
        names_minute(suffix) ==> unit_of(suffix) == Some(Unit::Minute),
        names_millisecond(suffix) ==> unit_of(suffix) == Some(Unit::Millisecond),
        names_second(suffix) ==> unit_of(suffix) == Some(Unit::Second),
{
    lemma_starts(suffix);
}

/// After `n` blanks that end at the end of `s` or in front of a byte that is
/// no blank, what is left of `s` starts with no blank.
proof fn lemma_trim_start(s: Seq<u8>, n: int)
    requires
        0 <= n <= s.len(),
        forall|i: int| 0 <= i < n ==> is_blank(#[trigger] s[i]),
        n < s.len() ==> !is_blank(s[n]),
    ensures
        trim_start(s) == s.skip(n),
    decreases n,
{
    if n > 0 {
        let t = s.drop_first();
        assert forall|i: int| 0 <= i < n - 1 implies is_blank(#[trigger] t[i]) by {
            assert(t[i] == s[i + 1]);
        }
        lemma_trim_start(t, n - 1);
        assert(t.skip(n - 1) =~= s.skip(n));
    } else {
        assert(s.skip(0) =~= s);
    }
}

/// The same from the other end: before `n` trailing blanks with no blank in
/// front of them, what is left of `s` ends with no blank.
proof fn lemma_trim_end(s: Seq<u8>, n: int)
    requires
        0 <= n <= s.len(),
        forall|i: int| s.len() - n <= i < s.len() ==> is_blank(#[trigger] s[i]),
        n < s.len() ==> !is_blank(s[s.len() - n - 1]),
    ensures
        trim_end(s) == s.take(s.len() - n),
    decreases n,
{
    if n > 0 {
        let t = s.drop_last();
        assert forall|i: int| t.len() - (n - 1) <= i < t.len() implies is_blank(
            #[trigger] t[i],
        ) by {
            assert(t[i] == s[i]);
        }
        lemma_trim_end(t, n - 1);
        assert(t.take(t.len() - (n - 1)) =~= s.take(s.len() - n));
    } else {
        assert(s.take(s.len() as int) =~= s);
    }
}

/// Blanks at the end are cut off behind a first byte that is no blank.
pub proof fn lemma_trim_end_keeps_start(s: Seq<u8>)
    requires
        s.len() > 0,
        !is_blank(s[0]),
    ensures
        trim_end(s).len() > 0,
        trim_end(s)[0] == s[0],
    decreases s.len(),
{
    if is_blank(s.last()) {
        lemma_trim_end_keeps_start(s.drop_last());
    }
}

/// A suffix that names a unit starts with a blank or with a lower-case letter,
/// so never with a digit, a point or a sign.
pub proof fn lemma_named_suffix_start(suffix: Seq<u8>)
    requires
        unit_of(trimmed(suffix)) is Some,
        suffix.len() > 0,
    ensures
        is_blank(suffix[0]) || 'a' as u8 <= suffix[0] <= 'z' as u8,
{
    if !is_blank(suffix[0]) {
        lemma_trim_end_keeps_start(suffix);
        lemma_starts(trimmed(suffix));
    }
}

/// Text with no blank at either end is left as it is.
pub proof fn lemma_trimmed_bare(s: Seq<u8>)
    requires
        s.len() > 0 ==> !is_blank(s[0]) && !is_blank(s.last()),
    ensures
        trimmed(s) == s,
{
}

/// Of a space followed by text with no blank at either end, the text is left.
pub proof fn lemma_trimmed_after_space(s: Seq<u8>, bare: Seq<u8>)
    requires
        s == seq![0x20u8] + bare,
        bare.len() > 0,
        !is_blank(bare[0]),
        !is_blank(bare.last()),
    ensures
        trimmed(s) == bare,
{
    assert(s.drop_first() =~= bare);
    assert(trim_start(bare) == bare);
    assert(trim_end(bare) == bare);
}

/// The part of `bytes` between the blanks at its ends.
pub fn trim(bytes: &[u8]) -> (r: &[u8])
    ensures
        r@ == trimmed(bytes@),
{
    let len = bytes.len();
    let mut start: usize = 0;
    while start < len && is_blank(bytes[start])
        invariant
            start <= len,
            len == bytes@.len(),
            forall|i: int| 0 <= i < start ==> is_blank(#[trigger] bytes@[i]),
        decreases len - start,
    {
        start += 1;
    }
    let mut end: usize = len;
    while end > start && is_blank(bytes[end - 1])
        invariant
            start <= end <= len,
            len == bytes@.len(),
            forall|i: int| end <= i < len ==> is_blank(#[trigger] bytes@[i]),
        decreases end,
    {
        end -= 1;
    }
    proof {
        let rest = bytes@.skip(start as int);
        lemma_trim_start(bytes@, start as int);
        assert forall|i: int| rest.len() - (len - end) <= i < rest.len() implies is_blank(
            #[trigger] rest[i],
        ) by {
            assert(rest[i] == bytes@[i + start]);
        }
        lemma_trim_end(rest, len - end);
        assert(rest.take(end - start) =~= bytes@.subrange(start as int, end as int));
    }
    &bytes[start..end]
}

/// The bytes of `postfix` between the blanks at its ends: the part that names
/// the unit.
pub fn get_byte_postfix(postfix: &str) -> (r: &[u8])
    ensures
        r@ == trimmed(postfix.spec_bytes()),
{
    trim(postfix.as_bytes())
}

/// Whether `postfix` is exactly the text `name`.
fn is_spelled(postfix: &[u8], name: &str) -> (r: bool)
    ensures
        r == spelled(postfix@, name),
{
    reveal(spelled);
    same_bytes(postfix, name.as_bytes())
}

/// Whether `postfix` is one of the spellings of a year.
fn is_year(postfix: &[u8]) -> (r: bool)
    ensures
        r == names_year(postfix@),
{
    is_spelled(postfix, "years")
        || is_spelled(postfix, "year")
        || is_spelled(postfix, "yrs")
        || is_spelled(postfix, "yr")
        || is_spelled(postfix, "y")
}

/// Whether `postfix` is one of the spellings of a week.
fn is_week(postfix: &[u8]) -> (r: bool)
    ensures
        r == names_week(postfix@),
{
    is_spelled(postfix, "weeks")
        || is_spelled(postfix, "week")
        || is_spelled(postfix, "w")
}

/// Whether `postfix` is one of the spellings of a day.
fn is_day(postfix: &[u8]) -> (r: bool)
    ensures
        r == names_day(postfix@),
{
    is_spelled(postfix, "days")
        || is_spelled(postfix, "day")
        || is_spelled(postfix, "d")
}

/// Whether `postfix` is one of the spellings of an hour.
fn is_hour(postfix: &[u8]) -> (r: bool)
    ensures
        r == names_hour(postfix@),
{
    is_spelled(postfix, "hours")
        || is_spelled(postfix, "hour")
        || is_spelled(postfix, "hrs")
        || is_spelled(postfix, "hr")
        || is_spelled(postfix, "h")
}

/// Whether `postfix` is one of the spellings of a minute.
fn is_minute(postfix: &[u8]) -> (r: bool)
    ensures
        r == names_minute(postfix@),
{
    is_spelled(postfix, "minutes")
        || is_spelled(postfix, "minute")
        || is_spelled(postfix, "mins")
        || is_spelled(postfix, "min")
        || is_spelled(postfix, "m")
}

/// Whether `postfix` is one of the spellings of a millisecond.
fn is_millisecond(postfix: &[u8]) -> (r: bool)
    ensures
        r == names_millisecond(postfix@),
{
    is_spelled(postfix, "milliseconds")
        || is_spelled(postfix, "millisecond")
        || is_spelled(postfix, "msecs")
        || is_spelled(postfix, "msec")
        || is_spelled(postfix, "ms")
        || is_spelled(postfix, "")
}

/// Whether `postfix` is one of the spellings of a second.
fn is_second(postfix: &[u8]) -> (r: bool)
    ensures
        r == names_second(postfix@),
{
    is_spelled(postfix, "seconds")
        || is_spelled(postfix, "second")
        || is_spelled(postfix, "secs")
        || is_spelled(postfix, "sec")
        || is_spelled(postfix, "s")
}

/// The unit that `postfix` names, or the error for a suffix that names none.
/// The first byte decides which spellings are tried.
pub fn get_modification(postfix: &[u8]) -> (r: Result<Unit, Error>)
    ensures
        r == match unit_of(postfix@) {
            Some(unit) => Ok::<Unit, Error>(unit),
            None => Err(Error::invalid_postfix()),
        },
{
    proof {
        lemma_starts(postfix@);
    }
    let empty = postfix.len() == 0;
    let head: u8 = if empty {
        0
    } else {
        postfix[0]
    };
    if head == 'y' as u8 && is_year(postfix) {
        Ok(Unit::Year)
    } else if head == 'w' as u8 && is_week(postfix) {
        Ok(Unit::Week)
    } else if head == 'd' as u8 && is_day(postfix) {
        Ok(Unit::Day)
    } else if head == 'h' as u8 && is_hour(postfix) {
        Ok(Unit::Hour)
    } else if head == 'm' as u8 && is_minute(postfix) {
        Ok(Unit::Minute)
    } else if (empty || head == 'm' as u8) && is_millisecond(postfix) {
        Ok(Unit::Millisecond)
    } else if head == 's' as u8 && is_second(postfix) {
        Ok(Unit::Second)
    } else {
        Err(Error::new("invalid postfix"))
    }
}

} // verus!
