use ms_converter::{ms, ms_into_time, DAY, HOUR, MINUTE, SECOND, WEEK, YEAR};

#[test]
fn every_spelling_of_every_unit_is_read() {
    let table: [(&[&str], i64); 7] = [
        (&["years", "year", "yrs", "yr", "y"], YEAR),
        (&["weeks", "week", "w"], WEEK),
        (&["days", "day", "d"], DAY),
        (&["hours", "hour", "hrs", "hr", "h"], HOUR),
        (&["minutes", "minute", "mins", "min", "m"], MINUTE),
        (&["seconds", "second", "secs", "sec", "s"], SECOND),
        (&["milliseconds", "millisecond", "msecs", "msec", "ms", ""], 1),
    ];
    for (spellings, multiplier) in table {
        for spelling in spellings {
            assert_eq!(ms(&format!("3{}", spelling)).unwrap(), 3 * multiplier);
            assert_eq!(ms(&format!("3 {}", spelling)).unwrap(), 3 * multiplier);
        }
    }
}

#[test]
fn multipliers_have_their_exact_values() {
    assert_eq!(SECOND, 1_000);
    assert_eq!(MINUTE, 60_000);
    assert_eq!(HOUR, 3_600_000);
    assert_eq!(DAY, 86_400_000);
    assert_eq!(WEEK, 604_800_000);
    assert_eq!(YEAR, 31_557_600_000);
}

#[test]
fn minute_and_millisecond_are_told_apart() {
    assert_eq!(ms("1m").unwrap(), 60_000);
    assert_eq!(ms("1ms").unwrap(), 1);
    assert_eq!(ms("1").unwrap(), 1);
    assert_eq!(ms("1min").unwrap(), 60_000);
    assert_eq!(ms("1msec").unwrap(), 1);
}

#[test]
fn value_times_multiplier_is_rounded_once() {
    assert_eq!(ms("2.5 hrs").unwrap(), 9_000_000);
    assert_eq!(ms("1.1d").unwrap(), 95_040_000);
    assert_eq!(ms("0.001s").unwrap(), 1);
    assert_eq!(ms("100000000.1231412ms").unwrap(), 100_000_000);
    assert_eq!(ms("1.5y").unwrap(), 47_336_400_000);
    assert_eq!(ms("0.3333m").unwrap(), 19_998);
}

#[test]
fn a_half_is_rounded_away_from_zero() {
    assert_eq!(ms("0.5").unwrap(), 1);
    assert_eq!(ms("-0.5").unwrap(), -1);
    assert_eq!(ms("1.5").unwrap(), 2);
    assert_eq!(ms("2.5").unwrap(), 3);
    assert_eq!(ms("-2.5").unwrap(), -3);
    assert_eq!(ms("0.0005s").unwrap(), 1);
    assert_eq!(ms("-0.0005s").unwrap(), -1);
    assert_eq!(ms("1.0005s").unwrap(), 1_001);
    assert_eq!(ms("1.00049s").unwrap(), 1_000);
    assert_eq!(ms("0.4999").unwrap(), 0);
    assert_eq!(ms("-0.4999").unwrap(), 0);
}

#[test]
fn digits_far_behind_the_point_still_count() {
    assert_eq!(ms("0.49999999999999999999999999999999999999").unwrap(), 0);
    assert_eq!(ms("0.50000000000000000000000000000000000000").unwrap(), 1);
    assert_eq!(ms("0.00049999999999999999999999999999999999s").unwrap(), 0);
    assert_eq!(ms("0.00050000000000000000000000000000000001s").unwrap(), 1);
    assert_eq!(ms("1.00000000000000000000000000000000000000d").unwrap(), DAY);
}

#[test]
fn a_point_needs_no_digit_beside_it() {
    assert_eq!(ms("12.").unwrap(), 12);
    assert_eq!(ms(".5s").unwrap(), 500);
    assert_eq!(ms("-.5s").unwrap(), -500);
    assert_eq!(ms("+.5s").unwrap(), 500);
    assert_eq!(ms(".").unwrap(), 0);
    assert_eq!(ms("-.").unwrap(), 0);
    assert_eq!(ms(". d").unwrap(), 0);
}

#[test]
fn zero_is_read_with_either_sign() {
    assert_eq!(ms("0").unwrap(), 0);
    assert_eq!(ms("-0").unwrap(), 0);
    assert_eq!(ms("+0").unwrap(), 0);
    assert_eq!(ms("-0.0y").unwrap(), 0);
    assert_eq!(ms("000012").unwrap(), 12);
}

#[test]
fn blanks_around_the_unit_are_ignored() {
    assert_eq!(ms("1 d").unwrap(), DAY);
    assert_eq!(ms("1  d").unwrap(), DAY);
    assert_eq!(ms("1d ").unwrap(), DAY);
    assert_eq!(ms("1\td\n").unwrap(), DAY);
    assert_eq!(ms("1 \r\n\x0c days \t").unwrap(), DAY);
    assert_eq!(ms("7 ").unwrap(), 7);
    assert_eq!(ms("7   ").unwrap(), 7);
}

#[test]
fn results_beyond_the_range_are_kept_at_its_bounds() {
    assert_eq!(ms("9223372036854775807").unwrap(), i64::MAX);
    assert_eq!(ms("9223372036854775808").unwrap(), i64::MAX);
    assert_eq!(ms("-9223372036854775808").unwrap(), i64::MIN);
    assert_eq!(ms("-9223372036854775809").unwrap(), i64::MIN);
    assert_eq!(ms("9223372036854775806.5").unwrap(), i64::MAX);
    assert_eq!(ms("9223372036854775806.4").unwrap(), i64::MAX - 1);
    assert_eq!(ms("-9223372036854775807.5").unwrap(), i64::MIN);
    assert_eq!(ms("99999999999999999999999999999999999999999y").unwrap(), i64::MAX);
    assert_eq!(ms("-99999999999999999999999999999999999999999y").unwrap(), i64::MIN);
    assert_eq!(ms("292271023y").unwrap(), 9_223_372_035_424_800_000);
    assert_eq!(ms("292271024y").unwrap(), i64::MAX);
}

#[test]
fn a_malformed_number_is_an_invalid_value() {
    for text in ["1..2", "1-2", "--5", "1+2", "+-1", "1.2.3", "..", "1.-2", "5-", "1.2.d"] {
        assert_eq!(ms(text).unwrap_err().message(), "invalid value", "{}", text);
    }
}

#[test]
fn a_missing_number_is_an_invalid_value() {
    for text in ["", "-", "+", "d", "test", " 1d", "- 1", "xs"] {
        assert_eq!(ms(text).unwrap_err().message(), "invalid value", "{}", text);
    }
}

#[test]
fn an_unknown_unit_is_an_invalid_postfix() {
    let texts = ["100 xs", "100 test", "1D", "1 Days", "1dd", "1 d d", "1mss", "1e3", "1 день"];
    for text in texts {
        assert_eq!(ms(text).unwrap_err().message(), "invalid postfix", "{}", text);
    }
}

#[test]
fn a_malformed_number_is_reported_before_an_unknown_unit() {
    assert_eq!(ms("1..2 xs").unwrap_err().message(), "invalid value");
    assert_eq!(ms("-xs").unwrap_err().message(), "invalid value");
}

#[test]
fn a_negative_duration_is_no_time() {
    assert_eq!(
        ms_into_time("-1d").unwrap_err().message(),
        "time.Duration cannot work with negative values"
    );
    assert_eq!(ms_into_time("-0.4").unwrap().as_millis(), 0);
    assert_eq!(ms_into_time("0").unwrap().as_millis(), 0);
    assert_eq!(ms_into_time("1.5s").unwrap().as_millis(), 1_500);
    assert_eq!(ms_into_time("1..5s").unwrap_err().message(), "invalid value");
    assert_eq!(ms_into_time("1 sx").unwrap_err().message(), "invalid postfix");
    assert_eq!(
        ms_into_time("9223372036854775807").unwrap().as_millis(),
        9_223_372_036_854_775_807
    );
}
