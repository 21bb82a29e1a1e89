use ms_converter::{get_byte_postfix, get_modification, parse, Error, Unit};

#[test]
fn a_number_keeps_its_sign_and_digits() {
    let number = parse(b"-12.50").unwrap();
    assert!(number.is_negative());
    assert_eq!(number.whole(), b"12");
    assert_eq!(number.fraction(), b"50");
    let number = parse(b"+7").unwrap();
    assert!(!number.is_negative());
    assert_eq!(number.whole(), b"7");
    assert_eq!(number.fraction(), b"");
    let number = parse(b".25").unwrap();
    assert_eq!(number.whole(), b"");
    assert_eq!(number.fraction(), b"25");
    let number = parse(b"3.").unwrap();
    assert_eq!(number.whole(), b"3");
    assert_eq!(number.fraction(), b"");
}

#[test]
fn a_number_is_counted_in_any_unit() {
    let number = parse(b"1.5").unwrap();
    assert_eq!(number.to_millis(Unit::Millisecond), 2);
    assert_eq!(number.to_millis(Unit::Second), 1_500);
    assert_eq!(number.to_millis(Unit::Minute), 90_000);
    assert_eq!(number.to_millis(Unit::Hour), 5_400_000);
    assert_eq!(number.to_millis(Unit::Day), 129_600_000);
    assert_eq!(number.to_millis(Unit::Week), 907_200_000);
    assert_eq!(number.to_millis(Unit::Year), 47_336_400_000);
    let number = parse(b"-0.000000000016").unwrap();
    assert_eq!(number.to_millis(Unit::Year), -1);
    assert_eq!(number.to_millis(Unit::Week), 0);
}

#[test]
fn bytes_that_spell_no_number_are_refused() {
    for token in [&b""[..], b"-", b"+", b"1 ", b" 1", b"1d", b"1e5", b"0x10", b"1,5", b"\xff"] {
        assert_eq!(parse(token).unwrap_err().message(), "invalid value");
    }
}

#[test]
fn blanks_are_cut_from_both_ends_of_a_postfix() {
    assert_eq!(get_byte_postfix(" days"), b"days");
    assert_eq!(get_byte_postfix("days"), b"days");
    assert_eq!(get_byte_postfix(" \t\r\n\x0cdays \t\r\n\x0c"), b"days");
    assert_eq!(get_byte_postfix("d s"), b"d s");
    assert_eq!(get_byte_postfix("   "), b"");
    assert_eq!(get_byte_postfix(""), b"");
    assert_eq!(get_byte_postfix("\u{a0}d"), "\u{a0}d".as_bytes());
    assert_eq!(get_byte_postfix("\x0bd"), b"\x0bd");
}

#[test]
fn a_postfix_names_at_most_one_unit() {
    assert_eq!(get_modification(b"y").unwrap(), Unit::Year);
    assert_eq!(get_modification(b"weeks").unwrap(), Unit::Week);
    assert_eq!(get_modification(b"day").unwrap(), Unit::Day);
    assert_eq!(get_modification(b"hrs").unwrap(), Unit::Hour);
    assert_eq!(get_modification(b"m").unwrap(), Unit::Minute);
    assert_eq!(get_modification(b"mins").unwrap(), Unit::Minute);
    assert_eq!(get_modification(b"ms").unwrap(), Unit::Millisecond);
    assert_eq!(get_modification(b"msec").unwrap(), Unit::Millisecond);
    assert_eq!(get_modification(b"").unwrap(), Unit::Millisecond);
    assert_eq!(get_modification(b"secs").unwrap(), Unit::Second);
    for postfix in [&b" d"[..], b"d ", b"D", b"mi", b"millis", b"yeers", b"sec.", b"\xc3\xa9"] {
        assert_eq!(get_modification(postfix).unwrap_err().message(), "invalid postfix");
    }
}

#[test]
fn longer_units_have_larger_multipliers() {
    let units = [
        Unit::Millisecond,
        Unit::Second,
        Unit::Minute,
        Unit::Hour,
        Unit::Day,
        Unit::Week,
        Unit::Year,
    ];
    for pair in units.windows(2) {
        assert!(pair[0].multiplier() < pair[1].multiplier());
    }
    assert_eq!(Unit::Millisecond.multiplier(), 1);
    assert_eq!(Unit::Year.multiplier(), 31_557_600_000);
}

#[test]
fn an_error_carries_its_message() {
    let error = Error::new("invalid value");
    assert_eq!(error.message(), "invalid value");
    assert_eq!(format!("{:?}", error), "Error { message: \"invalid value\" }");
}
