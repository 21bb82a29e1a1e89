use ms_converter::{parse, Number};

/// The value of a parsed number as a float.
fn float_of(number: &Number) -> f64 {
    let mut value = 0_f64;
    for digit in number.whole() {
        value = value * 10_f64 + (digit - b'0') as f64;
    }
    let mut place = 1_f64;
    for digit in number.fraction() {
        place /= 10_f64;
        value += (digit - b'0') as f64 * place;
    }
    if number.is_negative() {
        -value
    } else {
        value
    }
}

#[test]
fn parse_invalid_num() {
    let value = parse(b"test").is_err();
    assert_eq!(value, true)
}

#[test]
fn parse_invalid_num_2() {
    let value = parse(b"1-2").is_err();
    assert_eq!(value, true)
}

#[test]
fn parse_invalid_num_3() {
    let value = parse(b"1..2").is_err();
    assert_eq!(value, true)
}

#[test]
fn parse_empty_dot() {
    let value = parse(b"12.").unwrap();
    assert_eq!(float_of(&value), 12.)
}

#[test]
fn parse_num() {
    let value = parse(b"12").unwrap();
    assert_eq!(float_of(&value), 12.)
}

#[test]
fn parse_dec_num() {
    let value = parse(b"12.5").unwrap();
    assert_eq!(float_of(&value), 12.5)
}
