use ms_converter::{
    get_duration_by_postfix, get_max_possible_duration, DAY, HOUR, MINUTE, SECOND, WEEK, YEAR,
};

#[test]
fn get_duration_by_postfix_base() {
    let value = get_duration_by_postfix(1, "ms").unwrap();
    assert_eq!(value, "1ms")
}

#[test]
fn get_duration_by_postfix_base_space() {
    let value = get_duration_by_postfix(1, " ms").unwrap();
    assert_eq!(value, "1 ms")
}

#[test]
fn get_duration_by_postfix_seconds() {
    let value = get_duration_by_postfix(10 * SECOND as i64, "seconds").unwrap();
    assert_eq!(value, "10seconds")
}

#[test]
fn get_duration_by_postfix_seconds_space() {
    let value = get_duration_by_postfix(10 * SECOND as i64, " seconds").unwrap();
    assert_eq!(value, "10 seconds")
}

#[test]
fn get_duration_by_postfix_minute() {
    let value = get_duration_by_postfix(MINUTE as i64, "minute").unwrap();
    assert_eq!(value, "1minute")
}

#[test]
fn get_duration_by_postfix_minute_space() {
    let value = get_duration_by_postfix(MINUTE as i64, " minute").unwrap();
    assert_eq!(value, "1 minute")
}

#[test]
fn get_duration_by_postfix_hours() {
    let value = get_duration_by_postfix(10 * HOUR as i64, "hours").unwrap();
    assert_eq!(value, "10hours")
}

#[test]
fn get_duration_by_postfix_hours_space() {
    let value = get_duration_by_postfix(10 * HOUR as i64, " hours").unwrap();
    assert_eq!(value, "10 hours")
}

#[test]
fn get_duration_by_postfix_day() {
    let value = get_duration_by_postfix(DAY as i64, "day").unwrap();
    assert_eq!(value, "1day")
}

#[test]
fn get_duration_by_postfix_day_space() {
    let value = get_duration_by_postfix(DAY as i64, " day").unwrap();
    assert_eq!(value, "1 day")
}

#[test]
fn get_duration_by_postfix_weeks() {
    let value = get_duration_by_postfix(10 * WEEK as i64, "weeks").unwrap();
    assert_eq!(value, "10weeks")
}

#[test]
fn get_duration_by_postfix_weeks_space() {
    let value = get_duration_by_postfix(10 * WEEK as i64, " weeks").unwrap();
    assert_eq!(value, "10 weeks")
}

#[test]
fn get_duration_by_postfix_year() {
    let value = get_duration_by_postfix(YEAR as i64, "year").unwrap();
    assert_eq!(value, "1year")
}

#[test]
fn get_duration_by_postfix_year_space() {
    let value = get_duration_by_postfix(YEAR as i64, " year").unwrap();
    assert_eq!(value, "1 year")
}

#[test]
fn get_duration_by_postfix_year_neg() {
    let value = get_duration_by_postfix(-YEAR as i64, "year").unwrap();
    assert_eq!(value, "-1year")
}

#[test]
fn get_duration_by_postfix_year_neg_space() {
    let value = get_duration_by_postfix(-YEAR as i64, " year").unwrap();
    assert_eq!(value, "-1 year")
}

#[test]
fn get_max_possible_duration_milliseconds() {
    let value = get_max_possible_duration(11 as i64).unwrap();
    assert_eq!(value, "11ms")
}

#[test]
fn get_max_possible_duration_seconds() {
    let value = get_max_possible_duration(12 * SECOND as i64).unwrap();
    assert_eq!(value, "12s")
}

#[test]
fn get_max_possible_duration_minutes() {
    let value = get_max_possible_duration(32 * MINUTE as i64).unwrap();
    assert_eq!(value, "32m")
}

#[test]
fn get_max_possible_duration_hours() {
    let value = get_max_possible_duration(10 * HOUR as i64).unwrap();
    assert_eq!(value, "10h")
}

#[test]
fn get_max_possible_duration_day() {
    let value = get_max_possible_duration(DAY as i64).unwrap();
    assert_eq!(value, "1d")
}

#[test]
fn get_max_possible_duration_weeks() {
    let value = get_max_possible_duration(WEEK as i64).unwrap();
    assert_eq!(value, "7d")
}

#[test]
fn get_max_possible_duration_two_weeks() {
    let value = get_max_possible_duration(2 * WEEK as i64).unwrap();
    assert_eq!(value, "14d")
}

#[test]
fn get_max_possible_duration_weeks_neg() {
    let value = get_max_possible_duration(-WEEK as i64).unwrap();
    assert_eq!(value, "-7d")
}
