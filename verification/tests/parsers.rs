use hours::time_converter::parsers::{parse_hhhmmss, parse_mmmss};

#[test]
fn parsers_hours_allow_1_digit() {
    assert_eq!(parse_hhhmmss(&String::from("1:00:00")), (1, 0, 0));
}

#[test]
fn parsers_hours_allow_2_digits() {
    assert_eq!(parse_hhhmmss(&String::from("10:00:00")), (10, 0, 0));
}

#[test]
fn parsers_hours_allow_3_digits() {
    assert_eq!(parse_hhhmmss(&String::from("100:00:00")), (100, 0, 0));
}

#[test]
fn parsers_minutes_allow_0_digits() {
    assert_eq!(parse_hhhmmss(&String::from("0::00")), (0, 0, 0));
}

#[test]
fn parsers_minutes_allow_1_digit() {
    assert_eq!(parse_hhhmmss(&String::from("0:1:00")), (0, 1, 0));
    assert_eq!(parse_mmmss(&String::from("1:00")), (1, 0));
}

#[test]
fn parsers_minutes_allow_2_digits() {
    assert_eq!(parse_hhhmmss(&String::from("0:11:00")), (0, 11, 0));
    assert_eq!(parse_mmmss(&String::from("10:00")), (10, 0));
}

#[test]
fn parsers_minutes_allow_up_to_59() {
    assert_eq!(parse_hhhmmss(&String::from("0:59:00")), (0, 59, 0));
}

#[test]
fn parsers_seconds_allow_0_digits() {
    assert_eq!(parse_hhhmmss(&String::from("1:23:")), (1, 23, 0));
    assert_eq!(parse_mmmss(&String::from("1:")), (1, 0));
}

#[test]
fn parsers_seconds_allow_1_digit() {
    assert_eq!(parse_hhhmmss(&String::from("00:00:1")), (0, 0, 1));
    assert_eq!(parse_mmmss(&String::from("0:1")), (0, 1));
}

#[test]
fn parsers_seconds_allow_2_digits() {
    assert_eq!(parse_hhhmmss(&String::from("0:00:01")), (0, 0, 1));
    assert_eq!(parse_mmmss(&String::from("0:01")), (0, 1));
}

#[test]
fn parsers_seconds_allow_up_to_59() {
    assert_eq!(parse_hhhmmss(&String::from("0:00:59")), (0, 0, 59));
    assert_eq!(parse_mmmss(&String::from("0:59")), (0, 59));
}

#[test]
fn parsers_minutes_allow_0_digit() {
    assert_eq!(parse_mmmss(&String::from(":01")), (0, 1));
}

#[test]
fn parsers_minutes_allow_3_digits() {
    assert_eq!(parse_mmmss(&String::from("100:00")), (100, 0));
}

#[test]
fn the_widest_hours_and_minutes_are_read() {
    assert_eq!(parse_hhhmmss(&String::from("65535:59:59")), (65535, 59, 59));
    assert_eq!(parse_mmmss(&String::from("65535:59")), (65535, 59));
    assert_eq!(parse_hhhmmss(&String::from("::")), (0, 0, 0));
    assert_eq!(parse_mmmss(&String::from(":")), (0, 0));
}
