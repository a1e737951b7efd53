use hours::error::ParseError;
use hours::use_cases::{convert_decimal_to_time, convert_time_to_decimal, use_case_picker};

#[test]
fn prints_4_decimal_digits() -> Result<(), ParseError> {
    let given = convert_time_to_decimal(&String::from("1:15:00"))?;
    let expected = String::from("1.2500");
    assert_eq!(given, expected);
    Ok(())
}

#[test]
fn based_bug_parsing_minutes_overflow_while_no_seconds_given() -> Result<(), ParseError> {
    let time1 = convert_time_to_decimal(&String::from("2:06:00"))?;
    let time2 = convert_time_to_decimal(&String::from("1:66"))?;
    assert_eq!(time1, time2);
    Ok(())
}

#[test]
fn one_hour_sixty_six_minutes_in_decimal() {
    assert_eq!(
        convert_time_to_decimal(&String::from("1:66")),
        Ok(String::from("2.1000"))
    );
}

#[test]
fn decimal_hours_become_clock_time() {
    assert_eq!(
        convert_decimal_to_time(&String::from("1.055")),
        Ok(String::from("1:03:18"))
    );
    assert_eq!(
        convert_decimal_to_time(&String::from("1,055")),
        Ok(String::from("1:03:18"))
    );
}

#[test]
fn sixty_minutes_become_one_hour() {
    assert_eq!(
        convert_time_to_decimal(&String::from("0:60:00")),
        Ok(String::from("1.0000"))
    );
}

#[test]
fn negative_decimal_is_rejected() {
    assert_eq!(
        convert_decimal_to_time(&String::from("-1.0")),
        Err(ParseError::new("Couldn't parse given time."))
    );
    assert_eq!(
        convert_time_to_decimal(&String::from("-1:00:00")),
        Err(ParseError::new("Couldn't parse given time."))
    );
}

#[test]
fn a_fraction_without_hours_is_decimal_notation() {
    assert_eq!(
        convert_decimal_to_time(&String::from(".1000")),
        Ok(String::from("0:06:00"))
    );
    assert_eq!(
        convert_time_to_decimal(&String::from(".1000")),
        Err(ParseError::new("Couldn't parse given time."))
    );
}

#[test]
fn each_conversion_reads_its_own_notation_only() {
    assert_eq!(
        convert_time_to_decimal(&String::from("1:5:7")),
        Ok(String::from("1.0853"))
    );
    assert_eq!(
        convert_decimal_to_time(&String::from("1:5:7")),
        Err(ParseError::new("Couldn't parse given time."))
    );
    assert_eq!(
        convert_decimal_to_time(&String::from("1.5")),
        Ok(String::from("1:30:00"))
    );
    assert_eq!(
        convert_time_to_decimal(&String::from("1.5")),
        Err(ParseError::new("Couldn't parse given time."))
    );
}

#[test]
fn text_without_digits_is_rejected() {
    for text in ["", ".", ","] {
        assert_eq!(
            convert_decimal_to_time(&String::from(text)),
            Err(ParseError::new("Couldn't read a number from given time.")),
            "{:?}",
            text
        );
        assert_eq!(
            convert_time_to_decimal(&String::from(text)),
            Err(ParseError::new("Couldn't parse given time.")),
            "{:?}",
            text
        );
    }
}

#[test]
fn a_lone_colon_converts_to_zero() {
    assert_eq!(
        convert_time_to_decimal(&String::from(":")),
        Ok(String::from("0.0000"))
    );
    assert_eq!(
        convert_time_to_decimal(&String::from("::")),
        Ok(String::from("0.0000"))
    );
}

#[test]
fn other_text_is_rejected_by_both() {
    for text in ["-1.0", "abc", "1:2:3:4", "1.2.3", "1:2.3", " 1", "\u{661}"] {
        assert_eq!(
            convert_time_to_decimal(&String::from(text)),
            Err(ParseError::new("Couldn't parse given time.")),
            "{:?}",
            text
        );
        assert_eq!(
            convert_decimal_to_time(&String::from(text)),
            Err(ParseError::new("Couldn't parse given time.")),
            "{:?}",
            text
        );
    }
}

#[test]
fn picker_converts_clock_notation_to_decimal() {
    assert_eq!(
        use_case_picker(&String::from("1:30:18")),
        Ok(String::from("1.5050"))
    );
    assert_eq!(
        use_case_picker(&String::from("1:30")),
        Ok(String::from("1.5000"))
    );
    assert_eq!(
        use_case_picker(&String::from(":")),
        Ok(String::from("0.0000"))
    );
}

#[test]
fn picker_converts_decimal_notation_to_clock() {
    assert_eq!(
        use_case_picker(&String::from("1.055")),
        Ok(String::from("1:03:18"))
    );
    assert_eq!(
        use_case_picker(&String::from("2")),
        Ok(String::from("2:00:00"))
    );
    assert_eq!(
        use_case_picker(&String::from(",5")),
        Ok(String::from("0:30:00"))
    );
}

#[test]
fn picker_rejects_other_text() {
    for text in ["-1.0", "-1:00", "1:2:3:4", "abc", "1 2"] {
        assert_eq!(
            use_case_picker(&String::from(text)),
            Err(ParseError::new("Couldn't match input to conversion.")),
            "{:?}",
            text
        );
    }
    for text in ["", ".", ","] {
        assert_eq!(
            use_case_picker(&String::from(text)),
            Err(ParseError::new("Couldn't read a number from given time.")),
            "{:?}",
            text
        );
    }
}
