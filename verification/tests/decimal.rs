use hours::decimal::Decimal;
use hours::error::ParseError;
use hours::time::Time;

fn decimal(value: f64) -> Decimal {
    Decimal::parse(&format!("{}", value)).unwrap()
}

fn written(hours: u16, minutes: u8, seconds: u8) -> String {
    Time {
        hours,
        minutes,
        seconds,
    }
    .to_decimal()
    .to_rounded_string()
}

fn read(text: &str) -> Time {
    Time::from_decimal(Decimal::parse(text).unwrap())
}

#[test]
fn decimal_to_time() {
    let given = Time::from_decimal(decimal(1.055));
    let expected = Time {
        hours: 1,
        minutes: 3,
        seconds: 18,
    };
    assert_eq!(given, expected)
}

#[test]
fn decimal_to_time_sixty_seconds_is_one_minute() {
    let sixty_seconds = 60.0 / 3600.0;
    let given = Time::from_decimal(decimal(sixty_seconds));
    let expected = Time {
        hours: 0,
        minutes: 1,
        seconds: 0,
    };
    assert_eq!(given, expected)
}

#[test]
fn decimal_to_time_normalized_sixty_minutes_is_one_hour() {
    let sixty_minutes = 60.0 / 60.0;
    let given = Time::from_decimal(decimal(sixty_minutes));
    let expected = Time {
        hours: 1,
        minutes: 0,
        seconds: 0,
    };
    assert_eq!(given, expected)
}

#[test]
fn time_to_decimal() {
    let given_time = Time {
        hours: 1,
        minutes: 30,
        seconds: 45,
    };
    let given: f64 = given_time.to_decimal().to_string().parse().unwrap();
    assert_eq!(given, 1.5125)
}

#[test]
fn test_too_many_minutes() {
    let given_time = Time {
        hours: 1,
        minutes: 60,
        seconds: 00,
    };
    let given: f64 = given_time.to_decimal().to_string().parse().unwrap();
    assert_eq!(given, 2.0)
}

#[test]
fn to_decimal_writes_four_digits_after_the_point() {
    assert_eq!(written(0, 0, 0), "0.0000");
    assert_eq!(written(1, 15, 0), "1.2500");
    assert_eq!(written(1, 30, 45), "1.5125");
    assert_eq!(written(1, 60, 0), "2.0000");
    assert_eq!(written(12, 0, 36), "12.0100");
}

#[test]
fn to_decimal_rounds_to_the_nearest_ten_thousandth() {
    // 1 s = 0.00027..., 2 s = 0.00055..., 5 s = 0.00138..., 7 s = 0.00194...
    assert_eq!(written(0, 0, 1), "0.0003");
    assert_eq!(written(0, 0, 2), "0.0006");
    assert_eq!(written(0, 0, 5), "0.0014");
    assert_eq!(written(0, 0, 7), "0.0019");
    assert_eq!(written(0, 59, 59), "0.9997");
    assert_eq!(written(65535, 59, 59), "65535.9997");
}

#[test]
fn to_decimal_counts_minutes_and_seconds_beyond_fifty_nine() {
    // 255 min 255 s = 15555 s = 4.32083... h
    assert_eq!(written(0, 255, 255), "4.3208");
    assert_eq!(written(65535, 255, 255), "65539.3208");
}

#[test]
fn rounded_text_is_within_half_a_ten_thousandth() {
    for hours in [0u16, 1, 99, 65535] {
        for minutes in 0u8..60 {
            for seconds in 0u8..60 {
                let text = written(hours, minutes, seconds);
                let count: i64 = text.replace('.', "").parse().unwrap();
                let total = 3600 * hours as i64 + 60 * minutes as i64 + seconds as i64;
                let off = 3600 * count - 10000 * total;
                assert!(-1800 <= off && off <= 1800, "{}", text);
                assert_eq!(text.len() - text.find('.').unwrap(), 5);
            }
        }
    }
}

#[test]
fn to_decimal_carries_twelve_digits() {
    let carried = |hours: u16, minutes: u8, seconds: u8| {
        Time {
            hours,
            minutes,
            seconds,
        }
        .to_decimal()
        .to_string()
    };
    assert_eq!(carried(0, 0, 0), "0.000000000000");
    assert_eq!(carried(0, 0, 1), "0.000277777778");
    assert_eq!(carried(0, 1, 0), "0.016666666667");
    assert_eq!(carried(1, 15, 0), "1.250000000000");
    assert_eq!(carried(1, 30, 45), "1.512500000000");
    assert_eq!(carried(1, 60, 0), "2.000000000000");
    assert_eq!(carried(65535, 59, 59), "65535.999722222222");
    assert_eq!(carried(65535, 255, 255), "65539.320833333333");
}

#[test]
fn to_decimal_is_the_sum_of_the_fields() {
    for hours in [0u16, 1, 99, 4096, 65535] {
        for minutes in 0u8..60 {
            for seconds in 0u8..60 {
                let time = Time {
                    hours,
                    minutes,
                    seconds,
                };
                let text = time.to_decimal().to_string();
                let sum = hours as f64 + minutes as f64 / 60.0 + seconds as f64 / 3600.0;
                let given: f64 = text.parse().unwrap();
                assert!((given - sum).abs() < 1e-9, "{}", text);
                let count: i128 = text.replace('.', "").parse().unwrap();
                let total = 3600 * hours as i128 + 60 * minutes as i128 + seconds as i128;
                let off = 3600 * count - 1_000_000_000_000 * total;
                assert!(-1800 <= off && off <= 1800, "{}", text);
                assert_eq!(text.len() - text.find('.').unwrap(), 13);
            }
        }
    }
}

#[test]
fn one_second_is_a_3600th_of_an_hour() {
    let time = Time::from_str("0:00:01").unwrap();
    let given: f64 = time.to_decimal().to_string().parse().unwrap();
    assert!((given - 1.0 / 3600.0).abs() < 1e-9);
    assert_eq!(time.to_decimal().to_rounded_string(), "0.0003");
}

#[test]
fn rounding_goes_to_the_nearest_ten_thousandth() {
    let rounded = |text: &str| Decimal::parse(text).unwrap().to_rounded_string();
    assert_eq!(rounded("1"), "1.0000");
    assert_eq!(rounded("1."), "1.0000");
    assert_eq!(rounded("1.5"), "1.5000");
    assert_eq!(rounded("1.23456"), "1.2346");
    assert_eq!(rounded("1.23454"), "1.2345");
    assert_eq!(rounded("0.00004999999999999999999999"), "0.0000");
    assert_eq!(rounded("12.000277777778"), "12.0003");
}

#[test]
fn rounding_takes_a_half_up() {
    let rounded = |text: &str| Decimal::parse(text).unwrap().to_rounded_string();
    assert_eq!(rounded("0.00005"), "0.0001");
    assert_eq!(rounded("0.00015"), "0.0002");
    assert_eq!(rounded("0.00025"), "0.0003");
    assert_eq!(rounded("0.000050000000000000000000"), "0.0001");
}

#[test]
fn rounding_carries_into_the_whole_part() {
    let rounded = |text: &str| Decimal::parse(text).unwrap().to_rounded_string();
    assert_eq!(rounded("0.99995"), "1.0000");
    assert_eq!(rounded("0.99994"), "0.9999");
    assert_eq!(rounded("9.99995"), "10.0000");
    assert_eq!(rounded("199.99996"), "200.0000");
    assert_eq!(rounded("99.99999"), "100.0000");
    assert_eq!(rounded("1098.99999"), "1099.0000");
    assert_eq!(
        rounded("99999999999999999999999999.99999"),
        "100000000000000000000000000.0000"
    );
    assert_eq!(
        rounded("12345678901234567890123456.99999"),
        "12345678901234567890123457.0000"
    );
}

#[test]
fn rounding_writes_a_zero_for_an_empty_whole_part() {
    let rounded = |text: &str| Decimal::parse(text).unwrap().to_rounded_string();
    assert_eq!(rounded(".5"), "0.5000");
    assert_eq!(rounded(".99999"), "1.0000");
    assert_eq!(rounded("007.5"), "007.5000");
    assert_eq!(rounded("0909.99999"), "0910.0000");
}

#[test]
fn from_decimal_rounds_minutes_then_seconds() {
    // 0.02 h = 1.2 min: one minute, and 0.2 min = 12 s
    assert_eq!(
        read("0.02"),
        Time {
            hours: 0,
            minutes: 1,
            seconds: 12
        }
    );
    // 0.0249 h = 1.494 min: one minute, and 0.494 min = 29.64 s
    assert_eq!(
        read("0.0249"),
        Time {
            hours: 0,
            minutes: 1,
            seconds: 30
        }
    );
    // 0.00125 h = 4.5 s: half a second goes up
    assert_eq!(
        read("0.00125"),
        Time {
            hours: 0,
            minutes: 0,
            seconds: 5
        }
    );
}

#[test]
fn from_decimal_drops_seconds_where_minutes_went_up() {
    // 0.025 h = 1.5 min: two minutes, and nothing is left for the seconds
    assert_eq!(
        read("0.025"),
        Time {
            hours: 0,
            minutes: 2,
            seconds: 0
        }
    );
    // 0.026 h = 1.56 min
    assert_eq!(
        read("0.026"),
        Time {
            hours: 0,
            minutes: 2,
            seconds: 0
        }
    );
}

#[test]
fn from_decimal_normalizes_sixty_minutes() {
    // 1.9999 h = 1 h 59.994 min
    assert_eq!(
        read("1.9999"),
        Time {
            hours: 2,
            minutes: 0,
            seconds: 0
        }
    );
    assert_eq!(
        read("65535.9999"),
        Time {
            hours: 0,
            minutes: 0,
            seconds: 0
        }
    );
}

#[test]
fn from_decimal_holds_hours_at_the_maximum() {
    let expected = Time {
        hours: 65535,
        minutes: 30,
        seconds: 0,
    };
    assert_eq!(read("65535.5"), expected);
    assert_eq!(read("65536.5"), expected);
    assert_eq!(read("4294967296.5"), expected);
    assert_eq!(read("99999999999999999999999999999999.5"), expected);
}

#[test]
fn from_decimal_reads_every_digit_of_the_fraction() {
    // just below 1.5 min, however many nines follow
    assert_eq!(
        read("0.024999999999999999999999999999999999999999"),
        Time {
            hours: 0,
            minutes: 1,
            seconds: 30
        }
    );
    assert_eq!(
        read("0.025000000000000000000000000000000000000000"),
        Time {
            hours: 0,
            minutes: 2,
            seconds: 0
        }
    );
    assert_eq!(
        read("7.000000000000000000000000000000000000000001"),
        Time {
            hours: 7,
            minutes: 0,
            seconds: 0
        }
    );
}

#[test]
fn round_trip_keeps_times_with_seconds_below_thirty() {
    for hours in [0u16, 1, 23, 4095, 65535] {
        for minutes in 0u8..60 {
            for seconds in 0u8..30 {
                let time = Time {
                    hours,
                    minutes,
                    seconds,
                };
                assert_eq!(Time::from_decimal(time.to_decimal()), time);
            }
        }
    }
}

#[test]
fn round_trip_rounds_seconds_from_thirty_up_to_the_minute() {
    let time = Time {
        hours: 1,
        minutes: 30,
        seconds: 45,
    };
    let expected = Time {
        hours: 1,
        minutes: 31,
        seconds: 0,
    };
    assert_eq!(Time::from_decimal(time.to_decimal()), expected);
}

#[test]
fn parse_keeps_the_digits_as_written() {
    assert_eq!(Decimal::parse("1.055").unwrap().to_string(), "1.055");
    assert_eq!(Decimal::parse("007.500").unwrap().to_string(), "007.500");
    assert_eq!(Decimal::parse("1").unwrap().to_string(), "1.");
    assert_eq!(Decimal::parse("1.").unwrap().to_string(), "1.");
    assert_eq!(Decimal::parse(".5").unwrap().to_string(), ".5");
}

#[test]
fn parse_rejects_what_is_no_numeral() {
    for text in ["1,5", "1.5.5", "-1.0", "1e5", "inf", "NaN", " 1", "1:00"] {
        assert_eq!(
            Decimal::parse(text),
            Err(ParseError::new("Couldn't parse given time.")),
            "{:?}",
            text
        );
    }
    for text in ["", "."] {
        assert_eq!(
            Decimal::parse(text),
            Err(ParseError::new("Couldn't read a number from given time.")),
            "{:?}",
            text
        );
    }
}

#[test]
fn from_trillionths_places_the_point() {
    assert_eq!(Decimal::from_trillionths(0).to_string(), "0.000000000000");
    assert_eq!(Decimal::from_trillionths(7).to_string(), "0.000000000007");
    assert_eq!(
        Decimal::from_trillionths(1_250_000_000_000).to_string(),
        "1.250000000000"
    );
    assert_eq!(
        Decimal::from_trillionths(999_999_999_999).to_string(),
        "0.999999999999"
    );
    assert_eq!(
        Decimal::from_trillionths(1_000_000_000_000).to_string(),
        "1.000000000000"
    );
    assert_eq!(
        Decimal::from_trillionths(u64::MAX).to_string(),
        "18446744.073709551615"
    );
}

#[test]
fn whole_and_fraction_are_read_off() {
    let given = Decimal::parse("12.5").unwrap();
    assert_eq!(given.whole_saturating(), 12);
    assert_eq!(given.scaled_fraction(7200), 3600);
    assert_eq!(given.scaled_fraction(3), 1);
    assert_eq!(given.scaled_fraction(0), 0);
    let given = Decimal::parse("4294967296.999999999999").unwrap();
    assert_eq!(given.whole_saturating(), u32::MAX);
    assert_eq!(given.scaled_fraction(7200), 7199);
    assert_eq!(given.scaled_fraction(u32::MAX), u32::MAX - 1);
}
