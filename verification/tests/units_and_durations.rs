use clock::duration::{countdown_step, countup_step, parse_duration, timer_line};
use clock::text::parse_instant;
use clock::{infer_unit, ClockError, TimeUnit, YEAR_3000_UNIX_SECONDS};

#[test]
fn unit_inferred_from_magnitude() {
    assert_eq!(infer_unit(32503680000, None), TimeUnit::Milliseconds);
    assert_eq!(infer_unit(32503679999, None), TimeUnit::Seconds);
    assert_eq!(infer_unit(0, None), TimeUnit::Seconds);
    assert_eq!(YEAR_3000_UNIX_SECONDS, 32503680000);
}

#[test]
fn explicit_unit_wins_regardless_of_value() {
    assert_eq!(infer_unit(0, Some(TimeUnit::Seconds)), TimeUnit::Seconds);
    assert_eq!(infer_unit(32503680000, Some(TimeUnit::Seconds)), TimeUnit::Seconds);
    assert_eq!(infer_unit(7, Some(TimeUnit::Milliseconds)), TimeUnit::Milliseconds);
}

#[test]
fn unit_labels() {
    assert_eq!(TimeUnit::Seconds.label(), "Unix Sec");
    assert_eq!(TimeUnit::Milliseconds.label(), "Unix Millisec");
}

#[test]
fn duration_with_all_suffixes() {
    assert_eq!(parse_duration("1h30m15s"), Ok(5415));
}

#[test]
fn duration_seconds_only() {
    assert_eq!(parse_duration("45s"), Ok(45));
    assert_eq!(parse_duration("0s"), Ok(0));
}

#[test]
fn duration_minutes_and_hours_scale() {
    assert_eq!(parse_duration("90m"), Ok(5400));
    assert_eq!(parse_duration("2h"), Ok(7200));
    assert_eq!(parse_duration("1h2h"), Ok(10800));
}

#[test]
fn duration_empty_is_rejected() {
    assert_eq!(parse_duration(""), Err(ClockError::InvalidDurationFormat));
}

#[test]
fn duration_unknown_suffix_is_rejected() {
    assert_eq!(parse_duration("10x"), Err(ClockError::InvalidDurationFormat));
}

#[test]
fn duration_suffix_without_digits_is_rejected() {
    assert_eq!(parse_duration("s"), Err(ClockError::InvalidDurationFormat));
    assert_eq!(parse_duration("1hm"), Err(ClockError::InvalidDurationFormat));
}

#[test]
fn duration_trailing_digits_are_dropped() {
    // a digit run not closed by a suffix is discarded, not an error
    assert_eq!(parse_duration("1h30"), Ok(3600));
}

#[test]
fn duration_overflow_is_rejected() {
    assert_eq!(
        parse_duration("99999999999999999999s"),
        Err(ClockError::InvalidDurationFormat)
    );
    assert_eq!(
        parse_duration("18446744073709551615h"),
        Err(ClockError::InvalidDurationFormat)
    );
}

#[test]
fn instant_parsing() {
    assert_eq!(parse_instant("1730172543"), Ok(1730172543));
    assert_eq!(parse_instant("+45"), Ok(45));
    assert_eq!(parse_instant("0"), Ok(0));
}

#[test]
fn instant_rejects_non_numbers() {
    assert_eq!(parse_instant(""), Err(ClockError::InvalidNumericInput));
    assert_eq!(parse_instant("abc"), Err(ClockError::InvalidNumericInput));
    assert_eq!(parse_instant("12a"), Err(ClockError::InvalidNumericInput));
    assert_eq!(parse_instant("+"), Err(ClockError::InvalidNumericInput));
    assert_eq!(parse_instant("-1"), Err(ClockError::InvalidNumericInput));
}

#[test]
fn instant_rejects_out_of_range() {
    // one more than u128::MAX
    assert_eq!(
        parse_instant("340282366920938463463374607431768211456"),
        Err(ClockError::InvalidNumericInput)
    );
    assert_eq!(
        parse_instant("340282366920938463463374607431768211455"),
        Ok(u128::MAX)
    );
}

#[test]
fn timer_line_pads_fields() {
    assert_eq!(timer_line(0), "00:00:00:00");
    assert_eq!(timer_line(7), "00:00:00:07");
    assert_eq!(timer_line(950), "00:00:00:950");
    assert_eq!(timer_line(5_415_950), "01:30:15:950");
    assert_eq!(timer_line(360_000_000), "100:00:00:00");
}

#[test]
fn countdown_ticks_until_no_whole_second_remains() {
    assert_eq!(countdown_step(2000), (false, 1950));
    assert_eq!(countdown_step(1000), (false, 950));
    assert_eq!(countdown_step(950), (true, 950));
    assert_eq!(countdown_step(0), (true, 0));
}

#[test]
fn countup_ticks_by_fifty_milliseconds() {
    assert_eq!(countup_step(0), 50);
    assert_eq!(countup_step(950), 1000);
}
