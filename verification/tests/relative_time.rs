use clock::relative::relative_phrase;
use clock::TimeUnit;

#[test]
fn same_instant_is_bare_future_suffix() {
    // Equal instants sort to the future side and print no numeric clause.
    assert_eq!(relative_phrase(5, 5, TimeUnit::Seconds), " from now");
    assert_eq!(relative_phrase(0, 0, TimeUnit::Seconds), " from now");
    assert_eq!(relative_phrase(1234, 1234, TimeUnit::Milliseconds), " from now");
}

#[test]
fn one_of_each_small_unit_ago() {
    // 90061 = 86400 + 3600 + 60 + 1
    let now: u128 = 1_000_000;
    assert_eq!(
        relative_phrase(now, now - 90061, TimeUnit::Seconds),
        "1 day, 1 hour, 1 minute, 1 second ago"
    );
}

#[test]
fn year_and_month_use_their_own_divisors() {
    // 36748327 = 1 * 31536926 + rest; the remainder step reduces by 31536000.
    let current: u128 = 40_000_000;
    let against: u128 = current - 36_748_327;
    assert_eq!(
        relative_phrase(current, against, TimeUnit::Seconds),
        "1 year, 1 month, 7 hours, 52 minutes, 7 seconds ago"
    );
}

#[test]
fn all_six_components() {
    // 34300000 decomposes with every component above zero
    let current: u128 = 34_300_000;
    assert_eq!(
        relative_phrase(current, 0, TimeUnit::Seconds),
        "1 year, 1 month, 1 day, 23 hours, 46 minutes, 40 seconds ago"
    );
}

#[test]
fn future_phrase() {
    assert_eq!(relative_phrase(100, 160, TimeUnit::Seconds), "1 minute from now");
}

#[test]
fn plural_clauses() {
    assert_eq!(relative_phrase(200, 80, TimeUnit::Seconds), "2 minutes ago");
}

#[test]
fn milliseconds_are_truncated_to_seconds() {
    assert_eq!(
        relative_phrase(90_061_999, 0, TimeUnit::Milliseconds),
        "1 day, 1 hour, 1 minute, 1 second ago"
    );
    assert_eq!(relative_phrase(1500, 900, TimeUnit::Milliseconds), "1 second ago");
}

#[test]
fn zero_components_are_skipped() {
    // exactly one hour: days, minutes, seconds all zero
    assert_eq!(relative_phrase(3600, 0, TimeUnit::Seconds), "1 hour ago");
}
