use mazu::calendar::{civil_from_days, date_string, day_of};

#[test]
fn civil_dates_are_right() {
    assert_eq!(civil_from_days(0), (1970, 1, 1));
    assert_eq!(civil_from_days(19_723), (2024, 1, 1)); // start of a leap year
    assert_eq!(civil_from_days(19_782), (2024, 2, 29)); // the leap day
    assert_eq!(civil_from_days(20_657), (2026, 7, 23));
}

#[test]
fn civil_dates_before_the_epoch_and_at_century_turns() {
    assert_eq!(civil_from_days(-1), (1969, 12, 31));
    assert_eq!(civil_from_days(-719_468), (0, 3, 1));
    assert_eq!(civil_from_days(11_016), (2000, 2, 29)); // 2000 is a leap year
    assert_eq!(civil_from_days(47_541), (2100, 3, 1)); // 2100 is not: Feb 28 comes right before
    assert_eq!(civil_from_days(47_540), (2100, 2, 28));
}

#[test]
fn dates_are_written_with_zero_padding() {
    assert_eq!(date_string(0), "1970-01-01");
    assert_eq!(date_string(19_782), "2024-02-29");
    assert_eq!(date_string(-719_468), "0000-03-01");
    assert_eq!(date_string(-719_469), "0000-02-29"); // year 0 is a leap year
    assert_eq!(date_string(-719_529), "-001-12-31"); // the sign counts toward the width
    assert_eq!(date_string(2_932_897), "10000-01-01");
}

#[test]
fn the_day_turns_at_midnight_in_utc_plus_8() {
    // 2024-01-01T15:59:59Z is still Jan 1 in UTC+8, one second later it is Jan 2.
    assert_eq!(day_of(1_704_124_799), "2024-01-01");
    assert_eq!(day_of(1_704_124_800), "2024-01-02");
    // Before the epoch the division rounds down.
    assert_eq!(day_of(-28_801), "1969-12-31");
    assert_eq!(day_of(-28_800), "1970-01-01");
}

#[test]
fn later_days_have_later_dates() {
    for day in (-800_000i64..800_000).step_by(997) {
        let (a, b) = (civil_from_days(day), civil_from_days(day + 1));
        assert!(a < b, "{day}: {a:?} then {b:?}");
        assert_ne!(date_string(day), date_string(day + 1));
    }
}
