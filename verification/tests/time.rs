use card_index::time::{civil_from_days, epoch_to_ymd, is_leap, system_time_to_iso};

#[test]
fn leap_years_follow_the_gregorian_rule() {
    assert!(is_leap(2000));
    assert!(is_leap(2024));
    assert!(is_leap(1972));
    assert!(!is_leap(1900));
    assert!(!is_leap(2100));
    assert!(!is_leap(2023));
    assert!(is_leap(0));
    assert!(is_leap(-4));
    assert!(!is_leap(-100));
    assert!(is_leap(-400));
}

#[test]
fn the_epoch_is_the_first_of_january_1970() {
    assert_eq!(epoch_to_ymd(0), (1970, 1, 1, 0, 0, 0));
    assert_eq!(epoch_to_ymd(59), (1970, 1, 1, 0, 0, 59));
    assert_eq!(epoch_to_ymd(86_399), (1970, 1, 1, 23, 59, 59));
    assert_eq!(epoch_to_ymd(86_400), (1970, 1, 2, 0, 0, 0));
}

#[test]
fn known_instants_break_down_to_their_dates() {
    assert_eq!(epoch_to_ymd(951_782_400), (2000, 2, 29, 0, 0, 0));
    assert_eq!(epoch_to_ymd(951_868_800), (2000, 3, 1, 0, 0, 0));
    assert_eq!(epoch_to_ymd(1_700_000_000), (2023, 11, 14, 22, 13, 20));
    assert_eq!(epoch_to_ymd(1_709_251_199), (2024, 2, 29, 23, 59, 59));
    assert_eq!(epoch_to_ymd(4_102_444_800), (2100, 1, 1, 0, 0, 0));
    assert_eq!(epoch_to_ymd(4_107_542_400), (2100, 3, 1, 0, 0, 0));
    assert_eq!(epoch_to_ymd(2_147_483_647), (2038, 1, 19, 3, 14, 7));
}

#[test]
fn instants_before_the_epoch_fall_on_earlier_dates() {
    assert_eq!(epoch_to_ymd(-1), (1969, 12, 31, 23, 59, 59));
    assert_eq!(epoch_to_ymd(-86_400), (1969, 12, 31, 0, 0, 0));
    assert_eq!(epoch_to_ymd(-86_401), (1969, 12, 30, 23, 59, 59));
    assert_eq!(epoch_to_ymd(-2_208_988_800), (1900, 1, 1, 0, 0, 0));
    assert_eq!(epoch_to_ymd(-11_644_473_600), (1601, 1, 1, 0, 0, 0));
}

#[test]
fn every_day_of_a_leap_year_and_the_next_is_a_valid_date_in_order() {
    let mut expected = (2024i64, 1i64, 1i64);
    let first_day = 19_723i64;
    for offset in 0..731i64 {
        assert_eq!(civil_from_days(first_day + offset), expected);
        let (y, m, d) = expected;
        let length = match m {
            2 => {
                if is_leap(y) {
                    29
                } else {
                    28
                }
            }
            4 | 6 | 9 | 11 => 30,
            _ => 31,
        };
        expected = if d < length {
            (y, m, d + 1)
        } else if m < 12 {
            (y, m + 1, 1)
        } else {
            (y + 1, 1, 1)
        };
    }
    assert_eq!(expected, (2026, 1, 1));
}

#[test]
fn timestamps_are_iso_8601_in_utc() {
    assert_eq!(system_time_to_iso(0), "1970-01-01T00:00:00Z");
    assert_eq!(system_time_to_iso(1_700_000_000), "2023-11-14T22:13:20Z");
    assert_eq!(system_time_to_iso(951_782_400), "2000-02-29T00:00:00Z");
    assert_eq!(system_time_to_iso(1_234_567_890), "2009-02-13T23:31:30Z");
    assert_eq!(system_time_to_iso(253_402_300_799), "9999-12-31T23:59:59Z");
}

#[test]
fn years_past_9999_keep_all_their_digits() {
    assert_eq!(system_time_to_iso(253_402_300_800), "10000-01-01T00:00:00Z");
}

#[test]
fn timestamps_sort_as_the_instants_do() {
    let instants = [0u64, 1, 59, 60, 3_599, 3_600, 86_399, 86_400, 951_782_400, 1_700_000_000];
    for pair in instants.windows(2) {
        assert!(system_time_to_iso(pair[0]) < system_time_to_iso(pair[1]));
    }
}

#[test]
fn day_numbers_before_the_epoch_have_dates() {
    assert_eq!(civil_from_days(0), (1970, 1, 1));
    assert_eq!(civil_from_days(-1), (1969, 12, 31));
    assert_eq!(civil_from_days(-365), (1969, 1, 1));
    assert_eq!(civil_from_days(-366), (1968, 12, 31));
    assert_eq!(civil_from_days(-719_468), (0, 3, 1));
    assert_eq!(civil_from_days(-719_528), (0, 1, 1));
    assert_eq!(civil_from_days(-719_529), (-1, 12, 31));
    assert_eq!(civil_from_days(11_016), (2000, 2, 29));
}

fn date_by_eras(days: i64) -> (i64, i64, i64) {
    let z = days + 719_468;
    let era = if z >= 0 { z } else { z - 146_096 } / 146_097;
    let doe = z - era * 146_097;
    let yoe = (doe - doe / 1_460 + doe / 36_524 - doe / 146_096) / 365;
    let doy = doe - (365 * yoe + yoe / 4 - yoe / 100);
    let mp = (5 * doy + 2) / 153;
    let d = doy - (153 * mp + 2) / 5 + 1;
    let m = if mp < 10 { mp + 3 } else { mp - 9 };
    let y = yoe + era * 400 + if m <= 2 { 1 } else { 0 };
    (y, m, d)
}

#[test]
fn dates_agree_with_the_reckoning_by_eras() {
    let mut days = -300_000i64;
    while days <= 300_000 {
        assert_eq!(civil_from_days(days), date_by_eras(days));
        days += 13;
    }
}
