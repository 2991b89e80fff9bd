use flboot::log::{civil_from_days, color_enabled, error, info, level_color, log, utc_timestamp, warn};

#[test]
fn epoch_is_1970_01_01() {
    assert_eq!(civil_from_days(0), (1970, 1, 1));
}

#[test]
fn handles_leap_day() {
    // 2024-02-29 is 19782 days after the epoch.
    assert_eq!(civil_from_days(19782), (2024, 2, 29));
}

#[test]
fn handles_year_boundary() {
    // 2000-01-01 is 10957 days after the epoch.
    assert_eq!(civil_from_days(10957), (2000, 1, 1));
}

#[test]
fn days_before_the_epoch_have_dates_too() {
    assert_eq!(civil_from_days(-1), (1969, 12, 31));
    assert_eq!(civil_from_days(-719468), (0, 3, 1));
    assert_eq!(civil_from_days(-719469), (0, 2, 29));
    assert_eq!(civil_from_days(-719528), (0, 1, 1));
    assert_eq!(civil_from_days(-719529), (-1, 12, 31));
}

#[test]
fn each_day_follows_the_one_before() {
    let leap = |y: i64| y % 4 == 0 && (y % 100 != 0 || y % 400 == 0);
    let (mut y, mut m, mut d) = civil_from_days(-200_000);
    for z in -199_999..200_000 {
        let len = match m {
            2 => 28 + leap(y) as u32,
            4 | 6 | 9 | 11 => 30,
            _ => 31,
        };
        if d < len {
            d += 1;
        } else if m < 12 {
            (m, d) = (m + 1, 1);
        } else {
            (y, m, d) = (y + 1, 1, 1);
        }
        assert_eq!(civil_from_days(z), (y, m, d));
    }
}

#[test]
fn timestamps_are_padded() {
    assert_eq!(utc_timestamp(0), "1970-01-01T00:00:00Z");
    assert_eq!(utc_timestamp(951_782_399), "2000-02-28T23:59:59Z");
    assert_eq!(utc_timestamp(951_868_799), "2000-02-29T23:59:59Z");
    assert_eq!(utc_timestamp(1_000_000_000), "2001-09-09T01:46:40Z");
}

#[test]
fn a_log_line_reads_as_laid_out() {
    assert_eq!(info("hi", 0, false), "1970-01-01T00:00:00Z  INFO hi");
    assert_eq!(warn("hi", 0, false), "1970-01-01T00:00:00Z  WARN hi");
    assert_eq!(error("hi", 0, false), "1970-01-01T00:00:00Z ERROR hi");
    assert_eq!(log("x", "LONGER", 1, false), "1970-01-01T00:00:01Z LONGER x");
    assert_eq!(
        error("hi", 0, true),
        "\x1b[2m1970-01-01T00:00:00Z\x1b[0m \x1b[31mERROR\x1b[0m hi"
    );
    assert_eq!(log("x", "?", 0, true), "\x1b[2m1970-01-01T00:00:00Z\x1b[0m     ?\x1b[0m x");
}

#[test]
fn levels_have_their_colors() {
    let colors = ["TRACE", "DEBUG", "INFO", "WARN", "ERROR", "info"].map(level_color);
    assert_eq!(colors, ["\x1b[35m", "\x1b[34m", "\x1b[32m", "\x1b[33m", "\x1b[31m", ""]);
}

#[test]
fn color_needs_a_terminal_that_takes_it() {
    assert!(color_enabled(None, false, true, true));
    assert!(!color_enabled(None, true, true, true));
    assert!(!color_enabled(None, false, false, true));
    assert!(!color_enabled(None, false, true, false));
}

#[test]
fn an_earlier_color_answer_stands() {
    assert!(color_enabled(Some(true), true, false, false));
    assert!(!color_enabled(Some(false), false, true, true));
}
