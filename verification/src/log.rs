//! Log lines: a timestamp, a level and a message, in color where that is wanted.
use vstd::prelude::*;

use crate::num::{
    append_right_in, append_zero_padded, digits, law_zeros_before_a_number_change_nothing, number_of, right_in,
    zero_padded,
};
use crate::style::{
    is_escape, is_plain, lemma_plain_concat, lemma_reset_is_escape, lemma_shows_concat, lemma_shows_plain,
    lemma_shows_styled, lemma_visible_escape, visible, DIM, RESET,
};
use crate::text::{lemma_first_of_is, repeated, same_text};

verus! {

/// Whether a year of the Gregorian calendar is a leap year.
pub open spec fn is_leap(y: int) -> bool {
    y % 4 == 0 && (y % 100 != 0 || y % 400 == 0)
}

/// How many days a month has.
pub open spec fn month_len(y: int, m: int) -> int {
    if m == 2 {
        if is_leap(y) {
            29
        } else {
            28
        }
    } else if m == 4 || m == 6 || m == 9 || m == 11 {
        30
    } else {
        31
    }
}

/// Whether there is such a day.
pub open spec fn is_date(y: int, m: int, d: int) -> bool {
    1 <= m <= 12 && 1 <= d <= month_len(y, m)
}

/// How many days lie between the first day of year 1 and the first day of a
/// year.
pub open spec fn days_before_year(y: int) -> int {
    365 * (y - 1) + (y - 1) / 4 - (y - 1) / 100 + (y - 1) / 400
}

/// How many days of a year lie before a month.
pub open spec fn days_before_month(y: int, m: int) -> int
    decreases m,
{
    if m <= 1 {
        0
    } else {
        days_before_month(y, m - 1) + month_len(y, m - 1)
    }
}

/// How many days lie between 1970-01-01 and a date.
pub open spec fn day_number(y: int, m: int, d: int) -> int {
    days_before_year(y) + days_before_month(y, m) + d - 1 - 719162
}

/// How many days of an era of 400 years lie before its year `y`.
spec fn days_before_year_of_era(y: int) -> int {
    365 * y + y / 4 - y / 100
}

proof fn lemma_year_of_era(doe: int, yoe: int)
    requires
        0 <= doe < 146097,
        yoe == (doe - doe / 1460 + doe / 36524 - doe / 146096) / 365,
    ensures
        0 <= yoe < 400,
        days_before_year_of_era(yoe) <= doe,
        doe < days_before_year_of_era(yoe + 1) || (yoe == 399 && doe == 146096),
{
    if doe == 146096 {
        assert(yoe == 399);
    } else {
        // The century, the cycle of four years in it, and the day of that.
        let c = doe / 36524;
        let r = doe % 36524;
        let q = r / 1461;
        let s = r % 1461;
        assert(0 <= c <= 3);
        assert(doe == 36524 * c + 1461 * q + s);
        assert(0 <= q <= 24);
        assert(q == 24 ==> s <= 1459);
        let e = (24 * c + q + s) / 1460;
        assert(doe / 1460 == 25 * c + q + e) by {
            lemma_quotient(doe, 1460, 25 * c + q + e, (24 * c + q + s) % 1460);
        }
        assert(doe / 146096 == 0);
        let t = (s - e) / 365;
        lemma_year_of_cycle(c, q, s, e, t);
        assert(yoe == 100 * c + 4 * q + t) by {
            lemma_quotient(36500 * c + 1460 * q + s - e, 365, 100 * c + 4 * q + t, (s - e) % 365);
        }
        assert(yoe / 4 == 25 * c + q) by {
            lemma_quotient(yoe, 4, 25 * c + q, t);
        }
        assert(yoe / 100 == c) by {
            lemma_quotient(yoe, 100, c, 4 * q + t);
        }
        if t < 3 {
            assert((yoe + 1) / 4 == 25 * c + q) by {
                lemma_quotient(yoe + 1, 4, 25 * c + q, t + 1);
            }
            assert((yoe + 1) / 100 == c) by {
                lemma_quotient(yoe + 1, 100, c, 4 * q + t + 1);
            }
        } else {
            assert((yoe + 1) / 4 == 25 * c + q + 1) by {
                lemma_quotient(yoe + 1, 4, 25 * c + q + 1, 0);
            }
            if q < 24 {
                assert((yoe + 1) / 100 == c) by {
                    lemma_quotient(yoe + 1, 100, c, 4 * q + 4);
                }
            } else {
                assert((yoe + 1) / 100 == c + 1) by {
                    lemma_quotient(yoe + 1, 100, c + 1, 0);
                }
            }
        }
    }
}

/// What a division gives, from the quotient and the rest.
proof fn lemma_quotient(n: int, d: int, q: int, r: int)
    requires
        d > 0,
        n == d * q + r,
        0 <= r < d,
    ensures
        n / d == q,
        n % d == r,
{
    assert(d * q == q * d) by (nonlinear_arith);
    vstd::arithmetic::div_mod::lemma_fundamental_div_mod_converse(n, d, q, r);
}

/// The year of a cycle of four that day `s` of it is in.
proof fn lemma_year_of_cycle(c: int, q: int, s: int, e: int, t: int)
    requires
        0 <= c <= 3,
        0 <= q <= 24,
        0 <= s <= 1460,
        e == (24 * c + q + s) / 1460,
        t == (s - e) / 365,
    ensures
        0 <= e <= 1,
        0 <= t <= 3,
        365 * t <= s,
        t < 3 ==> s < 365 * (t + 1),
{
    assert(24 * c + q <= 96);
    if s < 1364 {
        assert(e == 0);
    } else {
        assert(0 <= e <= 1);
        if s == 1460 {
            assert(e == 1);
        }
        assert(t == 3);
    }
}

proof fn lemma_days_before_month(y: int)
    ensures
        days_before_month(y, 1) == 0,
        days_before_month(y, 2) == 31,
        forall|m: int|
            3 <= m <= 12 ==> #[trigger] days_before_month(y, m) == 59 + (if is_leap(y) { 1int } else { 0 }) + (153 * (m
                - 3) + 2) / 5,
{
    reveal_with_fuel(days_before_month, 13);
    let leap: int = if is_leap(y) {
        1
    } else {
        0
    };
    assert forall|m: int| 3 <= m <= 12 implies #[trigger] days_before_month(y, m) == 59 + leap + (153 * (m - 3) + 2)
        / 5 by {
        assert(m == 3 || m == 4 || m == 5 || m == 6 || m == 7 || m == 8 || m == 9 || m == 10 || m == 11 || m == 12);
    }
}

/// A year has 365 days, and a leap year one more.
#[verifier::rlimit(40)]
proof fn lemma_next_year(y: int)
    ensures
        days_before_year(y + 1) == days_before_year(y) + 365 + if is_leap(y) {
            1int
        } else {
            0
        },
{
    let a: int = y / 4 - (y - 1) / 4;
    let b: int = y / 100 - (y - 1) / 100;
    let c: int = y / 400 - (y - 1) / 400;
    assert(a == if y % 4 == 0 { 1int } else { 0 });
    assert(b == if y % 100 == 0 { 1int } else { 0 });
    assert(c == if y % 400 == 0 { 1int } else { 0 });
    assert(y % 400 == 0 ==> y % 100 == 0) by {
        let k = y / 400;
        assert(y % 400 == 0 ==> y == 100 * (4 * k));
    }
    assert(y % 100 == 0 ==> y % 4 == 0) by {
        let k = y / 100;
        assert(y % 100 == 0 ==> y == 4 * (25 * k));
    }
}

/// The day that is day `doy` of the year that began on the first of March of
/// year `yoe` of an era.
#[verifier::rlimit(40)]
proof fn lemma_civil(era: int, yoe: int, doy: int, mp: int, y: int, m: int, d: int)
    requires
        0 <= yoe < 400,
        0 <= doy,
        days_before_year_of_era(yoe) + doy < days_before_year_of_era(yoe + 1) || (yoe == 399 && doy <= 365),
        mp == (5 * doy + 2) / 153,
        d == doy - (153 * mp + 2) / 5 + 1,
        m == if mp < 10 {
            mp + 3
        } else {
            mp - 9
        },
        y == yoe + era * 400 + if m <= 2 {
            1int
        } else {
            0
        },
    ensures
        is_date(y, m, d),
        day_number(y, m, d) == era * 146097 + days_before_year_of_era(yoe) + doy - 719468,
{
    let march = yoe + era * 400;
    assert(march / 4 == yoe / 4 + era * 100);
    assert(march / 100 == yoe / 100 + era * 4);
    assert(march / 400 == era);
    assert((march + 1) % 4 == (yoe + 1) % 4);
    assert((march + 1) % 100 == (yoe + 1) % 100);
    assert((march + 1) % 400 == (yoe + 1) % 400);
    assert(days_before_year(march + 1) == era * 146097 + days_before_year_of_era(yoe));
    lemma_next_year(march);
    lemma_days_before_month(march);
    lemma_days_before_month(march + 1);
    assert(doy <= 365);
    assert(doy == 365 ==> is_leap(march + 1));
    assert(0 <= mp <= 11);
    assert(d >= 1);
    assert(mp == 0 || mp == 1 || mp == 2 || mp == 3 || mp == 4 || mp == 5 || mp == 6 || mp == 7 || mp == 8 || mp == 9
        || mp == 10 || mp == 11);
    assert(is_date(y, m, d));
}

proof fn lemma_era(z: int, era: int)
    requires
        era == if z >= 0 {
            z / 146097
        } else {
            -((-(z + 1)) / 146097) - 1
        },
    ensures
        0 <= z - era * 146097 < 146097,
{
}

proof fn lemma_month_of_year(doy: int)
    requires
        0 <= doy <= 365,
    ensures
        0 <= (5 * doy + 2) / 153 <= 11,
        0 <= doy - (153 * ((5 * doy + 2) / 153) + 2) / 5 <= 30,
{
}

/// Days since 1970-01-01 -> (year, month, day). Howard Hinnant's
/// `civil_from_days` algorithm (public domain), used instead of pulling in a
/// full date/time crate just for log timestamps.
#[verifier::rlimit(40)]
pub fn civil_from_days(z: i64) -> (r: (i64, u32, u32))
    requires
        z <= i64::MAX - 719468,
    ensures
        is_date(r.0 as int, r.1 as int, r.2 as int),
        day_number(r.0 as int, r.1 as int, r.2 as int) == z,
{
    let z: i64 = z + 719468;
    let era: i64 = if z >= 0 {
        z / 146097
    } else {
        -((-(z + 1)) / 146097) - 1
    };
    proof {
        lemma_era(z as int, era as int);
    }
    let doe: u64 = (z - era * 146097) as u64;
    let yoe: u64 = (doe - doe / 1460 + doe / 36524 - doe / 146096) / 365;
    proof {
        lemma_year_of_era(doe as int, yoe as int);
    }
    let y: i64 = yoe as i64 + era * 400;
    let doy: u64 = doe - (365 * yoe + yoe / 4 - yoe / 100);
    assert(doy <= 365);
    proof {
        lemma_month_of_year(doy as int);
    }
    let mp: u64 = (5 * doy + 2) / 153;
    let d: u32 = (doy - (153 * mp + 2) / 5 + 1) as u32;
    let m: u32 = if mp < 10 {
        (mp + 3) as u32
    } else {
        (mp - 9) as u32
    };
    let y: i64 = if m <= 2 {
        y + 1
    } else {
        y
    };
    proof {
        lemma_civil(era as int, yoe as int, doy as int, mp as int, y as int, m as int, d as int);
    }
    (y, m, d)
}

proof fn lemma_years_grow(a: int, b: int)
    requires
        a <= b,
    ensures
        days_before_year(a) <= days_before_year(b),
    decreases b - a,
{
    if a < b {
        lemma_years_grow(a, b - 1);
        lemma_next_year(b - 1);
    }
}

proof fn lemma_months_grow(y: int, a: int, b: int)
    requires
        1 <= a <= b,
    ensures
        days_before_month(y, a) <= days_before_month(y, b),
    decreases b - a,
{
    if a < b {
        lemma_months_grow(y, a, b - 1);
    }
}

proof fn lemma_day_within_year(y: int, m: int, d: int)
    requires
        is_date(y, m, d),
    ensures
        days_before_year(y) <= day_number(y, m, d) + 719162 < days_before_year(y + 1),
{
    lemma_next_year(y);
    lemma_days_before_month(y);
    lemma_months_grow(y, 1, m);
    lemma_months_grow(y, m + 1, 13);
    assert(days_before_month(y, m + 1) == days_before_month(y, m) + month_len(y, m));
    assert(days_before_month(y, 13) == days_before_month(y, 12) + month_len(y, 12));
}

/// Each day has one date: dates that are equally far from the epoch are the
/// same.
pub proof fn law_a_day_has_one_date(y1: int, m1: int, d1: int, y2: int, m2: int, d2: int)
    requires
        is_date(y1, m1, d1),
        is_date(y2, m2, d2),
        day_number(y1, m1, d1) == day_number(y2, m2, d2),
    ensures
        (y1, m1, d1) == (y2, m2, d2),
{
    lemma_day_within_year(y1, m1, d1);
    lemma_day_within_year(y2, m2, d2);
    if y1 < y2 {
        lemma_years_grow(y1 + 1, y2);
    } else if y2 < y1 {
        lemma_years_grow(y2 + 1, y1);
    } else if m1 < m2 {
        lemma_months_grow(y1, m1 + 1, m2);
        assert(days_before_month(y1, m1 + 1) == days_before_month(y1, m1) + month_len(y1, m1));
    } else if m2 < m1 {
        lemma_months_grow(y1, m2 + 1, m1);
        assert(days_before_month(y1, m2 + 1) == days_before_month(y1, m2) + month_len(y1, m2));
    }
}

/// A date and a time of day as a timestamp.
pub open spec fn stamp(y: int, m: int, d: int, secs_of_day: int) -> Seq<char> {
    zero_padded(y, 4) + "-"@ + zero_padded(m, 2) + "-"@ + zero_padded(d, 2) + "T"@ + zero_padded(
        secs_of_day / 3600,
        2,
    ) + ":"@ + zero_padded(secs_of_day % 3600 / 60, 2) + ":"@ + zero_padded(secs_of_day % 60, 2) + "Z"@
}

/// Whether `s` is the timestamp of so many seconds after the epoch.
pub open spec fn is_stamp(s: Seq<char>, secs: int) -> bool {
    exists|y: int, m: int, d: int|
        is_date(y, m, d) && #[trigger] day_number(y, m, d) == secs / 86400 && s == stamp(y, m, d, secs % 86400)
}

/// The UTC timestamp of so many seconds after the epoch.
pub fn utc_timestamp(secs: i64) -> (r: String)
    requires
        0 <= secs,
    ensures
        is_stamp(r@, secs as int),
{
    let (year, month, day) = civil_from_days(secs / 86400);
    let secs_of_day: i64 = secs % 86400;
    let mut s = String::new();
    append_zero_padded(&mut s, year, 4);
    assert(s@ =~= zero_padded(year as int, 4));
    s.append("-");
    append_zero_padded(&mut s, month as i64, 2);
    s.append("-");
    append_zero_padded(&mut s, day as i64, 2);
    s.append("T");
    append_zero_padded(&mut s, secs_of_day / 3600, 2);
    s.append(":");
    append_zero_padded(&mut s, (secs_of_day % 3600) / 60, 2);
    s.append(":");
    append_zero_padded(&mut s, secs_of_day % 60, 2);
    s.append("Z");
    proof {
        let (y, m, d) = (year as int, month as int, day as int);
        assert(s@ == stamp(y, m, d, secs_of_day as int));
        assert(day_number(y, m, d) == secs as int / 86400);
    }
    s
}

/// The escape for a level; an unknown one has none.
pub open spec fn level_escape(level: Seq<char>) -> Seq<char> {
    if level == "TRACE"@ {
        "\x1b[35m"@
    } else if level == "DEBUG"@ {
        "\x1b[34m"@
    } else if level == "INFO"@ {
        "\x1b[32m"@
    } else if level == "WARN"@ {
        "\x1b[33m"@
    } else if level == "ERROR"@ {
        "\x1b[31m"@
    } else {
        ""@
    }
}

/// The escape for a level.
pub fn level_color(level: &str) -> (r: &'static str)
    ensures
        r@ == level_escape(level@),
{
    if same_text(level, "TRACE") {
        "\x1b[35m"
    } else if same_text(level, "DEBUG") {
        "\x1b[34m"
    } else if same_text(level, "INFO") {
        "\x1b[32m"
    } else if same_text(level, "WARN") {
        "\x1b[33m"
    } else if same_text(level, "ERROR") {
        "\x1b[31m"
    } else {
        ""
    }
}

/// A log line with the given timestamp.
pub open spec fn line_text(ts: Seq<char>, message: Seq<char>, level: Seq<char>, color: bool) -> Seq<char> {
    if color {
        DIM@ + ts + RESET@ + " "@ + level_escape(level) + right_in(level, 5, ' ') + RESET@ + " "@ + message
    } else {
        ts + " "@ + right_in(level, 5, ' ') + " "@ + message
    }
}

/// Whether `s` is the log line of a message at so many seconds after the epoch.
pub open spec fn is_line(s: Seq<char>, message: Seq<char>, level: Seq<char>, secs: int, color: bool) -> bool {
    exists|ts: Seq<char>| #[trigger] is_stamp(ts, secs) && s == line_text(ts, message, level, color)
}

/// The log line of a message.
pub fn log(message: &str, level: &str, secs: i64, color: bool) -> (r: String)
    requires
        0 <= secs,
    ensures
        is_line(r@, message@, level@, secs as int, color),
{
    let ts = utc_timestamp(secs);
    let mut s = String::new();
    if color {
        s.append(DIM);
        assert(s@ =~= DIM@);
        s.append(ts.as_str());
        s.append(RESET);
        s.append(" ");
        s.append(level_color(level));
        append_right_in(&mut s, level, 5, ' ');
        s.append(RESET);
    } else {
        s.append(ts.as_str());
        assert(s@ =~= ts@);
        s.append(" ");
        append_right_in(&mut s, level, 5, ' ');
    }
    s.append(" ");
    s.append(message);
    assert(s@ == line_text(ts@, message@, level@, color));
    s
}

/// The log line of what is worth knowing.
pub fn info(message: &str, secs: i64, color: bool) -> (r: String)
    requires
        0 <= secs,
    ensures
        is_line(r@, message@, "INFO"@, secs as int, color),
{
    log(message, "INFO", secs, color)
}

/// The log line of what may be wrong.
pub fn warn(message: &str, secs: i64, color: bool) -> (r: String)
    requires
        0 <= secs,
    ensures
        is_line(r@, message@, "WARN"@, secs as int, color),
{
    log(message, "WARN", secs, color)
}

/// The log line of what went wrong.
pub fn error(message: &str, secs: i64, color: bool) -> (r: String)
    requires
        0 <= secs,
    ensures
        is_line(r@, message@, "ERROR"@, secs as int, color),
{
    log(message, "ERROR", secs, color)
}

/// Whether output carries ANSI escapes: as it was answered before, and the first
/// time where it goes to a terminal that understands them and `NO_COLOR` is unset.
pub open spec fn color_answer(earlier: Option<bool>, no_color: bool, terminal: bool, understands: bool) -> bool {
    match earlier {
        Some(answer) => answer,
        None => !no_color && terminal && understands,
    }
}

/// Whether output should carry ANSI escapes: a terminal, `NO_COLOR` unset, and a
/// terminal that understands them. Probed once: an earlier answer stands.
pub fn color_enabled(earlier: Option<bool>, no_color: bool, terminal: bool, understands: bool) -> (r: bool)
    ensures
        r == color_answer(earlier, no_color, terminal, understands),
        earlier is Some ==> r == earlier->0,
        earlier is None ==> r == (!no_color && terminal && understands),
{
    match earlier {
        Some(answer) => answer,
        None => !no_color && terminal && understands,
    }
}

/// What is found at one call: whether `NO_COLOR` is set, whether output goes to a
/// terminal, and whether that understands escapes.
pub struct Probe {
    pub no_color: bool,
    pub terminal: bool,
    pub understands: bool,
}

/// The answer of the call after the first `n`, each of which was given the one
/// before it.
pub open spec fn nth_answer(probes: Seq<Probe>, n: nat) -> bool
    decreases n,
{
    let earlier = if n == 0 {
        None
    } else {
        Some(nth_answer(probes, (n - 1) as nat))
    };
    let probe = probes[n as int];
    color_answer(earlier, probe.no_color, probe.terminal, probe.understands)
}

/// Every later call gives the first answer, whatever has changed since.
pub proof fn law_the_first_color_answer_stands(probes: Seq<Probe>, n: nat)
    requires
        n < probes.len(),
    ensures
        nth_answer(probes, n) == (!probes[0].no_color && probes[0].terminal && probes[0].understands),
    decreases n,
{
    if n > 0 {
        law_the_first_color_answer_stands(probes, (n - 1) as nat);
    }
}

/// Color adds escapes and nothing else to a log line.
pub proof fn law_color_adds_only_escapes_to_a_log_line(ts: Seq<char>, message: Seq<char>, level: Seq<char>)
    requires
        is_plain(ts),
        is_plain(message),
        is_plain(level),
    ensures
        visible(line_text(ts, message, level, true)) == line_text(ts, message, level, false),
{
    reveal_strlit("\x1b[2m");
    reveal_strlit(" ");
    lemma_first_of_is(DIM@, 'm', 3);
    let lvl = right_in(level, 5, ' ');
    let n: nat = if level.len() < 5 {
        (5 - level.len()) as nat
    } else {
        0
    };
    let pad = repeated(' ', n);
    assert(is_plain(pad));
    lemma_plain_concat(pad, level);
    lemma_shows_styled(ts, DIM@, true);
    lemma_shows_plain(" "@);
    let stamped = DIM@ + ts + RESET@;
    lemma_shows_concat(stamped, ts, " "@, " "@);
    lemma_level_escape(level);
    let escape = level_escape(level);
    lemma_shows_plain(lvl);
    lemma_reset_is_escape();
    lemma_visible_escape(RESET@);
    let none = Seq::<char>::empty();
    if escape.len() > 0 {
        lemma_visible_escape(escape);
    } else {
        lemma_shows_plain(escape);
        assert(escape =~= none);
    }
    let c = stamped + " "@;
    let p = ts + " "@;
    lemma_shows_concat(c, p, escape, none);
    assert(p + none =~= p);
    lemma_shows_concat(c + escape, p, lvl, lvl);
    lemma_shows_concat(c + escape + lvl, p + lvl, RESET@, none);
    assert(p + lvl + none =~= p + lvl);
    lemma_shows_concat(c + escape + lvl + RESET@, p + lvl, " "@, " "@);
    lemma_shows_plain(message);
    lemma_shows_concat(c + escape + lvl + RESET@ + " "@, p + lvl + " "@, message, message);
}

proof fn lemma_level_escape(level: Seq<char>)
    ensures
        level_escape(level).len() == 0 || is_escape(level_escape(level)),
{
    reveal_strlit("");
    reveal_strlit("\x1b[35m");
    reveal_strlit("\x1b[34m");
    reveal_strlit("\x1b[32m");
    reveal_strlit("\x1b[33m");
    reveal_strlit("\x1b[31m");
    let e = level_escape(level);
    if e.len() > 0 {
        lemma_first_of_is(e, 'm', e.len() - 1);
    }
}

/// A stamp of a year of four digits tells its year, month, day, hour, minute and
/// second, each at its place, and the last three make up the second of the day.
pub proof fn law_a_stamp_tells_its_time(y: int, m: int, d: int, secs_of_day: int)
    requires
        is_date(y, m, d),
        0 <= y <= 9999,
        0 <= secs_of_day < 86400,
    ensures
        ({
            let s = stamp(y, m, d, secs_of_day);
            let hour = number_of(s.subrange(11, 13), 10);
            let minute = number_of(s.subrange(14, 16), 10);
            let second = number_of(s.subrange(17, 19), 10);
            &&& s.len() == 20
            &&& number_of(s.subrange(0, 4), 10) == y
            &&& number_of(s.subrange(5, 7), 10) == m
            &&& number_of(s.subrange(8, 10), 10) == d
            &&& 3600 * hour + 60 * minute + second == secs_of_day
            &&& 0 <= minute < 60 && 0 <= second < 60
            &&& s[4] == '-' && s[7] == '-' && s[10] == 'T' && s[13] == ':' && s[16] == ':' && s[19] == 'Z'
        }),
{
    reveal_strlit("-");
    reveal_strlit("T");
    reveal_strlit(":");
    reveal_strlit("Z");
    let h = secs_of_day / 3600;
    let n = secs_of_day % 3600 / 60;
    let c = secs_of_day % 60;
    assert(0 <= h < 24 && 0 <= n < 60 && 0 <= c < 60);
    assert(3600 * h + 60 * n + c == secs_of_day);
    lemma_places(y as nat, 4);
    lemma_places(m as nat, 2);
    lemma_places(d as nat, 2);
    lemma_places(h as nat, 2);
    lemma_places(n as nat, 2);
    lemma_places(c as nat, 2);
    let s = stamp(y, m, d, secs_of_day);
    assert(s.subrange(0, 4) =~= zero_padded(y, 4));
    assert(s.subrange(5, 7) =~= zero_padded(m, 2));
    assert(s.subrange(8, 10) =~= zero_padded(d, 2));
    assert(s.subrange(11, 13) =~= zero_padded(h, 2));
    assert(s.subrange(14, 16) =~= zero_padded(n, 2));
    assert(s.subrange(17, 19) =~= zero_padded(c, 2));
}

proof fn lemma_places(n: nat, width: nat)
    requires
        (width == 4 && n <= 9999) || (width == 2 && n <= 99),
    ensures
        zero_padded(n as int, width).len() == width,
        number_of(zero_padded(n as int, width), 10) == n,
{
    law_zeros_before_a_number_change_nothing(n, width);
    reveal_with_fuel(digits, 5);
}

/// The day after a date is the next of its month, or the first of the next month
/// where it was the last, or of the next year; and 1970-01-01 is day 0.
pub proof fn law_days_follow_one_another(y: int, m: int, d: int)
    requires
        is_date(y, m, d),
    ensures
        day_number(1970, 1, 1) == 0,
        is_date(y, m, d + 1) ==> day_number(y, m, d + 1) == day_number(y, m, d) + 1,
        !is_date(y, m, d + 1) && m < 12 ==> day_number(y, m + 1, 1) == day_number(y, m, d) + 1,
        !is_date(y, m, d + 1) && m == 12 ==> day_number(y + 1, 1, 1) == day_number(y, m, d) + 1,
        is_date(y, m, d + 1) <==> d < (if m == 2 {
            if y % 4 == 0 && (y % 100 != 0 || y % 400 == 0) {
                29int
            } else {
                28
            }
        } else if m == 4 || m == 6 || m == 9 || m == 11 {
            30
        } else {
            31
        }),
{
    lemma_next_year(y);
    lemma_days_before_month(y);
    lemma_days_before_month(y + 1);
    lemma_days_before_month(1970);
}

/// A plain log line is the stamp, the level right in five columns, and the
/// message, in this order.
pub proof fn law_a_plain_log_line_reads_its_parts(ts: Seq<char>, message: Seq<char>, level: Seq<char>)
    requires
        level.len() <= 5,
    ensures
        ({
            let line = line_text(ts, message, level, false);
            let n = ts.len() as int;
            &&& line.len() == n + 7 + message.len()
            &&& line.take(n) == ts
            &&& line[n] == ' '
            &&& line.subrange(n + 6 - level.len(), n + 6) == level
            &&& forall|i: int| n <= i < n + 6 - level.len() ==> line[i] == ' '
            &&& line[n + 6] == ' '
            &&& line.skip(n + 7) == message
        }),
{
    reveal_strlit(" ");
    let line = line_text(ts, message, level, false);
    let n = ts.len() as int;
    assert(line.take(n) =~= ts);
    assert(line.subrange(n + 6 - level.len(), n + 6) =~= level);
    assert(line.skip(n + 7) =~= message);
}

/// Each level has its own color, and any other level none.
pub proof fn law_each_level_has_its_color(level: Seq<char>)
    ensures
        level_escape("TRACE"@) == "\x1b[35m"@,
        level_escape("DEBUG"@) == "\x1b[34m"@,
        level_escape("INFO"@) == "\x1b[32m"@,
        level_escape("WARN"@) == "\x1b[33m"@,
        level_escape("ERROR"@) == "\x1b[31m"@,
        level != "TRACE"@ && level != "DEBUG"@ && level != "INFO"@ && level != "WARN"@ && level != "ERROR"@
            ==> level_escape(level).len() == 0,
{
    reveal_strlit("TRACE");
    reveal_strlit("DEBUG");
    reveal_strlit("INFO");
    reveal_strlit("WARN");
    reveal_strlit("ERROR");
    reveal_strlit("");
    assert("TRACE"@[0] != "DEBUG"@[0] && "TRACE"@[0] != "ERROR"@[0] && "DEBUG"@[0] != "ERROR"@[0]);
    assert("INFO"@[0] != "WARN"@[0]);
}

/// A stamp before the year 10000 tells the second that it is of: the day that it
/// names, counted from 1970-01-01, and the time of that day make up the seconds
/// since then.
pub proof fn law_a_stamp_tells_its_second(s: Seq<char>, secs: int)
    requires
        is_stamp(s, secs),
        0 <= secs < 253402300800,
    ensures
        ({
            let y = number_of(s.subrange(0, 4), 10);
            let m = number_of(s.subrange(5, 7), 10);
            let d = number_of(s.subrange(8, 10), 10);
            let hour = number_of(s.subrange(11, 13), 10);
            let minute = number_of(s.subrange(14, 16), 10);
            let second = number_of(s.subrange(17, 19), 10);
            &&& s.len() == 20
            &&& is_date(y, m, d)
            &&& 0 <= minute < 60 && 0 <= second < 60 && 0 <= hour < 24
            &&& day_number(y, m, d) * 86400 + hour * 3600 + minute * 60 + second == secs
        }),
{
    let (y, m, d) = choose|y: int, m: int, d: int|
        is_date(y, m, d) && #[trigger] day_number(y, m, d) == secs / 86400 && s == stamp(y, m, d, secs % 86400);
    assert(0 <= day_number(y, m, d) < 2932897);
    lemma_day_within_year(y, m, d);
    if y >= 10000 {
        lemma_years_grow(10000, y);
    }
    if y < 1970 {
        lemma_years_grow(y + 1, 1970);
    }
    law_a_stamp_tells_its_time(y, m, d, secs % 86400);
}

/// A plain log line begins with the stamp of its second and ends with its
/// message, the level between them.
pub proof fn law_a_plain_log_line_is_of_its_second(s: Seq<char>, message: Seq<char>, level: Seq<char>, secs: int)
    requires
        is_line(s, message, level, secs, false),
        level.len() <= 5,
        0 <= secs < 253402300800,
    ensures
        s.len() == 27 + message.len(),
        is_stamp(s.take(20), secs),
        s.subrange(26 - level.len(), 26) == level,
        s.skip(27) == message,
{
    let ts = choose|ts: Seq<char>| #[trigger] is_stamp(ts, secs) && s == line_text(ts, message, level, false);
    law_a_stamp_tells_its_second(ts, secs);
    law_a_plain_log_line_reads_its_parts(ts, message, level);
}

} // verus!
