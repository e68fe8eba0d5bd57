//! Calendar dates, proleptic-Gregorian arithmetic, weekday computation and
//! `YYYY-MM-DD` formatting, plus the ISO-week identity of a date (via chrono).

use vstd::prelude::*;

verus! {

/// A calendar date in the proleptic Gregorian calendar.
#[derive(Clone, Copy, Debug, PartialEq, Eq, Structural)]
pub struct Date {
    pub year: i32,
    pub month: i32,
    pub day: i32,
}

pub open spec fn is_leap_year(y: int) -> bool {
    y % 4 == 0 && (y % 100 != 0 || y % 400 == 0)
}

pub open spec fn days_in_month(y: int, m: int) -> int {
    if m == 2 {
        if is_leap_year(y) {
            29
        } else {
            28
        }
    } else if m == 4 || m == 6 || m == 9 || m == 11 {
        30
    } else {
        31
    }
}

pub open spec fn days_in_year(y: int) -> int {
    if is_leap_year(y) {
        366
    } else {
        365
    }
}

/// Dates this library works on: years 1 through 9999.
pub open spec fn valid_date(d: Date) -> bool {
    &&& 1 <= d.year <= 9999
    &&& 1 <= d.month <= 12
    &&& 1 <= d.day <= days_in_month(d.year as int, d.month as int)
}

/// Number of days in all years strictly before year `y`, counting from year 1.
pub open spec fn days_before_year(y: int) -> int
    decreases y,
{
    if y <= 1 {
        0
    } else {
        days_before_year(y - 1) + days_in_year(y - 1)
    }
}

/// Number of days in the months of year `y` strictly before month `m`.
pub open spec fn days_before_month(y: int, m: int) -> int
    decreases m,
{
    if m <= 1 {
        0
    } else {
        days_before_month(y, m - 1) + days_in_month(y, m - 1)
    }
}

/// Days elapsed since 0001-01-01 (which has index 0).
pub open spec fn day_index(d: Date) -> int {
    days_before_year(d.year as int) + days_before_month(d.year as int, d.month as int) + d.day - 1
}

/// Day of week, 0 = Monday .. 6 = Sunday (0001-01-01 was a Monday).
pub open spec fn weekday_index(d: Date) -> int {
    day_index(d) % 7
}

pub open spec fn is_weekend(d: Date) -> bool {
    weekday_index(d) >= 5
}

pub fn days_in_month_of(year: i32, month: i32) -> (n: i32)
    requires
        1 <= year <= 9999,
        1 <= month <= 12,
    ensures
        n == days_in_month(year as int, month as int),
{
    if month == 2 {
        if year % 4 == 0 && (year % 100 != 0 || year % 400 == 0) {
            29
        } else {
            28
        }
    } else if month == 4 || month == 6 || month == 9 || month == 11 {
        30
    } else {
        31
    }
}

fn days_in_year_of(year: i32) -> (n: i32)
    requires
        1 <= year <= 9999,
    ensures
        n == days_in_year(year as int),
{
    if year % 4 == 0 && (year % 100 != 0 || year % 400 == 0) {
        366
    } else {
        365
    }
}

/// Day of week of a date, 0 = Monday .. 6 = Sunday.
pub fn weekday(d: &Date) -> (w: i32)
    requires
        valid_date(*d),
    ensures
        w == weekday_index(*d),
        0 <= w <= 6,
{
    let mut acc: u64 = 0;
    let mut y: i32 = 1;
    while y < d.year
        invariant
            valid_date(*d),
            1 <= y <= d.year,
            acc == days_before_year(y as int),
            acc <= 366 * (y - 1),
        decreases d.year - y,
    {
        acc = acc + days_in_year_of(y) as u64;
        y = y + 1;
    }
    let mut m: i32 = 1;
    while m < d.month
        invariant
            valid_date(*d),
            1 <= m <= d.month,
            acc == days_before_year(d.year as int) + days_before_month(d.year as int, m as int),
            acc <= 366 * (d.year - 1) + 31 * (m - 1),
        decreases d.month - m,
    {
        acc = acc + days_in_month_of(d.year, m) as u64;
        m = m + 1;
    }
    acc = acc + (d.day - 1) as u64;
    assert(acc == day_index(*d));
    (acc % 7) as i32
}

/// The calendar day after `d`.
pub open spec fn spec_next_date(d: Date) -> Date {
    if d.day < days_in_month(d.year as int, d.month as int) {
        Date { year: d.year, month: d.month, day: (d.day + 1) as i32 }
    } else if d.month < 12 {
        Date { year: d.year, month: (d.month + 1) as i32, day: 1 }
    } else {
        Date { year: (d.year + 1) as i32, month: 1, day: 1 }
    }
}

/// `d` advanced by `n` calendar days.
pub open spec fn spec_add_days(d: Date, n: nat) -> Date
    decreases n,
{
    if n == 0 {
        d
    } else {
        spec_next_date(spec_add_days(d, (n - 1) as nat))
    }
}

proof fn lemma_days_before_month_full(y: int)
    ensures
        days_before_month(y, 12) + days_in_month(y, 12) == days_in_year(y),
{
    assert(days_before_month(y, 1) == 0);
    assert(days_before_month(y, 2) == 31);
    assert(days_before_month(y, 3) == days_before_month(y, 2) + days_in_month(y, 2));
    assert(days_before_month(y, 4) == days_before_month(y, 3) + 31);
    assert(days_before_month(y, 5) == days_before_month(y, 4) + 30);
    assert(days_before_month(y, 6) == days_before_month(y, 5) + 31);
    assert(days_before_month(y, 7) == days_before_month(y, 6) + 30);
    assert(days_before_month(y, 8) == days_before_month(y, 7) + 31);
    assert(days_before_month(y, 9) == days_before_month(y, 8) + 31);
    assert(days_before_month(y, 10) == days_before_month(y, 9) + 30);
    assert(days_before_month(y, 11) == days_before_month(y, 10) + 31);
    assert(days_before_month(y, 12) == days_before_month(y, 11) + 30);
}

/// Successor dates are adjacent in the day count.
pub proof fn lemma_day_index_next(d: Date)
    requires
        valid_date(d),
        !(d.year == 9999 && d.month == 12 && d.day == 31),
    ensures
        valid_date(spec_next_date(d)),
        day_index(spec_next_date(d)) == day_index(d) + 1,
{
    let y = d.year as int;
    let m = d.month as int;
    if d.day < days_in_month(y, m) {
    } else if d.month < 12 {
        assert(days_before_month(y, m + 1) == days_before_month(y, m) + days_in_month(y, m));
    } else {
        lemma_days_before_month_full(y);
        assert(days_before_year(y + 1) == days_before_year(y) + days_in_year(y));
    }
}

/// Adding up to 22 days to a date below year 9999 stays valid, and a year
/// boundary is crossed at most once, into the first days of January.
pub proof fn lemma_add_days_bounded(d: Date, n: nat)
    requires
        valid_date(d),
        d.year <= 9998,
        n <= 22,
    ensures
        valid_date(spec_add_days(d, n)),
        spec_add_days(d, n).year == d.year || (spec_add_days(d, n).year == d.year + 1
            && spec_add_days(d, n).month == 1 && spec_add_days(d, n).day <= n),
        day_index(spec_add_days(d, n)) == day_index(d) + n,
    decreases n,
{
    if n > 0 {
        lemma_add_days_bounded(d, (n - 1) as nat);
        let p = spec_add_days(d, (n - 1) as nat);
        assert(!(p.year == 9999 && p.month == 12 && p.day == 31));
        lemma_day_index_next(p);
    }
}

/// The calendar day after `d`.
pub fn next_date(d: &Date) -> (r: Date)
    requires
        valid_date(*d),
        !(d.year == 9999 && d.month == 12 && d.day == 31),
    ensures
        r == spec_next_date(*d),
        valid_date(r),
{
    proof {
        lemma_day_index_next(*d);
    }
    if d.day < days_in_month_of(d.year, d.month) {
        Date { year: d.year, month: d.month, day: d.day + 1 }
    } else if d.month < 12 {
        Date { year: d.year, month: d.month + 1, day: 1 }
    } else {
        Date { year: d.year + 1, month: 1, day: 1 }
    }
}

pub open spec fn digit_char(n: int) -> char {
    if n == 0 {
        '0'
    } else if n == 1 {
        '1'
    } else if n == 2 {
        '2'
    } else if n == 3 {
        '3'
    } else if n == 4 {
        '4'
    } else if n == 5 {
        '5'
    } else if n == 6 {
        '6'
    } else if n == 7 {
        '7'
    } else if n == 8 {
        '8'
    } else {
        '9'
    }
}

/// The `YYYY-MM-DD` rendering of a date, zero-padded.
pub open spec fn date_string_of(d: Date) -> Seq<char> {
    seq![
        digit_char(d.year as int / 1000),
        digit_char((d.year as int / 100) % 10),
        digit_char((d.year as int / 10) % 10),
        digit_char(d.year as int % 10),
        '-',
        digit_char(d.month as int / 10),
        digit_char(d.month as int % 10),
        '-',
        digit_char(d.day as int / 10),
        digit_char(d.day as int % 10),
    ]
}

pub(crate) fn digit_str(n: i32) -> (r: &'static str)
    requires
        0 <= n <= 9,
    ensures
        r@ =~= seq![digit_char(n as int)],
{
    proof {
        reveal_strlit("0");
        reveal_strlit("1");
        reveal_strlit("2");
        reveal_strlit("3");
        reveal_strlit("4");
        reveal_strlit("5");
        reveal_strlit("6");
        reveal_strlit("7");
        reveal_strlit("8");
        reveal_strlit("9");
    }
    match n {
        0 => "0",
        1 => "1",
        2 => "2",
        3 => "3",
        4 => "4",
        5 => "5",
        6 => "6",
        7 => "7",
        8 => "8",
        _ => "9",
    }
}

/// Renders a date as `YYYY-MM-DD`, the form week payloads use for day records.
pub fn format_date(date: &Date) -> (r: String)
    requires
        valid_date(*date),
    ensures
        r@ == date_string_of(*date),
{
    proof {
        reveal_strlit("-");
    }
    let mut s = String::new();
    s.append(digit_str(date.year / 1000));
    s.append(digit_str((date.year / 100) % 10));
    s.append(digit_str((date.year / 10) % 10));
    s.append(digit_str(date.year % 10));
    s.append("-");
    s.append(digit_str(date.month / 10));
    s.append(digit_str(date.month % 10));
    s.append("-");
    s.append(digit_str(date.day / 10));
    s.append(digit_str(date.day % 10));
    proof {
        assert(("-")@ =~= seq!['-']);
        assert(s@ =~= date_string_of(*date));
    }
    s
}

/// The ISO 8601 week number of a calendar date; a function of the date alone.
pub uninterp spec fn iso_week_of(y: int, m: int, d: int) -> u32;

/// The ISO 8601 week-based year of a calendar date; a function of the date alone.
pub uninterp spec fn iso_year_of(y: int, m: int, d: int) -> i32;

/// Relies on chrono's `Datelike::iso_week` and `IsoWeek::week`: the ISO 8601
/// week number of a date, documented to range from 1 to 53.
#[verifier::external_body]
pub fn calc_iso_week(date: &Date) -> (w: u32)
    requires
        valid_date(*date),
    ensures
        w == iso_week_of(date.year as int, date.month as int, date.day as int),
        1 <= w <= 53,
{
    let d = chrono::NaiveDate::from_ymd_opt(date.year, date.month as u32, date.day as u32).unwrap();
    chrono::Datelike::iso_week(&d).week()
}

/// Relies on chrono's `Datelike::iso_week` and `IsoWeek::year`: the ISO 8601
/// week-based year of a date, which differs from the calendar year by at most
/// one (at the first or last days of a year).
#[verifier::external_body]
pub fn calc_iso_year(date: &Date) -> (y: i32)
    requires
        valid_date(*date),
    ensures
        y == iso_year_of(date.year as int, date.month as int, date.day as int),
        date.year - 1 <= y <= date.year + 1,
{
    let d = chrono::NaiveDate::from_ymd_opt(date.year, date.month as u32, date.day as u32).unwrap();
    chrono::Datelike::iso_week(&d).year()
}

/// Relies on chrono's `Local::now`: the current local date (always a real
/// calendar date) and the hour of the day. Returns (year, month, day, hour).
#[verifier::external_body]
fn local_now_parts() -> (r: (i32, i32, i32, i32))
    ensures
        1 <= r.1 <= 12,
        1 <= r.2 <= 31,
        r.0 >= 1 ==> r.2 <= days_in_month(r.0 as int, r.1 as int),
        0 <= r.3 <= 23,
{
    let now = chrono::Local::now();
    let d = now.date_naive();
    (
        chrono::Datelike::year(&d),
        chrono::Datelike::month(&d) as i32,
        chrono::Datelike::day(&d) as i32,
        chrono::Timelike::hour(&now) as i32,
    )
}

/// `d`, moved forward past a Saturday or Sunday to the following Monday.
pub open spec fn spec_skip_weekend(d: Date) -> Date {
    if weekday_index(d) == 5 {
        spec_next_date(spec_next_date(d))
    } else if weekday_index(d) == 6 {
        spec_next_date(d)
    } else {
        d
    }
}

/// The date a timetable should be resolved for, seen from `today` at `hour`:
/// the next day once the school day is over (17:00), and never a weekend.
pub open spec fn spec_next_valid_from(today: Date, hour: int) -> Date {
    spec_skip_weekend(
        if hour >= 17 {
            spec_next_date(today)
        } else {
            today
        },
    )
}

/// The date to resolve a timetable for, given the local date and hour.
pub fn next_valid_date_from(today: Date, hour: i32) -> (r: Date)
    requires
        valid_date(today),
        today.year <= 9998,
        0 <= hour <= 23,
    ensures
        r == spec_next_valid_from(today, hour as int),
        valid_date(r),
        !is_weekend(r),
{
    let mut d: Date = today;
    if hour >= 17 {
        proof {
            lemma_day_index_next(today);
        }
        d = next_date(&today);
    }
    proof {
        lemma_add_days_bounded(today, if hour >= 17 { 1nat } else { 0nat });
        assert(spec_add_days(today, 0nat) == today);
        assert(spec_add_days(today, 1nat) == spec_next_date(today));
        assert(d == spec_add_days(today, if hour >= 17 { 1nat } else { 0nat }));
    }
    let w = weekday(&d);
    if w == 5 {
        proof {
            lemma_day_index_next(d);
            lemma_day_index_next(spec_next_date(d));
        }
        let e = next_date(&d);
        let f = next_date(&e);
        f
    } else if w == 6 {
        proof {
            lemma_day_index_next(d);
        }
        next_date(&d)
    } else {
        d
    }
}

/// The date to resolve a timetable for right now: today per the local clock,
/// or tomorrow after 17:00, moved past weekends to the next Monday.
pub fn next_valid_date() -> (r: Date)
    ensures
        valid_date(r),
        !is_weekend(r),
{
    let (y, m, d, h) = local_now_parts();
    if 1 <= y && y <= 9998 {
        next_valid_date_from(Date { year: y, month: m, day: d }, h)
    } else {
        next_valid_date_from(Date { year: 2000, month: 1, day: 1 }, 0)
    }
}

} // verus!

