//! Dates and times of day, and time zones.

use jiff::tz::TimeZone;
use jiff::Timestamp;
use vstd::prelude::*;

verus! {

#[verifier::external_type_specification]
#[verifier::external_body]
pub struct ExTimeZone(jiff::tz::TimeZone);

/// A day of the calendar.
#[derive(Debug, Clone, Copy, PartialEq, Eq, Structural)]
pub struct Date {
    pub year: i16,
    pub month: i8,
    pub day: i8,
}

/// A moment as a clock and a calendar show it.
#[derive(Debug, Clone, Copy)]
pub struct Stamp {
    pub date: Date,
    pub hour: i8,
    pub minute: i8,
    pub second: i8,
}

/// Whether a year has a day more.
pub open spec fn leap_year(year: int) -> bool {
    year % 4 == 0 && (year % 100 != 0 || year % 400 == 0)
}

/// The number of days of a month.
pub open spec fn month_days(year: int, month: int) -> int {
    if month == 2 {
        if leap_year(year) {
            29
        } else {
            28
        }
    } else if month == 4 || month == 6 || month == 9 || month == 11 {
        30
    } else {
        31
    }
}

impl Date {
    /// Whether there is such a day.
    pub open spec fn valid(self) -> bool {
        &&& -9999 <= self.year <= 9999
        &&& 1 <= self.month <= 12
        &&& 1 <= self.day <= month_days(self.year as int, self.month as int)
    }

    /// The day with this number of this month, if there is such a day.
    pub fn new(year: i16, month: i8, day: i8) -> (date: Option<Date>)
        ensures
            match date {
                Some(found) => found == (Date { year, month, day }) && found.valid(),
                None => !(Date { year, month, day }).valid(),
            },
    {
        if year < -9999 || year > 9999 || month < 1 || month > 12 || day < 1 {
            return None;
        }
        let age: i32 = year as i32 + 10000;
        let leap: bool = age % 4 == 0 && (age % 100 != 0 || age % 400 == 0);
        assert(leap == leap_year(year as int));
        let days: i8 = if month == 2 {
            if leap {
                29
            } else {
                28
            }
        } else if month == 4 || month == 6 || month == 9 || month == 11 {
            30
        } else {
            31
        };
        if day <= days {
            Some(Date { year, month, day })
        } else {
            None
        }
    }
}

impl Stamp {
    /// Whether a clock and a calendar can show this.
    pub open spec fn valid(self) -> bool {
        &&& self.date.valid()
        &&& 0 <= self.hour <= 23
        &&& 0 <= self.minute <= 59
        &&& 0 <= self.second <= 59
    }
}

/// What the clock of a time zone shows, a number of milliseconds after the
/// beginning of 1970 in UTC, if that is within its calendar.
pub uninterp spec fn local_time(zone: TimeZone, ts: i64) -> Option<Stamp>;

/// Whether a number of milliseconds is within the calendar.
pub open spec fn in_calendar(ts: i64) -> bool {
    -377_705_023_201_000 <= ts <= 253_402_207_200_000
}

/// The number of leap years from the year 1 to a year.
pub open spec fn leaps_until(year: int) -> int {
    year / 4 - year / 100 + year / 400
}

/// The number of days of a year before a month.
pub open spec fn days_before(year: int, month: int) -> int
    decreases month,
{
    if month <= 1 {
        0
    } else {
        days_before(year, month - 1) + month_days(year, month - 1)
    }
}

/// The number of days from the beginning of 1970 to a day.
pub open spec fn day_number(date: Date) -> int {
    365 * (date.year - 1970) + leaps_until(date.year - 1) - leaps_until(1969) + days_before(
        date.year as int,
        date.month as int,
    ) + date.day - 1
}

/// The number of seconds from the beginning of 1970 to what a clock shows.
pub open spec fn seconds_shown(stamp: Stamp) -> int {
    86400 * day_number(stamp.date) + 3600 * stamp.hour + 60 * stamp.minute + stamp.second
}

/// Whether the clock of a time zone shows UTC.
pub open spec fn shows_utc(zone: TimeZone) -> bool {
    forall|ts: i64|
        in_calendar(ts) ==> match #[trigger] local_time(zone, ts) {
            Some(stamp) => seconds_shown(stamp) == ts as int / 1000,
            None => false,
        }
}

/// The digit that writes a number below ten.
pub open spec fn digit(n: int) -> char {
    (48 + n) as char
}

/// The two digits that write a number below a hundred.
pub open spec fn two_digits(n: int) -> Seq<char> {
    seq![digit(n / 10), digit(n % 10)]
}

/// A time of day: two digits each for hour, minute and second.
pub open spec fn clock_text(stamp: Stamp) -> Seq<char> {
    two_digits(stamp.hour as int) + seq![':'] + two_digits(stamp.minute as int) + seq![':']
        + two_digits(stamp.second as int)
}

/// A year: four digits, or a minus sign and three digits at least.
pub open spec fn year_text(year: int) -> Seq<char> {
    if year >= 0 {
        two_digits(year / 100) + two_digits(year % 100)
    } else if year > -1000 {
        seq!['-', digit(-year / 100)] + two_digits(-year % 100)
    } else {
        seq!['-'] + two_digits(-year / 100) + two_digits(-year % 100)
    }
}

/// A date: year, month and day with hyphens between them.
pub open spec fn date_text(date: Date) -> Seq<char> {
    year_text(date.year as int) + seq!['-'] + two_digits(date.month as int) + seq!['-']
        + two_digits(date.day as int)
}

/// Whether a name of a time zone is that of UTC.
pub open spec fn names_utc(name: Seq<char>) -> bool {
    name == seq!['U', 'T', 'C']
}

/// A capital letter of ASCII as a small one, any other character as it is.
pub open spec fn lowered(c: char) -> char {
    if 'A' <= c <= 'Z' {
        (c as u32 + 32) as char
    } else {
        c
    }
}

/// Whether two names differ in the case of ASCII letters at most.
pub open spec fn same_name(a: Seq<char>, b: Seq<char>) -> bool {
    a.len() == b.len() && forall|i: int|
        0 <= i < a.len() ==> lowered(#[trigger] a[i]) == lowered(b[i])
}

/// The name that a time zone bears, as `TimeZone::iana_name` gives it.
pub uninterp spec fn zone_name(zone: TimeZone) -> Option<Seq<char>>;

/// Whether a time zone that bears this name, or none, is the one that is asked for
/// by `name`. The only one that can be asked for and bears none is `Etc/Unknown`.
pub open spec fn answers_to(borne: Option<Seq<char>>, name: Seq<char>) -> bool {
    match borne {
        Some(own) => same_name(own, name),
        None => same_name("Etc/Unknown"@, name),
    }
}

/// Whether a time zone is the one that is asked for by a name.
pub open spec fn carries(zone: TimeZone, name: Seq<char>) -> bool {
    answers_to(zone_name(zone), name)
}

/// Calls `TimeZone::get`, which looks the name up among the time zones that the
/// machine knows, if it knows any. A zone that is found bears the name that was
/// asked for but for the case of ASCII letters, or none if that was `Etc/Unknown`;
/// the clock of the one that is found as UTC shows UTC. Which names are found is
/// left unsaid: it rests on the machine.
#[verifier::external_body]
pub(crate) fn find_zone(name: &str) -> (zone: Option<TimeZone>)
    ensures
        zone matches Some(found) ==> answers_to(zone_name(found), name@),
        zone matches Some(found) ==> names_utc(name@) ==> shows_utc(found),
{
    TimeZone::get(name).ok()
}

/// Gives `TimeZone::UTC`, whose clock shows UTC.
#[verifier::external_body]
pub(crate) fn utc() -> (zone: TimeZone)
    ensures
        shows_utc(zone),
{
    TimeZone::UTC
}

/// Calls `Timestamp::from_millisecond` and `Timestamp::to_zoned`, which are
/// functions of their arguments. The first fails only outside the calendar; what
/// the second gives is a day of the calendar and a time of day.
#[verifier::external_body]
fn zoned(zone: &TimeZone, ts: i64) -> (stamp: Option<Stamp>)
    ensures
        stamp == local_time(*zone, ts),
        stamp is Some <==> in_calendar(ts),
        stamp matches Some(found) ==> found.valid(),
{
    let at = Timestamp::from_millisecond(ts).ok()?.to_zoned(zone.clone());
    let date = Date { year: at.year(), month: at.month(), day: at.day() };
    Some(Stamp { date, hour: at.hour(), minute: at.minute(), second: at.second() })
}

/// Calls `Date::strftime` for the format `%Y-%m-%d`. `jiff::civil::date` accepts
/// every day that there is.
#[verifier::external_body]
fn strftime(date: Date) -> (text: String)
    requires
        date.valid(),
    ensures
        text@ == date_text(date),
{
    jiff::civil::date(date.year, date.month, date.day).strftime("%Y-%m-%d").to_string()
}

/// What the clock of a time zone shows, a number of milliseconds after the
/// beginning of 1970 in UTC, if that is within its calendar.
pub fn local(zone: &TimeZone, ts: i64) -> (stamp: Option<Stamp>)
    ensures
        stamp == local_time(*zone, ts),
        stamp is Some <==> in_calendar(ts),
        stamp matches Some(found) ==> found.valid(),
{
    zoned(zone, ts)
}

/// A date as text.
pub fn date_label(date: Date) -> (text: String)
    requires
        date.valid(),
    ensures
        text@ == date_text(date),
        crate::text::printable(text@),
        10 <= text@.len() <= 11,
        date.year >= -999 ==> text@.len() == 10,
{
    proof {
        assert(crate::text::printable(date_text(date)));
    }
    strftime(date)
}

/// Puts the two digits of a number below a hundred at the end of a text.
fn put_two(out: &mut String, n: i8)
    requires
        0 <= n <= 99,
    ensures
        final(out)@ == old(out)@ + two_digits(n as int),
{
    let value: u8 = n as u8;
    out.push((48 + value / 10) as char);
    out.push((48 + value % 10) as char);
    assert(out@ =~= old(out)@ + two_digits(n as int));
}

/// A time of day as text.
pub fn clock_label(stamp: &Stamp) -> (text: String)
    requires
        stamp.valid(),
    ensures
        text@ == clock_text(*stamp),
        text@.len() == 8,
        crate::text::printable(text@),
{
    let mut text: String = String::new();
    put_two(&mut text, stamp.hour);
    text.push(':');
    put_two(&mut text, stamp.minute);
    text.push(':');
    put_two(&mut text, stamp.second);
    assert(text@ =~= clock_text(*stamp));
    text
}

/// A time of day is written in eight characters: hour, minute and second, the tens
/// before the ones, with colons between.
pub proof fn clock_text_reads_back(stamp: Stamp)
    requires
        stamp.valid(),
    ensures
        clock_text(stamp).len() == 8,
        clock_text(stamp)[2] == ':' && clock_text(stamp)[5] == ':',
        forall|i: int|
            0 <= i < 8 && i != 2 && i != 5 ==> '0' <= #[trigger] clock_text(stamp)[i] <= '9',
        10 * (clock_text(stamp)[0] as int - 48) + (clock_text(stamp)[1] as int - 48) == stamp.hour,
        10 * (clock_text(stamp)[3] as int - 48) + (clock_text(stamp)[4] as int - 48)
            == stamp.minute,
        10 * (clock_text(stamp)[6] as int - 48) + (clock_text(stamp)[7] as int - 48)
            == stamp.second,
{
}

/// Two times of day that are written alike are the same.
pub proof fn clock_text_tells_times_apart(a: Stamp, b: Stamp)
    requires
        a.valid(),
        b.valid(),
        clock_text(a) == clock_text(b),
    ensures
        a.hour == b.hour && a.minute == b.minute && a.second == b.second,
{
    clock_text_reads_back(a);
    clock_text_reads_back(b);
}

/// The days that there are: up to the thirty-first of seven months, the thirtieth of
/// four, and the twenty-eighth of February, or the twenty-ninth every fourth year but
/// in those that end a century that is no fourth one.
pub proof fn days_of_the_calendar(date: Date)
    ensures
        date.valid() <==> {
            &&& -9999 <= date.year <= 9999
            &&& 1 <= date.month <= 12
            &&& 1 <= date.day <= 31
            &&& date.month == 4 || date.month == 6 || date.month == 9 || date.month == 11
                ==> date.day <= 30
            &&& date.month == 2 ==> date.day <= 29
            &&& date.month == 2 && date.day == 29 ==> date.year % 4 == 0 && (date.year % 100 != 0
                || date.year % 400 == 0)
        },
{
}

} // verus!
