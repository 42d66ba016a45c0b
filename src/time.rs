use chrono::{Offset, TimeZone};
use vstd::prelude::*;

use crate::text::{
    digit_value, is_digit, push_str, push_two_digits, to_chars, two_digits,
};

verus! {

/// Seconds in a day.
pub const DAY_SECONDS: i64 = 86400;

/// Seconds from 0001-01-01 to 1970-01-01; a multiple of a day.
pub const CE_SHIFT: i64 = 62135596800;

pub open spec fn is_leap(y: int) -> bool {
    (y % 4 == 0 && y % 100 != 0) || y % 400 == 0
}

pub open spec fn days_in_month(y: int, m: int) -> int {
    if m == 2 {
        if is_leap(y) {
            29
        } else {
            28
        }
    } else if m == 4 || m == 6 || m == 9 || m == 11 {
        30
    } else {
        31
    }
}

/// Days of the year that come before the first of month `m`.
pub open spec fn days_before_month(y: int, m: int) -> int {
    let base = if m <= 1 {
        0int
    } else if m == 2 {
        31
    } else if m == 3 {
        59
    } else if m == 4 {
        90
    } else if m == 5 {
        120
    } else if m == 6 {
        151
    } else if m == 7 {
        181
    } else if m == 8 {
        212
    } else if m == 9 {
        243
    } else if m == 10 {
        273
    } else if m == 11 {
        304
    } else {
        334
    };
    if m > 2 && is_leap(y) {
        base + 1
    } else {
        base
    }
}

/// Leap years among the years 1 to y - 1.
pub open spec fn leaps_before(y: int) -> int {
    (y - 1) / 4 - (y - 1) / 100 + (y - 1) / 400
}

/// The day number of a date, counted from 1970-01-01 (day 0) in the proleptic Gregorian calendar.
pub open spec fn epoch_day_of(y: int, m: int, d: int) -> int {
    365 * (y - 1) + leaps_before(y) + days_before_month(y, m) + d - 1 - 719162
}

/// A calendar date.
#[derive(Clone, Copy, Debug, PartialEq, Eq, Hash, Structural)]
pub struct Date {
    pub year: i32,
    pub month: u32,
    pub day: u32,
}

impl Date {
    /// A date of the years 1 to 9999 that exists in the Gregorian calendar.
    pub open spec fn wf(self) -> bool {
        1 <= self.year <= 9999 && 1 <= self.month <= 12 && 1 <= self.day <= days_in_month(
            self.year as int,
            self.month as int,
        )
    }

    /// A number that orders dates as the calendar does.
    pub open spec fn key(self) -> int {
        self.year * 10000 + self.month * 100 + self.day
    }

    pub open spec fn epoch_day(self) -> int {
        epoch_day_of(self.year as int, self.month as int, self.day as int)
    }

    /// The date with these parts, if it exists.
    pub fn new(year: i32, month: u32, day: u32) -> (r: Option<Date>)
        ensures
            r is Some <==> (Date { year, month, day }).wf(),
            r matches Some(d) ==> d == (Date { year, month, day }),
    {
        if year < 1 || year > 9999 || month < 1 || month > 12 || day < 1 {
            return None;
        }
        let dim = days_in_month_exec(year, month);
        if day > dim {
            None
        } else {
            Some(Date { year, month, day })
        }
    }

    /// Whether this date comes before `o` or is `o`.
    pub fn is_on_or_before(&self, o: &Date) -> (r: bool)
        requires
            self.wf(),
            o.wf(),
        ensures
            r == (self.key() <= o.key()),
    {
        if self.year != o.year {
            self.year < o.year
        } else if self.month != o.month {
            self.month < o.month
        } else {
            self.day <= o.day
        }
    }

    /// The day number counted from 1970-01-01.
    pub fn epoch_day_exec(&self) -> (r: i64)
        requires
            self.wf(),
        ensures
            r == self.epoch_day(),
            -719162 <= r < 2932897,
    {
        let y = self.year as i64;
        let m = self.month as i64;
        let leap = is_leap_exec(self.year);
        let mut before: i64 = if m <= 1 {
            0
        } else if m == 2 {
            31
        } else if m == 3 {
            59
        } else if m == 4 {
            90
        } else if m == 5 {
            120
        } else if m == 6 {
            151
        } else if m == 7 {
            181
        } else if m == 8 {
            212
        } else if m == 9 {
            243
        } else if m == 10 {
            273
        } else if m == 11 {
            304
        } else {
            334
        };
        if m > 2 && leap {
            before = before + 1;
        }
        assert(before == days_before_month(y as int, m as int));
        let leaps = (y - 1) / 4 - (y - 1) / 100 + (y - 1) / 400;
        assert(0 <= leaps <= 2425) by (nonlinear_arith)
            requires
                leaps == (y - 1) / 4 - (y - 1) / 100 + (y - 1) / 400,
                1 <= y <= 9999,
        ;
        365 * (y - 1) + leaps + before + self.day as i64 - 1 - 719162
    }
}

pub fn is_leap_exec(y: i32) -> (r: bool)
    ensures
        r == is_leap(y as int),
{
    (y % 4 == 0 && y % 100 != 0) || y % 400 == 0
}

pub fn days_in_month_exec(y: i32, m: u32) -> (r: u32)
    ensures
        r == days_in_month(y as int, m as int),
{
    if m == 2 {
        if is_leap_exec(y) {
            29
        } else {
            28
        }
    } else if m == 4 || m == 6 || m == 9 || m == 11 {
        30
    } else {
        31
    }
}

/// An instant together with the UTC offset of the zone it was read in.
#[derive(Clone, Copy, Debug, PartialEq, Eq, Hash, Structural)]
pub struct ZonedTime {
    /// Seconds since 1970-01-01T00:00:00Z.
    pub utc: i64,
    /// Local time minus UTC, in seconds.
    pub offset: i32,
}

impl ZonedTime {
    /// Seconds since 1970-01-01T00:00:00 on the local clock.
    pub open spec fn local(self) -> int {
        self.utc + self.offset
    }

    /// Local times of the years 1 to 9999, with an offset of less than a day.
    pub open spec fn wf(self) -> bool {
        -86400 < self.offset < 86400 && -CE_SHIFT <= self.local() < 253402300800
    }

    /// Seconds since local midnight.
    pub open spec fn second_of_day(self) -> int {
        self.local() % 86400
    }

    pub fn second_of_day_exec(&self) -> (r: u32)
        requires
            self.wf(),
        ensures
            r == self.second_of_day(),
            r < 86400,
    {
        let shifted = self.utc + self.offset as i64 + CE_SHIFT;
        assert(shifted % 86400 == self.local() % 86400) by {
            assert(CE_SHIFT == 86400 * 719162);
            vstd::arithmetic::div_mod::lemma_mod_add_multiples_vanish(
                self.local(),
                86400,
            );
            assert((self.local() + 86400 * 719162) % 86400 == self.local() % 86400) by {
                vstd::arithmetic::div_mod::lemma_mod_multiples_vanish(
                    719162,
                    self.local(),
                    86400,
                );
            }
        }
        (shifted % DAY_SECONDS) as u32
    }

    /// The hour on the local clock.
    pub fn hour(&self) -> (r: u32)
        requires
            self.wf(),
        ensures
            r == self.second_of_day() / 3600,
    {
        self.second_of_day_exec() / 3600
    }

    /// The minute on the local clock.
    pub fn minute(&self) -> (r: u32)
        requires
            self.wf(),
        ensures
            r == (self.second_of_day() % 3600) / 60,
    {
        (self.second_of_day_exec() % 3600) / 60
    }

    /// The second on the local clock.
    pub fn second(&self) -> (r: u32)
        requires
            self.wf(),
        ensures
            r == self.second_of_day() % 60,
    {
        self.second_of_day_exec() % 60
    }
}

/// What a wall-clock time on a date is in a zone: `None` for a zone name that
/// is not known, else the possible (UTC seconds, offset seconds) pairs, none
/// in a gap and two in a fold.
pub uninterp spec fn local_resolutions(
    tz: Seq<char>,
    year: int,
    month: int,
    day: int,
    second_of_day: int,
) -> Option<Seq<(i64, i32)>>;

/// Relies on chrono_tz's `Tz` parsing of IANA zone names and on chrono's
/// `TimeZone::from_local_datetime`, which lists the instants that a local
/// date and time can denote in the zone, each with its offset (`local_minus_utc`).
#[verifier::external_body]
pub(crate) fn resolve_local(tz: &str, date: Date, second_of_day: u32) -> (r: Option<Vec<(i64, i32)>>)
    requires
        date.wf(),
        second_of_day < 86400,
    ensures
        r matches Some(v) ==> local_resolutions(tz@, date.year as int, date.month as int, date.day as int, second_of_day as int) == Some(v@),
        r is None ==> local_resolutions(tz@, date.year as int, date.month as int, date.day as int, second_of_day as int) is None,
        r matches Some(v) ==> v.len() <= 2 && forall|i: int|
            0 <= i < v.len() ==> -86400 < #[trigger] v@[i].1 < 86400 && v@[i].0 + v@[i].1
                == date.epoch_day() * 86400 + second_of_day,
{
    let zone: chrono_tz::Tz = match tz.parse() {
        Ok(z) => z,
        Err(_) => return None,
    };
    let day = chrono::NaiveDate::from_ymd_opt(date.year, date.month, date.day).unwrap();
    let clock = chrono::NaiveTime::from_num_seconds_from_midnight_opt(second_of_day, 0).unwrap();
    let found = match zone.from_local_datetime(&day.and_time(clock)) {
        chrono::LocalResult::Single(a) => vec![a],
        chrono::LocalResult::Ambiguous(a, b) => vec![a, b],
        chrono::LocalResult::None => vec![],
    };
    Some(found.iter().map(|t| (t.timestamp(), t.offset().fix().local_minus_utc())).collect())
}

/// Why a wall-clock time could not be turned into an instant.
#[derive(Clone, Copy, Debug, PartialEq, Eq, Structural)]
pub enum TimeError {
    /// The time is not a bare `HH:MM` (an offset was given, or it is malformed).
    InvalidTimeFormat,
    /// The local time falls in a fold or in a gap of the zone.
    AmbiguousOrNonexistentTime,
    /// The zone name is not one of the IANA names known here.
    UnknownTimezone,
}

/// The seconds since midnight that a bare `HH:MM` denotes.
pub open spec fn clock_seconds(s: Seq<char>) -> Option<int> {
    if s.len() == 5 && is_digit(s[0]) && is_digit(s[1]) && s[2] == ':' && is_digit(s[3])
        && is_digit(s[4]) {
        let h = digit_value(s[0]) * 10 + digit_value(s[1]);
        let m = digit_value(s[3]) * 10 + digit_value(s[4]);
        if h < 24 && m < 60 {
            Some(h * 3600 + m * 60)
        } else {
            None
        }
    } else {
        None
    }
}

/// The offset in seconds that `+HHMM` or `-HHMM` denotes.
pub open spec fn offset_seconds(s: Seq<char>) -> Option<int> {
    if s.len() == 5 && (s[0] == '+' || s[0] == '-') && is_digit(s[1]) && is_digit(s[2])
        && is_digit(s[3]) && is_digit(s[4]) {
        let h = digit_value(s[1]) * 10 + digit_value(s[2]);
        let m = digit_value(s[3]) * 10 + digit_value(s[4]);
        if h < 24 && m < 60 {
            Some(
                if s[0] == '-' {
                    -(h * 3600 + m * 60)
                } else {
                    h * 3600 + m * 60
                },
            )
        } else {
            None
        }
    } else {
        None
    }
}

pub open spec fn has_sign(s: Seq<char>) -> bool {
    exists|i: int| 0 <= i < s.len() && (s[i] == '+' || s[i] == '-')
}

/// The single instant that a local second of a date has in a zone.
pub open spec fn resolve_spec(tz: Seq<char>, date: Date, second: int) -> Result<
    ZonedTime,
    TimeError,
> {
    match local_resolutions(tz, date.year as int, date.month as int, date.day as int, second) {
        None => Err(TimeError::UnknownTimezone),
        Some(v) => if v.len() == 1 {
            Ok(ZonedTime { utc: v[0].0, offset: v[0].1 })
        } else {
            Err(TimeError::AmbiguousOrNonexistentTime)
        },
    }
}

/// What `combine` gives for a date, a zone name and a clock time.
pub open spec fn combine_spec(date: Date, tz: Seq<char>, clock: Seq<char>) -> Result<
    ZonedTime,
    TimeError,
> {
    if has_sign(clock) {
        Err(TimeError::InvalidTimeFormat)
    } else {
        match clock_seconds(clock) {
            None => Err(TimeError::InvalidTimeFormat),
            Some(sec) => resolve_spec(tz, date, sec),
        }
    }
}

pub fn digit_at(s: &Vec<char>, i: usize) -> (r: Option<u32>)
    requires
        i < s.len(),
    ensures
        r is Some <==> is_digit(s@[i as int]),
        r matches Some(d) ==> d == digit_value(s@[i as int]) && d < 10,
{
    let c = s[i];
    if '0' <= c && c <= '9' {
        Some((c as u32) - ('0' as u32))
    } else {
        None
    }
}

/// The seconds since midnight of a bare `HH:MM`.
pub fn parse_clock(s: &Vec<char>) -> (r: Option<u32>)
    ensures
        r matches Some(x) ==> clock_seconds(s@) == Some(x as int),
        r is None ==> clock_seconds(s@) is None,
{
    if s.len() != 5 || s[2] != ':' {
        return None;
    }
    let h1 = digit_at(s, 0);
    let h2 = digit_at(s, 1);
    let m1 = digit_at(s, 3);
    let m2 = digit_at(s, 4);
    match (h1, h2, m1, m2) {
        (Some(a), Some(b), Some(c), Some(d)) => {
            let h = a * 10 + b;
            let m = c * 10 + d;
            if h < 24 && m < 60 {
                Some(h * 3600 + m * 60)
            } else {
                None
            }
        },
        _ => None,
    }
}

/// The offset in seconds of `+HHMM` or `-HHMM`.
pub fn parse_offset(s: &Vec<char>) -> (r: Option<i32>)
    ensures
        r matches Some(x) ==> offset_seconds(s@) == Some(x as int),
        r is None ==> offset_seconds(s@) is None,
{
    if s.len() != 5 || (s[0] != '+' && s[0] != '-') {
        return None;
    }
    let h1 = digit_at(s, 1);
    let h2 = digit_at(s, 2);
    let m1 = digit_at(s, 3);
    let m2 = digit_at(s, 4);
    match (h1, h2, m1, m2) {
        (Some(a), Some(b), Some(c), Some(d)) => {
            let h = a * 10 + b;
            let m = c * 10 + d;
            if h < 24 && m < 60 {
                let secs = (h * 3600 + m * 60) as i32;
                if s[0] == '-' {
                    Some(-secs)
                } else {
                    Some(secs)
                }
            } else {
                None
            }
        },
        _ => None,
    }
}

/// The single instant of a local second of a date in a zone.
pub fn resolve(tz: &str, date: Date, second: u32) -> (r: Result<ZonedTime, TimeError>)
    requires
        date.wf(),
        second < 86400,
    ensures
        r == resolve_spec(tz@, date, second as int),
        r matches Ok(t) ==> t.wf() && t.local() == date.epoch_day() * 86400 + second,
{
    match resolve_local(tz, date, second) {
        None => Err(TimeError::UnknownTimezone),
        Some(v) => {
            if v.len() == 1 {
                let t = ZonedTime { utc: v[0].0, offset: v[0].1 };
                assert(-86400 < v@[0].1 < 86400);
                Ok(t)
            } else {
                Err(TimeError::AmbiguousOrNonexistentTime)
            }
        },
    }
}

/// Places a bare `HH:MM` on a date in a zone.
pub fn combine(date: Date, tz: &str, clock: &str) -> (r: Result<ZonedTime, TimeError>)
    requires
        date.wf(),
    ensures
        r == combine_spec(date, tz@, clock@),
        r matches Ok(t) ==> t.wf(),
{
    let s = to_chars(clock);
    let mut i: usize = 0;
    while i < s.len()
        invariant
            i <= s.len(),
            s@ == clock@,
            forall|j: int| 0 <= j < i ==> s@[j] != '+' && s@[j] != '-',
        decreases s.len() - i,
    {
        if s[i] == '+' || s[i] == '-' {
            return Err(TimeError::InvalidTimeFormat);
        }
        i = i + 1;
    }
    match parse_clock(&s) {
        None => Err(TimeError::InvalidTimeFormat),
        Some(sec) => resolve(tz, date, sec),
    }
}

/// Whether the UTC offset at local midnight differs from the one at 23:59.
pub open spec fn has_dst_event(date: Date, tz: Seq<char>) -> bool {
    match (resolve_spec(tz, date, 0), resolve_spec(tz, date, 86340)) {
        (Ok(a), Ok(b)) => a.offset != b.offset,
        _ => false,
    }
}

pub fn date_has_dst_event(date: Date, tz: &str) -> (r: bool)
    requires
        date.wf(),
    ensures
        r == has_dst_event(date, tz@),
{
    match (resolve(tz, date, 0), resolve(tz, date, 86340)) {
        (Ok(a), Ok(b)) => a.offset != b.offset,
        _ => false,
    }
}

/// `HH:MM` of the local clock, followed by `+HHMM` when asked for.
pub open spec fn clock_text(t: ZonedTime, with_offset: bool) -> Seq<char> {
    let s = t.second_of_day();
    let base = two_digits(s / 3600) + seq![':'] + two_digits((s % 3600) / 60);
    if with_offset {
        base + offset_text(t.offset as int)
    } else {
        base
    }
}

pub open spec fn offset_text(o: int) -> Seq<char> {
    let a = if o < 0 {
        -o
    } else {
        o
    };
    seq![if o < 0 { '-' } else { '+' }] + two_digits(a / 3600) + two_digits((a % 3600) / 60)
}

pub fn push_clock(out: &mut Vec<char>, t: &ZonedTime, with_offset: bool)
    requires
        t.wf(),
    ensures
        final(out)@ == old(out)@ + clock_text(*t, with_offset),
{
    let s = t.second_of_day_exec();
    push_two_digits(out, s / 3600);
    out.push(':');
    push_two_digits(out, (s % 3600) / 60);
    if with_offset {
        let a: u32 = if t.offset < 0 {
            (-t.offset) as u32
        } else {
            t.offset as u32
        };
        out.push(
            if t.offset < 0 {
                '-'
            } else {
                '+'
            },
        );
        push_two_digits(out, a / 3600);
        push_two_digits(out, (a % 3600) / 60);
    }
}

/// What a `start` or `end` value read from a log denotes on its date: a bare
/// `HH:MM` is placed in the zone, an `HH:MM+HHMM` is taken at its own offset.
pub open spec fn read_time_spec(date: Date, tz: Seq<char>, s: Seq<char>) -> Result<
    ZonedTime,
    TimeError,
> {
    if s.len() == 10 && clock_seconds(s.subrange(0, 5)) is Some && offset_seconds(
        s.subrange(5, 10),
    ) is Some {
        let sec = clock_seconds(s.subrange(0, 5))->Some_0;
        let off = offset_seconds(s.subrange(5, 10))->Some_0;
        Ok(
            ZonedTime {
                utc: (date.epoch_day() * 86400 + sec - off) as i64,
                offset: off as i32,
            },
        )
    } else {
        combine_spec(date, tz, s)
    }
}

pub fn read_time(date: Date, tz: &str, s: &str) -> (r: Result<ZonedTime, TimeError>)
    requires
        date.wf(),
    ensures
        r == read_time_spec(date, tz@, s@),
        r matches Ok(t) ==> t.wf(),
{
    let v = to_chars(s);
    if v.len() == 10 {
        let head = slice_chars(&v, 0, 5);
        let tail = slice_chars(&v, 5, 10);
        if let (Some(sec), Some(off)) = (parse_clock(&head), parse_offset(&tail)) {
            let day = date.epoch_day_exec();
            let t = ZonedTime { utc: day * DAY_SECONDS + sec as i64 - off as i64, offset: off };
            return Ok(t);
        }
    }
    combine(date, tz, s)
}

/// The characters of `v` from `a` up to `b`.
pub fn slice_chars(v: &Vec<char>, a: usize, b: usize) -> (r: Vec<char>)
    requires
        a <= b <= v.len(),
    ensures
        r@ == v@.subrange(a as int, b as int),
{
    let mut r: Vec<char> = Vec::new();
    let mut i: usize = a;
    while i < b
        invariant
            a <= i <= b <= v.len(),
            r@ == v@.subrange(a as int, i as int),
        decreases b - i,
    {
        r.push(v[i]);
        i = i + 1;
        assert(r@ == v@.subrange(a as int, i as int));
    }
    r
}

} // verus!
