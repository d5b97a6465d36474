//! Calendar dates, absolute instants, and the query day bounds.
//!
//! A stored order's timestamp is an absolute instant: non-leap seconds since
//! the Unix epoch. A query names a local calendar day in the fixed display
//! timezone (UTC+8); its absolute bounds run from 00:00:00 to 23:59:59 of
//! that day. Date strings are parsed here; RFC 3339 timestamp strings and the
//! display rendering of instants go through the chrono collaborator.

use vstd::prelude::*;

verus! {

/// Seconds in one calendar day.
pub const SECS_PER_DAY: i64 = 86400;

/// Offset of the fixed display timezone (UTC+8) east of UTC, in seconds.
/// Day bounds for queries are computed in this timezone.
pub const DISPLAY_OFFSET_SECS: i64 = 28800;

/// A calendar date in the proleptic Gregorian calendar, year 1 to 9999.
#[derive(Debug, Clone, Copy, PartialEq, Eq, Structural)]
pub struct DateYmd {
    pub year: i32,
    pub month: u8,
    pub day: u8,
}

pub open spec fn spec_is_leap_year(y: int) -> bool {
    (y % 4 == 0 && y % 100 != 0) || y % 400 == 0
}

pub open spec fn spec_days_in_month(y: int, m: int) -> int {
    if m == 2 {
        if spec_is_leap_year(y) {
            29
        } else {
            28
        }
    } else if m == 4 || m == 6 || m == 9 || m == 11 {
        30
    } else {
        31
    }
}

impl DateYmd {
    /// A date is valid when its year is four-digit and its day exists in its
    /// month, leap years included.
    pub open spec fn valid(self) -> bool {
        &&& 1 <= self.year <= 9999
        &&& 1 <= self.month <= 12
        &&& 1 <= self.day <= spec_days_in_month(self.year as int, self.month as int)
    }
}

pub fn is_leap_year(y: i32) -> (r: bool)
    ensures
        r == spec_is_leap_year(y as int),
{
    (y % 4 == 0 && y % 100 != 0) || y % 400 == 0
}

pub fn days_in_month(y: i32, m: u8) -> (r: u8)
    requires
        1 <= m <= 12,
    ensures
        r as int == spec_days_in_month(y as int, m as int),
{
    if m == 2 {
        if is_leap_year(y) {
            29
        } else {
            28
        }
    } else if m == 4 || m == 6 || m == 9 || m == 11 {
        30
    } else {
        31
    }
}

/// Days since 1970-01-01 of a valid date, by era arithmetic over the
/// 400-year Gregorian cycle.
pub open spec fn spec_days_from_civil(d: DateYmd) -> int
    recommends
        d.valid(),
{
    let y: int = if d.month <= 2 {
        d.year - 1
    } else {
        d.year as int
    };
    let era: int = y / 400;
    let yoe: int = y - era * 400;
    let mp: int = if d.month > 2 {
        d.month - 3
    } else {
        d.month + 9
    };
    let doy: int = (153 * mp + 2) / 5 + d.day - 1;
    let doe: int = yoe * 365 + yoe / 4 - yoe / 100 + doy;
    era * 146097 + doe - 719468
}

pub fn days_from_civil(d: DateYmd) -> (r: i64)
    requires
        d.valid(),
    ensures
        r as int == spec_days_from_civil(d),
{
    let y: i64 = if d.month <= 2 {
        d.year as i64 - 1
    } else {
        d.year as i64
    };
    let era: i64 = y / 400;
    let yoe: i64 = y - era * 400;
    let mp: i64 = if d.month > 2 {
        d.month as i64 - 3
    } else {
        d.month as i64 + 9
    };
    let doy: i64 = (153 * mp + 2) / 5 + d.day as i64 - 1;
    let doe: i64 = yoe * 365 + yoe / 4 - yoe / 100 + doy;
    era * 146097 + doe - 719468
}

/// First instant (00:00:00 local) of a day in the display timezone.
pub open spec fn spec_day_start(d: DateYmd) -> int {
    spec_days_from_civil(d) * (SECS_PER_DAY as int) - DISPLAY_OFFSET_SECS
}

/// Last instant (23:59:59 local) of a day in the display timezone.
pub open spec fn spec_day_end(d: DateYmd) -> int {
    spec_day_start(d) + (SECS_PER_DAY as int) - 1
}

/// An instant falls on a day exactly when it lies between the day's first
/// and last second, both included.
pub open spec fn spec_in_day(ts: int, d: DateYmd) -> bool {
    spec_day_start(d) <= ts <= spec_day_end(d)
}

/// Absolute bounds of a local calendar day: its first and its last second.
pub fn day_bounds(d: DateYmd) -> (r: (i64, i64))
    requires
        d.valid(),
    ensures
        r.0 as int == spec_day_start(d),
        r.1 as int == spec_day_end(d),
        r.1 == r.0 + SECS_PER_DAY - 1,
{
    let days = days_from_civil(d);
    proof {
        lemma_days_from_civil_bounds(d);
    }
    let start = days * SECS_PER_DAY - DISPLAY_OFFSET_SECS;
    (start, start + SECS_PER_DAY - 1)
}

/// The day count of a valid date stays within the four-digit-year range.
pub proof fn lemma_days_from_civil_bounds(d: DateYmd)
    requires
        d.valid(),
    ensures
        -719468 <= spec_days_from_civil(d) < 2932897,
{
}

/// Both boundary instants of a day fall on it; the instant one second past
/// the last one, the first second of the next day, does not.
pub proof fn lemma_day_bounds(d: DateYmd)
    requires
        d.valid(),
    ensures
        spec_in_day(spec_day_start(d), d),
        spec_in_day(spec_day_end(d), d),
        !spec_in_day(spec_day_end(d) + 1, d),
        spec_day_end(d) + 1 == spec_day_start(d) + (SECS_PER_DAY as int),
{
}

/// The calendar day after a valid date.
pub open spec fn spec_next_day(d: DateYmd) -> DateYmd
    recommends
        d.valid(),
{
    if d.day < spec_days_in_month(d.year as int, d.month as int) {
        DateYmd { year: d.year, month: d.month, day: (d.day + 1) as u8 }
    } else if d.month < 12 {
        DateYmd { year: d.year, month: (d.month + 1) as u8, day: 1 }
    } else {
        DateYmd { year: (d.year + 1) as i32, month: 1, day: 1 }
    }
}

/// The successor day is valid and its day count is one higher: the first
/// second of the next calendar day is exactly one second past this day's
/// last one.
pub proof fn lemma_next_day(d: DateYmd)
    requires
        d.valid(),
        d.year < 9999 || !(d.month == 12 && d.day == 31),
    ensures
        spec_next_day(d).valid(),
        spec_days_from_civil(spec_next_day(d)) == spec_days_from_civil(d) + 1,
        spec_day_start(spec_next_day(d)) == spec_day_end(d) + 1,
        !spec_in_day(spec_day_start(spec_next_day(d)), d),
{
    let n = spec_next_day(d);
    if d.day < spec_days_in_month(d.year as int, d.month as int) {
    } else if d.month < 12 {
        if d.month == 2 {
            lemma_feb_to_march(d);
        }
    } else {
    }
}

/// Crossing the end of February advances the day count by one, leap years
/// included: the era arithmetic shifts its year exactly there.
proof fn lemma_feb_to_march(d: DateYmd)
    requires
        d.valid(),
        d.month == 2,
        d.day == spec_days_in_month(d.year as int, 2),
    ensures
        spec_days_from_civil(DateYmd { year: d.year, month: 3, day: 1 }) == spec_days_from_civil(
            d,
        ) + 1,
{
    let y0: int = d.year - 1;
    let y1: int = d.year as int;
    let era0: int = y0 / 400;
    let yoe0: int = y0 - era0 * 400;
    let era1: int = y1 / 400;
    let yoe1: int = y1 - era1 * 400;
    assert(y1 == y0 + 1);
    if y0 % 400 == 399 {
        assert(era1 == era0 + 1 && yoe1 == 0 && yoe0 == 399) by (nonlinear_arith)
            requires
                y0 >= 0,
                y1 == y0 + 1,
                era0 == y0 / 400,
                era1 == y1 / 400,
                yoe0 == y0 - era0 * 400,
                yoe1 == y1 - era1 * 400,
                y0 % 400 == 399,
        ;
    } else {
        assert(era1 == era0 && yoe1 == yoe0 + 1) by (nonlinear_arith)
            requires
                y0 >= 0,
                y1 == y0 + 1,
                era0 == y0 / 400,
                era1 == y1 / 400,
                yoe0 == y0 - era0 * 400,
                yoe1 == y1 - era1 * 400,
                y0 % 400 != 399,
        ;
    }
}

pub open spec fn spec_is_digit_char(c: char) -> bool {
    '0' <= c <= '9'
}

pub open spec fn spec_digit_char_val(c: char) -> int {
    c as int - '0' as int
}

/// Value of a run of decimal digit characters, most significant first.
pub open spec fn spec_digits_val(s: Seq<char>) -> int
    decreases s.len(),
{
    if s.len() == 0 {
        0
    } else {
        spec_digits_val(s.drop_last()) * 10 + spec_digit_char_val(s.last())
    }
}

pub open spec fn spec_all_digits(s: Seq<char>) -> bool {
    forall|i: int| 0 <= i < s.len() ==> spec_is_digit_char(#[trigger] s[i])
}

/// The date denoted by a `YYYY-MM-DD` string, or nothing if the string is
/// not of that shape or names no valid calendar day.
pub open spec fn spec_parse_date(s: Seq<char>) -> Option<DateYmd> {
    if s.len() == 10 && s[4] == '-' && s[7] == '-' && spec_all_digits(s.subrange(0, 4))
        && spec_all_digits(s.subrange(5, 7)) && spec_all_digits(s.subrange(8, 10)) {
        let d = DateYmd {
            year: spec_digits_val(s.subrange(0, 4)) as i32,
            month: spec_digits_val(s.subrange(5, 7)) as u8,
            day: spec_digits_val(s.subrange(8, 10)) as u8,
        };
        if d.valid() {
            Some(d)
        } else {
            None
        }
    } else {
        None
    }
}

fn digit_val_at(s: &str, i: usize) -> (r: Option<u32>)
    requires
        i < s@.len(),
    ensures
        match r {
            Some(v) => spec_is_digit_char(s@[i as int]) && v == spec_digit_char_val(s@[i as int])
                && v < 10,
            None => !spec_is_digit_char(s@[i as int]),
        },
{
    let c = s.get_char(i);
    if '0' <= c && c <= '9' {
        Some(c as u32 - '0' as u32)
    } else {
        None
    }
}

fn parse_digits(s: &str, from: usize, to: usize) -> (r: Option<u32>)
    requires
        from <= to <= s@.len(),
        to - from <= 4,
    ensures
        match r {
            Some(v) => spec_all_digits(s@.subrange(from as int, to as int)) && v
                == spec_digits_val(s@.subrange(from as int, to as int)),
            None => !spec_all_digits(s@.subrange(from as int, to as int)),
        },
{
    let mut acc: u32 = 0;
    let mut i: usize = from;
    while i < to
        invariant
            from <= i <= to <= s@.len(),
            to - from <= 4,
            spec_all_digits(s@.subrange(from as int, i as int)),
            acc == spec_digits_val(s@.subrange(from as int, i as int)),
        decreases to - i,
    {
        match digit_val_at(s, i) {
            Some(v) => {
                proof {
                    lemma_digits_val_bound(s@.subrange(from as int, i as int));
                    assert(s@.subrange(from as int, i as int + 1) =~= s@.subrange(
                        from as int,
                        i as int,
                    ).push(s@[i as int]));
                    assert(s@.subrange(from as int, i as int + 1).drop_last() =~= s@.subrange(
                        from as int,
                        i as int,
                    ));
                }
                acc = acc * 10 + v;
            },
            None => {
                proof {
                    assert(s@.subrange(from as int, to as int)[i - from] == s@[i as int]);
                }
                return None;
            },
        }
        i += 1;
    }
    proof {
        assert(s@.subrange(from as int, to as int) =~= s@.subrange(from as int, i as int));
    }
    Some(acc)
}

/// Parses a `YYYY-MM-DD` date string into a valid calendar date.
pub fn parse_date(s: &str) -> (r: Option<DateYmd>)
    ensures
        r == spec_parse_date(s@),
{
    let n = s.unicode_len();
    if n != 10 {
        return None;
    }
    if s.get_char(4) != '-' || s.get_char(7) != '-' {
        return None;
    }
    let y = match parse_digits(s, 0, 4) {
        Some(v) => v,
        None => {
            return None;
        },
    };
    let m = match parse_digits(s, 5, 7) {
        Some(v) => v,
        None => {
            return None;
        },
    };
    let d = match parse_digits(s, 8, 10) {
        Some(v) => v,
        None => {
            return None;
        },
    };
    proof {
        lemma_digits_val_bound(s@.subrange(0, 4));
        lemma_digits_val_bound(s@.subrange(5, 7));
        lemma_digits_val_bound(s@.subrange(8, 10));
    }
    let date = DateYmd { year: y as i32, month: m as u8, day: d as u8 };
    if 1 <= date.year && date.year <= 9999 && 1 <= date.month && date.month <= 12 && 1 <= date.day
        && date.day <= days_in_month(date.year, date.month) {
        Some(date)
    } else {
        None
    }
}

/// A run of at most four digits stays below ten to the power of its length.
pub proof fn lemma_digits_val_bound(s: Seq<char>)
    requires
        spec_all_digits(s),
        s.len() <= 4,
    ensures
        0 <= spec_digits_val(s),
        s.len() <= 1 ==> spec_digits_val(s) < 10,
        s.len() <= 2 ==> spec_digits_val(s) < 100,
        s.len() <= 3 ==> spec_digits_val(s) < 1000,
        spec_digits_val(s) < 10000,
    decreases s.len(),
{
    if s.len() > 0 {
        lemma_digits_val_bound(s.drop_last());
        assert(spec_is_digit_char(s.last()));
    }
}

/// The instant an RFC 3339 timestamp string denotes, as non-leap seconds
/// since the Unix epoch, or nothing if the string is not a well-formed
/// RFC 3339 timestamp. The result depends on the string alone.
pub uninterp spec fn rfc3339_of(s: Seq<char>) -> Option<i64>;

/// Relies on chrono's `DateTime::parse_from_rfc3339` and `timestamp`: parses
/// an RFC 3339 timestamp string and converts it to non-leap seconds since the
/// Unix epoch. The result is a function of the string alone.
#[verifier::external_body]
pub(crate) fn parse_rfc3339(s: &str) -> (r: Option<i64>)
    ensures
        r == rfc3339_of(s@),
{
    match chrono::DateTime::parse_from_rfc3339(s) {
        Ok(dt) => Some(dt.timestamp()),
        Err(_) => None,
    }
}

/// The RFC 3339 rendering of an instant in the fixed display timezone
/// (Asia/Taipei), or nothing if the instant lies outside the representable
/// range. The result depends on the instant alone.
pub uninterp spec fn display_of(ts: i64) -> Option<Seq<char>>;

/// Relies on chrono's `DateTime::from_timestamp`, `with_timezone` and
/// `to_rfc3339`, and on chrono-tz's `Asia::Taipei`: renders an epoch instant
/// as an RFC 3339 string in the display timezone. The result is a function of
/// the instant alone.
#[verifier::external_body]
pub(crate) fn render_display(ts: i64) -> (r: Option<String>)
    ensures
        match r {
            Some(s) => display_of(ts) == Some(s@),
            None => display_of(ts) is None,
        },
{
    match chrono::DateTime::from_timestamp(ts, 0) {
        Some(dt) => Some(dt.with_timezone(&chrono_tz::Asia::Taipei).to_rfc3339()),
        None => None,
    }
}

} // verus!
