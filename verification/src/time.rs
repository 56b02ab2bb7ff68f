//! Calendar timestamps at second resolution: validity, the fixed
//! `YYYY-MM-DDTHH:MM:SSZ` wire form and its parser, conversion to seconds
//! since the epoch, and the current UTC instant.

use chrono::Datelike;
use chrono::Timelike;
use vstd::prelude::*;
use vstd::string::StrSliceExecFns;
use vstd::string::StringExecFns;

verus! {

/// A UTC instant at second resolution, held as proleptic Gregorian
/// calendar fields.
#[derive(Clone, Copy, PartialEq, Eq, Structural, Debug)]
pub struct Timestamp {
    pub year: u32,
    pub month: u32,
    pub day: u32,
    pub hour: u32,
    pub minute: u32,
    pub second: u32,
}

pub open spec fn is_leap_year(y: int) -> bool {
    (y % 4 == 0 && y % 100 != 0) || y % 400 == 0
}

pub open spec fn days_in_month(y: int, m: int) -> int {
    if m == 2 {
        if is_leap_year(y) {
            29
        } else {
            28
        }
    } else if m == 4 || m == 6 || m == 9 || m == 11 {
        30
    } else {
        31
    }
}

impl Timestamp {
    /// A real calendar date within the four-digit-year range, with a
    /// real time of day.
    pub open spec fn valid(self) -> bool {
        &&& 1 <= self.year <= 9999
        &&& 1 <= self.month <= 12
        &&& 1 <= self.day <= days_in_month(
            self.year as int,
            self.month as int,
        )
        &&& self.hour <= 23
        &&& self.minute <= 59
        &&& self.second <= 59
    }
}

/// Days from the first of January of year 1 to the first of January of
/// year `y`, proleptic Gregorian.
pub open spec fn days_before_year(y: int) -> int {
    (y - 1) * 365 + (y - 1) / 4 - (y - 1) / 100 + (y - 1) / 400
}

/// Days from the first of January to the first of month `m` in a
/// common year.
pub open spec fn days_before_month(m: int) -> int {
    if m == 1 {
        0
    } else if m == 2 {
        31
    } else if m == 3 {
        59
    } else if m == 4 {
        90
    } else if m == 5 {
        120
    } else if m == 6 {
        151
    } else if m == 7 {
        181
    } else if m == 8 {
        212
    } else if m == 9 {
        243
    } else if m == 10 {
        273
    } else if m == 11 {
        304
    } else {
        334
    }
}

/// Days from the epoch (1970-01-01) to the date of `ts`; 719162 days
/// separate year 1 from the epoch.
pub open spec fn epoch_days_of(ts: Timestamp) -> int {
    days_before_year(ts.year as int) + days_before_month(ts.month as int) + (
    if ts.month > 2 && is_leap_year(ts.year as int) {
        1int
    } else {
        0int
    }) + (ts.day - 1) - 719162
}

/// Seconds from the epoch to the instant `ts`.
pub open spec fn epoch_seconds_of(ts: Timestamp) -> int {
    epoch_days_of(ts) * 86400 + ts.hour * 3600 + ts.minute * 60 + ts.second
}

/// Instants ordered by their distance from the epoch.
pub open spec fn ts_le(a: Timestamp, b: Timestamp) -> bool {
    epoch_seconds_of(a) <= epoch_seconds_of(b)
}

impl Timestamp {
    /// Seconds since the epoch, negative for instants before it.
    pub fn epoch_seconds(&self) -> (r: i64)
        requires
            self.valid(),
        ensures
            r == epoch_seconds_of(*self),
    {
        let y = self.year as i64;
        let leaps = (y - 1) / 4 - (y - 1) / 100 + (y - 1) / 400;
        let before_year = (y - 1) * 365 + leaps;
        let m = self.month;
        let before_month: i64 = if m == 1 {
            0
        } else if m == 2 {
            31
        } else if m == 3 {
            59
        } else if m == 4 {
            90
        } else if m == 5 {
            120
        } else if m == 6 {
            151
        } else if m == 7 {
            181
        } else if m == 8 {
            212
        } else if m == 9 {
            243
        } else if m == 10 {
            273
        } else if m == 11 {
            304
        } else {
            334
        };
        let leap_adj: i64 = if m > 2 && is_leap_exec(self.year) {
            1
        } else {
            0
        };
        let days = before_year + before_month + leap_adj + (self.day as i64
            - 1) - 719162;
        days * 86400 + (self.hour as i64) * 3600 + (self.minute as i64) * 60
            + self.second as i64
    }

    /// At-or-before comparison of instants.
    pub fn le(&self, other: &Timestamp) -> (r: bool)
        requires
            self.valid(),
            other.valid(),
        ensures
            r == ts_le(*self, *other),
    {
        self.epoch_seconds() <= other.epoch_seconds()
    }
}

/// Leap year test.
pub fn is_leap_exec(y: u32) -> (r: bool)
    ensures
        r == is_leap_year(y as int),
{
    (y % 4 == 0 && y % 100 != 0) || y % 400 == 0
}

/// Days in a month of a given year.
pub fn days_in_month_exec(y: u32, m: u32) -> (r: u32)
    ensures
        r == days_in_month(y as int, m as int),
{
    if m == 2 {
        if is_leap_exec(y) {
            29
        } else {
            28
        }
    } else if m == 4 || m == 6 || m == 9 || m == 11 {
        30
    } else {
        31
    }
}

/// The character for one decimal digit.
pub open spec fn digit_char(d: int) -> char {
    if d == 0 {
        '0'
    } else if d == 1 {
        '1'
    } else if d == 2 {
        '2'
    } else if d == 3 {
        '3'
    } else if d == 4 {
        '4'
    } else if d == 5 {
        '5'
    } else if d == 6 {
        '6'
    } else if d == 7 {
        '7'
    } else if d == 8 {
        '8'
    } else {
        '9'
    }
}

/// The numeric value of a decimal digit character, or -1 for any other
/// character.
pub open spec fn digit_val(c: char) -> int {
    if '0' <= c && c <= '9' {
        c as int - '0' as int
    } else {
        -1
    }
}

pub proof fn lemma_digit_round_trip(d: int)
    requires
        0 <= d <= 9,
    ensures
        digit_val(digit_char(d)) == d,
{
}

/// The canonical wire form of an instant: `YYYY-MM-DDTHH:MM:SSZ`.
pub open spec fn format_ts(ts: Timestamp) -> Seq<char> {
    let y = ts.year as int;
    let mo = ts.month as int;
    let d = ts.day as int;
    let h = ts.hour as int;
    let mi = ts.minute as int;
    let s = ts.second as int;
    seq![
        digit_char(y / 1000),
        digit_char((y / 100) % 10),
        digit_char((y / 10) % 10),
        digit_char(y % 10),
        '-',
        digit_char(mo / 10),
        digit_char(mo % 10),
        '-',
        digit_char(d / 10),
        digit_char(d % 10),
        'T',
        digit_char(h / 10),
        digit_char(h % 10),
        ':',
        digit_char(mi / 10),
        digit_char(mi % 10),
        ':',
        digit_char(s / 10),
        digit_char(s % 10),
        'Z',
    ]
}

/// What the timestamp parser accepts: exactly the canonical wire form
/// of some valid instant, yielding that instant.
pub open spec fn parse_ts_seq(s: Seq<char>) -> Option<Timestamp> {
    if s.len() != 20 {
        Option::None
    } else if s[4] != '-' || s[7] != '-' || s[10] != 'T' || s[13] != ':'
        || s[16] != ':' || s[19] != 'Z' {
        Option::None
    } else if digit_val(s[0]) < 0 || digit_val(s[1]) < 0 || digit_val(s[2]) < 0
        || digit_val(s[3]) < 0 || digit_val(s[5]) < 0 || digit_val(s[6]) < 0
        || digit_val(s[8]) < 0 || digit_val(s[9]) < 0 || digit_val(s[11]) < 0
        || digit_val(s[12]) < 0 || digit_val(s[14]) < 0 || digit_val(s[15]) < 0
        || digit_val(s[17]) < 0 || digit_val(s[18]) < 0 {
        Option::None
    } else {
        let ts = Timestamp {
            year: (digit_val(s[0]) * 1000 + digit_val(s[1]) * 100 + digit_val(
                s[2],
            ) * 10 + digit_val(s[3])) as u32,
            month: (digit_val(s[5]) * 10 + digit_val(s[6])) as u32,
            day: (digit_val(s[8]) * 10 + digit_val(s[9])) as u32,
            hour: (digit_val(s[11]) * 10 + digit_val(s[12])) as u32,
            minute: (digit_val(s[14]) * 10 + digit_val(s[15])) as u32,
            second: (digit_val(s[17]) * 10 + digit_val(s[18])) as u32,
        };
        if ts.valid() {
            Option::Some(ts)
        } else {
            Option::None
        }
    }
}

/// A digit's textual form.
pub fn digit_text(d: u32) -> (r: &'static str)
    requires
        d <= 9,
    ensures
        r@ == seq![digit_char(d as int)],
{
    proof {
        reveal_strlit("0");
        reveal_strlit("1");
        reveal_strlit("2");
        reveal_strlit("3");
        reveal_strlit("4");
        reveal_strlit("5");
        reveal_strlit("6");
        reveal_strlit("7");
        reveal_strlit("8");
        reveal_strlit("9");
    }
    if d == 0 {
        "0"
    } else if d == 1 {
        "1"
    } else if d == 2 {
        "2"
    } else if d == 3 {
        "3"
    } else if d == 4 {
        "4"
    } else if d == 5 {
        "5"
    } else if d == 6 {
        "6"
    } else if d == 7 {
        "7"
    } else if d == 8 {
        "8"
    } else {
        "9"
    }
}

impl Timestamp {
    /// Render the instant in its canonical wire form.
    pub fn render(&self) -> (r: String)
        requires
            self.valid(),
        ensures
            r@ == format_ts(*self),
    {
        proof {
            reveal_strlit("-");
            reveal_strlit("T");
            reveal_strlit(":");
            reveal_strlit("Z");
        }
        let mut out = String::new();
        out.append(digit_text(self.year / 1000));
        out.append(digit_text((self.year / 100) % 10));
        out.append(digit_text((self.year / 10) % 10));
        out.append(digit_text(self.year % 10));
        out.append("-");
        out.append(digit_text(self.month / 10));
        out.append(digit_text(self.month % 10));
        out.append("-");
        out.append(digit_text(self.day / 10));
        out.append(digit_text(self.day % 10));
        out.append("T");
        out.append(digit_text(self.hour / 10));
        out.append(digit_text(self.hour % 10));
        out.append(":");
        out.append(digit_text(self.minute / 10));
        out.append(digit_text(self.minute % 10));
        out.append(":");
        out.append(digit_text(self.second / 10));
        out.append(digit_text(self.second % 10));
        out.append("Z");
        proof {
            assert(out@ =~= format_ts(*self));
        }
        out
    }
}

/// Parse the canonical wire form; any other input is rejected.
pub fn parse_ts(s: &str) -> (r: Option<Timestamp>)
    ensures
        r == parse_ts_seq(s@),
{
    let n = s.unicode_len();
    if n != 20 {
        return Option::None;
    }
    if s.get_char(4) != '-' || s.get_char(7) != '-' || s.get_char(10) != 'T'
        || s.get_char(13) != ':' || s.get_char(16) != ':' || s.get_char(19)
        != 'Z' {
        return Option::None;
    }
    let d0 = digit_of(s.get_char(0));
    let d1 = digit_of(s.get_char(1));
    let d2 = digit_of(s.get_char(2));
    let d3 = digit_of(s.get_char(3));
    let d5 = digit_of(s.get_char(5));
    let d6 = digit_of(s.get_char(6));
    let d8 = digit_of(s.get_char(8));
    let d9 = digit_of(s.get_char(9));
    let d11 = digit_of(s.get_char(11));
    let d12 = digit_of(s.get_char(12));
    let d14 = digit_of(s.get_char(14));
    let d15 = digit_of(s.get_char(15));
    let d17 = digit_of(s.get_char(17));
    let d18 = digit_of(s.get_char(18));
    if d0 < 0 || d1 < 0 || d2 < 0 || d3 < 0 || d5 < 0 || d6 < 0 || d8 < 0
        || d9 < 0 || d11 < 0 || d12 < 0 || d14 < 0 || d15 < 0 || d17 < 0
        || d18 < 0 {
        return Option::None;
    }
    let ts = Timestamp {
        year: (d0 * 1000 + d1 * 100 + d2 * 10 + d3) as u32,
        month: (d5 * 10 + d6) as u32,
        day: (d8 * 10 + d9) as u32,
        hour: (d11 * 10 + d12) as u32,
        minute: (d14 * 10 + d15) as u32,
        second: (d17 * 10 + d18) as u32,
    };
    let ok = 1 <= ts.year && ts.year <= 9999 && 1 <= ts.month && ts.month
        <= 12 && 1 <= ts.day && ts.day <= days_in_month_exec(ts.year, ts.month)
        && ts.hour <= 23 && ts.minute <= 59 && ts.second <= 59;
    if ok {
        Option::Some(ts)
    } else {
        Option::None
    }
}

/// The value of a digit character, -1 for any other character.
fn digit_of(c: char) -> (r: i32)
    ensures
        r == digit_val(c),
{
    if '0' <= c && c <= '9' {
        (c as u32 as i32) - ('0' as u32 as i32)
    } else {
        -1
    }
}

/// Rendering an instant and parsing it back yields the same instant.
#[verifier::rlimit(80)]
pub proof fn lemma_ts_round_trip(ts: Timestamp)
    requires
        ts.valid(),
    ensures
        parse_ts_seq(format_ts(ts)) == Option::Some(ts),
{
    let s = format_ts(ts);
    lemma_digits4(ts.year as int);
    lemma_digits2(ts.month as int);
    lemma_digits2(ts.day as int);
    lemma_digits2(ts.hour as int);
    lemma_digits2(ts.minute as int);
    lemma_digits2(ts.second as int);
}

/// A number up to 9999 is rebuilt from its four decimal digits.
pub proof fn lemma_digits4(n: int)
    requires
        0 <= n <= 9999,
    ensures
        digit_val(digit_char(n / 1000)) * 1000 + digit_val(
            digit_char((n / 100) % 10),
        ) * 100 + digit_val(digit_char((n / 10) % 10)) * 10 + digit_val(
            digit_char(n % 10),
        ) == n,
{
    lemma_digit_round_trip(n / 1000);
    lemma_digit_round_trip((n / 100) % 10);
    lemma_digit_round_trip((n / 10) % 10);
    lemma_digit_round_trip(n % 10);
    assert((n / 1000) * 1000 + ((n / 100) % 10) * 100 + ((n / 10) % 10) * 10
        + n % 10 == n) by (nonlinear_arith)
        requires
            0 <= n <= 9999,
    ;
}

/// A number up to 99 is rebuilt from its two decimal digits.
pub proof fn lemma_digits2(n: int)
    requires
        0 <= n <= 99,
    ensures
        digit_val(digit_char(n / 10)) * 10 + digit_val(digit_char(n % 10))
            == n,
{
    lemma_digit_round_trip(n / 10);
    lemma_digit_round_trip(n % 10);
}


impl Timestamp {
    /// Whether the fields name a real instant.
    pub fn is_valid(&self) -> (r: bool)
        ensures
            r == self.valid(),
    {
        1 <= self.year && self.year <= 9999 && 1 <= self.month && self.month
            <= 12 && 1 <= self.day && self.day <= days_in_month_exec(
            self.year,
            self.month,
        ) && self.hour <= 23 && self.minute <= 59 && self.second <= 59
    }
}

/// Relies on chrono's `Utc::now` and its calendar and clock accessors:
/// the current UTC instant is a real proleptic Gregorian date, so the
/// month is 1 to 12, the day 1 to 31, the hour at most 23, and the
/// minute and second at most 59.
#[verifier::external_body]
fn now_parts() -> (r: (i64, u32, u32, u32, u32, u32))
    ensures
        1 <= r.1 <= 12,
        1 <= r.2 <= 31,
        r.3 <= 23,
        r.4 <= 59,
        r.5 <= 59,
{
    let n = chrono::Utc::now();
    (
        n.year() as i64,
        n.month(),
        n.day(),
        n.hour(),
        n.minute(),
        n.second(),
    )
}

/// The current UTC instant.  A clock reading outside the four-digit-year
/// range, or one naming a day its month does not have, falls back to the
/// epoch.
pub fn now() -> (t: Timestamp)
    ensures
        t.valid(),
{
    let (y, mo, d, h, mi, s) = now_parts();
    if 1 <= y && y <= 9999 {
        let year = y as u32;
        if d <= days_in_month_exec(year, mo) {
            return Timestamp { year, month: mo, day: d, hour: h, minute: mi, second: s };
        }
    }
    Timestamp { year: 1970, month: 1, day: 1, hour: 0, minute: 0, second: 0 }
}

} // verus!
