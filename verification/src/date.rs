use vstd::prelude::*;

use crate::decimal::{digits_of, lemma_nat_digits_len, nat_digits};
use crate::keys::OrdKey;

verus! {

pub open spec fn is_leap_year(y: int) -> bool {
    (y % 4 == 0 && y % 100 != 0) || y % 400 == 0
}

pub open spec fn days_in_month(y: int, m: int) -> int {
    if m == 2 {
        if is_leap_year(y) {
            29
        } else {
            28
        }
    } else if m == 4 || m == 6 || m == 9 || m == 11 {
        30
    } else {
        31
    }
}

/// A day of the proleptic Gregorian calendar within the years that dates may take.
pub open spec fn valid_ymd(y: int, m: int, d: int) -> bool {
    &&& -262143 <= y <= 262142
    &&& 1 <= m <= 12
    &&& 1 <= d <= days_in_month(y, m)
}

pub open spec fn valid_hms(h: int, m: int, s: int) -> bool {
    0 <= h < 24 && 0 <= m < 60 && 0 <= s < 60
}

/// Whether `chrono::NaiveDate::from_ymd_opt` accepts the calendar date. Its documentation
/// promises a date exactly for the valid days of the proleptic Gregorian calendar within
/// its year range, which the source fixes at `-262143..=262142`.
#[verifier::external_body]
fn chrono_ymd_is_valid(year: i32, month: u32, day: u32) -> (r: bool)
    ensures
        r == valid_ymd(year as int, month as int, day as int),
{
    chrono::NaiveDate::from_ymd_opt(year, month, day).is_some()
}

/// Whether `chrono::NaiveTime::from_hms_opt` accepts the time of day: the source returns a
/// time exactly when the hour is below 24 and the minute and second below 60.
#[verifier::external_body]
fn chrono_hms_is_valid(hour: u32, minute: u32, second: u32) -> (r: bool)
    ensures
        r == valid_hms(hour as int, minute as int, second as int),
{
    chrono::NaiveTime::from_hms_opt(hour, minute, second).is_some()
}

/// A calendar day.
#[derive(Debug, Clone, Copy, PartialEq, Eq)]
pub struct NaiveDate {
    pub year: i32,
    pub month: u32,
    pub day: u32,
}

/// A calendar day and a time of day.
#[derive(Debug, Clone, Copy, PartialEq, Eq)]
pub struct NaiveDateTime {
    pub date: NaiveDate,
    pub hour: u32,
    pub minute: u32,
    pub second: u32,
}

impl NaiveDate {
    /// The day, when it exists in the calendar.
    pub fn from_ymd_opt(year: i32, month: u32, day: u32) -> (r: Option<NaiveDate>)
        ensures
            match r {
                Some(d) => valid_ymd(year as int, month as int, day as int) && d == (NaiveDate { year, month, day }),
                None => !valid_ymd(year as int, month as int, day as int),
            },
    {
        if chrono_ymd_is_valid(year, month, day) {
            Some(NaiveDate { year, month, day })
        } else {
            None
        }
    }

    /// This day at the given time, when the time exists.
    pub fn and_hms_opt(&self, hour: u32, minute: u32, second: u32) -> (r: Option<NaiveDateTime>)
        ensures
            match r {
                Some(t) => valid_hms(hour as int, minute as int, second as int) && t == (NaiveDateTime {
                    date: *self,
                    hour,
                    minute,
                    second,
                }),
                None => !valid_hms(hour as int, minute as int, second as int),
            },
    {
        if chrono_hms_is_valid(hour, minute, second) {
            Some(NaiveDateTime { date: *self, hour, minute, second })
        } else {
            None
        }
    }

    /// The start of this day.
    pub fn and_midnight(&self) -> (r: NaiveDateTime)
        ensures
            r == (NaiveDateTime { date: *self, hour: 0, minute: 0, second: 0 }),
    {
        NaiveDateTime { date: *self, hour: 0, minute: 0, second: 0 }
    }
}

impl NaiveDateTime {
    pub fn date(&self) -> (r: NaiveDate)
        ensures
            r == self.date,
    {
        self.date
    }
}

/// The day is a calendar day (see `valid_ymd`).
pub open spec fn valid_date(d: NaiveDate) -> bool {
    valid_ymd(d.year as int, d.month as int, d.day as int)
}

/// The day after `d` in the calendar.
pub open spec fn next_day(d: NaiveDate) -> NaiveDate {
    if (d.day as int) < days_in_month(d.year as int, d.month as int) {
        NaiveDate { year: d.year, month: d.month, day: (d.day + 1) as u32 }
    } else if d.month < 12 {
        NaiveDate { year: d.year, month: (d.month + 1) as u32, day: 1 }
    } else {
        NaiveDate { year: (d.year + 1) as i32, month: 1, day: 1 }
    }
}

/// `ds` are the days from `from` to `to`, both included, one after the other; none when
/// `from` comes after `to`.
pub open spec fn is_day_range(from: NaiveDate, to: NaiveDate, ds: Seq<NaiveDate>) -> bool {
    &&& date_rank(from) > date_rank(to) ==> ds.len() == 0
    &&& date_rank(from) <= date_rank(to) ==> ds.len() > 0 && ds[0] == from && ds.last() == to
    &&& forall|k: int| 0 <= k < ds.len() - 1 ==> #[trigger] ds[k + 1] == next_day(ds[k])
}

/// The number of days of a month.
fn month_days(y: i32, m: u32) -> (r: u32)
    ensures
        r == days_in_month(y as int, m as int),
{
    if m == 2 {
        if (y % 4 == 0 && y % 100 != 0) || y % 400 == 0 {
            29
        } else {
            28
        }
    } else if m == 4 || m == 6 || m == 9 || m == 11 {
        30
    } else {
        31
    }
}

/// A day that comes before another calendar day is followed by a calendar day that does
/// not come after it.
proof fn lemma_next_day_within(d: NaiveDate, t: NaiveDate)
    requires
        valid_date(d),
        valid_date(t),
        date_rank(d) < date_rank(t),
    ensures
        valid_date(next_day(d)),
        date_rank(d) < date_rank(next_day(d)) <= date_rank(t),
{
    let w: int = 0x1_0000_0000;
    assert(date_rank(d) == (d.year as int * w + d.month as int) * w + d.day as int);
    assert(date_rank(t) == (t.year as int * w + t.month as int) * w + t.day as int);
    if d.year < t.year {
    } else if d.year == t.year {
        if d.month < t.month {
        } else {
            assert(d.month == t.month);
        }
    } else {
        assert(false);
    }
}

impl NaiveDate {
    /// The day after this one.
    pub fn succ(&self) -> (r: NaiveDate)
        requires
            valid_date(*self),
        ensures
            r == next_day(*self),
    {
        if self.day < month_days(self.year, self.month) {
            NaiveDate { year: self.year, month: self.month, day: self.day + 1 }
        } else if self.month < 12 {
            NaiveDate { year: self.year, month: self.month + 1, day: 1 }
        } else {
            NaiveDate { year: self.year + 1, month: 1, day: 1 }
        }
    }
}

/// The days from `from` to `to`, both included; none when `from` comes after `to`.
pub fn day_range(from: NaiveDate, to: NaiveDate) -> (r: Vec<NaiveDate>)
    requires
        valid_date(from),
        valid_date(to),
    ensures
        is_day_range(from, to, r@),
{
    let mut r: Vec<NaiveDate> = Vec::new();
    if to.key_lt(&from) {
        return r;
    }
    let mut cur = from;
    r.push(cur);
    while cur.key_lt(&to)
        invariant
            valid_date(cur),
            valid_date(to),
            date_rank(cur) <= date_rank(to),
            r@.len() > 0,
            r@[0] == from,
            r@.last() == cur,
            forall|k: int| 0 <= k < r@.len() - 1 ==> #[trigger] r@[k + 1] == next_day(r@[k]),
        decreases date_rank(to) - date_rank(cur),
    {
        proof {
            lemma_next_day_within(cur, to);
        }
        let ghost before = r@;
        cur = cur.succ();
        r.push(cur);
        proof {
            assert forall|k: int| 0 <= k < r@.len() - 1 implies #[trigger] r@[k + 1] == next_day(r@[k]) by {
                if k < before.len() - 1 {
                    assert(r@[k] == before[k] && r@[k + 1] == before[k + 1]);
                }
            }
        }
    }
    r
}

pub open spec fn date_rank(d: NaiveDate) -> int {
    d.year as int * 0x1_0000_0000_0000_0000 + d.month as int * 0x1_0000_0000 + d.day as int
}

pub open spec fn datetime_rank(t: NaiveDateTime) -> int {
    ((date_rank(t.date) * 0x1_0000_0000 + t.hour as int) * 0x1_0000_0000 + t.minute as int)
        * 0x1_0000_0000 + t.second as int
}

fn date_lt(a: &NaiveDate, b: &NaiveDate) -> (r: bool)
    ensures
        r == (date_rank(*a) < date_rank(*b)),
{
    if a.year != b.year {
        a.year < b.year
    } else if a.month != b.month {
        a.month < b.month
    } else {
        a.day < b.day
    }
}

impl OrdKey for NaiveDate {
    open spec fn rank(&self) -> int {
        date_rank(*self)
    }

    proof fn rank_injective(a: &Self, b: &Self) {
    }

    fn key_lt(&self, other: &Self) -> (r: bool) {
        date_lt(self, other)
    }

    fn key_eq(&self, other: &Self) -> (r: bool) {
        self.year == other.year && self.month == other.month && self.day == other.day
    }

    fn key_clone(&self) -> (r: Self) {
        *self
    }
}

impl OrdKey for NaiveDateTime {
    open spec fn rank(&self) -> int {
        datetime_rank(*self)
    }

    proof fn rank_injective(a: &Self, b: &Self) {
        if datetime_rank(*a) == datetime_rank(*b) {
            assert(date_rank(a.date) == date_rank(b.date)) by (nonlinear_arith)
                requires
                    datetime_rank(*a) == datetime_rank(*b),
                    0 <= a.hour < 0x1_0000_0000, 0 <= a.minute < 0x1_0000_0000, 0 <= a.second < 0x1_0000_0000,
                    0 <= b.hour < 0x1_0000_0000, 0 <= b.minute < 0x1_0000_0000, 0 <= b.second < 0x1_0000_0000;
        }
    }

    fn key_lt(&self, other: &Self) -> (r: bool) {
        if !self.date.key_eq(&other.date) {
            proof {
                assert(datetime_rank(*self) < datetime_rank(*other) <==> date_rank(self.date) < date_rank(other.date)) by (nonlinear_arith)
                    requires
                        date_rank(self.date) != date_rank(other.date),
                        0 <= self.hour < 0x1_0000_0000, 0 <= self.minute < 0x1_0000_0000, 0 <= self.second < 0x1_0000_0000,
                        0 <= other.hour < 0x1_0000_0000, 0 <= other.minute < 0x1_0000_0000, 0 <= other.second < 0x1_0000_0000;
            }
            date_lt(&self.date, &other.date)
        } else if self.hour != other.hour {
            self.hour < other.hour
        } else if self.minute != other.minute {
            self.minute < other.minute
        } else {
            self.second < other.second
        }
    }

    fn key_eq(&self, other: &Self) -> (r: bool) {
        proof {
            Self::rank_injective(self, other);
        }
        self.date.key_eq(&other.date) && self.hour == other.hour && self.minute == other.minute
            && self.second == other.second
    }

    fn key_clone(&self) -> (r: Self) {
        *self
    }
}

/// When a directive happens: a day, a day and an hour and minute, or a full time.
#[derive(Debug, Clone, Copy, PartialEq, Eq)]
pub enum Date {
    Date(NaiveDate),
    DateHour(NaiveDateTime),
    Datetime(NaiveDateTime),
}

impl Date {
    pub open spec fn spec_naive_datetime(self) -> NaiveDateTime {
        match self {
            Date::Date(d) => NaiveDateTime { date: d, hour: 0, minute: 0, second: 0 },
            Date::DateHour(t) => t,
            Date::Datetime(t) => t,
        }
    }

    pub open spec fn spec_naive_date(self) -> NaiveDate {
        match self {
            Date::Date(d) => d,
            Date::DateHour(t) => t.date,
            Date::Datetime(t) => t.date,
        }
    }

    /// The moment this date stands for; a bare day stands for its midnight.
    pub fn naive_datetime(&self) -> (r: NaiveDateTime)
        ensures
            r == self.spec_naive_datetime(),
    {
        match self {
            Date::Date(d) => d.and_midnight(),
            Date::DateHour(t) => *t,
            Date::Datetime(t) => *t,
        }
    }

    /// The day of this date.
    pub fn naive_date(&self) -> (r: NaiveDate)
        ensures
            r == self.spec_naive_date(),
    {
        match self {
            Date::Date(d) => *d,
            Date::DateHour(t) => t.date,
            Date::Datetime(t) => t.date,
        }
    }

    /// The budget interval of the date: its year times one hundred plus its month, taken
    /// modulo `2^32` (a year before zero wraps around).
    pub fn as_budget_interval(&self) -> (r: u32)
        requires
            valid_date(self.spec_naive_date()),
        ensures
            r as int == (self.spec_naive_date().year * 100 + self.spec_naive_date().month) % 0x1_0000_0000,
    {
        let d = self.naive_date();
        if d.year >= 0 {
            (d.year as u32) * 100 + d.month
        } else {
            let k: u32 = ((-d.year) as u32) * 100;
            u32::MAX - k + 1 + d.month
        }
    }
}

/// The digits of `n`, zero-padded on the left to at least `width` characters.
pub open spec fn padded_digits(n: nat, width: nat) -> Seq<char> {
    let ds = nat_digits(n);
    if ds.len() < width {
        Seq::new((width - ds.len()) as nat, |i: int| '0') + ds
    } else {
        ds
    }
}

/// How a year is written: four digits at least, with a sign outside `0..=9999`.
pub open spec fn year_text(y: int) -> Seq<char> {
    if y < 0 {
        seq!['-'] + padded_digits((-y) as nat, 4)
    } else if y > 9999 {
        seq!['+'] + padded_digits(y as nat, 4)
    } else {
        padded_digits(y as nat, 4)
    }
}

/// `YYYY-MM-DD`.
pub open spec fn date_text(d: NaiveDate) -> Seq<char> {
    year_text(d.year as int) + seq!['-'] + padded_digits(d.month as nat, 2) + seq!['-'] + padded_digits(
        d.day as nat,
        2,
    )
}

/// `YYYY-MM-DD HH:MM`.
pub open spec fn date_hour_text(t: NaiveDateTime) -> Seq<char> {
    date_text(t.date) + seq![' '] + padded_digits(t.hour as nat, 2) + seq![':'] + padded_digits(
        t.minute as nat,
        2,
    )
}

/// `YYYY-MM-DD HH:MM:SS`.
pub open spec fn datetime_text(t: NaiveDateTime) -> Seq<char> {
    date_hour_text(t) + seq![':'] + padded_digits(t.second as nat, 2)
}

pub open spec fn spec_date_text(d: Date) -> Seq<char> {
    match d {
        Date::Date(d) => date_text(d),
        Date::DateHour(t) => date_hour_text(t),
        Date::Datetime(t) => datetime_text(t),
    }
}

/// Appends the digits of `n`, zero-padded to `width`.
pub fn push_padded(out: &mut Vec<char>, n: i128, width: usize)
    requires
        n >= 0,
    ensures
        final(out)@ == old(out)@ + padded_digits(n as nat, width as nat),
{
    let ds = digits_of(n);
    proof {
        lemma_nat_digits_len(n as nat);
    }
    let ghost start = out@;
    if ds.len() < width {
        let cnt = width - ds.len();
        let mut i: usize = 0;
        while i < cnt
            invariant
                i <= cnt,
                out@ == start + Seq::new(i as nat, |j: int| '0'),
            decreases cnt - i,
        {
            out.push('0');
            proof {
                assert(start + Seq::new(i as nat, |j: int| '0') + seq!['0'] =~= start + Seq::new((i + 1) as nat, |j: int| '0'));
            }
            i = i + 1;
        }
    }
    let ghost mid = out@;
    let mut k: usize = 0;
    while k < ds.len()
        invariant
            k <= ds@.len(),
            out@ == mid + ds@.subrange(0, k as int),
        decreases ds@.len() - k,
    {
        out.push(ds[k]);
        proof {
            assert(mid + ds@.subrange(0, k as int).push(ds@[k as int]) =~= mid + ds@.subrange(0, k + 1));
        }
        k = k + 1;
    }
    proof {
        assert(ds@.subrange(0, ds@.len() as int) =~= ds@);
        if ds@.len() < width {
            assert(out@ =~= start + padded_digits(n as nat, width as nat));
        } else {
            assert(mid =~= start);
            assert(out@ =~= start + padded_digits(n as nat, width as nat));
        }
    }
}

pub fn push_date(out: &mut Vec<char>, d: &NaiveDate)
    ensures
        final(out)@ == old(out)@ + date_text(*d),
{
    let ghost start = out@;
    if d.year < 0 {
        out.push('-');
        push_padded(out, -(d.year as i128), 4);
    } else if d.year > 9999 {
        out.push('+');
        push_padded(out, d.year as i128, 4);
    } else {
        push_padded(out, d.year as i128, 4);
    }
    out.push('-');
    push_padded(out, d.month as i128, 2);
    out.push('-');
    push_padded(out, d.day as i128, 2);
    proof {
        assert(out@ =~= start + date_text(*d));
    }
}

/// Appends the written form of a date.
pub fn push_date_text(out: &mut Vec<char>, d: &Date)
    ensures
        final(out)@ == old(out)@ + spec_date_text(*d),
{
    let ghost start = out@;
    match d {
        Date::Date(day) => {
            push_date(out, day);
        },
        Date::DateHour(t) => {
            push_date(out, &t.date);
            out.push(' ');
            push_padded(out, t.hour as i128, 2);
            out.push(':');
            push_padded(out, t.minute as i128, 2);
            proof {
                assert(out@ =~= start + spec_date_text(*d));
            }
        },
        Date::Datetime(t) => {
            push_date(out, &t.date);
            out.push(' ');
            push_padded(out, t.hour as i128, 2);
            out.push(':');
            push_padded(out, t.minute as i128, 2);
            out.push(':');
            push_padded(out, t.second as i128, 2);
            proof {
                assert(out@ =~= start + spec_date_text(*d));
            }
        },
    }
}

impl Date {
    /// The written form of the date.
    pub fn to_text(&self) -> (r: String)
        ensures
            r@ == spec_date_text(*self),
    {
        let mut out: Vec<char> = Vec::new();
        push_date_text(&mut out, self);
        proof {
            assert(out@ =~= spec_date_text(*self));
        }
        crate::strings::string_from_chars(&out)
    }
}

} // verus!
