//! Timeline diagram: a horizontal axis with event dots spaced by date.

use crate::errors::{ParseError, Warning};
use crate::text::{chars_of, find_char, find_char_from};
use crate::types::shared::{density_warning, density_warnings};
use vstd::prelude::*;

verus! {

/// Soft cap above which a density warning is emitted (counted in events).
pub const SOFT_CAP: usize = 14;

/// Stable type tag used in warnings.
pub const TYPE_TAG: &'static str = "timeline";

#[derive(Debug, Clone, Copy, PartialEq, Eq)]
pub enum EventRole {
    Default,
    /// The single emphasized milestone.
    Major,
}

#[derive(Debug, Clone)]
pub struct TimelineEvent {
    /// ISO date `YYYY-MM-DD`; other text spaces events evenly.
    pub time: String,
    pub label: String,
    pub sublabel: Option<String>,
    pub role: EventRole,
}

/// `{"type":"timeline","events":[...],"axis_label":optional}`.
#[derive(Debug, Clone)]
pub struct TimelineSpec {
    pub events: Vec<TimelineEvent>,
    pub axis_label: Option<String>,
}

impl TimelineSpec {
    /// Role drives the accent; nothing to cross-check.
    pub fn validate(&self) -> (r: Result<(), ParseError>)
        ensures
            r == Ok::<(), ParseError>(()),
    {
        Ok(())
    }
}

/// Density warning when the event count exceeds [`SOFT_CAP`].
pub fn warnings(spec: &TimelineSpec) -> (w: Vec<Warning>)
    ensures
        w@ == density_warnings(TYPE_TAG, spec.events@.len() as int, SOFT_CAP as int),
{
    density_warning(TYPE_TAG, spec.events.len(), SOFT_CAP)
}

// --- Dates ----------------------------------------------------------------

/// An ASCII decimal digit.
pub open spec fn is_digit(c: char) -> bool {
    '0' <= c && c <= '9'
}

pub open spec fn all_digits(s: Seq<char>) -> bool {
    forall|i: int| 0 <= i < s.len() ==> is_digit(#[trigger] s[i])
}

/// The value of a string of decimal digits.
pub open spec fn digits_value(s: Seq<char>) -> int
    decreases s.len(),
{
    if s.len() == 0 {
        0
    } else {
        digits_value(s.drop_last()) * 10 + (s.last() as int - '0' as int)
    }
}

/// How `i32` reads a string: an optional `+` or `-`, then one or more ASCII
/// digits, the value within `i32`'s range.
pub open spec fn parse_i32(s: Seq<char>) -> Option<int> {
    let signed = s.len() > 0 && (s[0] == '-' || s[0] == '+');
    let body = if signed { s.drop_first() } else { s };
    let v = if signed && s[0] == '-' { -digits_value(body) } else { digits_value(body) };
    if body.len() > 0 && all_digits(body) && i32::MIN <= v <= i32::MAX {
        Some(v)
    } else {
        None
    }
}

/// The first three `-`-separated fields of `s`, when it has three.
pub open spec fn date_fields(s: Seq<char>) -> Option<(Seq<char>, Seq<char>, Seq<char>)> {
    match find_char_from(s, '-', 0) {
        None => None,
        Some(d1) => match find_char_from(s, '-', d1 + 1) {
            None => None,
            Some(d2) => {
                let end = match find_char_from(s, '-', d2 + 1) {
                    Some(d3) => d3,
                    None => s.len() as int,
                };
                Some((s.subrange(0, d1), s.subrange(d1 + 1, d2), s.subrange(d2 + 1, end)))
            },
        },
    }
}

/// Integer division rounding toward zero, as `i32` divides.
pub open spec fn tdiv(a: int, b: int) -> int {
    if a >= 0 {
        a / b
    } else {
        -((-a) / b)
    }
}

/// Gregorian leap year.
pub open spec fn is_leap(y: int) -> bool {
    (y % 4 == 0 && y % 100 != 0) || y % 400 == 0
}

/// Days in month `m` (1 to 12) of year `y`.
pub open spec fn month_len(y: int, m: int) -> int {
    if m == 2 {
        if is_leap(y) {
            29
        } else {
            28
        }
    } else if m == 4 || m == 6 || m == 9 || m == 11 {
        30
    } else {
        31
    }
}

/// Days in the months of year `y` before month `m`.
pub open spec fn days_before_month(y: int, m: int) -> int
    decreases m,
{
    if m <= 1 {
        0
    } else {
        days_before_month(y, m - 1) + month_len(y, m - 1)
    }
}

/// Leap days counted up to year `y`, by the truncating divisions of `i32`.
pub open spec fn leap_count(y: int) -> int {
    tdiv(y, 4) - tdiv(y, 100) + tdiv(y, 400)
}

/// Days from 1970-01-01 to the first of year `y`.
pub open spec fn days_before_year(y: int) -> int {
    (y - 1970) * 365 + (leap_count(y - 1) - leap_count(1969))
}

/// A calendar date: month 1 to 12, day within the month.
pub open spec fn valid_date(y: int, m: int, d: int) -> bool {
    1 <= m <= 12 && 1 <= d <= month_len(y, m)
}

/// The day ordinal of a date, counted from 1970-01-01.
pub open spec fn day_number(y: int, m: int, d: int) -> int {
    days_before_year(y) + days_before_month(y, m) + d - 1
}

/// The year, month and day that `s` spells, when it spells a valid date.
pub open spec fn iso_date(s: Seq<char>) -> Option<(int, int, int)> {
    match date_fields(s) {
        Some((a, b, c)) => match (parse_i32(a), parse_i32(b), parse_i32(c)) {
            (Some(y), Some(m), Some(d)) => if valid_date(y, m, d) {
                Some((y, m, d))
            } else {
                None
            },
            _ => None,
        },
        None => None,
    }
}

/// The day ordinal of the date `s` spells.
pub open spec fn iso_day(s: Seq<char>) -> Option<int> {
    match iso_date(s) {
        Some((y, m, d)) => Some(day_number(y, m, d)),
        None => None,
    }
}

pub open spec fn fits_i32(v: int) -> bool {
    i32::MIN <= v <= i32::MAX
}

/// Every step of the ordinal's `i32` arithmetic stays in range for this
/// date.
pub open spec fn day_number_fits(y: int, m: int, d: int) -> bool {
    let years = y - 1970;
    let dby = days_before_year(y);
    let dbm = days_before_month(y, m);
    &&& fits_i32(years)
    &&& fits_i32(years * 365)
    &&& fits_i32(y - 1)
    &&& fits_i32(dby)
    &&& fits_i32(dby + dbm)
    &&& fits_i32(dby + dbm + d)
    &&& fits_i32(dby + dbm + d - 1)
}

/// `s` is no date, or a date whose ordinal `i32` arithmetic can compute.
pub open spec fn iso_day_fits(s: Seq<char>) -> bool {
    match iso_date(s) {
        Some((y, m, d)) => day_number_fits(y, m, d),
        None => true,
    }
}

proof fn lemma_digits_value_nonneg(s: Seq<char>)
    requires
        all_digits(s),
    ensures
        digits_value(s) >= 0,
    decreases s.len(),
{
    if s.len() > 0 {
        lemma_digits_value_nonneg(s.drop_last());
    }
}

/// A string of digits is worth at least any of its prefixes.
proof fn lemma_digits_value_prefix(s: Seq<char>, i: int)
    requires
        all_digits(s),
        0 <= i <= s.len(),
    ensures
        digits_value(s.subrange(0, i)) <= digits_value(s),
    decreases s.len(),
{
    if i < s.len() {
        assert(s.drop_last().subrange(0, i) =~= s.subrange(0, i));
        lemma_digits_value_prefix(s.drop_last(), i);
        lemma_digits_value_nonneg(s.drop_last());
    } else {
        assert(s.subrange(0, i) =~= s);
    }
}

/// Read the `i32` that `s[start..end]` spells.
fn parse_i32_field(s: &[char], start: usize, end: usize) -> (r: Option<i32>)
    requires
        start <= end <= s@.len(),
    ensures
        r == (match parse_i32(s@.subrange(start as int, end as int)) {
            Some(v) => Some(v as i32),
            None => None::<i32>,
        }),
{
    let ghost f = s@.subrange(start as int, end as int);
    let mut i = start;
    let mut neg = false;
    if i < end && (s[i] == '-' || s[i] == '+') {
        neg = s[i] == '-';
        i = i + 1;
    }
    let body_start = i;
    let ghost body = s@.subrange(body_start as int, end as int);
    assert(body == (if f.len() > 0 && (f[0] == '-' || f[0] == '+') {
        f.drop_first()
    } else {
        f
    }));
    if i == end {
        return None;
    }
    let mut v: i64 = 0;
    assert(body.subrange(0, 0) =~= Seq::<char>::empty());
    while i < end
        invariant
            body_start <= i <= end <= s@.len(),
            body == s@.subrange(body_start as int, end as int),
            f == s@.subrange(start as int, end as int),
            body == (if f.len() > 0 && (f[0] == '-' || f[0] == '+') {
                f.drop_first()
            } else {
                f
            }),
            neg == (f.len() > 0 && f[0] == '-'),
            all_digits(body.subrange(0, i - body_start)),
            v == digits_value(body.subrange(0, i - body_start)),
            0 <= v <= 2147483648,
        decreases end - i,
    {
        let c = s[i];
        let ghost pre = body.subrange(0, i - body_start);
        let ghost next = body.subrange(0, i + 1 - body_start);
        assert(next.drop_last() =~= pre);
        assert(next.last() == c);
        if !('0' <= c && c <= '9') {
            assert(!all_digits(body)) by {
                assert(body[i - body_start] == c);
            }
            return None;
        }
        let digit = (c as u32 - '0' as u32) as i64;
        v = v * 10 + digit;
        assert(all_digits(next)) by {
            assert forall|j: int| 0 <= j < next.len() implies is_digit(#[trigger] next[j]) by {
                if j < pre.len() {
                    assert(next[j] == pre[j]);
                }
            }
        }
        if v > 2147483648 {
            proof {
                if all_digits(body) {
                    lemma_digits_value_prefix(body, i + 1 - body_start);
                }
            }
            return None;
        }
        i = i + 1;
    }
    assert(body.subrange(0, i - body_start) =~= body);
    let signed: i64 = if neg {
        -v
    } else {
        v
    };
    if signed < -2147483648 || signed > 2147483647 {
        return None;
    }
    Some(signed as i32)
}

/// Is `y` a leap year?
fn leap(y: i32) -> (b: bool)
    ensures
        b == is_leap(y as int),
{
    (y % 4 == 0 && y % 100 != 0) || y % 400 == 0
}

/// Days in month `m` (1 to 12) of year `y`.
fn days_in_month(y: i32, m: i32) -> (n: i32)
    requires
        1 <= m <= 12,
    ensures
        n == month_len(y as int, m as int),
{
    if m == 2 {
        if leap(y) {
            29
        } else {
            28
        }
    } else if m == 4 || m == 6 || m == 9 || m == 11 {
        30
    } else {
        31
    }
}

/// The day ordinal, counted from 1970-01-01, of an ISO `YYYY-MM-DD` date.
/// The first three `-`-separated fields are read as year, month and day;
/// `None` when there are fewer, when one is not an integer, or when the
/// date does not exist (month outside 1 to 12, day past the month's end).
/// The ordinal is a stable Gregorian count for spacing events; it is not a
/// calendar conversion.
pub fn parse_iso_day(s: &str) -> (r: Option<i32>)
    requires
        iso_day_fits(s@),
    ensures
        r == (match iso_day(s@) {
            Some(v) => Some(v as i32),
            None => None::<i32>,
        }),
        r matches Some(v) ==> iso_day(s@) == Some(v as int),
{
    let cs = chars_of(s);
    let d1 = match find_char(&cs, '-', 0) {
        Some(p) => p,
        None => return None,
    };
    assert(d1 < cs@.len());
    let d2 = match find_char(&cs, '-', d1 + 1) {
        Some(p) => p,
        None => return None,
    };
    assert(d2 < cs@.len());
    let end = match find_char(&cs, '-', d2 + 1) {
        Some(p) => p,
        None => cs.len(),
    };
    let y = match parse_i32_field(&cs, 0, d1) {
        Some(v) => v,
        None => return None,
    };
    let m = match parse_i32_field(&cs, d1 + 1, d2) {
        Some(v) => v,
        None => return None,
    };
    let d = match parse_i32_field(&cs, d2 + 1, end) {
        Some(v) => v,
        None => return None,
    };
    if !(1 <= m && m <= 12) || !(1 <= d && d <= 31) {
        return None;
    }
    if d > days_in_month(y, m) {
        return None;
    }
    assert(iso_date(s@) == Some((y as int, m as int, d as int)));
    let years = y - 1970;
    let leap_before = (y - 1) / 4 - (y - 1) / 100 + (y - 1) / 400;
    assert(leap_before == leap_count(y - 1));
    assert(leap_count(1969) == 477);
    let days_before_year = years * 365 + (leap_before - 477);
    let mut days_before: i32 = 0;
    let mut k: i32 = 1;
    while k < m
        invariant
            1 <= k <= m <= 12,
            days_before == days_before_month(y as int, k as int),
            0 <= days_before <= 31 * (k - 1),
        decreases m - k,
    {
        days_before = days_before + days_in_month(y, k);
        k = k + 1;
    }
    Some(days_before_year + days_before + d - 1)
}

/// Does `v` fit in an `i32`?
fn fits(v: i64) -> (b: bool)
    ensures
        b == fits_i32(v as int),
{
    -2147483648 <= v && v <= 2147483647
}

/// Can [`parse_iso_day`] compute the ordinal of `s` within `i32`? True as
/// well when `s` is no date.
pub fn iso_day_in_range(s: &str) -> (b: bool)
    ensures
        b == iso_day_fits(s@),
{
    let cs = chars_of(s);
    let d1 = match find_char(&cs, '-', 0) {
        Some(p) => p,
        None => return true,
    };
    assert(d1 < cs@.len());
    let d2 = match find_char(&cs, '-', d1 + 1) {
        Some(p) => p,
        None => return true,
    };
    assert(d2 < cs@.len());
    let end = match find_char(&cs, '-', d2 + 1) {
        Some(p) => p,
        None => cs.len(),
    };
    let y = match parse_i32_field(&cs, 0, d1) {
        Some(v) => v,
        None => return true,
    };
    let m = match parse_i32_field(&cs, d1 + 1, d2) {
        Some(v) => v,
        None => return true,
    };
    let d = match parse_i32_field(&cs, d2 + 1, end) {
        Some(v) => v,
        None => return true,
    };
    if !(1 <= m && m <= 12) || !(1 <= d && d <= 31) || d > days_in_month(y, m) {
        return true;
    }
    assert(iso_date(s@) == Some((y as int, m as int, d as int)));
    let y64 = y as i64;
    let years = y64 - 1970;
    let leap_before = (y64 - 1) / 4 - (y64 - 1) / 100 + (y64 - 1) / 400;
    assert(leap_before == leap_count(y - 1));
    assert(leap_count(1969) == 477);
    let dby = years * 365 + (leap_before - 477);
    let mut days_before: i64 = 0;
    let mut k: i32 = 1;
    while k < m
        invariant
            1 <= k <= m <= 12,
            days_before == days_before_month(y as int, k as int),
            0 <= days_before <= 31 * (k - 1),
        decreases m - k,
    {
        days_before = days_before + days_in_month(y, k) as i64;
        k = k + 1;
    }
    fits(years) && fits(years * 365) && fits(y64 - 1) && fits(dby) && fits(dby + days_before) && fits(
        dby + days_before + d as i64,
    ) && fits(dby + days_before + d as i64 - 1)
}

/// Every event up to and including the first that is no ISO date has an
/// ordinal that `i32` arithmetic can compute: what reading the events in
/// order, stopping at the first non-date, needs.
pub open spec fn days_computable(events: Seq<TimelineEvent>) -> bool {
    forall|i: int|
        0 <= i < events.len() && (forall|j: int| 0 <= j < i ==> (#[trigger] iso_day(events[j].time@)) is Some)
            ==> iso_day_fits(#[trigger] events[i].time@)
}

/// The day ordinals of all events, in order, when every event's time is an
/// ISO date; `None` as soon as one is not (later events are not read).
pub fn event_days(spec: &TimelineSpec) -> (r: Option<Vec<i32>>)
    requires
        days_computable(spec.events@),
    ensures
        r is Some <==> forall|i: int| 0 <= i < spec.events@.len() ==> iso_day(#[trigger] spec.events@[i].time@) is Some,
        r matches Some(days) ==> days@.len() == spec.events@.len() && forall|i: int|
            0 <= i < days@.len() ==> iso_day(#[trigger] spec.events@[i].time@) == Some(days@[i] as int),
{
    let mut days: Vec<i32> = Vec::new();
    let mut i: usize = 0;
    while i < spec.events.len()
        invariant
            i <= spec.events@.len(),
            days@.len() == i,
            days_computable(spec.events@),
            forall|j: int| 0 <= j < i ==> iso_day(#[trigger] spec.events@[j].time@) == Some(days@[j] as int),
        decreases spec.events@.len() - i,
    {
        assert(forall|j: int| 0 <= j < i ==> (#[trigger] iso_day(spec.events@[j].time@)) is Some);
        assert(iso_day_fits(spec.events@[i as int].time@));
        match parse_iso_day(spec.events[i].time.as_str()) {
            Some(d) => days.push(d),
            None => {
                assert(iso_day(spec.events@[i as int].time@) is None);
                return None;
            },
        }
        i = i + 1;
    }
    Some(days)
}

/// Can [`event_days`] read the events of `spec`: does `days_computable`
/// hold of them?
pub fn event_days_in_range(spec: &TimelineSpec) -> (b: bool)
    ensures
        b == days_computable(spec.events@),
{
    let mut i: usize = 0;
    while i < spec.events.len()
        invariant
            i <= spec.events@.len(),
            forall|j: int| 0 <= j < i ==> (#[trigger] iso_day(spec.events@[j].time@)) is Some,
            forall|j: int| 0 <= j < i ==> iso_day_fits(#[trigger] spec.events@[j].time@),
        decreases spec.events@.len() - i,
    {
        let t = spec.events[i].time.as_str();
        if !iso_day_in_range(t) {
            assert(!days_computable(spec.events@)) by {
                assert(forall|j: int| 0 <= j < i ==> (#[trigger] iso_day(spec.events@[j].time@)) is Some);
            }
            return false;
        }
        if parse_iso_day(t).is_none() {
            assert(days_computable(spec.events@)) by {
                assert forall|k: int|
                    0 <= k < spec.events@.len() && (forall|j: int|
                        0 <= j < k ==> (#[trigger] iso_day(spec.events@[j].time@)) is Some) implies iso_day_fits(
                    #[trigger] spec.events@[k].time@,
                ) by {
                    if k > i {
                        assert(iso_day(spec.events@[i as int].time@) is Some);
                    }
                }
            }
            return true;
        }
        i = i + 1;
    }
    true
}

/// The smallest and largest of `days`; `None` when there are none.
pub fn day_range(days: &[i32]) -> (r: Option<(i32, i32)>)
    ensures
        r is None <==> days@.len() == 0,
        r matches Some((lo, hi)) ==> {
            &&& exists|i: int| 0 <= i < days@.len() && days@[i] == lo
            &&& exists|i: int| 0 <= i < days@.len() && days@[i] == hi
            &&& forall|i: int| 0 <= i < days@.len() ==> lo <= #[trigger] days@[i] <= hi
        },
{
    if days.len() == 0 {
        return None;
    }
    let mut lo = days[0];
    let mut hi = days[0];
    let mut i: usize = 1;
    while i < days.len()
        invariant
            1 <= i <= days@.len(),
            exists|j: int| 0 <= j < days@.len() && days@[j] == lo,
            exists|j: int| 0 <= j < days@.len() && days@[j] == hi,
            forall|j: int| 0 <= j < i ==> lo <= #[trigger] days@[j] <= hi,
        decreases days@.len() - i,
    {
        if days[i] < lo {
            lo = days[i];
        }
        if days[i] > hi {
            hi = days[i];
        }
        i = i + 1;
    }
    Some((lo, hi))
}

/// The calendar day after `(y, m, d)`.
pub open spec fn next_day(y: int, m: int, d: int) -> (int, int, int) {
    if d < month_len(y, m) {
        (y, m, d + 1)
    } else if m < 12 {
        (y, m + 1, 1)
    } else {
        (y + 1, 1, 1)
    }
}

/// The leap days counted up to `y` grow by one exactly when `y` is a leap
/// year. True for every year from 1 on ([`lemma_leap_step_from_year_one`]);
/// the truncating divisions break it for some years before.
pub open spec fn leap_step_exact(y: int) -> bool {
    leap_count(y) - leap_count(y - 1) == if is_leap(y) {
        1int
    } else {
        0int
    }
}

proof fn lemma_days_before_december(y: int)
    ensures
        days_before_month(y, 12) == 334 + if is_leap(y) {
            1int
        } else {
            0int
        },
{
    reveal_with_fuel(days_before_month, 12);
}

/// Successive days have successive ordinals, across month and year ends,
/// wherever the leap-day count steps exactly at the year end.
pub proof fn lemma_day_number_next(y: int, m: int, d: int)
    requires
        valid_date(y, m, d),
        (m == 12 && d == 31) ==> leap_step_exact(y),
    ensures
        valid_date(next_day(y, m, d).0, next_day(y, m, d).1, next_day(y, m, d).2),
        day_number(next_day(y, m, d).0, next_day(y, m, d).1, next_day(y, m, d).2) == day_number(y, m, d)
            + 1,
{
    if d < month_len(y, m) {
    } else if m < 12 {
        assert(days_before_month(y, m + 1) == days_before_month(y, m) + month_len(y, m));
    } else {
        lemma_days_before_december(y);
        assert(days_before_month(y + 1, 1) == 0);
        assert(d == 31);
    }
}

/// From year 1 on, the leap-day count steps exactly.
pub proof fn lemma_leap_step_from_year_one(y: int)
    requires
        y >= 1,
    ensures
        leap_step_exact(y),
{
    assert(tdiv(y, 4) - tdiv(y - 1, 4) == if y % 4 == 0 { 1int } else { 0int }) by (nonlinear_arith)
        requires y >= 1;
    assert(tdiv(y, 100) - tdiv(y - 1, 100) == if y % 100 == 0 { 1int } else { 0int }) by (nonlinear_arith)
        requires y >= 1;
    assert(tdiv(y, 400) - tdiv(y - 1, 400) == if y % 400 == 0 { 1int } else { 0int }) by (nonlinear_arith)
        requires y >= 1;
    assert(y % 400 == 0 ==> y % 100 == 0 && y % 4 == 0) by (nonlinear_arith);
    assert(y % 100 == 0 ==> y % 4 == 0) by (nonlinear_arith);
}

} // verus!
