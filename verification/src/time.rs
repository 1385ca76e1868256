//! Calendar timestamps in UTC and the arithmetic the renderer needs.
//!
//! A timestamp is held as civil fields (year, month, day, hour, minute,
//! second) in the years 0 through 9999, the four-digit range its written
//! form covers. The model behind every contract is `epoch_seconds`, the
//! count of seconds since 0000-01-01T00:00:00Z.

use vstd::prelude::*;

use crate::dec::{
    all_digits, digit_val, digits_end, digits_pad, is_digit_char, lemma_digits_pad_props, pow10,
    val_of_digits,
};

verus! {

/// A civil date and time, read as an instant in UTC.
#[derive(Clone, Copy, PartialEq, Eq, Structural, Debug)]
pub struct Timestamp {
    pub year: u16,
    pub month: u8,
    pub day: u8,
    pub hour: u8,
    pub minute: u8,
    pub second: u8,
}

/// Gregorian leap-year rule.
pub open spec fn is_leap(y: int) -> bool {
    y % 4 == 0 && (y % 100 != 0 || y % 400 == 0)
}

/// Days in a month of a given year.
pub open spec fn days_in_month(y: int, m: int) -> int {
    if m == 2 {
        if is_leap(y) {
            29
        } else {
            28
        }
    } else if m == 4 || m == 6 || m == 9 || m == 11 {
        30
    } else {
        31
    }
}

pub open spec fn days_in_year(y: int) -> int {
    if is_leap(y) {
        366
    } else {
        365
    }
}

impl Timestamp {
    /// A valid civil date and time within the four-digit range of years.
    pub open spec fn wf(self) -> bool {
        &&& self.year <= 9999
        &&& 1 <= self.month <= 12
        &&& 1 <= self.day <= days_in_month(self.year as int, self.month as int)
        &&& self.hour <= 23
        &&& self.minute <= 59
        &&& self.second <= 59
    }
}

/// Days in the years from 0 up to (excluding) `y`.
pub open spec fn days_before_year(y: int) -> int
    decreases y,
{
    if y <= 0 {
        0
    } else {
        days_before_year(y - 1) + days_in_year(y - 1)
    }
}

/// Days in the months of year `y` before month `m`.
pub open spec fn days_before_month(y: int, m: int) -> int
    decreases m,
{
    if m <= 1 {
        0
    } else {
        days_before_month(y, m - 1) + days_in_month(y, m - 1)
    }
}

/// Days from 0000-01-01 to the date of `t`.
pub open spec fn day_number(t: Timestamp) -> int {
    days_before_year(t.year as int) + days_before_month(t.year as int, t.month as int) + t.day - 1
}

/// Seconds from 0000-01-01T00:00:00Z to `t`.
pub open spec fn epoch_seconds(t: Timestamp) -> int {
    day_number(t) * 86400 + t.hour * 3600 + t.minute * 60 + t.second
}

pub proof fn lemma_days_before_year_bounds(y: int)
    requires
        0 <= y <= 10000,
    ensures
        0 <= days_before_year(y) <= y * 366,
    decreases y,
{
    if y > 0 {
        lemma_days_before_year_bounds(y - 1);
    }
}

pub proof fn lemma_days_before_month_bounds(y: int, m: int)
    requires
        1 <= m <= 13,
    ensures
        0 <= days_before_month(y, m) <= (m - 1) * 31,
    decreases m,
{
    if m > 1 {
        lemma_days_before_month_bounds(y, m - 1);
    }
}

pub proof fn lemma_day_number_bounds(t: Timestamp)
    requires
        t.wf(),
    ensures
        0 <= day_number(t) < 3_660_010,
        0 <= epoch_seconds(t) < 316_225_000_000,
{
    lemma_days_before_year_bounds(t.year as int);
    lemma_days_before_month_bounds(t.year as int, t.month as int);
}

/// Days before month 13 make up the whole year.
pub proof fn lemma_days_before_month_13(y: int)
    ensures
        days_before_month(y, 13) == days_in_year(y),
{
    reveal_with_fuel(days_before_month, 14);
}

/// Leap-year test.
pub fn leap_year(y: u16) -> (r: bool)
    ensures
        r == is_leap(y as int),
{
    y % 4 == 0 && (y % 100 != 0 || y % 400 == 0)
}

/// Days in a month, executable form.
pub fn month_length(y: u16, m: u8) -> (r: u8)
    ensures
        r == days_in_month(y as int, m as int),
{
    if m == 2 {
        if leap_year(y) {
            29
        } else {
            28
        }
    } else if m == 4 || m == 6 || m == 9 || m == 11 {
        30
    } else {
        31
    }
}

/// Seconds since the epoch for a valid timestamp.
pub fn to_epoch_seconds(t: &Timestamp) -> (r: u64)
    requires
        t.wf(),
    ensures
        r == epoch_seconds(*t),
{
    let mut days: u64 = 0;
    let mut y: u16 = 0;
    while y < t.year
        invariant
            0 <= y <= t.year <= 9999,
            days == days_before_year(y as int),
            days <= y as int * 366,
        decreases t.year - y,
    {
        proof {
            lemma_days_before_year_bounds(y as int);
        }
        if leap_year(y) {
            days = days + 366;
        } else {
            days = days + 365;
        }
        y = y + 1;
    }
    let mut m: u8 = 1;
    while m < t.month
        invariant
            1 <= m <= t.month <= 12,
            t.year <= 9999,
            days == days_before_year(t.year as int) + days_before_month(t.year as int, m as int),
            days <= t.year as int * 366 + (m - 1) as int * 31,
        decreases t.month - m,
    {
        days = days + month_length(t.year, m) as u64;
        m = m + 1;
    }
    let days = days + (t.day - 1) as u64;
    proof {
        lemma_day_number_bounds(*t);
    }
    days * 86400 + (t.hour as u64) * 3600 + (t.minute as u64) * 60 + (t.second as u64)
}

/// The calendar day after the date of `t`, at the same time of day.
pub fn next_day(t: &Timestamp) -> (r: Timestamp)
    requires
        t.wf(),
        t.year < 9999 || t.month < 12 || t.day < 31,
    ensures
        r.wf(),
        day_number(r) == day_number(*t) + 1,
        r.hour == t.hour && r.minute == t.minute && r.second == t.second,
{
    let dim = month_length(t.year, t.month);
    if t.day < dim {
        Timestamp { day: t.day + 1, ..*t }
    } else if t.month < 12 {
        Timestamp { month: t.month + 1, day: 1, ..*t }
    } else {
        proof {
            lemma_days_before_month_13(t.year as int);
        }
        Timestamp { year: t.year + 1, month: 1, day: 1, ..*t }
    }
}

/// The calendar day before the date of `t`, at the same time of day.
pub fn prev_day(t: &Timestamp) -> (r: Timestamp)
    requires
        t.wf(),
        day_number(*t) > 0,
    ensures
        r.wf(),
        day_number(r) == day_number(*t) - 1,
        r.hour == t.hour && r.minute == t.minute && r.second == t.second,
{
    if t.day > 1 {
        Timestamp { day: t.day - 1, ..*t }
    } else if t.month > 1 {
        let dim = month_length(t.year, t.month - 1);
        Timestamp { month: t.month - 1, day: dim, ..*t }
    } else {
        proof {
            assert(t.year >= 1) by {
                lemma_days_before_month_bounds(t.year as int, t.month as int);
            }
            lemma_days_before_month_13((t.year - 1) as int);
        }
        Timestamp { year: t.year - 1, month: 12, day: 31, ..*t }
    }
}

/// The last instant the model can hold.
pub open spec fn ts_last() -> Timestamp {
    Timestamp { year: 9999, month: 12, day: 31, hour: 23, minute: 59, second: 59 }
}

/// Shifts `t` by a bounded number of seconds (a time-zone offset); the
/// shifted instant must stay within the model's range.
pub fn add_seconds(t: &Timestamp, off: i64) -> (r: Timestamp)
    requires
        t.wf(),
        -86400 <= off <= 86400,
        0 <= epoch_seconds(*t) + off <= epoch_seconds(ts_last()),
    ensures
        r.wf(),
        epoch_seconds(r) == epoch_seconds(*t) + off,
{
    proof {
        if t.year == 9999 && t.month == 12 && t.day == 31 {
            assert(day_number(*t) == day_number(ts_last()));
        }
    }
    let sod: i64 = (t.hour as i64) * 3600 + (t.minute as i64) * 60 + (t.second as i64);
    let tot: i64 = sod + off;
    let (base, tot) = if tot < 0 {
        (prev_day(t), (tot + 86400) as u64)
    } else if tot >= 86400 {
        (next_day(t), (tot - 86400) as u64)
    } else {
        (*t, tot as u64)
    };
    let h = tot / 3600;
    let rem = tot % 3600;
    let r = Timestamp {
        hour: h as u8,
        minute: (rem / 60) as u8,
        second: (rem % 60) as u8,
        ..base
    };
    proof {
        assert(tot == 3600 * (tot / 3600) + tot % 3600);
        assert(tot % 3600 == 60 * ((tot % 3600) / 60) + (tot % 3600) % 60);
    }
    r
}

/// Whole hours from `b` to `a`, truncated toward zero as a clock difference
/// is usually read.
pub open spec fn hours_between(a: Timestamp, b: Timestamp) -> int {
    let d = epoch_seconds(a) - epoch_seconds(b);
    if d >= 0 {
        d / 3600
    } else {
        -((-d) / 3600)
    }
}

/// Whole hours from `b` to `a`.
pub fn delta_hours(a: &Timestamp, b: &Timestamp) -> (r: i64)
    requires
        a.wf(),
        b.wf(),
    ensures
        r == hours_between(*a, *b),
{
    proof {
        lemma_day_number_bounds(*a);
        lemma_day_number_bounds(*b);
    }
    let ea = to_epoch_seconds(a);
    let eb = to_epoch_seconds(b);
    if ea >= eb {
        ((ea - eb) / 3600) as i64
    } else {
        -(((eb - ea) / 3600) as i64)
    }
}

/// Day of the week of `t`: 0 is Sunday through 6 is Saturday.
pub open spec fn weekday_of(t: Timestamp) -> int {
    (day_number(t) + 6) % 7
}

/// Day of the week, executable form.
pub fn weekday(t: &Timestamp) -> (r: u8)
    requires
        t.wf(),
    ensures
        r == weekday_of(*t),
        r < 7,
{
    proof {
        lemma_day_number_bounds(*t);
    }
    let e = to_epoch_seconds(t);
    let days = e / 86400;
    proof {
        assert(epoch_seconds(*t) == day_number(*t) * 86400 + (t.hour * 3600 + t.minute * 60
            + t.second));
        assert(0 <= t.hour * 3600 + t.minute * 60 + t.second < 86400);
        vstd::arithmetic::div_mod::lemma_div_multiples_vanish_fancy(
            day_number(*t),
            (t.hour * 3600 + t.minute * 60 + t.second) as int,
            86400,
        );
    }
    ((days + 6) % 7) as u8
}

} // verus!
// Reading timestamps from document text, and writing them back out.

verus! {

/// True when positions `i ..` hold a UTC zone designator that ends the text:
/// `Z`, or an explicit zero offset `+00:00` / `-00:00`.
pub open spec fn zone_at(s: Seq<char>, i: int) -> bool {
    ||| (i + 1 == s.len() && s[i] == 'Z')
    ||| (i + 6 == s.len() && (s[i] == '+' || s[i] == '-') && s[i + 1] == '0' && s[i + 2] == '0'
        && s[i + 3] == ':' && s[i + 4] == '0' && s[i + 5] == '0')
}

/// The shape of an RFC 3339 UTC instant: date, `T`, time, an optional
/// fraction, and a UTC zone.
pub open spec fn ts_shape(s: Seq<char>) -> bool {
    &&& s.len() >= 20
    &&& all_digits(s.subrange(0, 4))
    &&& s[4] == '-'
    &&& all_digits(s.subrange(5, 7))
    &&& s[7] == '-'
    &&& all_digits(s.subrange(8, 10))
    &&& s[10] == 'T'
    &&& all_digits(s.subrange(11, 13))
    &&& s[13] == ':'
    &&& all_digits(s.subrange(14, 16))
    &&& s[16] == ':'
    &&& all_digits(s.subrange(17, 19))
    &&& if s[19] == '.' {
        digits_end(s, 20) > 20 && zone_at(s, digits_end(s, 20))
    } else {
        zone_at(s, 19)
    }
}

/// The timestamp a well-shaped text denotes, before range checks.
pub open spec fn ts_fields(s: Seq<char>) -> Timestamp {
    Timestamp {
        year: val_of_digits(s.subrange(0, 4)) as u16,
        month: val_of_digits(s.subrange(5, 7)) as u8,
        day: val_of_digits(s.subrange(8, 10)) as u8,
        hour: val_of_digits(s.subrange(11, 13)) as u8,
        minute: val_of_digits(s.subrange(14, 16)) as u8,
        second: val_of_digits(s.subrange(17, 19)) as u8,
    }
}

/// Parses an RFC 3339 UTC instant; fractional seconds are accepted and
/// dropped. `None` on any other shape, or on fields out of range.
pub open spec fn spec_parse_ts(s: Seq<char>) -> Option<Timestamp> {
    if ts_shape(s) && ts_fields(s).wf() {
        Some(ts_fields(s))
    } else {
        None
    }
}

/// Reads the two-digit value at `i`.
fn two_digits(v: &Vec<char>, i: usize) -> (r: Option<u8>)
    requires
        i + 2 <= v@.len(),
    ensures
        r is Some <==> all_digits(v@.subrange(i as int, i as int + 2)),
        r matches Some(x) ==> x == val_of_digits(v@.subrange(i as int, i as int + 2)),
{
    let l = v.len();
    let ghost sub = v@.subrange(i as int, i as int + 2);
    proof {
        assert(sub.len() == 2);
        assert(sub[0] == v@[i as int]);
        assert(sub[1] == v@[i as int + 1]);
        assert(sub.drop_last() =~= seq![v@[i as int]]);
        assert(sub.drop_last().drop_last() =~= Seq::<char>::empty());
        assert(val_of_digits(sub) == 10 * val_of_digits(sub.drop_last()) + digit_val(sub.last()));
        assert(val_of_digits(sub.drop_last()) == 10 * val_of_digits(Seq::<char>::empty())
            + digit_val(sub[0]));
    }
    let c0 = v[i];
    let c1 = v[i + 1];
    if '0' <= c0 && c0 <= '9' && '0' <= c1 && c1 <= '9' {
        let d0 = (c0 as u8) - 48;
        let d1 = (c1 as u8) - 48;
        proof {
            assert(all_digits(sub)) by {
                assert(forall|k: int| 0 <= k < 2 ==> sub[k] == v@[i + k]);
            }
        }
        Some(10 * d0 + d1)
    } else {
        None
    }
}

/// Parses an RFC 3339 UTC instant from characters.
pub fn parse_timestamp(v: &Vec<char>) -> (r: Option<Timestamp>)
    ensures
        r == spec_parse_ts(v@),
        r matches Some(t) ==> t.wf(),
{
    let len = v.len();
    if len < 20 {
        return None;
    }
    if !(v[4] == '-' && v[7] == '-' && v[10] == 'T' && v[13] == ':' && v[16] == ':') {
        return None;
    }
    let y0 = match two_digits(v, 0) {
        Some(x) => x,
        None => {
            proof {
                lemma_ts_sub_split(v@);
            }
            return None;
        },
    };
    let y1 = match two_digits(v, 2) {
        Some(x) => x,
        None => {
            proof {
                lemma_ts_sub_split(v@);
            }
            return None;
        },
    };
    let year: u16 = (y0 as u16) * 100 + (y1 as u16);
    proof {
        lemma_ts_sub_split(v@);
        crate::dec::lemma_val_concat(v@.subrange(0, 2), v@.subrange(2, 4));
        assert(pow10(2) == 100) by {
            reveal_with_fuel(pow10, 3);
        }
    }
    let month = match two_digits(v, 5) {
        Some(x) => x,
        None => {
            return None;
        },
    };
    let day = match two_digits(v, 8) {
        Some(x) => x,
        None => {
            return None;
        },
    };
    let hour = match two_digits(v, 11) {
        Some(x) => x,
        None => {
            return None;
        },
    };
    let minute = match two_digits(v, 14) {
        Some(x) => x,
        None => {
            return None;
        },
    };
    let second = match two_digits(v, 17) {
        Some(x) => x,
        None => {
            return None;
        },
    };
    // the zone, with an optional fraction before it
    let ztart = if v[19] == '.' {
        let e = scan_digits_time(v, 20);
        if e == 20 {
            return None;
        }
        e
    } else {
        19
    };
    let zone_ok = if len - ztart == 1 && v[ztart] == 'Z' {
        true
    } else if len - ztart == 6 && (v[ztart] == '+' || v[ztart] == '-') {
        v[ztart + 1] == '0' && v[ztart + 2] == '0' && v[ztart + 3] == ':' && v[ztart + 4] == '0'
            && v[ztart + 5] == '0'
    } else {
        false
    };
    if !zone_ok {
        return None;
    }
    let t = Timestamp { year, month, day, hour, minute, second };
    if year <= 9999 && 1 <= month && month <= 12 && 1 <= day && day <= month_length(year, month)
        && hour <= 23 && minute <= 59 && second <= 59 {
        Some(t)
    } else {
        None
    }
}

/// The year digits split into two two-digit halves.
proof fn lemma_ts_sub_split(s: Seq<char>)
    requires
        s.len() >= 4,
    ensures
        s.subrange(0, 4) =~= s.subrange(0, 2) + s.subrange(2, 4),
        all_digits(s.subrange(0, 4)) <==> all_digits(s.subrange(0, 2)) && all_digits(
            s.subrange(2, 4),
        ),
{
    assert(forall|k: int| 0 <= k < 2 ==> s.subrange(0, 2)[k] == s.subrange(0, 4)[k]);
    assert(forall|k: int| 0 <= k < 2 ==> s.subrange(2, 4)[k] == s.subrange(0, 4)[k + 2]);
    if all_digits(s.subrange(0, 2)) && all_digits(s.subrange(2, 4)) {
        assert forall|k: int| 0 <= k < 4 implies is_digit_char(#[trigger] s.subrange(0, 4)[k]) by {
            if k < 2 {
                assert(is_digit_char(s.subrange(0, 2)[k]));
            } else {
                assert(is_digit_char(s.subrange(2, 4)[k - 2]));
            }
        }
    }
}

/// Scans digits from `i` (as the decimal module does, on a `Vec`).
fn scan_digits_time(v: &Vec<char>, i: usize) -> (r: usize)
    requires
        i <= v@.len(),
    ensures
        r as int == digits_end(v@, i as int),
        i <= r <= v@.len(),
{
    let mut r = i;
    while r < v.len() && '0' <= v[r] && v[r] <= '9'
        invariant
            i <= r <= v@.len(),
            digits_end(v@, i as int) == digits_end(v@, r as int),
        decreases v@.len() - r,
    {
        r = r + 1;
    }
    r
}

} // verus!
// Writing timestamps out.

verus! {

/// The RFC 3339 text of a timestamp: `YYYY-MM-DDTHH:MM:SSZ`.
pub open spec fn ts_rfc3339_chars(t: Timestamp) -> Seq<char> {
    digits_pad(t.year as nat, 4) + seq!['-'] + digits_pad(t.month as nat, 2) + seq!['-']
        + digits_pad(t.day as nat, 2) + seq!['T'] + digits_pad(t.hour as nat, 2) + seq![':']
        + digits_pad(t.minute as nat, 2) + seq![':'] + digits_pad(t.second as nat, 2) + seq!['Z']
}

/// The plain display text of a UTC timestamp: `YYYY-MM-DD HH:MM:SS UTC`.
pub open spec fn ts_display_chars(t: Timestamp) -> Seq<char> {
    digits_pad(t.year as nat, 4) + seq!['-'] + digits_pad(t.month as nat, 2) + seq!['-']
        + digits_pad(t.day as nat, 2) + seq![' '] + digits_pad(t.hour as nat, 2) + seq![':']
        + digits_pad(t.minute as nat, 2) + seq![':'] + digits_pad(t.second as nat, 2) + seq![
        ' ',
        'U',
        'T',
        'C',
    ]
}

/// The wall-clock text of a timestamp: `HH:MM`.
pub open spec fn hhmm_chars(t: Timestamp) -> Seq<char> {
    digits_pad(t.hour as nat, 2) + seq![':'] + digits_pad(t.minute as nat, 2)
}

pub proof fn lemma_field_widths(t: Timestamp)
    requires
        t.wf(),
    ensures
        t.year < pow10(4),
        t.month < pow10(2),
        t.day < pow10(2),
        t.hour < pow10(2),
        t.minute < pow10(2),
        t.second < pow10(2),
{
    assert(pow10(4) == 10000 && pow10(2) == 100) by {
        reveal_with_fuel(pow10, 5);
    }
}

/// Appends `YYYY-MM-DDTHH:MM:SSZ`.
pub fn push_ts_rfc3339(out: &mut Vec<char>, t: &Timestamp)
    requires
        t.wf(),
    ensures
        final(out)@ == old(out)@ + ts_rfc3339_chars(*t),
{
    proof {
        lemma_field_widths(*t);
    }
    crate::dec::push_digits_pad(out, t.year as u64, 4);
    out.push('-');
    crate::dec::push_digits_pad(out, t.month as u64, 2);
    out.push('-');
    crate::dec::push_digits_pad(out, t.day as u64, 2);
    out.push('T');
    crate::dec::push_digits_pad(out, t.hour as u64, 2);
    out.push(':');
    crate::dec::push_digits_pad(out, t.minute as u64, 2);
    out.push(':');
    crate::dec::push_digits_pad(out, t.second as u64, 2);
    out.push('Z');
    assert(out@ =~= old(out)@ + ts_rfc3339_chars(*t));
}

/// Appends `YYYY-MM-DD HH:MM:SS UTC`.
pub fn push_ts_display(out: &mut Vec<char>, t: &Timestamp)
    requires
        t.wf(),
    ensures
        final(out)@ == old(out)@ + ts_display_chars(*t),
{
    proof {
        lemma_field_widths(*t);
    }
    crate::dec::push_digits_pad(out, t.year as u64, 4);
    out.push('-');
    crate::dec::push_digits_pad(out, t.month as u64, 2);
    out.push('-');
    crate::dec::push_digits_pad(out, t.day as u64, 2);
    out.push(' ');
    crate::dec::push_digits_pad(out, t.hour as u64, 2);
    out.push(':');
    crate::dec::push_digits_pad(out, t.minute as u64, 2);
    out.push(':');
    crate::dec::push_digits_pad(out, t.second as u64, 2);
    out.push(' ');
    out.push('U');
    out.push('T');
    out.push('C');
    assert(out@ =~= old(out)@ + ts_display_chars(*t));
}

/// Appends `HH:MM`.
pub fn push_hhmm(out: &mut Vec<char>, t: &Timestamp)
    requires
        t.wf(),
    ensures
        final(out)@ == old(out)@ + hhmm_chars(*t),
{
    proof {
        lemma_field_widths(*t);
    }
    crate::dec::push_digits_pad(out, t.hour as u64, 2);
    out.push(':');
    crate::dec::push_digits_pad(out, t.minute as u64, 2);
    assert(out@ =~= old(out)@ + hhmm_chars(*t));
}

/// The English name of a weekday, 0 being Sunday.
pub open spec fn weekday_name(w: int) -> Seq<char> {
    if w == 0 {
        "Sunday"@
    } else if w == 1 {
        "Monday"@
    } else if w == 2 {
        "Tuesday"@
    } else if w == 3 {
        "Wednesday"@
    } else if w == 4 {
        "Thursday"@
    } else if w == 5 {
        "Friday"@
    } else {
        "Saturday"@
    }
}

/// The English name of a month, 1 being January.
pub open spec fn month_name(m: int) -> Seq<char> {
    if m == 1 {
        "January"@
    } else if m == 2 {
        "February"@
    } else if m == 3 {
        "March"@
    } else if m == 4 {
        "April"@
    } else if m == 5 {
        "May"@
    } else if m == 6 {
        "June"@
    } else if m == 7 {
        "July"@
    } else if m == 8 {
        "August"@
    } else if m == 9 {
        "September"@
    } else if m == 10 {
        "October"@
    } else if m == 11 {
        "November"@
    } else {
        "December"@
    }
}

/// The English weekday name, executable form.
pub fn weekday_name_str(w: u8) -> (r: &'static str)
    requires
        w < 7,
    ensures
        r@ == weekday_name(w as int),
{
    if w == 0 {
        "Sunday"
    } else if w == 1 {
        "Monday"
    } else if w == 2 {
        "Tuesday"
    } else if w == 3 {
        "Wednesday"
    } else if w == 4 {
        "Thursday"
    } else if w == 5 {
        "Friday"
    } else {
        "Saturday"
    }
}

/// The English month name, executable form.
pub fn month_name_str(m: u8) -> (r: &'static str)
    requires
        1 <= m <= 12,
    ensures
        r@ == month_name(m as int),
{
    if m == 1 {
        "January"
    } else if m == 2 {
        "February"
    } else if m == 3 {
        "March"
    } else if m == 4 {
        "April"
    } else if m == 5 {
        "May"
    } else if m == 6 {
        "June"
    } else if m == 7 {
        "July"
    } else if m == 8 {
        "August"
    } else if m == 9 {
        "September"
    } else if m == 10 {
        "October"
    } else if m == 11 {
        "November"
    } else {
        "December"
    }
}

} // verus!
// The written form of a timestamp reads back as the same timestamp.

verus! {

/// Writing a valid timestamp and parsing the text gives the timestamp back.
pub proof fn lemma_ts_roundtrip(t: Timestamp)
    requires
        t.wf(),
    ensures
        spec_parse_ts(ts_rfc3339_chars(t)) == Some(t),
{
    lemma_field_widths(t);
    lemma_digits_pad_props(t.year as nat, 4);
    lemma_digits_pad_props(t.month as nat, 2);
    lemma_digits_pad_props(t.day as nat, 2);
    lemma_digits_pad_props(t.hour as nat, 2);
    lemma_digits_pad_props(t.minute as nat, 2);
    lemma_digits_pad_props(t.second as nat, 2);
    let s = ts_rfc3339_chars(t);
    let y = digits_pad(t.year as nat, 4);
    let mo = digits_pad(t.month as nat, 2);
    let d = digits_pad(t.day as nat, 2);
    let h = digits_pad(t.hour as nat, 2);
    let mi = digits_pad(t.minute as nat, 2);
    let sec = digits_pad(t.second as nat, 2);
    assert(s.len() == 20);
    assert(s.subrange(0, 4) =~= y);
    assert(s[4] == '-');
    assert(s.subrange(5, 7) =~= mo);
    assert(s[7] == '-');
    assert(s.subrange(8, 10) =~= d);
    assert(s[10] == 'T');
    assert(s.subrange(11, 13) =~= h);
    assert(s[13] == ':');
    assert(s.subrange(14, 16) =~= mi);
    assert(s[16] == ':');
    assert(s.subrange(17, 19) =~= sec);
    assert(s[19] == 'Z');
    assert(!is_digit_char('Z'));
    assert(zone_at(s, 19));
    assert(s[19] != '.');
    assert(ts_shape(s));
    assert(ts_fields(s) == t);
}

} // verus!
