//! Rendering one forecast event as a human-readable block: a bucketed time
//! label, the condition description, and one aligned line per measurement.
//!
//! The wall-clock now (`locale_now`) and the UTC now (`now`) come in as
//! parameters; their difference is the zone offset, and the event's time is
//! shifted by it before bucketing. Rendering is pure formatting.

use vstd::prelude::*;

use crate::dec::{dec_chars, Dec};
use crate::errors::LookupError;
use crate::model::{
    measurement_of, scalar_of, Event, EventV, Measurement, MeasurementV,
};
use crate::time::{
    day_number, days_before_month, days_before_year, days_in_month, epoch_seconds, hhmm_chars,
    hours_between, month_name, weekday_name, weekday_of, Timestamp,
};
use crate::weather::{description_of, status_of_code, valid_weather_code};

verus! {

/// A run of spaces.
pub open spec fn spaces(n: nat) -> Seq<char>
    decreases n,
{
    if n == 0 {
        Seq::empty()
    } else {
        spaces((n - 1) as nat).push(' ')
    }
}

/// One measurement line: `symbol name: value-right-aligned unit`, the value
/// aligned in a column of width thirty less the label length (never less
/// than zero).
pub open spec fn measurement_chars(m: MeasurementV) -> Seq<char> {
    let val = dec_chars(m.value);
    let width: int = if m.name.len() <= 30 {
        30 - m.name.len()
    } else {
        0
    };
    let pad: int = if val.len() < width {
        width - val.len()
    } else {
        0
    };
    m.symbol + seq![' '] + m.name + seq![':', ' '] + spaces(pad as nat) + val + m.unit
}

/// Appends `n` spaces.
fn push_spaces(out: &mut Vec<char>, n: usize)
    ensures
        final(out)@ == old(out)@ + spaces(n as nat),
    decreases n,
{
    let mut k: usize = 0;
    while k < n
        invariant
            0 <= k <= n,
            out@ == old(out)@ + spaces(k as nat),
        decreases n - k,
    {
        out.push(' ');
        k = k + 1;
    }
}

impl Event {
    /// Formats one measurement line.
    pub fn format_measurement(m: Measurement) -> (r: String)
        requires
            m.value.wf(),
        ensures
            r@ == measurement_chars(m@),
    {
        let mut out: Vec<char> = crate::text::str_to_chars(m.symbol.as_str());
        out.push(' ');
        let mut name = crate::text::str_to_chars(m.name.as_str());
        let name_len = name.len();
        out.append(&mut name);
        out.push(':');
        out.push(' ');
        let mut val: Vec<char> = Vec::new();
        crate::dec::push_dec_chars(&mut val, &m.value);
        let width: usize = if name_len <= 30 {
            30 - name_len
        } else {
            0
        };
        let pad: usize = if val.len() < width {
            width - val.len()
        } else {
            0
        };
        push_spaces(&mut out, pad);
        out.append(&mut val);
        let mut unit = crate::text::str_to_chars(m.unit.as_str());
        out.append(&mut unit);
        proof {
            assert(out@ =~= measurement_chars(m@));
        }
        crate::text::chars_to_string(&out)
    }
}

/// The day of month as the `%e` form writes it: space-padded to two columns.
pub open spec fn day_pad_chars(day: int) -> Seq<char> {
    if day < 10 {
        seq![' '] + crate::dec::digits_of(day as nat)
    } else {
        crate::dec::digits_of(day as nat)
    }
}

/// The time block of an event: the local wall-clock time, then `Today`,
/// `Tomorrow`, or the full weekday and date, chosen by the whole hours from
/// the local now to the event. Past events fall into the full form on
/// purpose.
pub open spec fn time_block_chars(local: Timestamp, dh: int) -> Seq<char> {
    let head = seq!['🕐', ' '] + hhmm_chars(local) + seq!['\n'];
    let label: Seq<char> = if 0 <= dh <= 24 {
        "Today"@
    } else if 25 <= dh <= 48 {
        "Tomorrow"@
    } else {
        weekday_name(weekday_of(local)) + seq![',', ' '] + month_name(local.month as int) + seq![
            ' ',
        ] + day_pad_chars(local.day as int)
    };
    head + label + seq!['\n']
}

/// Two valid timestamps at the same instant are the same timestamp.
pub proof fn lemma_epoch_injective(a: Timestamp, b: Timestamp)
    requires
        a.wf(),
        b.wf(),
        epoch_seconds(a) == epoch_seconds(b),
    ensures
        a == b,
{
    lemma_day_fields(a);
    lemma_day_fields(b);
    assert(day_number(a) * 86400 == day_number(b) * 86400 && a.hour == b.hour && a.minute
        == b.minute && a.second == b.second) by {
        let sa = (a.hour * 3600 + a.minute * 60 + a.second) as int;
        let sb = (b.hour * 3600 + b.minute * 60 + b.second) as int;
        assert(0 <= sa < 86400 && 0 <= sb < 86400);
        vstd::arithmetic::div_mod::lemma_fundamental_div_mod_converse(
            epoch_seconds(a),
            86400,
            day_number(a),
            sa,
        );
        vstd::arithmetic::div_mod::lemma_fundamental_div_mod_converse(
            epoch_seconds(b),
            86400,
            day_number(b),
            sb,
        );
        assert(sa % 3600 == sb % 3600 && sa / 3600 == sb / 3600) by {
            vstd::arithmetic::div_mod::lemma_fundamental_div_mod_converse(
                sa,
                3600,
                a.hour as int,
                (a.minute * 60 + a.second) as int,
            );
            vstd::arithmetic::div_mod::lemma_fundamental_div_mod_converse(
                sb,
                3600,
                b.hour as int,
                (b.minute * 60 + b.second) as int,
            );
        }
        vstd::arithmetic::div_mod::lemma_fundamental_div_mod_converse(
            (a.minute * 60 + a.second) as int,
            60,
            a.minute as int,
            a.second as int,
        );
        vstd::arithmetic::div_mod::lemma_fundamental_div_mod_converse(
            (b.minute * 60 + b.second) as int,
            60,
            b.minute as int,
            b.second as int,
        );
    }
    assert(day_number(a) == day_number(b));
    lemma_day_number_injective(a, b);
}

/// The date fields are recoverable from the day number.
proof fn lemma_day_fields(t: Timestamp)
    requires
        t.wf(),
    ensures
        days_before_year(t.year as int) <= day_number(t) < days_before_year(t.year as int + 1),
        days_before_month(t.year as int, t.month as int) <= day_number(t) - days_before_year(
            t.year as int,
        ) < days_before_month(t.year as int, t.month as int + 1),
{
    crate::time::lemma_days_before_month_13(t.year as int);
    lemma_dbm_mono(t.year as int, t.month as int + 1, 13);
    crate::time::lemma_days_before_month_bounds(t.year as int, t.month as int);
}

/// `days_before_month` grows with the month.
proof fn lemma_dbm_mono(y: int, m1: int, m2: int)
    requires
        1 <= m1 <= m2,
    ensures
        days_before_month(y, m1) <= days_before_month(y, m2),
    decreases m2 - m1,
{
    if m1 < m2 {
        lemma_dbm_mono(y, m1, m2 - 1);
    }
}

/// `days_before_year` grows with the year.
proof fn lemma_dby_mono(y1: int, y2: int)
    requires
        y1 <= y2,
    ensures
        days_before_year(y1) <= days_before_year(y2),
    decreases y2 - y1,
{
    if y1 < y2 {
        lemma_dby_mono(y1, y2 - 1);
    }
}

/// Valid dates with the same day number are the same date.
proof fn lemma_day_number_injective(a: Timestamp, b: Timestamp)
    requires
        a.wf(),
        b.wf(),
        day_number(a) == day_number(b),
    ensures
        a.year == b.year && a.month == b.month && a.day == b.day,
{
    lemma_day_fields(a);
    lemma_day_fields(b);
    assert(a.year == b.year) by {
        if a.year < b.year {
            lemma_dby_mono(a.year as int + 1, b.year as int);
        }
        if b.year < a.year {
            lemma_dby_mono(b.year as int + 1, a.year as int);
        }
    }
    assert(a.month == b.month) by {
        if a.month < b.month {
            lemma_dbm_mono(a.year as int, a.month as int + 1, b.month as int);
        }
        if b.month < a.month {
            lemma_dbm_mono(a.year as int, b.month as int + 1, a.month as int);
        }
    }
}

impl Event {
    /// The time block of this event, bucketed against the local now.
    /// `now` and `locale_now` are the same instant on the two clocks; their
    /// difference is the zone offset.
    pub fn format_time(&self, now: &Timestamp, locale_now: &Timestamp) -> (r: String)
        requires
            self.valid_time.wf(),
            now.wf(),
            locale_now.wf(),
            -86400 <= epoch_seconds(*locale_now) - epoch_seconds(*now) <= 86400,
            0 <= epoch_seconds(self.valid_time) + (epoch_seconds(*locale_now) - epoch_seconds(
                *now,
            )) <= epoch_seconds(crate::time::ts_last()),
        ensures
            forall|local: Timestamp|
                local.wf() && epoch_seconds(local) == epoch_seconds(self.valid_time) + (
                epoch_seconds(*locale_now) - epoch_seconds(*now)) ==> r@ == time_block_chars(
                    local,
                    hours_between(local, *locale_now),
                ),
    {
        proof {
            crate::time::lemma_day_number_bounds(*now);
            crate::time::lemma_day_number_bounds(*locale_now);
        }
        let en = crate::time::to_epoch_seconds(now);
        let el = crate::time::to_epoch_seconds(locale_now);
        let off: i64 = (el as i64) - (en as i64);
        let local = crate::time::add_seconds(&self.valid_time, off);
        let dh = crate::time::delta_hours(&local, locale_now);
        let mut out: Vec<char> = Vec::new();
        out.push('🕐');
        out.push(' ');
        crate::time::push_hhmm(&mut out, &local);
        out.push('\n');
        if 0 <= dh && dh <= 24 {
            let mut lab = crate::text::str_to_chars("Today");
            out.append(&mut lab);
        } else if 25 <= dh && dh <= 48 {
            let mut lab = crate::text::str_to_chars("Tomorrow");
            out.append(&mut lab);
        } else {
            let w = crate::time::weekday(&local);
            let mut wn = crate::text::str_to_chars(crate::time::weekday_name_str(w));
            out.append(&mut wn);
            out.push(',');
            out.push(' ');
            let mut mn = crate::text::str_to_chars(crate::time::month_name_str(local.month));
            out.append(&mut mn);
            out.push(' ');
            if local.day < 10 {
                out.push(' ');
            }
            crate::dec::push_digits(&mut out, local.day as u64);
        }
        out.push('\n');
        proof {
            assert forall|l2: Timestamp|
                l2.wf() && epoch_seconds(l2) == epoch_seconds(self.valid_time) + (epoch_seconds(
                    *locale_now,
                ) - epoch_seconds(*now)) implies out@ == time_block_chars(
                l2,
                hours_between(l2, *locale_now),
            ) by {
                lemma_epoch_injective(l2, local);
                assert(out@ =~= time_block_chars(local, dh as int));
            }
        }
        crate::text::chars_to_string(&out)
    }
}

/// Everything the rendered block needs is present in the event: a weather
/// code in the valid range, and the five displayed measurements.
pub open spec fn render_ok(e: EventV) -> bool {
    &&& crate::model::weather_code_of(e) matches Some(c) && valid_weather_code(c)
    &&& scalar_of(e, "t"@) is Some
    &&& scalar_of(e, "ws"@) is Some
    &&& scalar_of(e, "wd"@) is Some
    &&& scalar_of(e, "r"@) is Some
    &&& scalar_of(e, "pmean"@) is Some
}

/// The whole rendered block of an event: the time block, the condition
/// description, and the five measurement lines, each line ended.
pub open spec fn render_chars(e: EventV, local: Timestamp, dh: int) -> Seq<char> {
    time_block_chars(local, dh) + seq!['\n'] + description_of(
        status_of_code(crate::model::weather_code_of(e)->Some_0),
    ) + seq!['\n'] + measurement_chars(
        measurement_of(e, "t"@, "🌡️"@, "Temperature"@, "C"@)->Some_0,
    ) + seq!['\n'] + measurement_chars(
        measurement_of(e, "ws"@, "💨"@, "Wind speed"@, "m/s"@)->Some_0,
    ) + seq!['\n'] + measurement_chars(
        measurement_of(e, "wd"@, "🧭"@, "Wind direction"@, "°"@)->Some_0,
    ) + seq!['\n'] + measurement_chars(
        measurement_of(e, "r"@, "💧"@, "Humidity"@, "%"@)->Some_0,
    ) + seq!['\n'] + measurement_chars(
        measurement_of(e, "pmean"@, "🌧️"@, "Precipation"@, "mm/h"@)->Some_0,
    ) + seq!['\n']
}

impl Event {
    /// Renders this event as its display block; an error names the first
    /// thing the event lacks.
    pub fn render(&self, now: &Timestamp, locale_now: &Timestamp) -> (r: Result<
        String,
        LookupError,
    >)
        requires
            self@.wf(),
            now.wf(),
            locale_now.wf(),
            -86400 <= epoch_seconds(*locale_now) - epoch_seconds(*now) <= 86400,
            0 <= epoch_seconds(self.valid_time) + (epoch_seconds(*locale_now) - epoch_seconds(
                *now,
            )) <= epoch_seconds(crate::time::ts_last()),
        ensures
            r is Ok <==> render_ok(self@),
            forall|local: Timestamp|
                local.wf() && epoch_seconds(local) == epoch_seconds(self.valid_time) + (
                epoch_seconds(*locale_now) - epoch_seconds(*now)) ==> (r matches Ok(s) ==> s@
                    == render_chars(self@, local, hours_between(local, *locale_now))),
    {
        let status = self.weatherstatus()?;
        let temperature = self.temperature()?;
        let wind_speed = self.wind_speed()?;
        let wind_direction = self.wind_direction()?;
        let humidity = self.humidity()?;
        let precipation = self.precipation()?;
        proof {
            crate::model::lemma_scalar_wf(self@, "t"@);
            crate::model::lemma_scalar_wf(self@, "ws"@);
            crate::model::lemma_scalar_wf(self@, "wd"@);
            crate::model::lemma_scalar_wf(self@, "r"@);
            crate::model::lemma_scalar_wf(self@, "pmean"@);
        }
        let time_block = self.format_time(now, locale_now);
        let mut out: Vec<char> = crate::text::str_to_chars(time_block.as_str());
        out.push('\n');
        let mut part = crate::text::str_to_chars(status.description().as_str());
        out.append(&mut part);
        out.push('\n');
        let mut part = crate::text::str_to_chars(Event::format_measurement(temperature).as_str());
        out.append(&mut part);
        out.push('\n');
        let mut part = crate::text::str_to_chars(Event::format_measurement(wind_speed).as_str());
        out.append(&mut part);
        out.push('\n');
        let mut part = crate::text::str_to_chars(
            Event::format_measurement(wind_direction).as_str(),
        );
        out.append(&mut part);
        out.push('\n');
        let mut part = crate::text::str_to_chars(Event::format_measurement(humidity).as_str());
        out.append(&mut part);
        out.push('\n');
        let mut part = crate::text::str_to_chars(Event::format_measurement(precipation).as_str());
        out.append(&mut part);
        out.push('\n');
        proof {
            assert forall|local: Timestamp|
                local.wf() && epoch_seconds(local) == epoch_seconds(self.valid_time) + (
                epoch_seconds(*locale_now) - epoch_seconds(*now)) implies out@ == render_chars(
                self@,
                local,
                hours_between(local, *locale_now),
            ) by {
                assert(time_block@ == time_block_chars(local, hours_between(local, *locale_now)));
                assert(out@ =~= render_chars(self@, local, hours_between(local, *locale_now)));
            }
        }
        Ok(crate::text::chars_to_string(&out))
    }
}

/// The bucketing law: with the local now fixed, an event three hours ahead
/// renders under `Today`, thirty hours ahead under `Tomorrow`, and
/// seventy-two hours ahead, or five hours in the past, under the full
/// weekday-and-date form.
pub proof fn lemma_time_buckets(local: Timestamp, locale_now: Timestamp)
    requires
        local.wf(),
        locale_now.wf(),
    ensures
        epoch_seconds(local) == epoch_seconds(locale_now) + 3 * 3600 ==> time_block_chars(
            local,
            hours_between(local, locale_now),
        ) == seq!['🕐', ' '] + hhmm_chars(local) + seq!['\n'] + "Today"@ + seq!['\n'],
        epoch_seconds(local) == epoch_seconds(locale_now) + 30 * 3600 ==> time_block_chars(
            local,
            hours_between(local, locale_now),
        ) == seq!['🕐', ' '] + hhmm_chars(local) + seq!['\n'] + "Tomorrow"@ + seq!['\n'],
        epoch_seconds(local) == epoch_seconds(locale_now) + 72 * 3600 ==> time_block_chars(
            local,
            hours_between(local, locale_now),
        ) == seq!['🕐', ' '] + hhmm_chars(local) + seq!['\n'] + (weekday_name(weekday_of(local))
            + seq![',', ' '] + month_name(local.month as int) + seq![' '] + day_pad_chars(
            local.day as int,
        )) + seq!['\n'],
        epoch_seconds(local) == epoch_seconds(locale_now) - 5 * 3600 ==> time_block_chars(
            local,
            hours_between(local, locale_now),
        ) == seq!['🕐', ' '] + hhmm_chars(local) + seq!['\n'] + (weekday_name(weekday_of(local))
            + seq![',', ' '] + month_name(local.month as int) + seq![' '] + day_pad_chars(
            local.day as int,
        )) + seq!['\n'],
{
    if epoch_seconds(local) == epoch_seconds(locale_now) + 3 * 3600 {
        assert(hours_between(local, locale_now) == 3);
    }
    if epoch_seconds(local) == epoch_seconds(locale_now) + 30 * 3600 {
        assert(hours_between(local, locale_now) == 30);
    }
    if epoch_seconds(local) == epoch_seconds(locale_now) + 72 * 3600 {
        assert(hours_between(local, locale_now) == 72);
    }
    if epoch_seconds(local) == epoch_seconds(locale_now) - 5 * 3600 {
        assert(hours_between(local, locale_now) == -5);
    }
}

} // verus!
