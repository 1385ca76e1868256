//! The typed forecast model: a report of events, each carrying named
//! datapoints, and the measurement accessors over them.

use vstd::prelude::*;

use crate::dec::Dec;
use crate::errors::{IndexError, LookupError};
use crate::time::Timestamp;
use crate::weather::{status_of_code, valid_weather_code, WeatherStatus};

verus! {

use vstd::string::StrSliceExecFns;


/// One named forecast parameter at a vertical level.
#[derive(PartialEq, Eq, Debug)]
pub struct Datapoint {
    pub name: String,
    pub level_type: String,
    pub level: i32,
    pub unit: String,
    pub values: Vec<Dec>,
}

/// The mathematical value of a datapoint.
pub struct DatapointV {
    pub name: Seq<char>,
    pub level_type: Seq<char>,
    pub level: i32,
    pub unit: Seq<char>,
    pub values: Seq<Dec>,
}

impl View for Datapoint {
    type V = DatapointV;

    open spec fn view(&self) -> DatapointV {
        DatapointV {
            name: self.name@,
            level_type: self.level_type@,
            level: self.level,
            unit: self.unit@,
            values: self.values@,
        }
    }
}

impl DatapointV {
    /// Every value is a well-formed decimal.
    pub open spec fn wf(self) -> bool {
        forall|i: int| 0 <= i < self.values.len() ==> (#[trigger] self.values[i]).wf()
    }
}

/// One forecast time step.
#[derive(PartialEq, Eq, Debug)]
pub struct Event {
    pub valid_time: Timestamp,
    pub parameters: Vec<Datapoint>,
}

/// The mathematical value of an event.
pub struct EventV {
    pub valid_time: Timestamp,
    pub parameters: Seq<DatapointV>,
}

impl View for Event {
    type V = EventV;

    open spec fn view(&self) -> EventV {
        EventV {
            valid_time: self.valid_time,
            parameters: Seq::new(self.parameters@.len(), |i: int| self.parameters@[i]@),
        }
    }
}

impl EventV {
    /// The time is a valid instant and every datapoint is well-formed.
    pub open spec fn wf(self) -> bool {
        &&& self.valid_time.wf()
        &&& forall|i: int| 0 <= i < self.parameters.len() ==> (#[trigger] self.parameters[i]).wf()
    }
}

/// The bounding shape around the queried point.
#[derive(PartialEq, Eq, Debug)]
pub struct Location {
    pub dtype: String,
    pub coordinates: Vec<Vec<Dec>>,
}

/// The mathematical value of a location.
pub struct LocationV {
    pub dtype: Seq<char>,
    pub coordinates: Seq<Seq<Dec>>,
}

impl View for Location {
    type V = LocationV;

    open spec fn view(&self) -> LocationV {
        LocationV {
            dtype: self.dtype@,
            coordinates: Seq::new(self.coordinates@.len(), |i: int| self.coordinates@[i]@),
        }
    }
}

impl LocationV {
    pub open spec fn wf(self) -> bool {
        forall|i: int, k: int|
            0 <= i < self.coordinates.len() && 0 <= k < self.coordinates[i].len() ==> (
            #[trigger] self.coordinates[i][k]).wf()
    }
}

/// A whole decoded forecast document.
#[derive(PartialEq, Eq, Debug)]
pub struct Report {
    pub approved_time: Timestamp,
    pub reference_time: Timestamp,
    pub geometry: Location,
    pub time_series: Vec<Event>,
}

/// The mathematical value of a report.
pub struct ReportV {
    pub approved_time: Timestamp,
    pub reference_time: Timestamp,
    pub geometry: LocationV,
    pub time_series: Seq<EventV>,
}

impl View for Report {
    type V = ReportV;

    open spec fn view(&self) -> ReportV {
        ReportV {
            approved_time: self.approved_time,
            reference_time: self.reference_time,
            geometry: self.geometry@,
            time_series: Seq::new(self.time_series@.len(), |i: int| self.time_series@[i]@),
        }
    }
}

impl ReportV {
    pub open spec fn wf(self) -> bool {
        &&& self.approved_time.wf()
        &&& self.reference_time.wf()
        &&& self.geometry.wf()
        &&& forall|i: int|
            0 <= i < self.time_series.len() ==> (#[trigger] self.time_series[i]).wf()
    }
}

/// Characterwise string-slice equality.
pub fn str_eq(a: &str, b: &str) -> (r: bool)
    ensures
        r == (a@ == b@),
{
    let n = a.unicode_len();
    let m = b.unicode_len();
    if n != m {
        return false;
    }
    let mut i: usize = 0;
    while i < n
        invariant
            0 <= i <= n,
            n == a@.len() == b@.len(),
            forall|k: int| 0 <= k < i ==> a@[k] == b@[k],
        decreases n - i,
    {
        if a.get_char(i) != b.get_char(i) {
            return false;
        }
        i = i + 1;
    }
    proof {
        assert(a@ =~= b@);
    }
    true
}

/// The first datapoint of a given name, scanned in order.
pub open spec fn first_param(ps: Seq<DatapointV>, name: Seq<char>) -> Option<DatapointV>
    decreases ps.len(),
{
    if ps.len() == 0 {
        None
    } else if ps[0].name == name {
        Some(ps[0])
    } else {
        first_param(ps.drop_first(), name)
    }
}

/// The first value of the named datapoint, when both exist.
pub open spec fn scalar_of(e: EventV, name: Seq<char>) -> Option<Dec> {
    match first_param(e.parameters, name) {
        None => None,
        Some(d) => if d.values.len() == 0 {
            None
        } else {
            Some(d.values[0])
        },
    }
}

/// A transient rendering value: one measurement with its symbol, label,
/// value and unit.
#[derive(PartialEq, Eq, Debug)]
pub struct Measurement {
    pub symbol: String,
    pub name: String,
    pub value: Dec,
    pub unit: String,
}

/// The mathematical value of a measurement.
pub struct MeasurementV {
    pub symbol: Seq<char>,
    pub name: Seq<char>,
    pub value: Dec,
    pub unit: Seq<char>,
}

impl View for Measurement {
    type V = MeasurementV;

    open spec fn view(&self) -> MeasurementV {
        MeasurementV {
            symbol: self.symbol@,
            name: self.name@,
            value: self.value,
            unit: self.unit@,
        }
    }
}

/// The measurement an accessor yields: a fixed symbol, label and unit around
/// the named scalar.
pub open spec fn measurement_of(
    e: EventV,
    param: Seq<char>,
    symbol: Seq<char>,
    label: Seq<char>,
    unit: Seq<char>,
) -> Option<MeasurementV> {
    match scalar_of(e, param) {
        None => None,
        Some(v) => Some(MeasurementV { symbol: symbol, name: label, value: v, unit: unit }),
    }
}

impl Event {
    /// The first datapoint named `name`, if any.
    pub fn find_parameter(&self, name: &str) -> (r: Option<&Datapoint>)
        ensures
            match r {
                Some(d) => first_param(self@.parameters, name@) == Some(d@) && exists|i: int|
                    first_param_witness(self@.parameters, d@, i),
                None => first_param(self@.parameters, name@) is None,
            },
    {
        let ghost ps = self@.parameters;
        proof {
            assert(ps.subrange(0, ps.len() as int) =~= ps);
        }
        let mut i: usize = 0;
        while i < self.parameters.len()
            invariant
                0 <= i <= self.parameters@.len(),
                ps == self@.parameters,
                ps.len() == self.parameters@.len(),
                forall|k: int| 0 <= k < ps.len() ==> ps[k] == self.parameters@[k]@,
                first_param(ps, name@) == first_param(
                    ps.subrange(i as int, ps.len() as int),
                    name@,
                ),
            decreases self.parameters@.len() - i,
        {
            let ghost tail = ps.subrange(i as int, ps.len() as int);
            proof {
                assert(tail[0] == ps[i as int]);
                assert(tail.drop_first() =~= ps.subrange(i as int + 1, ps.len() as int));
            }
            if str_eq(self.parameters[i].name.as_str(), name) {
                proof {
                    assert(first_param_witness(ps, ps[i as int], i as int));
                }
                return Some(&self.parameters[i]);
            }
            i = i + 1;
        }
        proof {
            assert(ps.subrange(ps.len() as int, ps.len() as int) =~= Seq::<DatapointV>::empty());
        }
        None
    }

    /// The first value of the named datapoint: `MissingParameter` when no
    /// datapoint has the name or the named one carries no values.
    pub fn scalar(&self, name: &str) -> (r: Result<Dec, LookupError>)
        ensures
            r == match scalar_of(self@, name@) {
                Some(v) => Result::<Dec, LookupError>::Ok(v),
                None => Result::<Dec, LookupError>::Err(LookupError::MissingParameter),
            },
    {
        match self.find_parameter(name) {
            None => Err(LookupError::MissingParameter),
            Some(d) => {
                if d.values.len() == 0 {
                    Err(LookupError::MissingParameter)
                } else {
                    Ok(d.values[0])
                }
            },
        }
    }

    /// Air temperature, in Celsius.
    pub fn temperature(&self) -> (r: Result<Measurement, LookupError>)
        ensures
            r matches Ok(m) ==> measurement_of(self@, "t"@, "🌡️"@, "Temperature"@, "C"@)
                == Some(m@),
            r is Err <==> scalar_of(self@, "t"@) is None,
            r matches Err(e) ==> e == LookupError::MissingParameter,
    {
        let v = self.scalar("t")?;
        Ok(Measurement {
            symbol: "🌡️".to_owned(),
            name: "Temperature".to_owned(),
            value: v,
            unit: "C".to_owned(),
        })
    }

    /// Wind speed, in meters per second.
    pub fn wind_speed(&self) -> (r: Result<Measurement, LookupError>)
        ensures
            r matches Ok(m) ==> measurement_of(self@, "ws"@, "💨"@, "Wind speed"@, "m/s"@)
                == Some(m@),
            r is Err <==> scalar_of(self@, "ws"@) is None,
            r matches Err(e) ==> e == LookupError::MissingParameter,
    {
        let v = self.scalar("ws")?;
        Ok(Measurement {
            symbol: "💨".to_owned(),
            name: "Wind speed".to_owned(),
            value: v,
            unit: "m/s".to_owned(),
        })
    }

    /// Wind direction: degrees, measured clockwise from south.
    pub fn wind_direction(&self) -> (r: Result<Measurement, LookupError>)
        ensures
            r matches Ok(m) ==> measurement_of(self@, "wd"@, "🧭"@, "Wind direction"@, "°"@)
                == Some(m@),
            r is Err <==> scalar_of(self@, "wd"@) is None,
            r matches Err(e) ==> e == LookupError::MissingParameter,
    {
        let v = self.scalar("wd")?;
        Ok(Measurement {
            symbol: "🧭".to_owned(),
            name: "Wind direction".to_owned(),
            value: v,
            unit: "°".to_owned(),
        })
    }

    /// Relative humidity, in percent.
    pub fn humidity(&self) -> (r: Result<Measurement, LookupError>)
        ensures
            r matches Ok(m) ==> measurement_of(self@, "r"@, "💧"@, "Humidity"@, "%"@) == Some(m@),
            r is Err <==> scalar_of(self@, "r"@) is None,
            r matches Err(e) ==> e == LookupError::MissingParameter,
    {
        let v = self.scalar("r")?;
        Ok(Measurement {
            symbol: "💧".to_owned(),
            name: "Humidity".to_owned(),
            value: v,
            unit: "%".to_owned(),
        })
    }

    /// Mean precipitation, in millimeters per hour. The name keeps the
    /// spelling its callers use.
    pub fn precipation(&self) -> (r: Result<Measurement, LookupError>)
        ensures
            r matches Ok(m) ==> measurement_of(self@, "pmean"@, "🌧️"@, "Precipation"@, "mm/h"@)
                == Some(m@),
            r is Err <==> scalar_of(self@, "pmean"@) is None,
            r matches Err(e) ==> e == LookupError::MissingParameter,
    {
        let v = self.scalar("pmean")?;
        Ok(Measurement {
            symbol: "🌧️".to_owned(),
            name: "Precipation".to_owned(),
            value: v,
            unit: "mm/h".to_owned(),
        })
    }

    /// Wind gust speed, in meters per second.
    pub fn wind_gust_speed(&self) -> (r: Result<Measurement, LookupError>)
        ensures
            r matches Ok(m) ==> measurement_of(self@, "gust"@, "🌪️"@, "Gust speed"@, "m/s"@)
                == Some(m@),
            r is Err <==> scalar_of(self@, "gust"@) is None,
            r matches Err(e) ==> e == LookupError::MissingParameter,
    {
        let v = self.scalar("gust")?;
        Ok(Measurement {
            symbol: "🌪️".to_owned(),
            name: "Gust speed".to_owned(),
            value: v,
            unit: "m/s".to_owned(),
        })
    }
}

/// The datapoint the weather code is read from: the one named `Wsymb2`, or,
/// as a fallback for documents without that name, the one at the fixed
/// position the source schema places it at.
pub open spec fn code_datapoint(e: EventV) -> Option<DatapointV> {
    match first_param(e.parameters, "Wsymb2"@) {
        Some(d) => Some(d),
        None => if e.parameters.len() > 18 {
            Some(e.parameters[18])
        } else {
            None
        },
    }
}

/// The numeric weather code of an event: the first value of the code
/// datapoint, truncated to an integer.
pub open spec fn weather_code_of(e: EventV) -> Option<int> {
    match code_datapoint(e) {
        None => None,
        Some(d) => if d.values.len() == 0 {
            None
        } else {
            Some(
                if d.values[0].neg {
                    0
                } else {
                    d.values[0].spec_trunc_mag() as int
                },
            )
        },
    }
}

impl Event {
    /// The weather condition coded in this event: `MissingParameter` when no
    /// code datapoint is present, `InvalidCode` when the code lies outside
    /// the table.
    pub fn weatherstatus(&self) -> (r: Result<WeatherStatus, LookupError>)
        requires
            self@.wf(),
        ensures
            r == match weather_code_of(self@) {
                None => Result::<WeatherStatus, LookupError>::Err(LookupError::MissingParameter),
                Some(c) => if valid_weather_code(c) {
                    Result::<WeatherStatus, LookupError>::Ok(status_of_code(c))
                } else {
                    Result::<WeatherStatus, LookupError>::Err(LookupError::InvalidCode)
                },
            },
    {
        let ghost ps = self@.parameters;
        let d: &Datapoint = match self.find_parameter("Wsymb2") {
            Some(d) => {
                proof {
                    let i = lemma_first_param_member(ps, "Wsymb2"@);
                    assert(ps[i].wf());
                }
                d
            },
            None => {
                if self.parameters.len() > 18 {
                    proof {
                        assert(ps[18] == self.parameters@[18]@);
                        assert(ps[18].wf());
                    }
                    &self.parameters[18]
                } else {
                    return Err(LookupError::MissingParameter);
                }
            },
        };
        if d.values.len() == 0 {
            return Err(LookupError::MissingParameter);
        }
        let code = d.values[0].trunc_to_u64();
        if 1 <= code && code <= 27 {
            WeatherStatus::from(code as usize)
        } else {
            Err(LookupError::InvalidCode)
        }
    }
}

/// Membership shape of a found datapoint, for the well-formedness of its
/// values.
pub open spec fn first_param_witness(ps: Seq<DatapointV>, d: DatapointV, i: int) -> bool {
    0 <= i < ps.len() && ps[i] == d
}

/// What `first_param` finds is a member of the sequence: the index it
/// stands at.
pub proof fn lemma_first_param_member(ps: Seq<DatapointV>, name: Seq<char>) -> (i: int)
    ensures
        first_param(ps, name) is Some ==> first_param_witness(
            ps,
            first_param(ps, name)->Some_0,
            i,
        ),
    decreases ps.len(),
{
    if ps.len() > 0 && ps[0].name != name {
        let i = lemma_first_param_member(ps.drop_first(), name);
        if first_param(ps, name) is Some {
            assert(ps.drop_first()[i] == ps[i + 1]);
            i + 1
        } else {
            0
        }
    } else {
        0
    }
}

/// In a well-formed event, a found scalar is a well-formed decimal.
pub proof fn lemma_scalar_wf(e: EventV, name: Seq<char>)
    requires
        e.wf(),
        scalar_of(e, name) is Some,
    ensures
        scalar_of(e, name)->Some_0.wf(),
{
    let i = lemma_first_param_member(e.parameters, name);
    assert(e.parameters[i].wf());
}

impl Report {
    /// A copy of the decoded events, in their original order.
    pub fn get_events(&self) -> (r: Vec<Event>)
        ensures
            r@.len() == self@.time_series.len(),
            forall|i: int| 0 <= i < r@.len() ==> #[trigger] r@[i]@ == self@.time_series[i],
    {
        let mut out: Vec<Event> = Vec::new();
        let mut i: usize = 0;
        while i < self.time_series.len()
            invariant
                0 <= i <= self.time_series@.len(),
                out@.len() == i,
                forall|k: int| 0 <= k < i ==> #[trigger] out@[k]@ == self@.time_series[k],
            decreases self.time_series@.len() - i,
        {
            out.push(clone_event(&self.time_series[i]));
            i = i + 1;
        }
        out
    }

    /// The event at `index`, bounds-checked.
    pub fn get_event(&self, index: usize) -> (r: Result<Event, IndexError>)
        ensures
            index < self@.time_series.len() ==> (r matches Ok(e) && e@
                == self@.time_series[index as int]),
            index >= self@.time_series.len() ==> r == Result::<Event, IndexError>::Err(
                IndexError { index, len: self.time_series@.len() as usize },
            ),
    {
        if index < self.time_series.len() {
            Ok(clone_event(&self.time_series[index]))
        } else {
            Err(IndexError { index, len: self.time_series.len() })
        }
    }

    /// "Report from {reference}, approved at {approved}".
    pub fn timeinfo(&self) -> (r: String)
        requires
            self.approved_time.wf(),
            self.reference_time.wf(),
        ensures
            r@ == "Report from "@ + crate::time::ts_display_chars(self.reference_time)
                + ", approved at "@ + crate::time::ts_display_chars(self.approved_time),
    {
        let mut out: Vec<char> = crate::text::str_to_chars("Report from ");
        crate::time::push_ts_display(&mut out, &self.reference_time);
        let mut mid: Vec<char> = crate::text::str_to_chars(", approved at ");
        out.append(&mut mid);
        crate::time::push_ts_display(&mut out, &self.approved_time);
        proof {
            assert(out@ =~= "Report from "@ + crate::time::ts_display_chars(self.reference_time)
                + ", approved at "@ + crate::time::ts_display_chars(self.approved_time));
        }
        crate::text::chars_to_string(&out)
    }
}

/// A field-for-field copy of a datapoint.
pub fn clone_datapoint(d: &Datapoint) -> (r: Datapoint)
    ensures
        r@ == d@,
{
    let mut values: Vec<Dec> = Vec::new();
    let mut i: usize = 0;
    while i < d.values.len()
        invariant
            0 <= i <= d.values@.len(),
            values@ =~= d.values@.subrange(0, i as int),
        decreases d.values@.len() - i,
    {
        values.push(d.values[i]);
        i = i + 1;
    }
    proof {
        assert(values@ =~= d.values@);
    }
    Datapoint {
        name: d.name.clone(),
        level_type: d.level_type.clone(),
        level: d.level,
        unit: d.unit.clone(),
        values,
    }
}

/// A field-for-field copy of an event.
pub fn clone_event(e: &Event) -> (r: Event)
    ensures
        r@ == e@,
{
    let mut parameters: Vec<Datapoint> = Vec::new();
    let mut i: usize = 0;
    while i < e.parameters.len()
        invariant
            0 <= i <= e.parameters@.len(),
            parameters@.len() == i,
            forall|k: int| 0 <= k < i ==> #[trigger] parameters@[k]@ == e.parameters@[k]@,
        decreases e.parameters@.len() - i,
    {
        parameters.push(clone_datapoint(&e.parameters[i]));
        i = i + 1;
    }
    let r = Event { valid_time: e.valid_time, parameters };
    proof {
        assert(r@.parameters =~= e@.parameters);
    }
    r
}

} // verus!
