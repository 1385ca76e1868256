//! Decoding a forecast document into a `Report`, and encoding one back out.
//!
//! The decode is strict: every field of the schema must be present with the
//! expected shape, and timestamps must be RFC 3339 UTC instants. Unknown
//! object members are ignored; of a repeated member the first is read. A
//! failure names the field being read.

use vstd::prelude::*;

use crate::dec::Dec;
use crate::errors::DecodeError;
use crate::json::{parse_json, sp_json, Json, JsonV};
use crate::model::{
    Datapoint, DatapointV, Event, EventV, Location, LocationV, Report, ReportV,
};
use crate::time::{spec_parse_ts, Timestamp};

verus! {

/// The value of the first member with the given key.
pub open spec fn obj_get(ms: Seq<(Seq<char>, JsonV)>, key: Seq<char>) -> Option<JsonV>
    decreases ms.len(),
{
    if ms.len() == 0 {
        None
    } else if ms[0].0 == key {
        Some(ms[0].1)
    } else {
        obj_get(ms.drop_first(), key)
    }
}

/// A timestamp field: a string holding an RFC 3339 UTC instant.
pub open spec fn ts_of_json(v: JsonV) -> Option<Timestamp> {
    match v {
        JsonV::Str(s) => spec_parse_ts(s),
        _ => None,
    }
}

/// A 32-bit integer field: a whole number in range.
pub open spec fn i32_of_dec(d: Dec) -> Option<i32> {
    if d.scale == 0 && i32::MIN <= d.signed_mant() <= i32::MAX {
        Some(d.signed_mant() as i32)
    } else {
        None
    }
}

/// A list of numbers.
pub open spec fn decs_of_json(es: Seq<JsonV>) -> Option<Seq<Dec>>
    decreases es.len(),
{
    if es.len() == 0 {
        Some(Seq::empty())
    } else {
        match es[0] {
            JsonV::Num(d) => match decs_of_json(es.drop_first()) {
                Some(r) => Some(seq![d] + r),
                None => None,
            },
            _ => None,
        }
    }
}

/// A datapoint object.
pub open spec fn datapoint_of_json(v: JsonV) -> Option<DatapointV> {
    match v {
        JsonV::Obj(ms) => {
            match (
                obj_get(ms, "name"@),
                obj_get(ms, "levelType"@),
                obj_get(ms, "level"@),
                obj_get(ms, "unit"@),
                obj_get(ms, "values"@),
            ) {
                (
                    Some(JsonV::Str(name)),
                    Some(JsonV::Str(level_type)),
                    Some(JsonV::Num(lvl)),
                    Some(JsonV::Str(unit)),
                    Some(JsonV::Arr(vs)),
                ) => match (i32_of_dec(lvl), decs_of_json(vs)) {
                    (Some(level), Some(values)) => Some(
                        DatapointV { name, level_type, level, unit, values },
                    ),
                    _ => None,
                },
                _ => None,
            }
        },
        _ => None,
    }
}

/// A list of datapoints.
pub open spec fn datapoints_of_json(es: Seq<JsonV>) -> Option<Seq<DatapointV>>
    decreases es.len(),
{
    if es.len() == 0 {
        Some(Seq::empty())
    } else {
        match datapoint_of_json(es[0]) {
            Some(d) => match datapoints_of_json(es.drop_first()) {
                Some(r) => Some(seq![d] + r),
                None => None,
            },
            None => None,
        }
    }
}

/// An event object.
pub open spec fn event_of_json(v: JsonV) -> Option<EventV> {
    match v {
        JsonV::Obj(ms) => {
            match (obj_get(ms, "validTime"@), obj_get(ms, "parameters"@)) {
                (Some(tv), Some(JsonV::Arr(ps))) => match (ts_of_json(tv), datapoints_of_json(
                    ps,
                )) {
                    (Some(valid_time), Some(parameters)) => Some(
                        EventV { valid_time, parameters },
                    ),
                    _ => None,
                },
                _ => None,
            }
        },
        _ => None,
    }
}

/// A list of events.
pub open spec fn events_of_json(es: Seq<JsonV>) -> Option<Seq<EventV>>
    decreases es.len(),
{
    if es.len() == 0 {
        Some(Seq::empty())
    } else {
        match event_of_json(es[0]) {
            Some(e) => match events_of_json(es.drop_first()) {
                Some(r) => Some(seq![e] + r),
                None => None,
            },
            None => None,
        }
    }
}

/// A list of coordinate pairs (each a list of numbers).
pub open spec fn coords_of_json(es: Seq<JsonV>) -> Option<Seq<Seq<Dec>>>
    decreases es.len(),
{
    if es.len() == 0 {
        Some(Seq::empty())
    } else {
        match es[0] {
            JsonV::Arr(ns) => match (decs_of_json(ns), coords_of_json(es.drop_first())) {
                (Some(pair), Some(r)) => Some(seq![pair] + r),
                _ => None,
            },
            _ => None,
        }
    }
}

/// The bounding geometry object.
pub open spec fn location_of_json(v: JsonV) -> Option<LocationV> {
    match v {
        JsonV::Obj(ms) => {
            match (obj_get(ms, "type"@), obj_get(ms, "coordinates"@)) {
                (Some(JsonV::Str(dtype)), Some(JsonV::Arr(cs))) => match coords_of_json(cs) {
                    Some(coordinates) => Some(LocationV { dtype, coordinates }),
                    None => None,
                },
                _ => None,
            }
        },
        _ => None,
    }
}

/// The whole report object.
pub open spec fn report_of_json(v: JsonV) -> Option<ReportV> {
    match v {
        JsonV::Obj(ms) => {
            match (
                obj_get(ms, "approvedTime"@),
                obj_get(ms, "referenceTime"@),
                obj_get(ms, "geometry"@),
                obj_get(ms, "timeSeries"@),
            ) {
                (Some(av), Some(rv), Some(gv), Some(JsonV::Arr(ts))) => match (
                    ts_of_json(av),
                    ts_of_json(rv),
                    location_of_json(gv),
                    events_of_json(ts),
                ) {
                    (
                        Some(approved_time),
                        Some(reference_time),
                        Some(geometry),
                        Some(time_series),
                    ) => Some(ReportV { approved_time, reference_time, geometry, time_series }),
                    _ => None,
                },
                _ => None,
            }
        },
        _ => None,
    }
}

/// What a document text decodes to, if anything: the JSON grammar, then the
/// report schema.
pub open spec fn decode_report_text(s: Seq<char>) -> Option<ReportV> {
    match sp_json(s) {
        None => None,
        Some(v) => report_of_json(v),
    }
}

/// What `obj_get` finds stands at some member position.
pub(crate) proof fn lemma_obj_get_member(ms: Seq<(Seq<char>, JsonV)>, key: Seq<char>) -> (i: int)
    ensures
        obj_get(ms, key) is Some ==> 0 <= i < ms.len() && ms[i].1 == obj_get(ms, key)->Some_0,
    decreases ms.len(),
{
    if ms.len() > 0 && ms[0].0 != key {
        let i = lemma_obj_get_member(ms.drop_first(), key);
        if obj_get(ms, key) is Some {
            assert(ms.drop_first()[i] == ms[i + 1]);
            i + 1
        } else {
            0
        }
    } else {
        0
    }
}

/// What `obj_get` finds under a well-formed object is well-formed.
pub(crate) proof fn lemma_obj_get_wf(ms: Seq<(Seq<char>, JsonV)>, key: Seq<char>)
    requires
        crate::json::members_num_wf(ms),
        obj_get(ms, key) is Some,
    ensures
        crate::json::json_num_wf(obj_get(ms, key)->Some_0),
{
    let i = lemma_obj_get_member(ms, key);
    crate::json::lemma_members_num_wf_index(ms, i);
}

/// A decode error at a named field.
fn field_error(path: &str) -> (r: DecodeError)
    ensures
        r.path@ == path@,
{
    DecodeError { path: path.to_owned(), reason: "missing, malformed or of the wrong shape".to_owned() }
}

/// Characterwise equality of a character vector and a string slice.
fn chars_eq_str(v: &Vec<char>, s: &str) -> (r: bool)
    ensures
        r == (v@ == s@),
{
    let n = s.unicode_len();
    if v.len() != n {
        return false;
    }
    let mut i: usize = 0;
    while i < n
        invariant
            0 <= i <= n,
            n == v@.len() == s@.len(),
            forall|k: int| 0 <= k < i ==> v@[k] == s@[k],
        decreases n - i,
    {
        if v[i] != s.get_char(i) {
            return false;
        }
        i = i + 1;
    }
    proof {
        assert(v@ =~= s@);
    }
    true
}

/// The first member with the given key, if any.
pub(crate) fn obj_find<'a>(ms: &'a Vec<(Vec<char>, Json)>, key: &str) -> (r: Option<&'a Json>)
    ensures
        match r {
            Some(j) => obj_get(Json::Obj(*ms)@->Obj_0, key@) == Some(j@),
            None => obj_get(Json::Obj(*ms)@->Obj_0, key@) is None,
        },
{
    let ghost mvs = Json::Obj(*ms)@->Obj_0;
    proof {
        assert(mvs.subrange(0, mvs.len() as int) =~= mvs);
    }
    let mut i: usize = 0;
    while i < ms.len()
        invariant
            0 <= i <= ms@.len(),
            mvs == Json::Obj(*ms)@->Obj_0,
            mvs.len() == ms@.len(),
            obj_get(mvs, key@) == obj_get(mvs.subrange(i as int, mvs.len() as int), key@),
        decreases ms@.len() - i,
    {
        let ghost tail = mvs.subrange(i as int, mvs.len() as int);
        proof {
            assert(tail[0] == mvs[i as int]);
            assert(tail.drop_first() =~= mvs.subrange(i as int + 1, mvs.len() as int));
        }
        if chars_eq_str(&ms[i].0, key) {
            return Some(&ms[i].1);
        }
        i = i + 1;
    }
    proof {
        assert(mvs.subrange(mvs.len() as int, mvs.len() as int) =~= Seq::<
            (Seq<char>, JsonV),
        >::empty());
    }
    None
}

/// A timestamp field.
fn ts_from_json(v: &Json, path: &str) -> (r: Result<Timestamp, DecodeError>)
    ensures
        match r {
            Ok(t) => ts_of_json(v@) == Some(t) && t.wf(),
            Err(_) => ts_of_json(v@) is None,
        },
{
    match v {
        Json::Str(s) => {
            match crate::time::parse_timestamp(s) {
                Some(t) => Ok(t),
                None => Err(field_error(path)),
            }
        },
        _ => Err(field_error(path)),
    }
}

/// A list-of-numbers field.
fn decs_from_json(es: &Vec<Json>, path: &str) -> (r: Result<Vec<Dec>, DecodeError>)
    requires
        crate::json::jsons_num_wf(Json::Arr(*es)@->Arr_0),
    ensures
        match r {
            Ok(vs) => decs_of_json(Json::Arr(*es)@->Arr_0) == Some(vs@) && forall|i: int|
                0 <= i < r->Ok_0@.len() ==> (#[trigger] r->Ok_0@[i]).wf(),
            Err(_) => decs_of_json(Json::Arr(*es)@->Arr_0) is None,
        },
{
    let ghost evs = Json::Arr(*es)@->Arr_0;
    proof {
        assert(evs.subrange(0, evs.len() as int) =~= evs);
    }
    let mut out: Vec<Dec> = Vec::new();
    let mut i: usize = 0;
    #[verifier::loop_isolation(false)]
    while i < es.len()
        invariant
            0 <= i <= es@.len(),
            evs == Json::Arr(*es)@->Arr_0,
            evs.len() == es@.len(),
            forall|k: int| 0 <= k < out@.len() ==> (#[trigger] out@[k]).wf(),
            decs_of_json(evs) == match decs_of_json(evs.subrange(i as int, evs.len() as int)) {
                Some(r) => Some(out@ + r),
                None => None::<Seq<Dec>>,
            },
        decreases es@.len() - i,
    {
        let ghost tail = evs.subrange(i as int, evs.len() as int);
        proof {
            assert(tail[0] == evs[i as int]);
            assert(evs[i as int] == crate::json::json_view(es@[i as int]));
            assert(tail.drop_first() =~= evs.subrange(i as int + 1, evs.len() as int));
        }
        match &es[i] {
            Json::Num(d) => {
                let ghost before = out@;
                out.push(*d);
                proof {
                    assert(es@[i as int] == Json::Num(*d));
                    assert(tail[0] == JsonV::Num(*d));
                    crate::json::lemma_jsons_num_wf_index(evs, i as int);
                    assert(d.wf());
                    let rem = decs_of_json(evs.subrange(i as int + 1, evs.len() as int));
                    assert(decs_of_json(tail) == match rem {
                        Some(r) => Some(seq![*d] + r),
                        None => None::<Seq<Dec>>,
                    });
                    if rem is Some {
                        let r = rem->Some_0;
                        assert(before + (seq![*d] + r) =~= out@ + r);
                        assert(decs_of_json(evs) == Some(out@ + r));
                    } else {
                        assert(decs_of_json(evs) is None);
                    }
                }
            },
            _ => {
                proof {
                    assert(!(es@[i as int] is Num));
                    assert(!(tail[0] is Num));
                    assert(decs_of_json(tail) is None);
                    assert(decs_of_json(evs) is None);
                }
                return Err(field_error(path));
            },
        }
        i = i + 1;
    }
    proof {
        assert(evs.subrange(evs.len() as int, evs.len() as int) =~= Seq::<JsonV>::empty());
        assert(out@ + Seq::<Dec>::empty() =~= out@);
    }
    Ok(out)
}

/// A datapoint object.
fn datapoint_from_json(v: &Json) -> (r: Result<Datapoint, DecodeError>)
    requires
        crate::json::json_num_wf(v@),
    ensures
        match r {
            Ok(d) => datapoint_of_json(v@) == Some(d@) && d@.wf(),
            Err(_) => datapoint_of_json(v@) is None,
        },
{
    let ms = match v {
        Json::Obj(ms) => ms,
        _ => {
            return Err(field_error("parameters"));
        },
    };
    let name = match obj_find(ms, "name") {
        Some(Json::Str(s)) => crate::text::chars_to_string(s),
        _ => {
            return Err(field_error("parameters.name"));
        },
    };
    let level_type = match obj_find(ms, "levelType") {
        Some(Json::Str(s)) => crate::text::chars_to_string(s),
        _ => {
            return Err(field_error("parameters.levelType"));
        },
    };
    let level: i32 = match obj_find(ms, "level") {
        Some(Json::Num(d)) => {
            if d.scale == 0 && !d.neg && d.mant <= i32::MAX as u64 {
                d.mant as i32
            } else if d.scale == 0 && d.neg && d.mant <= 2147483648u64 {
                proof {
                    assert(i32_of_dec(*d) == Some((-(d.mant as int)) as i32));
                }
                if d.mant == 2147483648 {
                    i32::MIN
                } else {
                    -(d.mant as i32)
                }
            } else {
                return Err(field_error("parameters.level"));
            }
        },
        _ => {
            return Err(field_error("parameters.level"));
        },
    };
    let unit = match obj_find(ms, "unit") {
        Some(Json::Str(s)) => crate::text::chars_to_string(s),
        _ => {
            return Err(field_error("parameters.unit"));
        },
    };
    let values = match obj_find(ms, "values") {
        Some(Json::Arr(vs)) => {
            proof {
                lemma_obj_get_wf(Json::Obj(*ms)@->Obj_0, "values"@);
            }
            decs_from_json(vs, "parameters.values")?
        },
        _ => {
            return Err(field_error("parameters.values"));
        },
    };
    Ok(Datapoint { name, level_type, level, unit, values })
}

/// An event object.
fn event_from_json(v: &Json) -> (r: Result<Event, DecodeError>)
    requires
        crate::json::json_num_wf(v@),
    ensures
        match r {
            Ok(e) => event_of_json(v@) == Some(e@) && e@.wf(),
            Err(_) => event_of_json(v@) is None,
        },
{
    let ms = match v {
        Json::Obj(ms) => ms,
        _ => {
            return Err(field_error("timeSeries"));
        },
    };
    let valid_time = match obj_find(ms, "validTime") {
        Some(tv) => ts_from_json(tv, "timeSeries.validTime")?,
        None => {
            return Err(field_error("timeSeries.validTime"));
        },
    };
    let ps = match obj_find(ms, "parameters") {
        Some(Json::Arr(ps)) => {
            proof {
                lemma_obj_get_wf(Json::Obj(*ms)@->Obj_0, "parameters"@);
            }
            ps
        },
        _ => {
            return Err(field_error("timeSeries.parameters"));
        },
    };
    let ghost pvs = Json::Arr(*ps)@->Arr_0;
    proof {
        assert(pvs.subrange(0, pvs.len() as int) =~= pvs);
    }
    let mut parameters: Vec<Datapoint> = Vec::new();
    let mut i: usize = 0;
    #[verifier::loop_isolation(false)]
    while i < ps.len()
        invariant
            0 <= i <= ps@.len(),
            pvs == Json::Arr(*ps)@->Arr_0,
            pvs.len() == ps@.len(),
            parameters@.len() == i,
            forall|k: int| 0 <= k < i ==> (#[trigger] parameters@[k]@).wf(),
            datapoints_of_json(pvs) == match datapoints_of_json(
                pvs.subrange(i as int, pvs.len() as int),
            ) {
                Some(r) => Some(
                    Seq::new(parameters@.len(), |k: int| parameters@[k]@) + r,
                ),
                None => None::<Seq<DatapointV>>,
            },
        decreases ps@.len() - i,
    {
        let ghost tail = pvs.subrange(i as int, pvs.len() as int);
        proof {
            assert(tail[0] == pvs[i as int]);
            assert(tail.drop_first() =~= pvs.subrange(i as int + 1, pvs.len() as int));
        }
        let ghost before = Seq::new(parameters@.len(), |k: int| parameters@[k]@);
        proof {
            crate::json::lemma_jsons_num_wf_index(pvs, i as int);
        }
        let d = match datapoint_from_json(&ps[i]) {
            Ok(d) => d,
            Err(e) => {
                proof {
                    assert(pvs[i as int] == crate::json::json_view(ps@[i as int]));
                    assert(datapoints_of_json(tail) is None);
                    assert(datapoints_of_json(pvs) is None);
                }
                return Err(e);
            },
        };
        parameters.push(d);
        proof {
            let after = Seq::new(parameters@.len(), |k: int| parameters@[k]@);
            assert(after =~= before + seq![d@]);
            let rem = datapoints_of_json(pvs.subrange(i as int + 1, pvs.len() as int));
            if rem is Some {
                let r = rem->Some_0;
                assert(before + (seq![d@] + r) =~= after + r);
            }
        }
        i = i + 1;
    }
    proof {
        assert(pvs.subrange(pvs.len() as int, pvs.len() as int) =~= Seq::<JsonV>::empty());
        let all = Seq::new(parameters@.len(), |k: int| parameters@[k]@);
        assert(all + Seq::<DatapointV>::empty() =~= all);
    }
    let e = Event { valid_time, parameters };
    proof {
        assert(e@.parameters =~= Seq::new(e.parameters@.len(), |k: int| e.parameters@[k]@));
        assert forall|k: int| 0 <= k < e@.parameters.len() implies (
        #[trigger] e@.parameters[k]).wf() by {
            assert(e@.parameters[k] == parameters@[k]@);
        }
    }
    Ok(e)
}

/// The geometry object.
fn location_from_json(v: &Json) -> (r: Result<Location, DecodeError>)
    requires
        crate::json::json_num_wf(v@),
    ensures
        match r {
            Ok(l) => location_of_json(v@) == Some(l@) && l@.wf(),
            Err(_) => location_of_json(v@) is None,
        },
{
    let ms = match v {
        Json::Obj(ms) => ms,
        _ => {
            return Err(field_error("geometry"));
        },
    };
    let dtype = match obj_find(ms, "type") {
        Some(Json::Str(s)) => crate::text::chars_to_string(s),
        _ => {
            return Err(field_error("geometry.type"));
        },
    };
    let cs = match obj_find(ms, "coordinates") {
        Some(Json::Arr(cs)) => {
            proof {
                lemma_obj_get_wf(Json::Obj(*ms)@->Obj_0, "coordinates"@);
            }
            cs
        },
        _ => {
            return Err(field_error("geometry.coordinates"));
        },
    };
    let ghost cvs = Json::Arr(*cs)@->Arr_0;
    proof {
        assert(cvs.subrange(0, cvs.len() as int) =~= cvs);
    }
    let mut coordinates: Vec<Vec<Dec>> = Vec::new();
    let mut i: usize = 0;
    #[verifier::loop_isolation(false)]
    while i < cs.len()
        invariant
            0 <= i <= cs@.len(),
            cvs == Json::Arr(*cs)@->Arr_0,
            cvs.len() == cs@.len(),
            coordinates@.len() == i,
            forall|a: int, b: int|
                0 <= a < i && 0 <= b < coordinates@[a]@.len() ==> (
                #[trigger] coordinates@[a]@[b]).wf(),
            coords_of_json(cvs) == match coords_of_json(
                cvs.subrange(i as int, cvs.len() as int),
            ) {
                Some(r) => Some(
                    Seq::new(coordinates@.len(), |k: int| coordinates@[k]@) + r,
                ),
                None => None::<Seq<Seq<Dec>>>,
            },
        decreases cs@.len() - i,
    {
        let ghost tail = cvs.subrange(i as int, cvs.len() as int);
        proof {
            assert(tail[0] == cvs[i as int]);
            assert(tail.drop_first() =~= cvs.subrange(i as int + 1, cvs.len() as int));
        }
        let ghost before = Seq::new(coordinates@.len(), |k: int| coordinates@[k]@);
        proof {
            assert(cvs[i as int] == crate::json::json_view(cs@[i as int]));
        }
        proof {
            crate::json::lemma_jsons_num_wf_index(cvs, i as int);
        }
        let pair = match &cs[i] {
            Json::Arr(ns) => {
                match decs_from_json(ns, "geometry.coordinates") {
                    Ok(pair) => pair,
                    Err(e) => {
                        proof {
                            assert(cs@[i as int] == Json::Arr(*ns));
                            assert(tail[0] matches JsonV::Arr(q) && decs_of_json(q) is None);
                            assert(coords_of_json(tail) is None);
                            assert(coords_of_json(cvs) is None);
                        }
                        return Err(e);
                    },
                }
            },
            _ => {
                proof {
                    assert(!(tail[0] is Arr));
                    assert(coords_of_json(tail) is None);
                    assert(coords_of_json(cvs) is None);
                }
                return Err(field_error("geometry.coordinates"));
            },
        };
        coordinates.push(pair);
        proof {
            let after = Seq::new(coordinates@.len(), |k: int| coordinates@[k]@);
            assert(after =~= before + seq![coordinates@[coordinates@.len() - 1]@]);
            let rem = coords_of_json(cvs.subrange(i as int + 1, cvs.len() as int));
            if rem is Some {
                let r = rem->Some_0;
                assert(before + (seq![after[after.len() - 1]] + r) =~= after + r);
            }
        }
        i = i + 1;
    }
    proof {
        assert(cvs.subrange(cvs.len() as int, cvs.len() as int) =~= Seq::<JsonV>::empty());
        let all = Seq::new(coordinates@.len(), |k: int| coordinates@[k]@);
        assert(all + Seq::<Seq<Dec>>::empty() =~= all);
    }
    let l = Location { dtype, coordinates };
    proof {
        assert(l@.coordinates =~= Seq::new(l.coordinates@.len(), |k: int| l.coordinates@[k]@));
        assert forall|a: int, b: int|
            0 <= a < l@.coordinates.len() && 0 <= b < l@.coordinates[a].len() implies (
        #[trigger] l@.coordinates[a][b]).wf() by {
            assert(l@.coordinates[a] == coordinates@[a]@);
        }
    }
    Ok(l)
}

/// The whole report object.
fn report_from_json(v: &Json) -> (r: Result<Report, DecodeError>)
    requires
        crate::json::json_num_wf(v@),
    ensures
        match r {
            Ok(rep) => report_of_json(v@) == Some(rep@) && rep@.wf(),
            Err(_) => report_of_json(v@) is None,
        },
{
    let ms = match v {
        Json::Obj(ms) => ms,
        _ => {
            return Err(field_error("$"));
        },
    };
    let approved_time = match obj_find(ms, "approvedTime") {
        Some(tv) => ts_from_json(tv, "approvedTime")?,
        None => {
            return Err(field_error("approvedTime"));
        },
    };
    let reference_time = match obj_find(ms, "referenceTime") {
        Some(tv) => ts_from_json(tv, "referenceTime")?,
        None => {
            return Err(field_error("referenceTime"));
        },
    };
    let geometry = match obj_find(ms, "geometry") {
        Some(gv) => {
            proof {
                lemma_obj_get_wf(Json::Obj(*ms)@->Obj_0, "geometry"@);
            }
            location_from_json(gv)?
        },
        None => {
            return Err(field_error("geometry"));
        },
    };
    let es = match obj_find(ms, "timeSeries") {
        Some(Json::Arr(es)) => {
            proof {
                lemma_obj_get_wf(Json::Obj(*ms)@->Obj_0, "timeSeries"@);
            }
            es
        },
        _ => {
            return Err(field_error("timeSeries"));
        },
    };
    let ghost evs = Json::Arr(*es)@->Arr_0;
    proof {
        assert(evs.subrange(0, evs.len() as int) =~= evs);
    }
    let mut time_series: Vec<Event> = Vec::new();
    let mut i: usize = 0;
    #[verifier::loop_isolation(false)]
    while i < es.len()
        invariant
            0 <= i <= es@.len(),
            evs == Json::Arr(*es)@->Arr_0,
            evs.len() == es@.len(),
            time_series@.len() == i,
            forall|k: int| 0 <= k < i ==> (#[trigger] time_series@[k]@).wf(),
            events_of_json(evs) == match events_of_json(
                evs.subrange(i as int, evs.len() as int),
            ) {
                Some(r) => Some(
                    Seq::new(time_series@.len(), |k: int| time_series@[k]@) + r,
                ),
                None => None::<Seq<EventV>>,
            },
        decreases es@.len() - i,
    {
        let ghost tail = evs.subrange(i as int, evs.len() as int);
        proof {
            assert(tail[0] == evs[i as int]);
            assert(tail.drop_first() =~= evs.subrange(i as int + 1, evs.len() as int));
        }
        let ghost before = Seq::new(time_series@.len(), |k: int| time_series@[k]@);
        proof {
            crate::json::lemma_jsons_num_wf_index(evs, i as int);
        }
        let e = match event_from_json(&es[i]) {
            Ok(e) => e,
            Err(e) => {
                proof {
                    assert(evs[i as int] == crate::json::json_view(es@[i as int]));
                    assert(events_of_json(tail) is None);
                    assert(events_of_json(evs) is None);
                }
                return Err(e);
            },
        };
        time_series.push(e);
        proof {
            let after = Seq::new(time_series@.len(), |k: int| time_series@[k]@);
            assert(after =~= before + seq![time_series@[time_series@.len() - 1]@]);
            let rem = events_of_json(evs.subrange(i as int + 1, evs.len() as int));
            if rem is Some {
                let r = rem->Some_0;
                assert(before + (seq![after[after.len() - 1]] + r) =~= after + r);
            }
        }
        i = i + 1;
    }
    proof {
        assert(evs.subrange(evs.len() as int, evs.len() as int) =~= Seq::<JsonV>::empty());
        let all = Seq::new(time_series@.len(), |k: int| time_series@[k]@);
        assert(all + Seq::<EventV>::empty() =~= all);
    }
    let rep = Report { approved_time, reference_time, geometry, time_series };
    proof {
        assert(rep@.time_series =~= Seq::new(
            rep.time_series@.len(),
            |k: int| rep.time_series@[k]@,
        ));
        assert forall|k: int| 0 <= k < rep@.time_series.len() implies (
        #[trigger] rep@.time_series[k]).wf() by {
            assert(rep@.time_series[k] == time_series@[k]@);
        }
    }
    Ok(rep)
}

impl Report {
    /// Decodes a fetched document into a report: `Ok` exactly when the text
    /// follows the JSON grammar and the report schema.
    pub fn new(body: String) -> (r: Result<Report, DecodeError>)
        ensures
            match r {
                Ok(rep) => decode_report_text(body@) == Some(rep@) && rep@.wf(),
                Err(_) => decode_report_text(body@) is None,
            },
    {
        let chars = crate::text::str_to_chars(body.as_str());
        let tree = parse_json(&chars)?;
        report_from_json(&tree)
    }
}

} // verus!
// Encoding a report back into document text: the tree mirrors the schema the
// decoder reads, with members in a fixed order.

verus! {

/// A whole number as a decimal.
pub open spec fn dec_of_int(l: int) -> Dec {
    if l < 0 {
        Dec { neg: true, mant: (-l) as u64, scale: 0 }
    } else {
        Dec { neg: false, mant: l as u64, scale: 0 }
    }
}

/// Numbers as JSON values.
pub open spec fn nums_of_decs(vs: Seq<Dec>) -> Seq<JsonV> {
    Seq::new(vs.len(), |i: int| JsonV::Num(vs[i]))
}

/// The JSON form of a datapoint.
pub open spec fn json_of_datapoint(d: DatapointV) -> JsonV {
    JsonV::Obj(
        seq![
            ("name"@, JsonV::Str(d.name)),
            ("levelType"@, JsonV::Str(d.level_type)),
            ("level"@, JsonV::Num(dec_of_int(d.level as int))),
            ("unit"@, JsonV::Str(d.unit)),
            ("values"@, JsonV::Arr(nums_of_decs(d.values))),
        ],
    )
}

/// The JSON form of an event.
pub open spec fn json_of_event(e: EventV) -> JsonV {
    JsonV::Obj(
        seq![
            ("validTime"@, JsonV::Str(crate::time::ts_rfc3339_chars(e.valid_time))),
            (
                "parameters"@,
                JsonV::Arr(Seq::new(e.parameters.len(), |i: int| json_of_datapoint(e.parameters[i]))),
            ),
        ],
    )
}

/// The JSON form of the geometry.
pub open spec fn json_of_location(l: LocationV) -> JsonV {
    JsonV::Obj(
        seq![
            ("type"@, JsonV::Str(l.dtype)),
            (
                "coordinates"@,
                JsonV::Arr(
                    Seq::new(l.coordinates.len(), |i: int| JsonV::Arr(nums_of_decs(l.coordinates[i]))),
                ),
            ),
        ],
    )
}

/// The JSON form of a whole report.
pub open spec fn json_of_report(r: ReportV) -> JsonV {
    JsonV::Obj(
        seq![
            ("approvedTime"@, JsonV::Str(crate::time::ts_rfc3339_chars(r.approved_time))),
            ("referenceTime"@, JsonV::Str(crate::time::ts_rfc3339_chars(r.reference_time))),
            ("geometry"@, json_of_location(r.geometry)),
            (
                "timeSeries"@,
                JsonV::Arr(Seq::new(r.time_series.len(), |i: int| json_of_event(r.time_series[i]))),
            ),
        ],
    )
}

/// The canonical document text of a report.
pub open spec fn encode_report_chars(r: ReportV) -> Seq<char> {
    crate::json::ser_value(json_of_report(r))
}

/// Numbers of a list, as JSON values.
fn decs_to_json(vs: &Vec<Dec>) -> (out: Vec<Json>)
    ensures
        Json::Arr(out)@->Arr_0 == nums_of_decs(vs@),
{
    let mut out: Vec<Json> = Vec::new();
    let mut i: usize = 0;
    #[verifier::loop_isolation(false)]
    while i < vs.len()
        invariant
            0 <= i <= vs@.len(),
            out@.len() == i,
            forall|k: int| 0 <= k < i ==> #[trigger] out@[k] == Json::Num(vs@[k]),
        decreases vs@.len() - i,
    {
        out.push(Json::Num(vs[i]));
        i = i + 1;
    }
    proof {
        let a = Json::Arr(out)@->Arr_0;
        let b = nums_of_decs(vs@);
        assert forall|k: int| 0 <= k < a.len() implies a[k] == b[k] by {
            assert(a[k] == crate::json::json_view(out@[k]));
            assert(out@[k] == Json::Num(vs@[k]));
        }
        assert(a =~= b);
    }
    out
}

/// A whole number as a decimal, executable form.
fn i32_to_dec(l: i32) -> (d: Dec)
    ensures
        d == dec_of_int(l as int),
{
    if l < 0 {
        let wide: i64 = l as i64;
        Dec { neg: true, mant: (-wide) as u64, scale: 0 }
    } else {
        Dec { neg: false, mant: l as u64, scale: 0 }
    }
}

/// The JSON tree of a datapoint.
fn datapoint_to_json(d: &Datapoint) -> (j: Json)
    ensures
        j@ == json_of_datapoint(d@),
{
    let mut ms: Vec<(Vec<char>, Json)> = Vec::new();
    ms.push((crate::text::str_to_chars("name"), Json::Str(crate::text::str_to_chars(d.name.as_str()))));
    ms.push((
        crate::text::str_to_chars("levelType"),
        Json::Str(crate::text::str_to_chars(d.level_type.as_str())),
    ));
    ms.push((crate::text::str_to_chars("level"), Json::Num(i32_to_dec(d.level))));
    ms.push((crate::text::str_to_chars("unit"), Json::Str(crate::text::str_to_chars(d.unit.as_str()))));
    ms.push((crate::text::str_to_chars("values"), Json::Arr(decs_to_json(&d.values))));
    let j = Json::Obj(ms);
    proof {
        let a = j@->Obj_0;
        let b = json_of_datapoint(d@)->Obj_0;
        assert(a.len() == 5);
        assert(a[0] == (ms@[0].0@, crate::json::json_view(ms@[0].1)));
        assert(a[1] == (ms@[1].0@, crate::json::json_view(ms@[1].1)));
        assert(a[2] == (ms@[2].0@, crate::json::json_view(ms@[2].1)));
        assert(a[3] == (ms@[3].0@, crate::json::json_view(ms@[3].1)));
        assert(a[4] == (ms@[4].0@, crate::json::json_view(ms@[4].1)));
        assert(crate::json::json_view(ms@[0].1) == JsonV::Str(d@.name));
        assert(crate::json::json_view(ms@[1].1) == JsonV::Str(d@.level_type));
        assert(crate::json::json_view(ms@[2].1) == JsonV::Num(dec_of_int(d@.level as int)));
        assert(crate::json::json_view(ms@[3].1) == JsonV::Str(d@.unit));
        assert(crate::json::json_view(ms@[4].1) == JsonV::Arr(nums_of_decs(d@.values)));
        assert(a[0] =~~= b[0]);
        assert(a[1] =~~= b[1]);
        assert(a[2] =~~= b[2]);
        assert(a[3] =~~= b[3]);
        assert(a[4] =~~= b[4]);
        assert(a =~~= b);
        assert(j@ == json_of_datapoint(d@));
    }
    j
}

/// The JSON tree of an event.
fn event_to_json(e: &Event) -> (j: Json)
    requires
        e.valid_time.wf(),
    ensures
        j@ == json_of_event(e@),
{
    let mut tv: Vec<char> = Vec::new();
    crate::time::push_ts_rfc3339(&mut tv, &e.valid_time);
    let mut ps: Vec<Json> = Vec::new();
    let mut i: usize = 0;
    #[verifier::loop_isolation(false)]
    while i < e.parameters.len()
        invariant
            0 <= i <= e.parameters@.len(),
            ps@.len() == i,
            forall|k: int| 0 <= k < i ==> #[trigger] ps@[k]@ == json_of_datapoint(
                e.parameters@[k]@,
            ),
        decreases e.parameters@.len() - i,
    {
        ps.push(datapoint_to_json(&e.parameters[i]));
        i = i + 1;
    }
    let mut ms: Vec<(Vec<char>, Json)> = Vec::new();
    ms.push((crate::text::str_to_chars("validTime"), Json::Str(tv)));
    ms.push((crate::text::str_to_chars("parameters"), Json::Arr(ps)));
    let j = Json::Obj(ms);
    proof {
        let a = j@->Obj_0;
        let b = json_of_event(e@)->Obj_0;
        assert(a.len() == 2);
        assert(a[0] == (ms@[0].0@, crate::json::json_view(ms@[0].1)));
        assert(a[1] == (ms@[1].0@, crate::json::json_view(ms@[1].1)));
        assert(crate::json::json_view(ms@[0].1) == JsonV::Str(
            crate::time::ts_rfc3339_chars(e@.valid_time),
        ));
        assert(a[0] =~~= b[0]);
        let pa = crate::json::json_view(ms@[1].1)->Arr_0;
        let pb = b[1].1->Arr_0;
        assert forall|k: int| 0 <= k < pa.len() implies pa[k] == pb[k] by {
            assert(pa[k] == crate::json::json_view(ps@[k]));
            assert(e@.parameters[k] == e.parameters@[k]@);
            assert(ps@[k]@ == json_of_datapoint(e.parameters@[k]@));
            assert(pb[k] == json_of_datapoint(e@.parameters[k]));
        }
        assert(pa =~= pb);
        assert(a[1] =~~= b[1]);
        assert(a =~~= b);
        assert(j@ == json_of_event(e@));
    }
    j
}

/// The JSON tree of the geometry.
fn location_to_json(l: &Location) -> (j: Json)
    ensures
        j@ == json_of_location(l@),
{
    let mut cs: Vec<Json> = Vec::new();
    let mut i: usize = 0;
    #[verifier::loop_isolation(false)]
    while i < l.coordinates.len()
        invariant
            0 <= i <= l.coordinates@.len(),
            cs@.len() == i,
            forall|k: int| 0 <= k < i ==> #[trigger] cs@[k]@ == JsonV::Arr(
                nums_of_decs(l.coordinates@[k]@),
            ),
        decreases l.coordinates@.len() - i,
    {
        cs.push(Json::Arr(decs_to_json(&l.coordinates[i])));
        i = i + 1;
    }
    let mut ms: Vec<(Vec<char>, Json)> = Vec::new();
    ms.push((crate::text::str_to_chars("type"), Json::Str(crate::text::str_to_chars(l.dtype.as_str()))));
    ms.push((crate::text::str_to_chars("coordinates"), Json::Arr(cs)));
    let j = Json::Obj(ms);
    proof {
        let a = j@->Obj_0;
        let b = json_of_location(l@)->Obj_0;
        assert(a.len() == 2);
        assert(a[0] == (ms@[0].0@, crate::json::json_view(ms@[0].1)));
        assert(a[1] == (ms@[1].0@, crate::json::json_view(ms@[1].1)));
        assert(crate::json::json_view(ms@[0].1) == JsonV::Str(l@.dtype));
        assert(a[0] =~~= b[0]);
        let pa = crate::json::json_view(ms@[1].1)->Arr_0;
        let pb = b[1].1->Arr_0;
        assert forall|k: int| 0 <= k < pa.len() implies pa[k] == pb[k] by {
            assert(pa[k] == crate::json::json_view(cs@[k]));
            assert(l@.coordinates[k] == l.coordinates@[k]@);
            assert(cs@[k]@ == JsonV::Arr(nums_of_decs(l.coordinates@[k]@)));
            assert(pb[k] == JsonV::Arr(nums_of_decs(l@.coordinates[k])));
        }
        assert(pa =~= pb);
        assert(a[1] =~~= b[1]);
        assert(a =~~= b);
        assert(j@ == json_of_location(l@));
    }
    j
}

/// The JSON tree of a whole report.
fn report_to_json(r: &Report) -> (j: Json)
    requires
        r.approved_time.wf(),
        r.reference_time.wf(),
        forall|i: int|
            0 <= i < r@.time_series.len() ==> (#[trigger] r@.time_series[i]).valid_time.wf(),
    ensures
        j@ == json_of_report(r@),
{
    let mut av: Vec<char> = Vec::new();
    crate::time::push_ts_rfc3339(&mut av, &r.approved_time);
    let mut rv: Vec<char> = Vec::new();
    crate::time::push_ts_rfc3339(&mut rv, &r.reference_time);
    let geometry = location_to_json(&r.geometry);
    let mut es: Vec<Json> = Vec::new();
    let mut i: usize = 0;
    #[verifier::loop_isolation(false)]
    while i < r.time_series.len()
        invariant
            0 <= i <= r.time_series@.len(),
            es@.len() == i,
            forall|k: int| 0 <= k < i ==> #[trigger] es@[k]@ == json_of_event(
                r.time_series@[k]@,
            ),
        decreases r.time_series@.len() - i,
    {
        proof {
            assert(r@.time_series[i as int] == r.time_series@[i as int]@);
        }
        es.push(event_to_json(&r.time_series[i]));
        i = i + 1;
    }
    let mut ms: Vec<(Vec<char>, Json)> = Vec::new();
    ms.push((crate::text::str_to_chars("approvedTime"), Json::Str(av)));
    ms.push((crate::text::str_to_chars("referenceTime"), Json::Str(rv)));
    ms.push((crate::text::str_to_chars("geometry"), geometry));
    ms.push((crate::text::str_to_chars("timeSeries"), Json::Arr(es)));
    let j = Json::Obj(ms);
    proof {
        let a = j@->Obj_0;
        let b = json_of_report(r@)->Obj_0;
        assert(a.len() == 4);
        assert(a[0] == (ms@[0].0@, crate::json::json_view(ms@[0].1)));
        assert(a[1] == (ms@[1].0@, crate::json::json_view(ms@[1].1)));
        assert(a[2] == (ms@[2].0@, crate::json::json_view(ms@[2].1)));
        assert(a[3] == (ms@[3].0@, crate::json::json_view(ms@[3].1)));
        assert(crate::json::json_view(ms@[0].1) == JsonV::Str(
            crate::time::ts_rfc3339_chars(r@.approved_time),
        ));
        assert(crate::json::json_view(ms@[1].1) == JsonV::Str(
            crate::time::ts_rfc3339_chars(r@.reference_time),
        ));
        assert(crate::json::json_view(ms@[2].1) == json_of_location(r@.geometry));
        assert(a[0] =~~= b[0]);
        assert(a[1] =~~= b[1]);
        assert(a[2] =~~= b[2]);
        let pa = crate::json::json_view(ms@[3].1)->Arr_0;
        let pb = b[3].1->Arr_0;
        assert forall|k: int| 0 <= k < pa.len() implies pa[k] == pb[k] by {
            assert(pa[k] == crate::json::json_view(es@[k]));
            assert(r@.time_series[k] == r.time_series@[k]@);
            assert(es@[k]@ == json_of_event(r.time_series@[k]@));
            assert(pb[k] == json_of_event(r@.time_series[k]));
        }
        assert(pa =~= pb);
        assert(a[3] =~~= b[3]);
        assert(a =~~= b);
        assert(j@ == json_of_report(r@));
    }
    j
}

/// Numbers of a well-formed list encode to well-formed JSON values.
proof fn lemma_nums_of_decs_wf(vs: Seq<Dec>)
    requires
        forall|i: int| 0 <= i < vs.len() ==> (#[trigger] vs[i]).wf(),
    ensures
        crate::json::jsons_num_wf(nums_of_decs(vs)),
    decreases vs.len(),
{
    let ns = nums_of_decs(vs);
    if vs.len() > 0 {
        assert(ns[0] == JsonV::Num(vs[0]));
        assert(vs[0].wf());
        assert forall|i: int| 0 <= i < vs.drop_first().len() implies (
        #[trigger] vs.drop_first()[i]).wf() by {
            assert(vs.drop_first()[i] == vs[i + 1]);
        }
        lemma_nums_of_decs_wf(vs.drop_first());
        assert(ns.drop_first() =~= nums_of_decs(vs.drop_first()));
        assert(ns =~= seq![JsonV::Num(vs[0])] + ns.drop_first());
        crate::json::lemma_jsons_num_wf_cons(JsonV::Num(vs[0]), ns.drop_first());
    } else {
        assert(ns =~= Seq::<JsonV>::empty());
    }
}

/// A well-formed datapoint encodes to a tree of well-formed numbers.
proof fn lemma_encode_datapoint_num_wf(d: DatapointV)
    requires
        d.wf(),
    ensures
        crate::json::json_num_wf(json_of_datapoint(d)),
{
    let ms = json_of_datapoint(d)->Obj_0;
    lemma_nums_of_decs_wf(d.values);
    let m0 = ("name"@, JsonV::Str(d.name));
    let m1 = ("levelType"@, JsonV::Str(d.level_type));
    let m2 = ("level"@, JsonV::Num(dec_of_int(d.level as int)));
    let m3 = ("unit"@, JsonV::Str(d.unit));
    let m4 = ("values"@, JsonV::Arr(nums_of_decs(d.values)));
    assert(dec_of_int(d.level as int).wf());
    let e: Seq<(Seq<char>, JsonV)> = Seq::empty();
    crate::json::lemma_members_num_wf_cons(m4.0, m4.1, e);
    let t4 = seq![m4] + e;
    crate::json::lemma_members_num_wf_cons(m3.0, m3.1, t4);
    let t3 = seq![m3] + t4;
    crate::json::lemma_members_num_wf_cons(m2.0, m2.1, t3);
    let t2 = seq![m2] + t3;
    crate::json::lemma_members_num_wf_cons(m1.0, m1.1, t2);
    let t1 = seq![m1] + t2;
    crate::json::lemma_members_num_wf_cons(m0.0, m0.1, t1);
    assert(ms =~= seq![m0] + t1);
}

/// Well-formed datapoints encode to well-formed JSON values.
proof fn lemma_datapoints_map_wf(ps: Seq<DatapointV>)
    requires
        forall|i: int| 0 <= i < ps.len() ==> (#[trigger] ps[i]).wf(),
    ensures
        crate::json::jsons_num_wf(Seq::new(ps.len(), |i: int| json_of_datapoint(ps[i]))),
    decreases ps.len(),
{
    let ns = Seq::new(ps.len(), |i: int| json_of_datapoint(ps[i]));
    if ps.len() > 0 {
        lemma_encode_datapoint_num_wf(ps[0]);
        assert forall|i: int| 0 <= i < ps.drop_first().len() implies (
        #[trigger] ps.drop_first()[i]).wf() by {
            assert(ps.drop_first()[i] == ps[i + 1]);
        }
        lemma_datapoints_map_wf(ps.drop_first());
        assert(ns.drop_first() =~= Seq::new(
            ps.drop_first().len(),
            |i: int| json_of_datapoint(ps.drop_first()[i]),
        ));
        assert(ns =~= seq![json_of_datapoint(ps[0])] + ns.drop_first());
        crate::json::lemma_jsons_num_wf_cons(json_of_datapoint(ps[0]), ns.drop_first());
    } else {
        assert(ns =~= Seq::<JsonV>::empty());
    }
}

/// A well-formed event encodes to a tree of well-formed numbers.
proof fn lemma_encode_event_num_wf(e: EventV)
    requires
        e.wf(),
    ensures
        crate::json::json_num_wf(json_of_event(e)),
{
    let ms = json_of_event(e)->Obj_0;
    lemma_datapoints_map_wf(e.parameters);
    let m0 = ("validTime"@, JsonV::Str(crate::time::ts_rfc3339_chars(e.valid_time)));
    let m1 = (
        "parameters"@,
        JsonV::Arr(Seq::new(e.parameters.len(), |i: int| json_of_datapoint(e.parameters[i]))),
    );
    let emp: Seq<(Seq<char>, JsonV)> = Seq::empty();
    crate::json::lemma_members_num_wf_cons(m1.0, m1.1, emp);
    let t1 = seq![m1] + emp;
    crate::json::lemma_members_num_wf_cons(m0.0, m0.1, t1);
    assert(ms =~= seq![m0] + t1);
}

/// Well-formed events encode to well-formed JSON values.
proof fn lemma_events_map_wf(ts: Seq<EventV>)
    requires
        forall|i: int| 0 <= i < ts.len() ==> (#[trigger] ts[i]).wf(),
    ensures
        crate::json::jsons_num_wf(Seq::new(ts.len(), |i: int| json_of_event(ts[i]))),
    decreases ts.len(),
{
    let ns = Seq::new(ts.len(), |i: int| json_of_event(ts[i]));
    if ts.len() > 0 {
        lemma_encode_event_num_wf(ts[0]);
        assert forall|i: int| 0 <= i < ts.drop_first().len() implies (
        #[trigger] ts.drop_first()[i]).wf() by {
            assert(ts.drop_first()[i] == ts[i + 1]);
        }
        lemma_events_map_wf(ts.drop_first());
        assert(ns.drop_first() =~= Seq::new(
            ts.drop_first().len(),
            |i: int| json_of_event(ts.drop_first()[i]),
        ));
        assert(ns =~= seq![json_of_event(ts[0])] + ns.drop_first());
        crate::json::lemma_jsons_num_wf_cons(json_of_event(ts[0]), ns.drop_first());
    } else {
        assert(ns =~= Seq::<JsonV>::empty());
    }
}

/// Well-formed coordinate rows encode to well-formed JSON values.
proof fn lemma_coords_map_wf(cs: Seq<Seq<Dec>>)
    requires
        forall|a: int, b: int|
            0 <= a < cs.len() && 0 <= b < cs[a].len() ==> (#[trigger] cs[a][b]).wf(),
    ensures
        crate::json::jsons_num_wf(Seq::new(cs.len(), |i: int| JsonV::Arr(nums_of_decs(cs[i])))),
    decreases cs.len(),
{
    let ns = Seq::new(cs.len(), |i: int| JsonV::Arr(nums_of_decs(cs[i])));
    if cs.len() > 0 {
        assert forall|b: int| 0 <= b < cs[0].len() implies (#[trigger] cs[0][b]).wf() by {
            assert(cs[0][b] == cs[0][b]);
        }
        lemma_nums_of_decs_wf(cs[0]);
        assert forall|a: int, b: int|
            0 <= a < cs.drop_first().len() && 0 <= b < cs.drop_first()[a].len() implies (
        #[trigger] cs.drop_first()[a][b]).wf() by {
            assert(cs.drop_first()[a] == cs[a + 1]);
        }
        lemma_coords_map_wf(cs.drop_first());
        assert(ns.drop_first() =~= Seq::new(
            cs.drop_first().len(),
            |i: int| JsonV::Arr(nums_of_decs(cs.drop_first()[i])),
        ));
        assert(ns =~= seq![JsonV::Arr(nums_of_decs(cs[0]))] + ns.drop_first());
        crate::json::lemma_jsons_num_wf_cons(JsonV::Arr(nums_of_decs(cs[0])), ns.drop_first());
    } else {
        assert(ns =~= Seq::<JsonV>::empty());
    }
}

/// A well-formed geometry encodes to a tree of well-formed numbers.
proof fn lemma_encode_location_num_wf(l: LocationV)
    requires
        l.wf(),
    ensures
        crate::json::json_num_wf(json_of_location(l)),
{
    let ms = json_of_location(l)->Obj_0;
    lemma_coords_map_wf(l.coordinates);
    let m0 = ("type"@, JsonV::Str(l.dtype));
    let m1 = (
        "coordinates"@,
        JsonV::Arr(Seq::new(l.coordinates.len(), |i: int| JsonV::Arr(nums_of_decs(l.coordinates[i])))),
    );
    let emp: Seq<(Seq<char>, JsonV)> = Seq::empty();
    crate::json::lemma_members_num_wf_cons(m1.0, m1.1, emp);
    let t1 = seq![m1] + emp;
    crate::json::lemma_members_num_wf_cons(m0.0, m0.1, t1);
    assert(ms =~= seq![m0] + t1);
}

/// A well-formed report encodes to a tree of well-formed numbers.
pub proof fn lemma_encode_num_wf(r: ReportV)
    requires
        r.wf(),
    ensures
        crate::json::json_num_wf(json_of_report(r)),
{
    let ms = json_of_report(r)->Obj_0;
    lemma_encode_location_num_wf(r.geometry);
    lemma_events_map_wf(r.time_series);
    let m0 = ("approvedTime"@, JsonV::Str(crate::time::ts_rfc3339_chars(r.approved_time)));
    let m1 = ("referenceTime"@, JsonV::Str(crate::time::ts_rfc3339_chars(r.reference_time)));
    let m2 = ("geometry"@, json_of_location(r.geometry));
    let m3 = (
        "timeSeries"@,
        JsonV::Arr(Seq::new(r.time_series.len(), |i: int| json_of_event(r.time_series[i]))),
    );
    let emp: Seq<(Seq<char>, JsonV)> = Seq::empty();
    crate::json::lemma_members_num_wf_cons(m3.0, m3.1, emp);
    let t3 = seq![m3] + emp;
    crate::json::lemma_members_num_wf_cons(m2.0, m2.1, t3);
    let t2 = seq![m2] + t3;
    crate::json::lemma_members_num_wf_cons(m1.0, m1.1, t2);
    let t1 = seq![m1] + t2;
    crate::json::lemma_members_num_wf_cons(m0.0, m0.1, t1);
    assert(ms =~= seq![m0] + t1);
}

impl Report {
    /// The canonical document text of this report; decoding it gives the
    /// report back.
    pub fn encode(&self) -> (r: String)
        requires
            self@.wf(),
        ensures
            r@ == encode_report_chars(self@),
    {
        let j = report_to_json(self);
        proof {
            lemma_encode_num_wf(self@);
        }
        let chars = crate::json::render_json(&j);
        crate::text::chars_to_string(&chars)
    }
}

} // verus!
// The decode round trip: the JSON tree a report encodes to decodes back to
// the same report, field for field, events in order.

verus! {

/// A list of numbers decodes back to itself.
proof fn lemma_decs_roundtrip(vs: Seq<Dec>)
    ensures
        decs_of_json(nums_of_decs(vs)) == Some(vs),
    decreases vs.len(),
{
    let ns = nums_of_decs(vs);
    if vs.len() == 0 {
        assert(ns =~= Seq::<JsonV>::empty());
        assert(decs_of_json(ns) == Some(Seq::<Dec>::empty()));
        assert(Seq::<Dec>::empty() =~= vs);
    } else {
        lemma_decs_roundtrip(vs.drop_first());
        assert(ns[0] == JsonV::Num(vs[0]));
        assert(ns.drop_first() =~= nums_of_decs(vs.drop_first()));
        assert(seq![vs[0]] + vs.drop_first() =~= vs);
    }
}

/// A datapoint's tree decodes back to the datapoint.
proof fn lemma_datapoint_roundtrip(d: DatapointV)
    ensures
        datapoint_of_json(json_of_datapoint(d)) == Some(d),
{
    reveal_strlit("name");
    reveal_strlit("levelType");
    reveal_strlit("level");
    reveal_strlit("unit");
    reveal_strlit("values");
    let ms = json_of_datapoint(d)->Obj_0;
    let m0 = ms[0];
    let m1 = ms[1];
    let m2 = ms[2];
    let m3 = ms[3];
    let m4 = ms[4];
    let t1 = ms.drop_first();
    let t2 = t1.drop_first();
    let t3 = t2.drop_first();
    let t4 = t3.drop_first();
    assert(t1 =~= seq![m1, m2, m3, m4]);
    assert(t2 =~= seq![m2, m3, m4]);
    assert(t3 =~= seq![m3, m4]);
    assert(t4 =~= seq![m4]);
    assert(m0.0 == "name"@ && m1.0 == "levelType"@ && m2.0 == "level"@ && m3.0 == "unit"@
        && m4.0 == "values"@);
    assert("name"@.len() == 4 && "levelType"@.len() == 9 && "level"@.len() == 5 && "unit"@.len()
        == 4 && "values"@.len() == 6);
    assert("name"@ != "unit"@) by {
        assert("name"@[0] == 'n');
        assert("unit"@[0] == 'u');
    }
    assert(obj_get(ms, "name"@) == Some(m0.1));
    assert(obj_get(ms, "levelType"@) == obj_get(t1, "levelType"@));
    assert(obj_get(t1, "levelType"@) == Some(m1.1));
    assert(obj_get(ms, "level"@) == obj_get(t1, "level"@));
    assert(obj_get(t1, "level"@) == obj_get(t2, "level"@));
    assert(obj_get(t2, "level"@) == Some(m2.1));
    assert(obj_get(ms, "unit"@) == obj_get(t1, "unit"@));
    assert(obj_get(t1, "unit"@) == obj_get(t2, "unit"@));
    assert(obj_get(t2, "unit"@) == obj_get(t3, "unit"@));
    assert(obj_get(t3, "unit"@) == Some(m3.1));
    assert(obj_get(ms, "values"@) == obj_get(t1, "values"@));
    assert(obj_get(t1, "values"@) == obj_get(t2, "values"@));
    assert(obj_get(t2, "values"@) == obj_get(t3, "values"@));
    assert(obj_get(t3, "values"@) == obj_get(t4, "values"@));
    assert(obj_get(t4, "values"@) == Some(m4.1));
    assert(i32_of_dec(dec_of_int(d.level as int)) == Some(d.level));
    lemma_decs_roundtrip(d.values);
}

/// Datapoint trees decode back elementwise.
proof fn lemma_datapoints_roundtrip(ps: Seq<DatapointV>)
    ensures
        datapoints_of_json(Seq::new(ps.len(), |i: int| json_of_datapoint(ps[i]))) == Some(ps),
    decreases ps.len(),
{
    let ns = Seq::new(ps.len(), |i: int| json_of_datapoint(ps[i]));
    if ps.len() == 0 {
        assert(ns =~= Seq::<JsonV>::empty());
        assert(Seq::<DatapointV>::empty() =~= ps);
    } else {
        lemma_datapoint_roundtrip(ps[0]);
        lemma_datapoints_roundtrip(ps.drop_first());
        assert(ns[0] == json_of_datapoint(ps[0]));
        assert(ns.drop_first() =~= Seq::new(
            ps.drop_first().len(),
            |i: int| json_of_datapoint(ps.drop_first()[i]),
        ));
        assert(seq![ps[0]] + ps.drop_first() =~= ps);
    }
}

/// An event's tree decodes back to the event.
proof fn lemma_event_roundtrip(e: EventV)
    requires
        e.valid_time.wf(),
    ensures
        event_of_json(json_of_event(e)) == Some(e),
{
    reveal_strlit("validTime");
    reveal_strlit("parameters");
    let ms = json_of_event(e)->Obj_0;
    let t1 = ms.drop_first();
    assert(t1 =~= seq![ms[1]]);
    assert(ms[0].0 == "validTime"@ && ms[1].0 == "parameters"@);
    assert("validTime"@.len() == 9 && "parameters"@.len() == 10);
    assert(obj_get(ms, "validTime"@) == Some(ms[0].1));
    assert(obj_get(ms, "parameters"@) == obj_get(t1, "parameters"@));
    assert(obj_get(t1, "parameters"@) == Some(ms[1].1));
    crate::time::lemma_ts_roundtrip(e.valid_time);
    lemma_datapoints_roundtrip(e.parameters);
}

/// Event trees decode back elementwise.
proof fn lemma_events_roundtrip(ts: Seq<EventV>)
    requires
        forall|i: int| 0 <= i < ts.len() ==> (#[trigger] ts[i]).valid_time.wf(),
    ensures
        events_of_json(Seq::new(ts.len(), |i: int| json_of_event(ts[i]))) == Some(ts),
    decreases ts.len(),
{
    let ns = Seq::new(ts.len(), |i: int| json_of_event(ts[i]));
    if ts.len() == 0 {
        assert(ns =~= Seq::<JsonV>::empty());
        assert(Seq::<EventV>::empty() =~= ts);
    } else {
        lemma_event_roundtrip(ts[0]);
        assert forall|i: int| 0 <= i < ts.drop_first().len() implies (
        #[trigger] ts.drop_first()[i]).valid_time.wf() by {
            assert(ts.drop_first()[i] == ts[i + 1]);
        }
        lemma_events_roundtrip(ts.drop_first());
        assert(ns[0] == json_of_event(ts[0]));
        assert(ns.drop_first() =~= Seq::new(
            ts.drop_first().len(),
            |i: int| json_of_event(ts.drop_first()[i]),
        ));
        assert(seq![ts[0]] + ts.drop_first() =~= ts);
    }
}

/// Coordinate rows decode back elementwise.
proof fn lemma_coords_roundtrip(cs: Seq<Seq<Dec>>)
    ensures
        coords_of_json(Seq::new(cs.len(), |i: int| JsonV::Arr(nums_of_decs(cs[i])))) == Some(cs),
    decreases cs.len(),
{
    let ns = Seq::new(cs.len(), |i: int| JsonV::Arr(nums_of_decs(cs[i])));
    if cs.len() == 0 {
        assert(ns =~= Seq::<JsonV>::empty());
        assert(Seq::<Seq<Dec>>::empty() =~= cs);
    } else {
        lemma_decs_roundtrip(cs[0]);
        lemma_coords_roundtrip(cs.drop_first());
        assert(ns[0] == JsonV::Arr(nums_of_decs(cs[0])));
        assert(ns.drop_first() =~= Seq::new(
            cs.drop_first().len(),
            |i: int| JsonV::Arr(nums_of_decs(cs.drop_first()[i])),
        ));
        assert(seq![cs[0]] + cs.drop_first() =~= cs);
    }
}

/// A geometry's tree decodes back to the geometry.
proof fn lemma_location_roundtrip(l: LocationV)
    ensures
        location_of_json(json_of_location(l)) == Some(l),
{
    reveal_strlit("type");
    reveal_strlit("coordinates");
    let ms = json_of_location(l)->Obj_0;
    let t1 = ms.drop_first();
    assert(t1 =~= seq![ms[1]]);
    assert(ms[0].0 == "type"@ && ms[1].0 == "coordinates"@);
    assert("type"@.len() == 4 && "coordinates"@.len() == 11);
    assert(obj_get(ms, "type"@) == Some(ms[0].1));
    assert(obj_get(ms, "coordinates"@) == obj_get(t1, "coordinates"@));
    assert(obj_get(t1, "coordinates"@) == Some(ms[1].1));
    lemma_coords_roundtrip(l.coordinates);
}

/// The decode round trip at the document-model level: a well-formed report's
/// encoded tree decodes back to the same report.
pub proof fn lemma_report_json_roundtrip(r: ReportV)
    requires
        r.wf(),
    ensures
        report_of_json(json_of_report(r)) == Some(r),
{
    reveal_strlit("approvedTime");
    reveal_strlit("referenceTime");
    reveal_strlit("geometry");
    reveal_strlit("timeSeries");
    let ms = json_of_report(r)->Obj_0;
    let t1 = ms.drop_first();
    let t2 = t1.drop_first();
    let t3 = t2.drop_first();
    assert(t1 =~= seq![ms[1], ms[2], ms[3]]);
    assert(t2 =~= seq![ms[2], ms[3]]);
    assert(t3 =~= seq![ms[3]]);
    assert(ms[0].0 == "approvedTime"@ && ms[1].0 == "referenceTime"@ && ms[2].0 == "geometry"@
        && ms[3].0 == "timeSeries"@);
    assert("approvedTime"@.len() == 12 && "referenceTime"@.len() == 13 && "geometry"@.len() == 8
        && "timeSeries"@.len() == 10);
    assert(obj_get(ms, "approvedTime"@) == Some(ms[0].1));
    assert(obj_get(ms, "referenceTime"@) == obj_get(t1, "referenceTime"@));
    assert(obj_get(t1, "referenceTime"@) == Some(ms[1].1));
    assert(obj_get(ms, "geometry"@) == obj_get(t1, "geometry"@));
    assert(obj_get(t1, "geometry"@) == obj_get(t2, "geometry"@));
    assert(obj_get(t2, "geometry"@) == Some(ms[2].1));
    assert(obj_get(ms, "timeSeries"@) == obj_get(t1, "timeSeries"@));
    assert(obj_get(t1, "timeSeries"@) == obj_get(t2, "timeSeries"@));
    assert(obj_get(t2, "timeSeries"@) == obj_get(t3, "timeSeries"@));
    assert(obj_get(t3, "timeSeries"@) == Some(ms[3].1));
    crate::time::lemma_ts_roundtrip(r.approved_time);
    crate::time::lemma_ts_roundtrip(r.reference_time);
    lemma_location_roundtrip(r.geometry);
    assert forall|i: int| 0 <= i < r.time_series.len() implies (
    #[trigger] r.time_series[i]).valid_time.wf() by {
        assert(r.time_series[i].wf());
    }
    lemma_events_roundtrip(r.time_series);
}

} // verus!
// The decode round trip at the text level.

verus! {

/// The decode round trip: encoding a well-formed report and decoding the
/// text back gives the same report, field for field, events in order.
pub proof fn lemma_decode_encode_roundtrip(r: ReportV)
    requires
        r.wf(),
    ensures
        decode_report_text(encode_report_chars(r)) == Some(r),
{
    lemma_encode_num_wf(r);
    crate::json::lemma_json_text_roundtrip(json_of_report(r));
    lemma_report_json_roundtrip(r);
}

} // verus!
