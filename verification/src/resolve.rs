//! Resolving a location to coordinates: reading the first result out of a
//! geocoding response body, and the grammar for a raw coordinate argument.
//! The geocoding request itself is the caller's business.

use vstd::prelude::*;

use crate::client::Position;
use crate::dec::Dec;
use crate::errors::ResolveError;
use crate::json::{parse_json, sp_json, sp_number, Json, JsonV};

verus! {

/// The coordinates at `results[0].geometry.location.{lat,lng}` of a geocoding
/// response, when the whole path is present with the expected shapes.
pub open spec fn geocode_of_json(v: JsonV) -> Option<(Dec, Dec)> {
    match v {
        JsonV::Obj(ms) => match crate::codec::obj_get(ms, "results"@) {
            Some(JsonV::Arr(rs)) => if rs.len() > 0 {
                match rs[0] {
                    JsonV::Obj(r0) => match crate::codec::obj_get(r0, "geometry"@) {
                        Some(JsonV::Obj(g)) => match crate::codec::obj_get(g, "location"@) {
                            Some(JsonV::Obj(loc)) => match (
                                crate::codec::obj_get(loc, "lat"@),
                                crate::codec::obj_get(loc, "lng"@),
                            ) {
                                (Some(JsonV::Num(lat)), Some(JsonV::Num(lng))) => Some(
                                    (lat, lng),
                                ),
                                _ => None,
                            },
                            _ => None,
                        },
                        _ => None,
                    },
                    _ => None,
                }
            } else {
                None
            },
            _ => None,
        },
        _ => None,
    }
}

/// The position a geocoding response body resolves to: `Decode` when the
/// body is not well-formed JSON, `MissingField` when the result path is
/// absent or of the wrong shape.
pub open spec fn spec_resolve(s: Seq<char>) -> Result<Position, ResolveError> {
    match sp_json(s) {
        None => Result::Err(ResolveError::Decode),
        Some(v) => match geocode_of_json(v) {
            Some((lat, lng)) => Result::Ok(Position { lat, long: lng }),
            None => Result::Err(ResolveError::MissingField),
        },
    }
}

/// Reads the first result's coordinates out of a geocoding response body.
pub fn pos_from_response(body: &str) -> (r: Result<Position, ResolveError>)
    ensures
        r == spec_resolve(body@),
        r matches Ok(p) ==> p.wf(),
{
    let chars = crate::text::str_to_chars(body);
    let tree = match parse_json(&chars) {
        Ok(t) => t,
        Err(_) => {
            return Err(ResolveError::Decode);
        },
    };
    let ms = match &tree {
        Json::Obj(ms) => ms,
        _ => {
            return Err(ResolveError::MissingField);
        },
    };
    let rs = match crate::codec::obj_find(ms, "results") {
        Some(Json::Arr(rs)) => rs,
        _ => {
            return Err(ResolveError::MissingField);
        },
    };
    if rs.len() == 0 {
        return Err(ResolveError::MissingField);
    }
    proof {
        assert(Json::Arr(*rs)@->Arr_0[0] == crate::json::json_view(rs@[0]));
    }
    let r0 = match &rs[0] {
        Json::Obj(r0) => r0,
        _ => {
            return Err(ResolveError::MissingField);
        },
    };
    let g = match crate::codec::obj_find(r0, "geometry") {
        Some(Json::Obj(g)) => g,
        _ => {
            return Err(ResolveError::MissingField);
        },
    };
    let loc = match crate::codec::obj_find(g, "location") {
        Some(Json::Obj(loc)) => loc,
        _ => {
            return Err(ResolveError::MissingField);
        },
    };
    let lat = match crate::codec::obj_find(loc, "lat") {
        Some(Json::Num(d)) => *d,
        _ => {
            return Err(ResolveError::MissingField);
        },
    };
    let lng = match crate::codec::obj_find(loc, "lng") {
        Some(Json::Num(d)) => *d,
        _ => {
            return Err(ResolveError::MissingField);
        },
    };
    proof {
        lemma_geocode_wf(tree@);
    }
    Ok(Position { lat, long: lng })
}

/// Numbers found along the geocode path of a parsed body are well-formed.
proof fn lemma_geocode_wf(v: JsonV)
    requires
        crate::json::json_num_wf(v),
        geocode_of_json(v) is Some,
    ensures
        geocode_of_json(v)->Some_0.0.wf(),
        geocode_of_json(v)->Some_0.1.wf(),
{
    let ms = v->Obj_0;
    let rs = crate::codec::obj_get(ms, "results"@)->Some_0->Arr_0;
    crate::codec::lemma_obj_get_wf(ms, "results"@);
    crate::json::lemma_jsons_num_wf_index(rs, 0);
    let r0 = rs[0]->Obj_0;
    crate::codec::lemma_obj_get_wf(r0, "geometry"@);
    let g = crate::codec::obj_get(r0, "geometry"@)->Some_0->Obj_0;
    crate::codec::lemma_obj_get_wf(g, "location"@);
    let loc = crate::codec::obj_get(g, "location"@)->Some_0->Obj_0;
    crate::codec::lemma_obj_get_wf(loc, "lat"@);
    crate::codec::lemma_obj_get_wf(loc, "lng"@);
}

/// The raw coordinate argument grammar: a decimal latitude, a comma, and a
/// decimal longitude, with nothing else.
pub open spec fn spec_parse_coords(s: Seq<char>) -> Option<Position> {
    match sp_number(s, 0) {
        Some((lat, i)) => if 0 <= i < s.len() && s[i] == ',' {
            match sp_number(s, i + 1) {
                Some((lng, e)) => if e == s.len() {
                    Some(Position { lat, long: lng })
                } else {
                    None
                },
                None => None,
            }
        } else {
            None
        },
        None => None,
    }
}

/// Parses a raw coordinate argument, `<lat>,<lon>`; anything else is
/// `InvalidFormat`.
pub fn pos_from_string(s: &str) -> (r: Result<Position, ResolveError>)
    ensures
        match r {
            Ok(p) => spec_parse_coords(s@) == Some(p) && p.wf(),
            Err(e) => spec_parse_coords(s@) is None && e == ResolveError::InvalidFormat,
        },
{
    let chars = crate::text::str_to_chars(s);
    let (lat, i) = match crate::json::parse_number(&chars, 0) {
        Ok(x) => x,
        Err(_) => {
            return Err(ResolveError::InvalidFormat);
        },
    };
    if !(i < chars.len() && chars[i] == ',') {
        return Err(ResolveError::InvalidFormat);
    }
    let (lng, e) = match crate::json::parse_number(&chars, i + 1) {
        Ok(x) => x,
        Err(_) => {
            return Err(ResolveError::InvalidFormat);
        },
    };
    if e != chars.len() {
        return Err(ResolveError::InvalidFormat);
    }
    Ok(Position { lat, long: lng })
}

} // verus!
