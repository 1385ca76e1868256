//! Coordinate normalization, the forecast and geocoding request lines, and
//! the classification of a fetched body. The network call itself is the
//! caller's business.

use vstd::prelude::*;

use crate::dec::{dec_chars, lemma_pow10_pos, pow10, pow10_u64, Dec};
use crate::text::contains_seq;

verus! {

use vstd::string::StrSliceExecFns;


/// A latitude and longitude.
#[derive(Clone, Copy, PartialEq, Eq, Structural, Debug)]
pub struct Position {
    pub lat: Dec,
    pub long: Dec,
}

impl Position {
    pub open spec fn wf(self) -> bool {
        self.lat.wf() && self.long.wf()
    }
}

/// The magnitude of a coordinate scaled to four decimal places, rounding
/// half away from zero: the mantissa the rounded value has at scale four.
pub open spec fn round4_mag(m: nat, s: nat) -> nat {
    if s <= 4 {
        m * pow10((4 - s) as nat)
    } else {
        (m + pow10((s - 4) as nat) / 2) / pow10((s - 4) as nat)
    }
}

/// Rounds a coordinate to four decimal places, half away from zero.
pub fn round_coord(d: &Dec) -> (r: Dec)
    requires
        d.wf(),
        round4_mag(d.mant as nat, d.scale as nat) <= u64::MAX,
    ensures
        r.wf(),
        r.scale <= 4,
        r.mant as int * pow10((4 - r.scale) as nat) == round4_mag(d.mant as nat, d.scale as nat),
        r.neg == (d.neg && round4_mag(d.mant as nat, d.scale as nat) != 0),
{
    let mag: u64 = if d.scale <= 4 {
        let p = pow10_u64(4 - d.scale);
        let wide: u128 = (d.mant as u128) * (p as u128);
        proof {
            assert(wide == d.mant as nat * pow10((4 - d.scale) as nat));
        }
        wide as u64
    } else {
        let p = pow10_u64(d.scale - 4);
        proof {
            lemma_pow10_pos((d.scale - 4) as nat);
        }
        let wide: u128 = ((d.mant as u128) + ((p / 2) as u128)) / (p as u128);
        proof {
            assert(wide <= d.mant as u128 + p as u128) by {
                vstd::arithmetic::div_mod::lemma_div_is_ordered_by_denominator(
                    (d.mant + p / 2) as int,
                    1,
                    p as int,
                );
            }
        }
        wide as u64
    };
    Dec::new(d.neg, mag, 4)
}

/// Rounds both components of a position.
pub fn round_position(p: &Position) -> (r: Position)
    requires
        p.wf(),
        round4_mag(p.lat.mant as nat, p.lat.scale as nat) <= u64::MAX,
        round4_mag(p.long.mant as nat, p.long.scale as nat) <= u64::MAX,
    ensures
        r.wf(),
        r.lat == round_coord_spec(p.lat),
        r.long == round_coord_spec(p.long),
{
    let lat = round_coord(&p.lat);
    let long = round_coord(&p.long);
    proof {
        lemma_round_coord_unique(p.lat, lat);
        lemma_round_coord_unique(p.long, long);
    }
    Position { lat, long }
}

/// The rounded coordinate in normal form: the unique well-formed decimal of
/// scale at most four whose value at scale four is the rounded magnitude.
pub open spec fn round_coord_spec(d: Dec) -> Dec {
    let mag = round4_mag(d.mant as nat, d.scale as nat);
    crate::dec::dec_norm(d.neg, mag, 4)
}

/// What `round_coord` returns is `round_coord_spec`.
pub proof fn lemma_round_coord_unique(d: Dec, r: Dec)
    requires
        d.wf(),
        round4_mag(d.mant as nat, d.scale as nat) <= u64::MAX,
        r.wf(),
        r.scale <= 4,
        r.mant as int * pow10((4 - r.scale) as nat) == round4_mag(d.mant as nat, d.scale as nat),
        r.neg == (d.neg && round4_mag(d.mant as nat, d.scale as nat) != 0),
    ensures
        r == round_coord_spec(d),
{
    let mag = round4_mag(d.mant as nat, d.scale as nat);
    crate::dec::lemma_dec_norm_unique(d.neg, mag, 4, r);
}

/// The forecast request line for a rounded position.
pub fn smhi_url(p: &Position) -> (r: String)
    requires
        p.wf(),
    ensures
        r@ == "http://opendata-download-metfcst.smhi.se/api/category/pmp3g/version/2/geotype/point/lon/"@
            + dec_chars(p.long) + "/lat/"@ + dec_chars(p.lat) + "/data.json"@,
{
    let mut out: Vec<char> = crate::text::str_to_chars(
        "http://opendata-download-metfcst.smhi.se/api/category/pmp3g/version/2/geotype/point/lon/",
    );
    crate::dec::push_dec_chars(&mut out, &p.long);
    let mut mid = crate::text::str_to_chars("/lat/");
    out.append(&mut mid);
    crate::dec::push_dec_chars(&mut out, &p.lat);
    let mut tail = crate::text::str_to_chars("/data.json");
    out.append(&mut tail);
    proof {
        assert(out@ =~= "http://opendata-download-metfcst.smhi.se/api/category/pmp3g/version/2/geotype/point/lon/"@
            + dec_chars(p.long) + "/lat/"@ + dec_chars(p.lat) + "/data.json"@);
    }
    crate::text::chars_to_string(&out)
}

/// A byte that stands for itself in a query string: an ASCII letter or
/// digit, or one of `-`, `.`, `_`, `~`.
pub open spec fn is_unreserved_byte(b: u8) -> bool {
    ||| 48 <= b <= 57
    ||| 65 <= b <= 90
    ||| 97 <= b <= 122
    ||| b == 45
    ||| b == 46
    ||| b == 95
    ||| b == 126
}

/// One byte of the address, URL-encoded: unreserved bytes stand for
/// themselves, a space becomes `+`, and every other byte is written `%XX`.
pub open spec fn pct_byte(b: u8) -> Seq<char> {
    if b == 32 {
        seq!['+']
    } else if is_unreserved_byte(b) {
        seq![b as char]
    } else {
        seq!['%', crate::dec::hex_char(b as int / 16), crate::dec::hex_char(b as int % 16)]
    }
}

/// A byte string, URL-encoded.
pub open spec fn url_encoded_bytes(bs: Seq<u8>) -> Seq<char>
    decreases bs.len(),
{
    if bs.len() == 0 {
        Seq::empty()
    } else {
        url_encoded_bytes(bs.drop_last()) + pct_byte(bs.last())
    }
}

/// A free-text address as the query string carries it: the URL-encoding of
/// its UTF-8 bytes, with `+` for a space.
pub open spec fn url_encoded(s: Seq<char>) -> Seq<char> {
    url_encoded_bytes(vstd::utf8::encode_utf8(s))
}

/// The geocoding request line for a free-text address and an API key.
pub fn maps_url(address: &str, key: &str) -> (r: String)
    ensures
        r@ == "https://maps.googleapis.com/maps/api/geocode/json?address="@ + url_encoded(
            address@,
        ) + "&key="@ + key@,
{
    let mut out: Vec<char> = crate::text::str_to_chars(
        "https://maps.googleapis.com/maps/api/geocode/json?address=",
    );
    let bytes = address.as_bytes_vec();
    let ghost base = out@;
    let mut i: usize = 0;
    proof {
        assert(bytes@.subrange(0, 0) =~= Seq::<u8>::empty());
    }
    while i < bytes.len()
        invariant
            0 <= i <= bytes@.len(),
            bytes@ == vstd::utf8::encode_utf8(address@),
            out@ =~= base + url_encoded_bytes(bytes@.subrange(0, i as int)),
        decreases bytes@.len() - i,
    {
        let b = bytes[i];
        if b == 32 {
            out.push('+');
        } else if (48 <= b && b <= 57) || (65 <= b && b <= 90) || (97 <= b && b <= 122) || b == 45
            || b == 46 || b == 95 || b == 126 {
            out.push(b as char);
        } else {
            out.push('%');
            out.push(crate::dec::hex_char_of(b / 16));
            out.push(crate::dec::hex_char_of(b % 16));
        }
        proof {
            let pre = bytes@.subrange(0, i as int);
            let cur = bytes@.subrange(0, i as int + 1);
            assert(cur.drop_last() =~= pre);
            assert(cur.last() == b);
            assert(out@ =~= base + (url_encoded_bytes(pre) + pct_byte(b)));
        }
        i = i + 1;
    }
    proof {
        assert(bytes@.subrange(0, bytes@.len() as int) =~= bytes@);
    }
    let mut mid = crate::text::str_to_chars("&key=");
    out.append(&mut mid);
    let mut kv = crate::text::str_to_chars(key);
    out.append(&mut kv);
    proof {
        assert(out@ =~= "https://maps.googleapis.com/maps/api/geocode/json?address="@
            + url_encoded(address@) + "&key="@ + key@);
    }
    crate::text::chars_to_string(&out)
}

/// A fetched forecast body, classified.
pub enum FetchOutcome {
    /// The service has no data for the point: the body carries the
    /// out-of-bounds sentinel and is not a forecast document.
    OutOfBounds,
    /// A body to be decoded.
    Body(String),
}

/// The sentinel marking a point outside the service's coverage.
pub open spec fn out_of_bounds_sentinel() -> Seq<char> {
    "Requested point is out of bounds"@
}

/// True when the body carries the out-of-bounds sentinel.
pub fn is_out_of_bounds(body: &str) -> (r: bool)
    ensures
        r == contains_seq(body@, out_of_bounds_sentinel()),
{
    crate::text::str_contains(body, "Requested point is out of bounds")
}

/// Classifies a fetched body: the sentinel marks a point the service does
/// not cover, and such a body is never handed to the decoder.
pub fn classify_response(body: String) -> (r: FetchOutcome)
    ensures
        contains_seq(body@, out_of_bounds_sentinel()) ==> r is OutOfBounds,
        !contains_seq(body@, out_of_bounds_sentinel()) ==> (r matches FetchOutcome::Body(b)
            && b@ == body@),
{
    if is_out_of_bounds(body.as_str()) {
        FetchOutcome::OutOfBounds
    } else {
        FetchOutcome::Body(body)
    }
}

} // verus!
