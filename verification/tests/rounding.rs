use smhi_weather::client::{classify_response, is_out_of_bounds, round_coord, round_position, smhi_url, maps_url, FetchOutcome, Position};
use smhi_weather::dec::{dec_to_string, Dec};

#[test]
fn round_coord_truncates_to_four_decimals() {
    // 55.70581234 rounds to 55.7058
    let d = Dec::new(false, 5570581234, 8);
    let r = round_coord(&d);
    assert_eq!(r, Dec::new(false, 557058, 4));
    assert_eq!(dec_to_string(&r), "55.7058");
}

#[test]
fn round_coord_rounds_negative_away_from_zero() {
    // -13.19925 rounds away from zero to -13.1993
    let d = Dec::new(true, 1319925, 5);
    let r = round_coord(&d);
    assert_eq!(r, Dec::new(true, 131993, 4));
    assert_eq!(dec_to_string(&r), "-13.1993");
}

#[test]
fn round_coord_half_away_from_zero_positive() {
    // 1.00005 -> 1.0001 (half rounds up)
    let d = Dec::new(false, 100005, 5);
    assert_eq!(dec_to_string(&round_coord(&d)), "1.0001");
}

#[test]
fn round_coord_keeps_short_coordinates() {
    let d = Dec::new(false, 557, 1);
    let r = round_coord(&d);
    assert_eq!(dec_to_string(&r), "55.7");
}

#[test]
fn smhi_url_formats_rounded_position() {
    let p = round_position(&Position {
        lat: Dec::new(false, 5570581234, 8),
        long: Dec::new(false, 1319925786, 8),
    });
    assert_eq!(
        smhi_url(&p),
        "http://opendata-download-metfcst.smhi.se/api/category/pmp3g/version/2/geotype/point/lon/13.1993/lat/55.7058/data.json"
    );
}

#[test]
fn maps_url_encodes_spaces() {
    assert_eq!(
        maps_url("New York", "testkey"),
        "https://maps.googleapis.com/maps/api/geocode/json?address=New+York&key=testkey"
    );
}

#[test]
fn maps_url_percent_encodes_reserved_and_non_ascii() {
    assert_eq!(
        maps_url("H&M Lund", "testkey"),
        "https://maps.googleapis.com/maps/api/geocode/json?address=H%26M+Lund&key=testkey"
    );
    assert_eq!(
        maps_url("Malm\u{00f6}", "testkey"),
        "https://maps.googleapis.com/maps/api/geocode/json?address=Malm%C3%B6&key=testkey"
    );
    assert_eq!(
        maps_url("a=b%c+d#e", "testkey"),
        "https://maps.googleapis.com/maps/api/geocode/json?address=a%3Db%25c%2Bd%23e&key=testkey"
    );
}

#[test]
fn out_of_bounds_sentinel_is_detected() {
    assert!(is_out_of_bounds("Requested point is out of bounds"));
    assert!(!is_out_of_bounds("{\"timeSeries\":[]}"));
    match classify_response(String::from("Requested point is out of bounds")) {
        FetchOutcome::OutOfBounds => {}
        FetchOutcome::Body(_) => panic!("the sentinel body must not reach the decoder"),
    }
    match classify_response(String::from("{}")) {
        FetchOutcome::Body(b) => assert_eq!(b, "{}"),
        FetchOutcome::OutOfBounds => panic!("a plain body is not out of bounds"),
    }
}

#[test]
fn dec_display_matches_plain_decimal_writing() {
    assert_eq!(dec_to_string(&Dec::new(false, 1, 0)), "1");
    assert_eq!(dec_to_string(&Dec::new(true, 25, 1)), "-2.5");
    assert_eq!(dec_to_string(&Dec::new(false, 5, 4)), "0.0005");
    assert_eq!(dec_to_string(&Dec::new(false, 250, 2)), "2.5");
    assert_eq!(dec_to_string(&Dec::new(true, 0, 3)), "0");
}
