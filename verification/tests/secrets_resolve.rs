use smhi_weather::dec::Dec;
use smhi_weather::errors::ResolveError;
use smhi_weather::resolve::{pos_from_response, pos_from_string};
use smhi_weather::secrets::{load_maps_api_key, load_secret};

#[test]
fn secret_value_comes_from_the_matched_line() {
    // an earlier line holds a '=' of its own; the value must still be sliced
    // from the matched line, not from the first '=' in the file
    let contents = "# comment=ignored\nOTHER=1\nMAPS_API_KEY=abc123\n";
    assert_eq!(load_maps_api_key(contents), Some(String::from("abc123")));
}

#[test]
fn secret_lookup_skips_comments_and_reports_absence() {
    assert_eq!(load_secret("#MAPS_API_KEY=no\n", "MAPS_API_KEY"), None);
    assert_eq!(load_secret("", "MAPS_API_KEY"), None);
    assert_eq!(load_secret("A=1\r\nKEY=two\r\n", "KEY"), Some(String::from("two")));
    assert_eq!(load_secret("PREFIX_KEY=first\nKEY=second\n", "KEY"), Some(String::from("first")));
}

#[test]
fn geocode_response_resolves_to_the_first_result() {
    let body = "{\"results\":[{\"geometry\":{\"location\":{\"lat\":55.7058,\"lng\":13.1993}}}],\"status\":\"OK\"}";
    let p = pos_from_response(body).expect("the sample geocode body resolves");
    assert_eq!(p.lat, Dec::new(false, 557058, 4));
    assert_eq!(p.long, Dec::new(false, 131993, 4));
}

#[test]
fn geocode_errors_are_distinguished() {
    assert_eq!(pos_from_response("no json").unwrap_err(), ResolveError::Decode);
    assert_eq!(pos_from_response("{\"results\":[]}").unwrap_err(), ResolveError::MissingField);
    assert_eq!(
        pos_from_response("{\"results\":[{\"geometry\":{}}]}").unwrap_err(),
        ResolveError::MissingField
    );
}

#[test]
fn coordinate_arguments_follow_the_grammar() {
    let p = pos_from_string("55.7058,-13.1993").expect("a plain pair parses");
    assert_eq!(p.lat, Dec::new(false, 557058, 4));
    assert_eq!(p.long, Dec::new(true, 131993, 4));
    assert_eq!(pos_from_string("55.7058").unwrap_err(), ResolveError::InvalidFormat);
    assert_eq!(pos_from_string("55.7058,").unwrap_err(), ResolveError::InvalidFormat);
    assert_eq!(pos_from_string("a,b").unwrap_err(), ResolveError::InvalidFormat);
    assert_eq!(pos_from_string("55.7,13.2,1").unwrap_err(), ResolveError::InvalidFormat);
}
