use smhi_weather::dec::Dec;
use smhi_weather::errors::LookupError;
use smhi_weather::model::{Datapoint, Event, Location, Report};
use smhi_weather::time::{parse_timestamp, Timestamp};

fn smhi_parse(v: &Vec<char>) -> Option<Timestamp> {
    parse_timestamp(v)
}

fn ts(year: u16, month: u8, day: u8, hour: u8, minute: u8, second: u8) -> Timestamp {
    Timestamp { year, month, day, hour, minute, second }
}

fn dp(name: &str, value: Dec) -> Datapoint {
    Datapoint {
        name: String::from(name),
        level_type: String::from("hl"),
        level: 2,
        unit: String::from("u"),
        values: vec![value],
    }
}

fn sample_report() -> Report {
    Report {
        approved_time: ts(2021, 11, 2, 11, 26, 3),
        reference_time: ts(2021, 11, 2, 11, 0, 0),
        geometry: Location {
            dtype: String::from("Point"),
            coordinates: vec![vec![Dec::new(false, 161500, 4), Dec::new(false, 585800, 4)]],
        },
        time_series: vec![
            Event {
                valid_time: ts(2021, 11, 2, 12, 0, 0),
                parameters: vec![
                    dp("t", Dec::new(true, 25, 1)),
                    dp("Wsymb2", Dec::new(false, 1, 0)),
                ],
            },
            Event {
                valid_time: ts(2021, 11, 2, 13, 0, 0),
                parameters: vec![dp("t", Dec::new(false, 108, 1))],
            },
        ],
    }
}

#[test]
fn encode_then_decode_gives_the_report_back() {
    let report = sample_report();
    let body = report.encode();
    let decoded = Report::new(body.clone()).expect("a canonical encoding decodes");
    assert_eq!(decoded, report);
    // and the round trip is stable under a second pass
    assert_eq!(decoded.encode(), body);
}

#[test]
fn strings_with_control_and_escaped_characters_round_trip() {
    let mut report = sample_report();
    report.geometry.dtype = String::from("a\"b\\c\nd\te\u{0001}");
    let body = report.encode();
    let decoded = Report::new(body).expect("escaped strings decode");
    assert_eq!(decoded, report);
}

#[test]
fn decode_reads_the_expected_shape() {
    let body = String::from(
        "{\"approvedTime\":\"2021-11-02T11:26:03Z\",\
         \"referenceTime\":\"2021-11-02T11:00:00Z\",\
         \"geometry\":{\"type\":\"Point\",\"coordinates\":[[16.15,58.58]]},\
         \"timeSeries\":[{\"validTime\":\"2021-11-02T12:00:00Z\",\"parameters\":[\
         {\"name\":\"t\",\"levelType\":\"hl\",\"level\":2,\"unit\":\"Cel\",\"values\":[-2.5]}\
         ]}]}",
    );
    let report = Report::new(body).expect("a well-formed document decodes");
    assert_eq!(report.timeinfo(), "Report from 2021-11-02 11:00:00 UTC, approved at 2021-11-02 11:26:03 UTC");
    let events = report.get_events();
    assert_eq!(events.len(), 1);
    assert_eq!(events[0].scalar("t"), Ok(Dec::new(true, 25, 1)));
}

#[test]
fn decode_rejects_missing_fields_and_bad_text() {
    assert!(Report::new(String::from("not json at all")).is_err());
    assert!(Report::new(String::from("{}")).is_err());
    let err = Report::new(String::from(
        "{\"approvedTime\":\"2021-11-02T11:26:03Z\",\"referenceTime\":\"yesterday\",\
         \"geometry\":{\"type\":\"Point\",\"coordinates\":[]},\"timeSeries\":[]}",
    ))
    .unwrap_err();
    assert_eq!(err.path, "referenceTime");
    // an exponent whose shift leaves the representable range is refused
    assert!(Report::new(String::from(
        "{\"approvedTime\":\"2021-11-02T11:26:03Z\",\"referenceTime\":\"2021-11-02T11:00:00Z\",\
         \"geometry\":{\"type\":\"Point\",\"coordinates\":[[1e99999]]},\"timeSeries\":[]}",
    ))
    .is_err());
}

#[test]
fn scalar_returns_first_value_and_missing_name_is_an_error() {
    let event = Event {
        valid_time: ts(2021, 11, 2, 12, 0, 0),
        parameters: vec![
            Datapoint {
                name: String::from("t"),
                level_type: String::from("hl"),
                level: 2,
                unit: String::from("Cel"),
                values: vec![Dec::new(true, 25, 1), Dec::new(false, 9, 0)],
            },
        ],
    };
    assert_eq!(event.scalar("t"), Ok(Dec::new(true, 25, 1)));
    assert_eq!(event.scalar("ws"), Err(LookupError::MissingParameter));
    assert!(event.find_parameter("nothing").is_none());
}

#[test]
fn get_event_is_bounds_checked() {
    let report = sample_report();
    assert!(report.get_event(0).is_ok());
    assert!(report.get_event(1).is_ok());
    let err = report.get_event(2).unwrap_err();
    assert_eq!(err.index, 2);
    assert_eq!(err.len, 2);
}

#[test]
fn weatherstatus_reads_the_code_by_name() {
    let report = sample_report();
    let event = report.get_event(0).unwrap();
    assert_eq!(event.weatherstatus().unwrap().description(), "Clear sky");
    let other = report.get_event(1).unwrap();
    assert_eq!(event_status_err(&other), LookupError::MissingParameter);
}

fn event_status_err(event: &Event) -> LookupError {
    event.weatherstatus().unwrap_err()
}

#[test]
fn weatherstatus_rejects_codes_outside_the_table() {
    let event = Event {
        valid_time: ts(2021, 11, 2, 12, 0, 0),
        parameters: vec![dp("Wsymb2", Dec::new(false, 28, 0))],
    };
    assert_eq!(event.weatherstatus(), Err(LookupError::InvalidCode));
}

#[test]
fn timestamps_parse_strictly() {
    let chars: Vec<char> = "2021-11-02T12:00:00Z".chars().collect();
    assert_eq!(smhi_parse(&chars), Some(ts(2021, 11, 2, 12, 0, 0)));
    let with_fraction: Vec<char> = "2021-11-02T12:00:00.500Z".chars().collect();
    assert_eq!(smhi_parse(&with_fraction), Some(ts(2021, 11, 2, 12, 0, 0)));
    let with_offset: Vec<char> = "2021-11-02T12:00:00+00:00".chars().collect();
    assert_eq!(smhi_parse(&with_offset), Some(ts(2021, 11, 2, 12, 0, 0)));
    let bad_day: Vec<char> = "2021-02-30T12:00:00Z".chars().collect();
    assert_eq!(smhi_parse(&bad_day), None);
    let not_utc: Vec<char> = "2021-11-02T12:00:00+01:00".chars().collect();
    assert_eq!(smhi_parse(&not_utc), None);
    let short: Vec<char> = "2021-11-02".chars().collect();
    assert_eq!(smhi_parse(&short), None);
    // instants before 1970 lie within the model
    let early: Vec<char> = "1950-06-01T08:30:00Z".chars().collect();
    assert_eq!(smhi_parse(&early), Some(ts(1950, 6, 1, 8, 30, 0)));
}

fn coords_body(number: &str) -> String {
    format!(
        "{{\"approvedTime\":\"2021-11-02T11:26:03Z\",\
         \"referenceTime\":\"2021-11-02T11:00:00Z\",\
         \"geometry\":{{\"type\":\"Point\",\"coordinates\":[[{number}]]}},\
         \"timeSeries\":[]}}"
    )
}

#[test]
fn exponent_numbers_are_normalized_into_the_decimal_form() {
    let first = |body: String| -> Dec {
        Report::new(body).expect("the number decodes").geometry.coordinates[0][0]
    };
    assert_eq!(first(coords_body("1e3")), Dec::new(false, 1000, 0));
    assert_eq!(first(coords_body("2.5e-1")), Dec::new(false, 25, 2));
    assert_eq!(first(coords_body("-2.5E+1")), Dec::new(true, 25, 0));
    assert_eq!(first(coords_body("10e-1")), Dec::new(false, 1, 0));
    assert_eq!(first(coords_body("0e99999")), Dec::new(false, 0, 0));
    // shifts that leave the representable range are refused
    assert!(Report::new(coords_body("1e-19")).is_err());
    assert!(Report::new(coords_body("1e20")).is_err());
}

#[test]
fn level_integers_survive_the_round_trip() {
    let mut report = sample_report();
    report.time_series[0].parameters[0].level = -7;
    let body = report.encode();
    let decoded = Report::new(body).unwrap();
    assert_eq!(decoded.time_series[0].parameters[0].level, -7);
}

#[test]
fn a_document_of_the_wrong_shape_is_refused() {
    assert!(Report::new(String::from("[1,2,3]")).is_err());
}

fn geometry_body(dtype_json: &str) -> String {
    format!(
        "{{\"approvedTime\":\"2021-11-02T11:26:03Z\",\
         \"referenceTime\":\"2021-11-02T11:00:00Z\",\
         \"geometry\":{{\"type\":\"{dtype_json}\",\"coordinates\":[]}},\
         \"timeSeries\":[]}}"
    )
}

#[test]
fn unicode_escapes_decode_and_lone_surrogates_are_refused() {
    let report = Report::new(geometry_body("P\\u00e5int")).expect("an escaped code point decodes");
    assert_eq!(report.geometry.dtype, "P\u{00e5}int");
    // a code point beyond the basic plane is written as a surrogate pair
    let report = Report::new(geometry_body("\\uD83C\\uDF27")).expect("a surrogate pair decodes");
    assert_eq!(report.geometry.dtype, "\u{1F327}");
    // a lone surrogate is not a scalar value
    assert!(Report::new(geometry_body("\\uD83C")).is_err());
    // and a truncated escape is malformed
    assert!(Report::new(geometry_body("\\u00")).is_err());
}

#[test]
fn named_accessors_bind_symbol_label_and_unit() {
    let event = Event {
        valid_time: ts(2021, 11, 2, 12, 0, 0),
        parameters: vec![
            dp("t", Dec::new(true, 25, 1)),
            dp("ws", Dec::new(false, 34, 1)),
            dp("wd", Dec::new(false, 180, 0)),
            dp("r", Dec::new(false, 55, 0)),
            dp("pmean", Dec::new(false, 1, 1)),
            dp("gust", Dec::new(false, 77, 1)),
        ],
    };
    let m = event.temperature().unwrap();
    assert_eq!((m.symbol.as_str(), m.name.as_str(), m.value, m.unit.as_str()),
        ("🌡️", "Temperature", Dec::new(true, 25, 1), "C"));
    let m = event.wind_speed().unwrap();
    assert_eq!((m.symbol.as_str(), m.name.as_str(), m.value, m.unit.as_str()),
        ("💨", "Wind speed", Dec::new(false, 34, 1), "m/s"));
    let m = event.wind_direction().unwrap();
    assert_eq!((m.symbol.as_str(), m.name.as_str(), m.value, m.unit.as_str()),
        ("🧭", "Wind direction", Dec::new(false, 180, 0), "°"));
    let m = event.humidity().unwrap();
    assert_eq!((m.symbol.as_str(), m.name.as_str(), m.value, m.unit.as_str()),
        ("💧", "Humidity", Dec::new(false, 55, 0), "%"));
    let m = event.precipation().unwrap();
    assert_eq!((m.symbol.as_str(), m.name.as_str(), m.value, m.unit.as_str()),
        ("🌧️", "Precipation", Dec::new(false, 1, 1), "mm/h"));
    let m = event.wind_gust_speed().unwrap();
    assert_eq!((m.symbol.as_str(), m.name.as_str(), m.value, m.unit.as_str()),
        ("🌪️", "Gust speed", Dec::new(false, 77, 1), "m/s"));
}
