use smhi_weather::dec::Dec;
use smhi_weather::errors::LookupError;
use smhi_weather::model::{Datapoint, Event, Measurement, Report};
use smhi_weather::time::Timestamp;

fn ts(year: u16, month: u8, day: u8, hour: u8, minute: u8, second: u8) -> Timestamp {
    Timestamp { year, month, day, hour, minute, second }
}

fn dp(name: &str, unit: &str, value: Dec) -> Datapoint {
    Datapoint {
        name: String::from(name),
        level_type: String::from("hl"),
        level: 2,
        unit: String::from(unit),
        values: vec![value],
    }
}

fn event_at(valid_time: Timestamp) -> Event {
    Event {
        valid_time,
        parameters: vec![
            dp("t", "Cel", Dec::new(true, 25, 1)),
            dp("ws", "m/s", Dec::new(false, 34, 1)),
            dp("wd", "deg", Dec::new(false, 180, 0)),
            dp("r", "pct", Dec::new(false, 55, 0)),
            dp("pmean", "mm/h", Dec::new(false, 1, 1)),
            dp("Wsymb2", "cat", Dec::new(false, 1, 0)),
        ],
    }
}

#[test]
fn bucket_today_within_a_day() {
    let now = ts(2021, 11, 2, 9, 0, 0);
    let event = event_at(ts(2021, 11, 2, 12, 0, 0));
    let block = event.format_time(&now, &now);
    assert_eq!(block, "🕐 12:00\nToday\n");
}

#[test]
fn bucket_tomorrow_between_25_and_48_hours() {
    let now = ts(2021, 11, 2, 9, 0, 0);
    let event = event_at(ts(2021, 11, 3, 15, 0, 0));
    let block = event.format_time(&now, &now);
    assert_eq!(block, "🕐 15:00\nTomorrow\n");
}

#[test]
fn bucket_far_future_gets_the_full_date() {
    let now = ts(2021, 11, 2, 9, 0, 0);
    let event = event_at(ts(2021, 11, 5, 9, 0, 0));
    let block = event.format_time(&now, &now);
    assert_eq!(block, "🕐 09:00\nFriday, November  5\n");
}

#[test]
fn events_before_1970_render_with_the_full_date() {
    let now = ts(2021, 11, 2, 9, 0, 0);
    let event = event_at(ts(1950, 6, 1, 8, 30, 0));
    let block = event.format_time(&now, &now);
    assert_eq!(block, "🕐 08:30\nThursday, June  1\n");
}

#[test]
fn bucket_past_events_fall_through_to_the_full_date() {
    let now = ts(2021, 11, 2, 9, 0, 0);
    let event = event_at(ts(2021, 11, 2, 4, 0, 0));
    let block = event.format_time(&now, &now);
    assert_eq!(block, "🕐 04:00\nTuesday, November  2\n");
}

#[test]
fn bucketing_uses_the_local_clock() {
    // the event is at 23:30 UTC; a two-hour-ahead local clock shows 01:30
    // the next day
    let now = ts(2021, 11, 2, 9, 0, 0);
    let locale_now = ts(2021, 11, 2, 11, 0, 0);
    let event = event_at(ts(2021, 11, 2, 23, 30, 0));
    let block = event.format_time(&now, &locale_now);
    assert_eq!(block, "🕐 01:30\nToday\n");
}

#[test]
fn measurement_lines_align_the_value_column() {
    let line = Event::format_measurement(Measurement {
        symbol: String::from("🌡️"),
        name: String::from("Temperature"),
        value: Dec::new(true, 25, 1),
        unit: String::from("C"),
    });
    // pad width is 30 less the 11-character label; the value takes 4 columns
    assert_eq!(line, format!("🌡️ Temperature: {}-2.5C", " ".repeat(15)));
}

#[test]
fn three_hour_event_renders_a_full_block() {
    // a fixed sample body with two events; the first carries weather code 1
    // and a temperature of -2.5
    let mut params = String::new();
    let names = [
        "t", "ws", "wd", "r", "pmean", "x5", "x6", "x7", "x8", "x9", "x10", "x11", "x12",
        "x13", "x14", "x15", "x16", "x17",
    ];
    let values = [
        "-2.5", "3.4", "180", "55", "0.1", "0", "0", "0", "0", "0", "0", "0", "0", "0", "0",
        "0", "0", "0",
    ];
    for i in 0..18 {
        params.push_str(&format!(
            "{{\"name\":\"{}\",\"levelType\":\"hl\",\"level\":2,\"unit\":\"u\",\"values\":[{}]}},",
            names[i], values[i]
        ));
    }
    params.push_str(
        "{\"name\":\"Wsymb2\",\"levelType\":\"hl\",\"level\":0,\"unit\":\"category\",\"values\":[1]}",
    );
    let body = format!(
        "{{\"approvedTime\":\"2021-11-02T08:26:03Z\",\"referenceTime\":\"2021-11-02T08:00:00Z\",\
         \"geometry\":{{\"type\":\"Point\",\"coordinates\":[[16.15,58.58]]}},\
         \"timeSeries\":[{{\"validTime\":\"2021-11-02T12:00:00Z\",\"parameters\":[{params}]}},\
         {{\"validTime\":\"2021-11-02T13:00:00Z\",\"parameters\":[{params}]}}]}}"
    );
    let report = Report::new(body).expect("the sample body decodes");
    let events = report.get_events();
    assert_eq!(events.len(), 2);
    let now = ts(2021, 11, 2, 9, 0, 0);
    let block = events[0].render(&now, &now).expect("the sample event renders");
    let lines: Vec<&str> = block.lines().collect();
    assert_eq!(lines[0], "🕐 12:00");
    assert_eq!(lines[1], "Today");
    assert_eq!(lines[2], "");
    assert_eq!(lines[3], "Clear sky");
    assert!(lines[4].starts_with("🌡️ Temperature:"));
    assert!(lines[4].contains("-2.5"));
    assert!(lines[4].ends_with("C"));
    assert!(lines[5].starts_with("💨 Wind speed:"));
    assert!(lines[6].starts_with("🧭 Wind direction:"));
    assert!(lines[7].starts_with("💧 Humidity:"));
    assert!(lines[8].starts_with("🌧️ Precipation:"));
}

#[test]
fn rendering_without_a_code_parameter_is_an_error() {
    let now = ts(2021, 11, 2, 9, 0, 0);
    let event = Event {
        valid_time: ts(2021, 11, 2, 12, 0, 0),
        parameters: vec![dp("t", "Cel", Dec::new(true, 25, 1))],
    };
    assert_eq!(event.render(&now, &now), Err(LookupError::MissingParameter));
}
