use smhi_weather::errors::LookupError;
use smhi_weather::weather::WeatherStatus;

#[test]
fn describe_is_total_and_injective_on_the_table() {
    let mut seen: Vec<String> = Vec::new();
    for code in 1..=27usize {
        let status = WeatherStatus::from(code).expect("every code in range has a condition");
        let description = status.description();
        assert!(!description.is_empty());
        assert!(!seen.contains(&description), "descriptions must be distinct");
        seen.push(description);
    }
    assert_eq!(seen.len(), 27);
    assert_eq!(WeatherStatus::from(0), Err(LookupError::InvalidCode));
    assert_eq!(WeatherStatus::from(28), Err(LookupError::InvalidCode));
}

#[test]
fn table_order_matches_codes() {
    let all = WeatherStatus::WEATHERVARIANTS();
    assert_eq!(all.len(), 27);
    assert_eq!(all[0].description(), "Clear sky");
    assert_eq!(all[10].description(), "Thunderstorm");
    assert_eq!(all[26].description(), "Heavy snowfall");
    for (i, w) in all.iter().enumerate() {
        assert_eq!(WeatherStatus::from(i + 1), Ok(*w));
    }
}
