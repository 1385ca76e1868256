use clap::{Arg, ArgGroup, Command};

#[test]
fn verify_app() {
    Command::new("smhi_weather")
        .arg(Arg::new("description").short('d').long("description"))
        .arg(Arg::new("coordinates").short('c').long("coordinates"))
        .group(ArgGroup::new("location").required(true).args(["description", "coordinates"]))
        .debug_assert();
}

#[test]
fn opts_exactly_one_location() {
    let by_text = smhi_weather::cli::Opts {
        description: Some(String::from("Lund")),
        coordinates: None,
    };
    assert!(by_text.is_valid());
    let by_coords = smhi_weather::cli::Opts {
        description: None,
        coordinates: Some(String::from("55.7,13.2")),
    };
    assert!(by_coords.is_valid());
    let neither = smhi_weather::cli::Opts { description: None, coordinates: None };
    assert!(!neither.is_valid());
    let both = smhi_weather::cli::Opts {
        description: Some(String::from("Lund")),
        coordinates: Some(String::from("55.7,13.2")),
    };
    assert!(!both.is_valid());
}
