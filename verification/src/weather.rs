//! The weather-condition code table: a closed enumeration of 27 conditions,
//! one per numeric code in `1 ..= 27`, each with a fixed description.

use vstd::prelude::*;

use crate::errors::LookupError;

verus! {

/// Intensity of a precipitation-type condition.
#[derive(Clone, Copy, PartialEq, Eq, Structural, Debug)]
pub enum Level {
    Light,
    Moderate,
    Heavy,
}

/// A weather condition; precipitation-type conditions carry a `Level`.
#[derive(Clone, Copy, PartialEq, Eq, Structural, Debug)]
pub enum WeatherStatus {
    Clear,
    NearlyClear,
    VariableCloudiness,
    HalfClear,
    Cloudy,
    Overcast,
    Fog,
    RainShowers(Level),
    Thunderstorm,
    SleetShowers(Level),
    SnowShowers(Level),
    Rain(Level),
    Thunder,
    Sleet(Level),
    Snowfall(Level),
}

/// True when `code` lies in the closed interval of valid weather codes.
pub open spec fn valid_weather_code(code: int) -> bool {
    1 <= code <= 27
}

/// The condition a valid code stands for.
pub open spec fn status_of_code(code: int) -> WeatherStatus {
    if code == 1 {
        WeatherStatus::Clear
    } else if code == 2 {
        WeatherStatus::NearlyClear
    } else if code == 3 {
        WeatherStatus::VariableCloudiness
    } else if code == 4 {
        WeatherStatus::HalfClear
    } else if code == 5 {
        WeatherStatus::Cloudy
    } else if code == 6 {
        WeatherStatus::Overcast
    } else if code == 7 {
        WeatherStatus::Fog
    } else if code == 8 {
        WeatherStatus::RainShowers(Level::Light)
    } else if code == 9 {
        WeatherStatus::RainShowers(Level::Moderate)
    } else if code == 10 {
        WeatherStatus::RainShowers(Level::Heavy)
    } else if code == 11 {
        WeatherStatus::Thunderstorm
    } else if code == 12 {
        WeatherStatus::SleetShowers(Level::Light)
    } else if code == 13 {
        WeatherStatus::SleetShowers(Level::Moderate)
    } else if code == 14 {
        WeatherStatus::SleetShowers(Level::Heavy)
    } else if code == 15 {
        WeatherStatus::SnowShowers(Level::Light)
    } else if code == 16 {
        WeatherStatus::SnowShowers(Level::Moderate)
    } else if code == 17 {
        WeatherStatus::SnowShowers(Level::Heavy)
    } else if code == 18 {
        WeatherStatus::Rain(Level::Light)
    } else if code == 19 {
        WeatherStatus::Rain(Level::Moderate)
    } else if code == 20 {
        WeatherStatus::Rain(Level::Heavy)
    } else if code == 21 {
        WeatherStatus::Thunder
    } else if code == 22 {
        WeatherStatus::Sleet(Level::Light)
    } else if code == 23 {
        WeatherStatus::Sleet(Level::Moderate)
    } else if code == 24 {
        WeatherStatus::Sleet(Level::Heavy)
    } else if code == 25 {
        WeatherStatus::Snowfall(Level::Light)
    } else if code == 26 {
        WeatherStatus::Snowfall(Level::Moderate)
    } else {
        WeatherStatus::Snowfall(Level::Heavy)
    }
}

/// The code a condition stands at in the table.
pub open spec fn code_of_status(w: WeatherStatus) -> int {
    match w {
        WeatherStatus::Clear => 1,
        WeatherStatus::NearlyClear => 2,
        WeatherStatus::VariableCloudiness => 3,
        WeatherStatus::HalfClear => 4,
        WeatherStatus::Cloudy => 5,
        WeatherStatus::Overcast => 6,
        WeatherStatus::Fog => 7,
        WeatherStatus::RainShowers(Level::Light) => 8,
        WeatherStatus::RainShowers(Level::Moderate) => 9,
        WeatherStatus::RainShowers(Level::Heavy) => 10,
        WeatherStatus::Thunderstorm => 11,
        WeatherStatus::SleetShowers(Level::Light) => 12,
        WeatherStatus::SleetShowers(Level::Moderate) => 13,
        WeatherStatus::SleetShowers(Level::Heavy) => 14,
        WeatherStatus::SnowShowers(Level::Light) => 15,
        WeatherStatus::SnowShowers(Level::Moderate) => 16,
        WeatherStatus::SnowShowers(Level::Heavy) => 17,
        WeatherStatus::Rain(Level::Light) => 18,
        WeatherStatus::Rain(Level::Moderate) => 19,
        WeatherStatus::Rain(Level::Heavy) => 20,
        WeatherStatus::Thunder => 21,
        WeatherStatus::Sleet(Level::Light) => 22,
        WeatherStatus::Sleet(Level::Moderate) => 23,
        WeatherStatus::Sleet(Level::Heavy) => 24,
        WeatherStatus::Snowfall(Level::Light) => 25,
        WeatherStatus::Snowfall(Level::Moderate) => 26,
        WeatherStatus::Snowfall(Level::Heavy) => 27,
    }
}

/// The fixed description of a condition.
pub open spec fn description_of(w: WeatherStatus) -> Seq<char> {
    match w {
        WeatherStatus::Clear => "Clear sky"@,
        WeatherStatus::NearlyClear => "Nearly clear sky"@,
        WeatherStatus::VariableCloudiness => "Variable cloudiness"@,
        WeatherStatus::HalfClear => "Halfclear sky"@,
        WeatherStatus::Cloudy => "Cloudy sky"@,
        WeatherStatus::Overcast => "Overcast sky"@,
        WeatherStatus::Fog => "Fog"@,
        WeatherStatus::RainShowers(Level::Light) => "Light rain showers"@,
        WeatherStatus::RainShowers(Level::Moderate) => "Moderate rain showers"@,
        WeatherStatus::RainShowers(Level::Heavy) => "Heavy rain showers"@,
        WeatherStatus::Thunderstorm => "Thunderstorm"@,
        WeatherStatus::SleetShowers(Level::Light) => "Light sleet showers"@,
        WeatherStatus::SleetShowers(Level::Moderate) => "Moderate sleet showers"@,
        WeatherStatus::SleetShowers(Level::Heavy) => "Heavy sleet showers"@,
        WeatherStatus::SnowShowers(Level::Light) => "Light snow showers"@,
        WeatherStatus::SnowShowers(Level::Moderate) => "Moderate snow showers"@,
        WeatherStatus::SnowShowers(Level::Heavy) => "Heavy snow showers"@,
        WeatherStatus::Rain(Level::Light) => "Light rain"@,
        WeatherStatus::Rain(Level::Moderate) => "Moderate rain"@,
        WeatherStatus::Rain(Level::Heavy) => "Heavy rain"@,
        WeatherStatus::Thunder => "Thunder"@,
        WeatherStatus::Sleet(Level::Light) => "Light sleet"@,
        WeatherStatus::Sleet(Level::Moderate) => "Moderate sleet"@,
        WeatherStatus::Sleet(Level::Heavy) => "Heavy sleet"@,
        WeatherStatus::Snowfall(Level::Light) => "Light snowfall"@,
        WeatherStatus::Snowfall(Level::Moderate) => "Moderate snowfall"@,
        WeatherStatus::Snowfall(Level::Heavy) => "Heavy snowfall"@,
    }
}

impl WeatherStatus {
    /// All 27 conditions in table order: position `i` holds code `i + 1`.
    #[allow(non_snake_case)]
    pub fn WEATHERVARIANTS() -> (v: Vec<WeatherStatus>)
        ensures
            v@.len() == 27,
            forall|i: int| 0 <= i < 27 ==> v@[i] == status_of_code(i + 1),
    {
        let mut v: Vec<WeatherStatus> = Vec::new();
        v.push(WeatherStatus::Clear);
        v.push(WeatherStatus::NearlyClear);
        v.push(WeatherStatus::VariableCloudiness);
        v.push(WeatherStatus::HalfClear);
        v.push(WeatherStatus::Cloudy);
        v.push(WeatherStatus::Overcast);
        v.push(WeatherStatus::Fog);
        v.push(WeatherStatus::RainShowers(Level::Light));
        v.push(WeatherStatus::RainShowers(Level::Moderate));
        v.push(WeatherStatus::RainShowers(Level::Heavy));
        v.push(WeatherStatus::Thunderstorm);
        v.push(WeatherStatus::SleetShowers(Level::Light));
        v.push(WeatherStatus::SleetShowers(Level::Moderate));
        v.push(WeatherStatus::SleetShowers(Level::Heavy));
        v.push(WeatherStatus::SnowShowers(Level::Light));
        v.push(WeatherStatus::SnowShowers(Level::Moderate));
        v.push(WeatherStatus::SnowShowers(Level::Heavy));
        v.push(WeatherStatus::Rain(Level::Light));
        v.push(WeatherStatus::Rain(Level::Moderate));
        v.push(WeatherStatus::Rain(Level::Heavy));
        v.push(WeatherStatus::Thunder);
        v.push(WeatherStatus::Sleet(Level::Light));
        v.push(WeatherStatus::Sleet(Level::Moderate));
        v.push(WeatherStatus::Sleet(Level::Heavy));
        v.push(WeatherStatus::Snowfall(Level::Light));
        v.push(WeatherStatus::Snowfall(Level::Moderate));
        v.push(WeatherStatus::Snowfall(Level::Heavy));
        v
    }

    /// Looks a numeric code up in the table: `Ok` exactly on `1 ..= 27`,
    /// `InvalidCode` on everything else.
    pub fn from(code: usize) -> (r: Result<WeatherStatus, LookupError>)
        ensures
            valid_weather_code(code as int) ==> r == Result::<WeatherStatus, LookupError>::Ok(
                status_of_code(code as int),
            ),
            !valid_weather_code(code as int) ==> r == Result::<WeatherStatus, LookupError>::Err(
                LookupError::InvalidCode,
            ),
    {
        if 1 <= code && code <= 27 {
            let v = WeatherStatus::WEATHERVARIANTS();
            Ok(v[code - 1])
        } else {
            Err(LookupError::InvalidCode)
        }
    }

    /// The description of this condition.
    pub fn description(&self) -> (r: String)
        ensures
            r@ == description_of(*self),
    {
        let s: &str = match self {
            WeatherStatus::Clear => "Clear sky",
            WeatherStatus::NearlyClear => "Nearly clear sky",
            WeatherStatus::VariableCloudiness => "Variable cloudiness",
            WeatherStatus::HalfClear => "Halfclear sky",
            WeatherStatus::Cloudy => "Cloudy sky",
            WeatherStatus::Overcast => "Overcast sky",
            WeatherStatus::Fog => "Fog",
            WeatherStatus::RainShowers(Level::Light) => "Light rain showers",
            WeatherStatus::RainShowers(Level::Moderate) => "Moderate rain showers",
            WeatherStatus::RainShowers(Level::Heavy) => "Heavy rain showers",
            WeatherStatus::Thunderstorm => "Thunderstorm",
            WeatherStatus::SleetShowers(Level::Light) => "Light sleet showers",
            WeatherStatus::SleetShowers(Level::Moderate) => "Moderate sleet showers",
            WeatherStatus::SleetShowers(Level::Heavy) => "Heavy sleet showers",
            WeatherStatus::SnowShowers(Level::Light) => "Light snow showers",
            WeatherStatus::SnowShowers(Level::Moderate) => "Moderate snow showers",
            WeatherStatus::SnowShowers(Level::Heavy) => "Heavy snow showers",
            WeatherStatus::Rain(Level::Light) => "Light rain",
            WeatherStatus::Rain(Level::Moderate) => "Moderate rain",
            WeatherStatus::Rain(Level::Heavy) => "Heavy rain",
            WeatherStatus::Thunder => "Thunder",
            WeatherStatus::Sleet(Level::Light) => "Light sleet",
            WeatherStatus::Sleet(Level::Moderate) => "Moderate sleet",
            WeatherStatus::Sleet(Level::Heavy) => "Heavy sleet",
            WeatherStatus::Snowfall(Level::Light) => "Light snowfall",
            WeatherStatus::Snowfall(Level::Moderate) => "Moderate snowfall",
            WeatherStatus::Snowfall(Level::Heavy) => "Heavy snowfall",
        };
        s.to_owned()
    }
}

/// The code table is total and injective on the valid codes: every valid code
/// stands for a condition that recovers that code, so distinct codes stand
/// for distinct conditions; every description is non-empty; and the
/// descriptions themselves are pairwise distinct.
pub proof fn lemma_weather_table_total_injective()
    ensures
        forall|c: int| valid_weather_code(c) ==> code_of_status(#[trigger] status_of_code(c)) == c,
        forall|c1: int, c2: int|
            valid_weather_code(c1) && valid_weather_code(c2) && c1 != c2 ==> status_of_code(c1)
                != status_of_code(c2),
        forall|c: int| valid_weather_code(c) ==> description_of(#[trigger] status_of_code(c)).len()
            > 0,
        forall|c1: int, c2: int|
            valid_weather_code(c1) && valid_weather_code(c2) && c1 != c2 ==> description_of(
                status_of_code(c1),
            ) != description_of(status_of_code(c2)),
{
    assert forall|c: int| valid_weather_code(c) implies code_of_status(
        #[trigger] status_of_code(c),
    ) == c by {
        lemma_status_code_facts(c);
    }
    assert forall|c: int| valid_weather_code(c) implies description_of(
        #[trigger] status_of_code(c),
    ).len() > 0 by {
        lemma_status_code_facts(c);
    }
    assert forall|c1: int, c2: int|
        valid_weather_code(c1) && valid_weather_code(c2) && c1 != c2 implies description_of(
        status_of_code(c1),
    ) != description_of(status_of_code(c2)) by {
        lemma_descriptions_distinct(c1, c2);
    }
}

/// The length of the description of a valid code.
spec fn desc_len(c: int) -> int {
    if c == 1 { 9 } else if c == 2 { 16 } else if c == 3 { 19 } else if c == 4 { 13 }
    else if c == 5 { 10 } else if c == 6 { 12 } else if c == 7 { 3 } else if c == 8 { 18 }
    else if c == 9 { 21 } else if c == 10 { 18 } else if c == 11 { 12 } else if c == 12 { 19 }
    else if c == 13 { 22 } else if c == 14 { 19 } else if c == 15 { 18 } else if c == 16 { 21 }
    else if c == 17 { 18 } else if c == 18 { 10 } else if c == 19 { 13 } else if c == 20 { 10 }
    else if c == 21 { 7 } else if c == 22 { 11 } else if c == 23 { 14 } else if c == 24 { 11 }
    else if c == 25 { 14 } else if c == 26 { 17 } else { 14 }
}

/// The first character of the description of a valid code.
spec fn desc_first(c: int) -> char {
    if c == 1 { 'C' } else if c == 2 { 'N' } else if c == 3 { 'V' } else if c == 4 { 'H' }
    else if c == 5 { 'C' } else if c == 6 { 'O' } else if c == 7 { 'F' } else if c == 8 { 'L' }
    else if c == 9 { 'M' } else if c == 10 { 'H' } else if c == 11 { 'T' } else if c == 12 { 'L' }
    else if c == 13 { 'M' } else if c == 14 { 'H' } else if c == 15 { 'L' } else if c == 16 { 'M' }
    else if c == 17 { 'H' } else if c == 18 { 'L' } else if c == 19 { 'M' } else if c == 20 { 'H' }
    else if c == 21 { 'T' } else if c == 22 { 'L' } else if c == 23 { 'M' } else if c == 24 { 'H' }
    else if c == 25 { 'L' } else if c == 26 { 'M' } else { 'H' }
}

/// The tenth character of the description, where one exists.
spec fn desc_tenth(c: int) -> char {
    if c == 2 { 'e' } else if c == 3 { 'c' } else if c == 4 { ' ' } else if c == 5 { 'y' }
    else if c == 6 { 's' } else if c == 8 { 'n' } else if c == 9 { 'r' } else if c == 10 { 'n' }
    else if c == 11 { 'o' } else if c == 12 { 'e' } else if c == 13 { 's' } else if c == 14 { 'e' }
    else if c == 15 { 'w' } else if c == 16 { 's' } else if c == 17 { 'w' } else if c == 18 { 'n' }
    else if c == 19 { 'r' } else if c == 20 { 'n' } else if c == 22 { 'e' } else if c == 23 { 's' }
    else if c == 24 { 'e' } else if c == 25 { 'w' } else if c == 26 { 's' } else { 'w' }
}

/// The description of a valid code has its tabulated length, first
/// character, and (where it is long enough) tenth character.
proof fn lemma_desc_key(c: int)
    requires
        valid_weather_code(c),
    ensures
        description_of(status_of_code(c)).len() == desc_len(c),
        description_of(status_of_code(c))[0] == desc_first(c),
        desc_len(c) > 9 ==> description_of(status_of_code(c))[9] == desc_tenth(c),
{


    reveal_strlit("Clear sky");
    reveal_strlit("Nearly clear sky");
    reveal_strlit("Variable cloudiness");
    reveal_strlit("Halfclear sky");
    reveal_strlit("Cloudy sky");
    reveal_strlit("Overcast sky");
    reveal_strlit("Fog");
    reveal_strlit("Light rain showers");
    reveal_strlit("Moderate rain showers");
    reveal_strlit("Heavy rain showers");
    reveal_strlit("Thunderstorm");
    reveal_strlit("Light sleet showers");
    reveal_strlit("Moderate sleet showers");
    reveal_strlit("Heavy sleet showers");
    reveal_strlit("Light snow showers");
    reveal_strlit("Moderate snow showers");
    reveal_strlit("Heavy snow showers");
    reveal_strlit("Light rain");
    reveal_strlit("Moderate rain");
    reveal_strlit("Heavy rain");
    reveal_strlit("Thunder");
    reveal_strlit("Light sleet");
    reveal_strlit("Moderate sleet");
    reveal_strlit("Heavy sleet");
    reveal_strlit("Light snowfall");
    reveal_strlit("Moderate snowfall");
    reveal_strlit("Heavy snowfall");
}

/// Distinct codes describe themselves with distinct text: their descriptions
/// differ in length, in the first character, or in the tenth.
#[verifier::rlimit(100)]
proof fn lemma_descriptions_distinct(c1: int, c2: int)
    requires
        valid_weather_code(c1),
        valid_weather_code(c2),
        c1 != c2,
    ensures
        description_of(status_of_code(c1)) != description_of(status_of_code(c2)),
{
    lemma_desc_key(c1);
    lemma_desc_key(c2);
    let d1 = description_of(status_of_code(c1));
    let d2 = description_of(status_of_code(c2));
    if desc_len(c1) != desc_len(c2) {
        assert(d1.len() != d2.len());
    } else if desc_first(c1) != desc_first(c2) {
        assert(d1[0] != d2[0]);
    } else {
        assert(desc_len(c1) > 9 && desc_tenth(c1) != desc_tenth(c2));
        assert(d1[9] != d2[9]);
    }
}

proof fn lemma_status_code_facts(c: int)
    requires
        valid_weather_code(c),
    ensures
        code_of_status(status_of_code(c)) == c,
        description_of(status_of_code(c)).len() > 0,
{
    reveal_strlit("Clear sky");
    reveal_strlit("Nearly clear sky");
    reveal_strlit("Variable cloudiness");
    reveal_strlit("Halfclear sky");
    reveal_strlit("Cloudy sky");
    reveal_strlit("Overcast sky");
    reveal_strlit("Fog");
    reveal_strlit("Light rain showers");
    reveal_strlit("Moderate rain showers");
    reveal_strlit("Heavy rain showers");
    reveal_strlit("Thunderstorm");
    reveal_strlit("Light sleet showers");
    reveal_strlit("Moderate sleet showers");
    reveal_strlit("Heavy sleet showers");
    reveal_strlit("Light snow showers");
    reveal_strlit("Moderate snow showers");
    reveal_strlit("Heavy snow showers");
    reveal_strlit("Light rain");
    reveal_strlit("Moderate rain");
    reveal_strlit("Heavy rain");
    reveal_strlit("Thunder");
    reveal_strlit("Light sleet");
    reveal_strlit("Moderate sleet");
    reveal_strlit("Heavy sleet");
    reveal_strlit("Light snowfall");
    reveal_strlit("Moderate snowfall");
    reveal_strlit("Heavy snowfall");
}

} // verus!
