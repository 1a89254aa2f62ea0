use day_skies::cities::City;
use day_skies::icons::Glyph;
use day_skies::weather::{
    check_status, hm, is_mock, mock, mock_params, process, processable, ApiOutline, DataSource, DayName,
    Family, WeatherError,
};

fn place(id: &str) -> City<(i32, i32)> {
    City { id: id.to_string(), name: String::new(), position: (0, 0) }
}

#[test]
fn weather_codes_to_families() {
    assert_eq!(Family::from_code(0), Family::Clear);
    assert_eq!(Family::from_code(1), Family::Clear);
    assert_eq!(Family::from_code(2), Family::PartlyCloudy);
    assert_eq!(Family::from_code(3), Family::Cloudy);
    assert_eq!(Family::from_code(48), Family::Fog);
    assert_eq!(Family::from_code(57), Family::Drizzle);
    assert_eq!(Family::from_code(82), Family::Rain);
    assert_eq!(Family::from_code(86), Family::Snow);
    assert_eq!(Family::from_code(99), Family::Thunder);
    assert_eq!(Family::from_code(4), Family::Cloudy);
    assert_eq!(Family::from_code(1000), Family::Cloudy);
}

#[test]
fn glyphs_by_day_and_night() {
    assert!(Glyph::of(Family::Clear, true) == Glyph::Sun);
    assert!(Glyph::of(Family::Clear, false) == Glyph::Moon);
    assert!(Glyph::of(Family::PartlyCloudy, true) == Glyph::PartlyDay);
    assert!(Glyph::of(Family::PartlyCloudy, false) == Glyph::PartlyNight);
    assert!(Glyph::of(Family::Rain, false) == Glyph::Rain);
    assert!(Glyph::of(Family::Cloudy, true) == Glyph::Cloud);
}

#[test]
fn mock_switch_values() {
    assert!(!is_mock(None));
    assert!(!is_mock(Some("")));
    assert!(!is_mock(Some("0")));
    assert!(!is_mock(Some("false")));
    assert!(!is_mock(Some("FALSE")));
    assert!(is_mock(Some("1")));
    assert!(is_mock(Some("yes")));
    assert!(is_mock(Some("00")));
}

#[test]
fn timestamps_to_clock_time() {
    let t = String::from("2026-07-15T06:12");
    assert_eq!(hm(Some(&t)), "06:12");
    assert_eq!(hm(None), "--:--");
    let short = String::from("2026-07-15");
    assert_eq!(hm(Some(&short)), "--:--");
}

#[test]
fn http_status_check() {
    assert!(check_status(200).is_ok());
    assert!(check_status(299).is_ok());
    assert_eq!(check_status(404), Err(String::from("request failed: HTTP 404")));
    assert_eq!(check_status(199), Err(String::from("request failed: HTTP 199")));
    let e = WeatherError(String::from("parse failed"));
    assert_eq!(e.to_string(), "parse failed");
    assert!(DataSource::Mock != DataSource::Live);
}

#[test]
fn mock_fixtures_per_city() {
    assert_eq!(mock_params("san-francisco"), (18, 0, 14));
    assert_eq!(mock_params("london"), (14, 63, 10));
    assert_eq!(mock_params("somewhere"), (20, 0, 12));

    let w = mock(&place("london"));
    assert_eq!(w.base, 14);
    assert_eq!(w.family, Family::Rain);
    assert!(w.is_day);
    assert_eq!((w.high, w.low, w.feels_like), (17, 8, 13));
    assert_eq!((w.humidity, w.wind_kmh, w.uv, w.pressure), (68, 12, 5, 1013));
    assert_eq!(w.sunrise, "06:12");
    assert_eq!(w.sunset, "20:34");
    assert_eq!(w.hourly.len(), 24);
    assert_eq!(w.hourly[0].hour_label, None);
    assert_eq!(w.hourly[1].hour_label.as_deref(), Some("11"));
    assert_eq!(w.hourly[14].hour_label.as_deref(), Some("00"));
    assert!(!w.hourly[14].is_day);
    assert_eq!(w.hourly[5].sample, 5);
    assert_eq!(w.daily.len(), 10);
    assert!(w.daily[0].name == DayName::Today);
    assert!(w.daily[1].name == DayName::Weekday(4));
    assert_eq!((w.daily[0].low, w.daily[0].high), (8, 17));
    assert_eq!((w.daily[5].low, w.daily[5].high), (6, 18));
    assert_eq!(w.daily[0].precip, 70);
    assert_eq!(w.daily[3].family, Family::Rain);
    assert_eq!(w.daily[3].precip, 70);
    assert_eq!(w.daily[1].precip, 10);
    assert_eq!(w.daily[9].family, Family::Fog);

    let night = mock(&place("tokyo"));
    assert!(!night.is_day);
    assert_eq!(night.uv, 0);
    assert_eq!(night.hourly[9].hour_label.as_deref(), Some("07"));
    assert!(night.hourly[9].is_day);
}

fn strings(v: &[&str]) -> Vec<String> {
    v.iter().map(|s| s.to_string()).collect()
}

#[test]
fn live_response_rows() {
    let api = ApiOutline {
        current_time: String::from("2026-07-15T10:30"),
        current_is_day: 1,
        current_weather_code: 61,
        hourly_time: strings(&[
            "2026-07-15T08:00",
            "2026-07-15T09:00",
            "2026-07-15T10:00",
            "2026-07-15T11:00",
            "2026-07-15T20:00",
        ]),
        hourly_weather_code: vec![0, 1, 2, 3],
        daily_time: strings(&["2026-07-15", "2026-07-16", "2026-07-20"]),
        daily_weather_code: vec![61, 0],
        daily_sunrise: strings(&["2026-07-15T05:58"]),
        daily_sunset: vec![],
        daily_precipitation_probability_max: vec![Some(80), None],
    };
    let w = process(&api);
    assert_eq!(w.family, Family::Rain);
    assert!(w.is_day);
    assert_eq!(w.sunrise, "05:58");
    assert_eq!(w.sunset, "--:--");
    assert_eq!(w.hourly.len(), 3);
    assert_eq!(w.hourly[0].sample, 2);
    assert_eq!(w.hourly[0].hour_label, None);
    assert_eq!(w.hourly[0].family, Family::PartlyCloudy);
    assert_eq!(w.hourly[1].hour_label.as_deref(), Some("11"));
    assert_eq!(w.hourly[2].hour_label.as_deref(), Some("20"));
    assert!(!w.hourly[2].is_day);
    assert_eq!(w.hourly[2].family, Family::Clear);
    assert_eq!(w.daily.len(), 3);
    assert!(w.daily[0].name == DayName::Today);
    assert!(w.daily[1].name == DayName::Weekday(4));
    assert!(w.daily[2].name == DayName::Weekday(1));
    assert_eq!(w.daily[0].precip, 80);
    assert_eq!(w.daily[1].precip, 0);
    assert_eq!(w.daily[2].family, Family::Clear);
}

#[test]
fn live_response_without_later_hours() {
    let api = ApiOutline {
        current_time: String::from("2026-07-15T23:30"),
        current_is_day: 0,
        current_weather_code: 0,
        hourly_time: strings(&["2026-07-15T21:00", "2026-07-15T22:00"]),
        hourly_weather_code: vec![3, 3],
        daily_time: vec![],
        daily_weather_code: vec![],
        daily_sunrise: vec![],
        daily_sunset: vec![],
        daily_precipitation_probability_max: vec![],
    };
    let w = process(&api);
    assert!(!w.is_day);
    assert_eq!(w.hourly.len(), 2);
    assert_eq!(w.hourly[0].sample, 0);
    assert_eq!(w.hourly[1].hour_label.as_deref(), Some("22"));
    assert_eq!(w.daily.len(), 0);
}

#[test]
fn responses_the_processing_refuses() {
    let mut api = ApiOutline {
        current_time: String::from("2026-07-15T10:30"),
        current_is_day: 1,
        current_weather_code: 0,
        hourly_time: vec![],
        hourly_weather_code: vec![],
        daily_time: strings(&["nonsense", "2026-07-16"]),
        daily_weather_code: vec![],
        daily_sunrise: vec![],
        daily_sunset: vec![],
        daily_precipitation_probability_max: vec![],
    };
    // The first day is always "Today", whatever its date says.
    assert!(processable(&api));
    api.daily_time = strings(&["2026-07-15", "2026-00-16"]);
    assert!(!processable(&api));
    api.daily_time = strings(&["2026-07-15", "2026-07-16"]);
    api.current_time = String::from("2026-07-15T10\u{e9}");
    assert!(processable(&api));
    api.current_time = String::from("2026-07-15T0\u{e9}30");
    assert!(!processable(&api));
}
