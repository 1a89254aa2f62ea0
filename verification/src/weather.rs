//! The forecast model and its processing: WMO weather-code families, the deterministic mock
//! forecast, and the turning of an Open-Meteo response into hourly and daily rows. Readings
//! that are real numbers (temperatures, wind, pressure) stay with the caller: the rows here
//! say which reading each one shows.

use vstd::prelude::*;
use crate::calendar::{
    parse_ymd, weekday_defined, weekday_index, weekday_index_offset, weekday_spec,
    weekday_supported, ymd_spec,
};
use crate::cities::City;
use crate::text::{
    byte_slice, byte_slice_spec, bytes_le, chars_of, decimal, eq_ignore_ascii_case,
    eq_ignore_ascii_case_spec, parse_i64, parse_i64_spec, str_eq, str_ge, two_digits,
    write_decimal, write_two_digits,
};
use vstd::utf8::{decode_utf8, encode_utf8, is_ascii_chars, is_char_boundary};

verus! {

/// The WMO weather-code families the app distinguishes.
#[derive(Clone, Copy, Debug, PartialEq, Eq, Structural)]
pub enum Family {
    Clear,
    PartlyCloudy,
    Cloudy,
    Fog,
    Drizzle,
    Rain,
    Snow,
    Thunder,
}

/// The family a WMO weather code belongs to; codes outside the table read as cloudy.
pub open spec fn family_of_code(code: u16) -> Family {
    if code == 0 || code == 1 {
        Family::Clear
    } else if code == 2 {
        Family::PartlyCloudy
    } else if code == 3 {
        Family::Cloudy
    } else if code == 45 || code == 48 {
        Family::Fog
    } else if code == 51 || code == 53 || code == 55 || code == 56 || code == 57 {
        Family::Drizzle
    } else if code == 61 || code == 63 || code == 65 || code == 66 || code == 67 || code == 80
        || code == 81 || code == 82 {
        Family::Rain
    } else if code == 71 || code == 73 || code == 75 || code == 77 || code == 85 || code == 86 {
        Family::Snow
    } else if code == 95 || code == 96 || code == 99 {
        Family::Thunder
    } else {
        Family::Cloudy
    }
}

impl Family {
    pub fn from_code(code: u16) -> (f: Family)
        ensures
            f == family_of_code(code),
            (f == Family::Clear) <==> (code == 0 || code == 1),
            (f == Family::PartlyCloudy) <==> code == 2,
            (f == Family::Fog) <==> (code == 45 || code == 48),
            (f == Family::Drizzle) <==> (code == 51 || code == 53 || code == 55 || code == 56
                || code == 57),
            (f == Family::Rain) <==> (code == 61 || code == 63 || code == 65 || code == 66 || code
                == 67 || code == 80 || code == 81 || code == 82),
            (f == Family::Snow) <==> (code == 71 || code == 73 || code == 75 || code == 77 || code
                == 85 || code == 86),
            (f == Family::Thunder) <==> (code == 95 || code == 96 || code == 99),
    {
        match code {
            0 | 1 => Family::Clear,
            2 => Family::PartlyCloudy,
            3 => Family::Cloudy,
            45 | 48 => Family::Fog,
            51 | 53 | 55 | 56 | 57 => Family::Drizzle,
            61 | 63 | 65 | 66 | 67 | 80 | 81 | 82 => Family::Rain,
            71 | 73 | 75 | 77 | 85 | 86 => Family::Snow,
            95 | 96 | 99 => Family::Thunder,
            _ => Family::Cloudy,
        }
    }
}



/// The WMO table, family by family: each family is exactly the set of codes the table lists
/// for it, and every other code (3 among them) reads as cloudy.
pub proof fn lemma_family_table(code: u16)
    ensures
        (family_of_code(code) == Family::Clear) <==> (code == 0 || code == 1),
        (family_of_code(code) == Family::PartlyCloudy) <==> code == 2,
        (family_of_code(code) == Family::Fog) <==> (code == 45 || code == 48),
        (family_of_code(code) == Family::Drizzle) <==> (code == 51 || code == 53 || code == 55
            || code == 56 || code == 57),
        (family_of_code(code) == Family::Rain) <==> (code == 61 || code == 63 || code == 65 || code
            == 66 || code == 67 || code == 80 || code == 81 || code == 82),
        (family_of_code(code) == Family::Snow) <==> (code == 71 || code == 73 || code == 75 || code
            == 77 || code == 85 || code == 86),
        (family_of_code(code) == Family::Thunder) <==> (code == 95 || code == 96 || code == 99),
        code == 3 ==> family_of_code(code) == Family::Cloudy,
{
}

/// Where the displayed data came from.
#[derive(Clone, Copy, Debug, PartialEq, Eq, Structural)]
pub enum DataSource {
    /// A real Open-Meteo response.
    Live,
    /// The deterministic fixture.
    Mock,
}

/// A fetch or parse failure, with its message.
pub struct WeatherError(pub String);

impl WeatherError {
    /// The message, as the error displays it.
    pub fn to_string(&self) -> (s: String)
        ensures
            s@ == self.0@,
    {
        self.0.clone()
    }
}

/// A day's row label: today, or a weekday (`0` = Sunday … `6` = Saturday).
#[derive(Clone, Copy, Debug, PartialEq, Eq, Structural)]
pub enum DayName {
    Today,
    Weekday(u8),
}

/// One cell of the hourly strip. Its temperature is reading number `sample` of the source
/// (the index into the response's hourly arrays, or the hours after now in the mock).
pub struct HourSlot {
    /// `None` for the current hour (shown as "Now"), else the clock hour `HH`.
    pub hour_label: Option<String>,
    pub family: Family,
    pub is_day: bool,
    pub sample: usize,
}

/// A mathematical picture of an [`HourSlot`].
pub struct HourView {
    pub hour_label: Option<Seq<char>>,
    pub family: Family,
    pub is_day: bool,
    pub sample: int,
}

impl View for HourSlot {
    type V = HourView;

    open spec fn view(&self) -> HourView {
        HourView {
            hour_label: match self.hour_label {
                Some(s) => Some(s@),
                None => None,
            },
            family: self.family,
            is_day: self.is_day,
            sample: self.sample as int,
        }
    }
}

/// One row of the daily forecast. Its low and high are reading number `sample` of the
/// response's daily arrays.
pub struct DaySlot {
    pub name: DayName,
    pub family: Family,
    pub precip: i64,
    pub sample: usize,
}

/// Whether the environment value of the mock switch turns the deterministic mock on: any
/// value but empty, `0` or (in any ASCII case) `false`.
pub open spec fn mock_switch(value: Option<Seq<char>>) -> bool {
    match value {
        Some(v) => !(v.len() == 0 || v == "0"@ || eq_ignore_ascii_case_spec(v, "false"@)),
        None => false,
    }
}

/// Whether the app runs on the deterministic mock, given the value of its switch
/// (`WEATHER_MOCK`) in the environment.
pub fn is_mock(value: Option<&str>) -> (r: bool)
    ensures
        r == mock_switch(match value {
            Some(v) => Some(v@),
            None => None,
        }),
{
    match value {
        Some(v) => {
            let c = chars_of(v);
            let word = chars_of("false");
            proof {
                reveal_strlit("0");
            }
            let is_zero = c.len() == 1 && c[0] == '0';
            proof {
                if is_zero {
                    assert(v@ =~= "0"@);
                }
            }
            !(c.len() == 0 || is_zero || eq_ignore_ascii_case(&c, &word))
        },
        None => false,
    }
}

/// "HH:MM" out of an ISO timestamp such as `2026-07-15T06:12` (bytes 11 to 16), or `--:--`.
pub open spec fn hm_spec(t: Option<Seq<char>>) -> Seq<char> {
    match t {
        Some(s) => match byte_slice_spec(s, 11, 16) {
            Some(x) => x,
            None => "--:--"@,
        },
        None => "--:--"@,
    }
}

/// Extracts "HH:MM" from an ISO timestamp like "2026-07-15T06:12".
pub fn hm(t: Option<&String>) -> (r: String)
    ensures
        r@ == hm_spec(match t {
            Some(s) => Some(s@),
            None => None,
        }),
{
    let part = match t {
        Some(s) => byte_slice(s.as_str(), 11, 16),
        None => None,
    };
    match part {
        Some(x) => x.to_owned(),
        None => "--:--".to_owned(),
    }
}


/// Per-city fixture parameters: (headline °C, WMO code, local clock hour). The five catalog
/// defaults each show a distinct sky; every other id gets the same fixed fixture.
pub open spec fn mock_params_spec(id: Seq<char>) -> (i64, u16, i64) {
    if id == "san-francisco"@ {
        (18, 0, 14)
    } else if id == "new-york"@ {
        (27, 2, 12)
    } else if id == "london"@ {
        (14, 63, 10)
    } else if id == "tokyo"@ {
        (24, 1, 22)
    } else if id == "sydney"@ {
        (12, 3, 16)
    } else {
        (20, 0, 12)
    }
}

pub fn mock_params(id: &str) -> (r: (i64, u16, i64))
    ensures
        r == mock_params_spec(id@),
{
    if str_eq(id, "san-francisco") {
        (18, 0, 14)
    } else if str_eq(id, "new-york") {
        (27, 2, 12)
    } else if str_eq(id, "london") {
        (14, 63, 10)
    } else if str_eq(id, "tokyo") {
        (24, 1, 22)
    } else if str_eq(id, "sydney") {
        (12, 3, 16)
    } else {
        (20, 0, 12)
    }
}

/// Whether clock hour `h` is daytime (06:00 up to 20:00).
pub open spec fn daytime(h: int) -> bool {
    6 <= h < 20
}

/// One row of the mock's daily forecast.
pub struct MockDay {
    pub name: DayName,
    pub low: i64,
    pub high: i64,
    pub family: Family,
    pub precip: i64,
}

/// The deterministic mock forecast, but for the hourly temperatures: those follow a smooth
/// curve through `base` at `hour`, which the caller draws for each cell's `sample` (hours
/// after now).
pub struct MockOutline {
    pub base: i64,
    pub hour: i64,
    pub family: Family,
    pub is_day: bool,
    pub high: i64,
    pub low: i64,
    pub feels_like: i64,
    pub humidity: i64,
    pub wind_kmh: i64,
    pub uv: i64,
    pub pressure: i64,
    pub sunrise: String,
    pub sunset: String,
    pub hourly: Vec<HourSlot>,
    pub daily: Vec<MockDay>,
}

/// The WMO codes the mock's ten days rotate through, the first being the city's own.
pub open spec fn mock_rotation(code: u16, i: int) -> u16 {
    if i == 0 {
        code
    } else if i == 1 || i == 6 {
        2
    } else if i == 2 || i == 7 {
        3
    } else if i == 3 {
        61
    } else if i == 4 {
        0
    } else if i == 5 {
        80
    } else if i == 8 {
        1
    } else {
        45
    }
}

/// The mock's chance of precipitation for a day of family `f` (`i` is the day's number).
pub open spec fn mock_precip(f: Family, i: int) -> int {
    match f {
        Family::Rain | Family::Thunder => 70 - (i % 3) * 10,
        Family::Drizzle | Family::Snow => 40,
        Family::PartlyCloudy => 10,
        _ => 0,
    }
}

/// Cell `i` of the mock's hourly strip, for a city whose clock reads `hour`.
pub open spec fn mock_hour_view(hour: int, family: Family, i: int) -> HourView {
    let h = (hour + i) % 24;
    HourView {
        hour_label: if i == 0 {
            None
        } else {
            Some(two_digits(h))
        },
        family: family,
        is_day: daytime(h),
        sample: i,
    }
}

/// Whether `d` is day `i` of the mock's daily forecast for a city with headline `base` °C and
/// weather code `code`. The days run from 15 July 2026.
pub open spec fn mock_day_ok(d: MockDay, base: int, code: u16, i: int) -> bool {
    let f = family_of_code(mock_rotation(code, i));
    &&& d.name == (if i == 0 {
        DayName::Today
    } else {
        DayName::Weekday(weekday_spec(2026, 7, 15 + i) as u8)
    })
    &&& d.low == base - 6 - i % 3
    &&& d.high == base + 3 + i % 4
    &&& d.family == f
    &&& d.precip == mock_precip(f, i)
}

fn mock_day(base: i64, code: u16, i: i64) -> (d: MockDay)
    requires
        0 <= i < 10,
        -100 <= base <= 100,
    ensures
        mock_day_ok(d, base as int, code, i as int),
{
    let c: u16 = match i {
        0 => code,
        1 | 6 => 2,
        2 | 7 => 3,
        3 => 61,
        4 => 0,
        5 => 80,
        8 => 1,
        _ => 45,
    };
    let f = Family::from_code(c);
    let precip: i64 = match f {
        Family::Rain | Family::Thunder => 70 - (i % 3) * 10,
        Family::Drizzle | Family::Snow => 40,
        Family::PartlyCloudy => 10,
        _ => 0,
    };
    MockDay {
        name: if i == 0 {
            DayName::Today
        } else {
            DayName::Weekday(weekday_index_offset(2026, 7, 15, i))
        },
        low: base - 6 - i % 3,
        high: base + 3 + i % 4,
        family: f,
        precip,
    }
}

/// The deterministic forecast for a place (for screenshots and tests): the fixture that
/// `mock_params_spec` picks by the place's id, 24 hourly cells from the current hour and ten
/// days from today.
pub fn mock<P>(place: &City<P>) -> (w: MockOutline)
    ensures
        ({
            let (base, code, hour) = mock_params_spec(place.id@);
            let family = family_of_code(code);
            &&& w.base == base
            &&& w.hour == hour
            &&& w.family == family
            &&& w.is_day == daytime(hour as int)
            &&& w.high == base + 3
            &&& w.low == base - 6
            &&& w.feels_like == base - 1
            &&& w.humidity == 68
            &&& w.wind_kmh == 12
            &&& w.uv == (if daytime(hour as int) {
                5int
            } else {
                0int
            })
            &&& w.pressure == 1013
            &&& w.sunrise@ == "06:12"@
            &&& w.sunset@ == "20:34"@
            &&& w.hourly@.len() == 24
            &&& forall|i: int|
                0 <= i < 24 ==> #[trigger] w.hourly@[i]@ == mock_hour_view(hour as int, family, i)
            &&& w.daily@.len() == 10
            &&& forall|i: int|
                0 <= i < 10 ==> mock_day_ok(#[trigger] w.daily@[i], base as int, code, i)
        }),
{
    let (base, code, hour) = mock_params(place.id.as_str());
    let family = Family::from_code(code);
    let is_day = 6 <= hour && hour < 20;
    let mut hourly: Vec<HourSlot> = Vec::new();
    let mut i: i64 = 0;
    while i < 24
        invariant
            0 <= i <= 24,
            0 <= hour < 24,
            hourly@.len() == i,
            forall|k: int| 0 <= k < i ==> #[trigger] hourly@[k]@ == mock_hour_view(hour as int, family, k),
        decreases 24 - i,
    {
        let h = (hour + i) % 24;
        let label = if i == 0 {
            None
        } else {
            Some(write_two_digits(h))
        };
        let slot = HourSlot { hour_label: label, family, is_day: 6 <= h && h < 20, sample: i as usize };
        hourly.push(slot);
        i = i + 1;
    }
    let mut daily: Vec<MockDay> = Vec::new();
    let mut j: i64 = 0;
    while j < 10
        invariant
            0 <= j <= 10,
            -100 <= base <= 100,
            daily@.len() == j,
            forall|k: int| 0 <= k < j ==> mock_day_ok(#[trigger] daily@[k], base as int, code, k),
        decreases 10 - j,
    {
        daily.push(mock_day(base, code, j));
        j = j + 1;
    }
    MockOutline {
        base,
        hour,
        family,
        is_day,
        high: base + 3,
        low: base - 6,
        feels_like: base - 1,
        humidity: 68,
        wind_kmh: 12,
        uv: if is_day {
            5
        } else {
            0
        },
        pressure: 1013,
        sunrise: "06:12".to_owned(),
        sunset: "20:34".to_owned(),
        hourly,
        daily,
    }
}


/// A mathematical picture of a [`DaySlot`].
pub struct DayView {
    pub name: DayName,
    pub family: Family,
    pub precip: int,
    pub sample: int,
}

impl View for DaySlot {
    type V = DayView;

    open spec fn view(&self) -> DayView {
        DayView {
            name: self.name,
            family: self.family,
            precip: self.precip as int,
            sample: self.sample as int,
        }
    }
}

/// What the processing reads from an Open-Meteo forecast response (the fields it consumes,
/// readings that are real numbers aside).
pub struct ApiOutline {
    pub current_time: String,
    pub current_is_day: i64,
    pub current_weather_code: u16,
    pub hourly_time: Vec<String>,
    pub hourly_weather_code: Vec<u16>,
    pub daily_time: Vec<String>,
    pub daily_weather_code: Vec<u16>,
    pub daily_sunrise: Vec<String>,
    pub daily_sunset: Vec<String>,
    pub daily_precipitation_probability_max: Vec<Option<i64>>,
}

/// The processed forecast, readings that are real numbers aside: the rows say which
/// reading of the response each one shows.
pub struct LiveOutline {
    pub family: Family,
    pub is_day: bool,
    pub sunrise: String,
    pub sunset: String,
    pub hourly: Vec<HourSlot>,
    pub daily: Vec<DaySlot>,
}

pub open spec fn texts(v: Seq<String>) -> Seq<Seq<char>> {
    v.map_values(|s: String| s@)
}

/// The hour key of the current time: its first 13 bytes ("YYYY-MM-DDTHH"), or all of it.
pub open spec fn now_key(t: Seq<char>) -> Seq<char> {
    let b = encode_utf8(t);
    let k = if b.len() < 13 {
        b.len() as int
    } else {
        13
    };
    decode_utf8(b.subrange(0, k))
}

/// Whether the current time can be cut to its hour key (byte 13 does not split a character).
pub open spec fn now_key_ok(t: Seq<char>) -> bool {
    let b = encode_utf8(t);
    b.len() > 13 ==> is_char_boundary(b, 13)
}

/// The first index from `j` on whose time sorts at or after `key`, or 0 if there is none.
pub open spec fn first_at_or_after(times: Seq<Seq<char>>, key: Seq<char>, j: int) -> int
    decreases times.len() - j,
{
    if j < 0 || j >= times.len() {
        0
    } else if bytes_le(encode_utf8(key), encode_utf8(times[j])) {
        j
    } else {
        first_at_or_after(times, key, j + 1)
    }
}

/// The `HH` of an ISO timestamp (bytes 11 to 13), or `00`.
pub open spec fn hour_text(t: Seq<char>) -> Seq<char> {
    match byte_slice_spec(t, 11, 13) {
        Some(x) => x,
        None => "00"@,
    }
}

/// The clock hour of an ISO timestamp, or 12 where its `HH` does not parse.
pub open spec fn hour_of(t: Seq<char>) -> int {
    match parse_i64_spec(hour_text(t)) {
        Some(v) => v as int,
        None => 12,
    }
}

/// Entry `i` of `codes`, or 0 past its end.
pub open spec fn code_at(codes: Seq<u16>, i: int) -> u16 {
    if 0 <= i < codes.len() {
        codes[i]
    } else {
        0
    }
}

/// Entry `i` of the precipitation chances, or 0 where it is missing or null.
pub open spec fn precip_at(p: Seq<Option<i64>>, i: int) -> int {
    if 0 <= i < p.len() {
        match p[i] {
            Some(v) => v as int,
            None => 0,
        }
    } else {
        0
    }
}

/// Cell `i` of the live hourly strip, showing hourly reading `idx`.
pub open spec fn live_hour_view(times: Seq<Seq<char>>, codes: Seq<u16>, i: int, idx: int) -> HourView {
    HourView {
        hour_label: if i == 0 {
            None
        } else {
            Some(hour_text(times[idx]))
        },
        family: family_of_code(code_at(codes, idx)),
        is_day: daytime(hour_of(times[idx])),
        sample: idx,
    }
}

/// Whether a date reads as one the weekday computation takes.
pub open spec fn date_in_range(ymd: (i64, i64, i64)) -> bool {
    let (y, m, d) = ymd;
    weekday_defined(y as int, m as int, d as int)
}

/// Row `i` of the live daily forecast.
pub open spec fn live_day_view(times: Seq<Seq<char>>, codes: Seq<u16>, p: Seq<Option<i64>>, i: int) -> DayView {
    DayView {
        name: if i == 0 {
            DayName::Today
        } else {
            let (y, m, d) = ymd_spec(times[i]);
            DayName::Weekday(weekday_spec(y as int, m as int, d as int) as u8)
        },
        family: family_of_code(code_at(codes, i)),
        precip: precip_at(p, i),
        sample: i,
    }
}

/// Whether the response can be processed: its current time can be cut to the hour, and
/// every day after the first carries a date whose weekday can be computed.
pub open spec fn api_ok(api: ApiOutline) -> bool {
    let days = texts(api.daily_time@);
    &&& now_key_ok(api.current_time@)
    &&& forall|i: int| 1 <= i < days.len() && i < 10 ==> date_in_range(#[trigger] ymd_spec(days[i]))
}



/// For an ASCII current time of at least 13 characters, the hour key is its first 13
/// characters ("YYYY-MM-DDTHH"), and the cut is allowed.
pub proof fn lemma_now_key_ascii(t: Seq<char>)
    requires
        is_ascii_chars(t),
        t.len() >= 13,
    ensures
        now_key(t) == t.take(13),
        now_key_ok(t),
{
    let b = encode_utf8(t);
    vstd::utf8::is_ascii_chars_encode_utf8(t);
    let p = t.take(13);
    assert(is_ascii_chars(p));
    vstd::utf8::is_ascii_chars_encode_utf8(p);
    assert(encode_utf8(p) =~= b.subrange(0, 13));
    vstd::utf8::encode_utf8_decode_utf8(p);
    if b.len() > 13 {
        vstd::utf8::encode_utf8_valid_utf8(t);
        vstd::utf8::is_ascii_chars_nat_bound(t);
        assert((t[13] as nat) < 128);
        assert(b[13] == t[13] as u8);
        vstd::utf8::is_char_boundary_iff_not_is_continuation_byte(b, 13);
    }
}

/// The hourly strip starts at the first hourly time at or after the key, if there is one:
/// no earlier time is at or after the key.
pub proof fn lemma_first_at_or_after(times: Seq<Seq<char>>, key: Seq<char>, j: int)
    requires
        0 <= j <= times.len(),
    ensures
        ({
            let r = first_at_or_after(times, key, j);
            let k = encode_utf8(key);
            &&& (exists|i: int| j <= i < times.len() && #[trigger] bytes_le(k, encode_utf8(times[i])))
                ==> (j <= r < times.len() && bytes_le(k, encode_utf8(times[r])) && forall|i: int|
                j <= i < r ==> !#[trigger] bytes_le(k, encode_utf8(times[i])))
            &&& !(exists|i: int| j <= i < times.len() && #[trigger] bytes_le(k, encode_utf8(times[i])))
                ==> r == 0
        }),
    decreases times.len() - j,
{
    if j < times.len() && !bytes_le(encode_utf8(key), encode_utf8(times[j])) {
        lemma_first_at_or_after(times, key, j + 1);
        let k = encode_utf8(key);
        if exists|i: int| j <= i < times.len() && #[trigger] bytes_le(k, encode_utf8(times[i])) {
            let i = choose|i: int| j <= i < times.len() && #[trigger] bytes_le(k, encode_utf8(times[i]));
            assert(i != j);
            assert(j + 1 <= i < times.len() && bytes_le(k, encode_utf8(times[i])));
        }
    }
}

/// The hour key of the current time (`&t[..min(len, 13)]`).
fn cut_now_key(t: &str) -> (k: &str)
    requires
        now_key_ok(t@),
    ensures
        k@ == now_key(t@),
{
    let n = t.as_bytes().len();
    let cut: usize = if n < 13 {
        n
    } else {
        13
    };
    proof {
        let b = encode_utf8(t@);
        vstd::utf8::encode_utf8_valid_utf8(t@);
        vstd::utf8::is_char_boundary_start_end_of_seq(b);
    }
    match byte_slice(t, 0, cut) {
        Some(x) => x,
        None => {
            proof {
                assert(false);
            }
            t
        },
    }
}

/// The index of the first hourly time at or after `key`, or 0.
fn find_start(times: &Vec<String>, key: &str) -> (j: usize)
    ensures
        j == first_at_or_after(texts(times@), key@, 0),
        times@.len() == 0 || j < times@.len(),
        times@.len() == 0 ==> j == 0,
{
    let ghost ts = texts(times@);
    let mut i: usize = 0;
    while i < times.len()
        invariant
            ts == texts(times@),
            i <= times@.len(),
            first_at_or_after(ts, key@, 0) == first_at_or_after(ts, key@, i as int),
        decreases times@.len() - i,
    {
        if str_ge(times[i].as_str(), key) {
            return i;
        }
        i = i + 1;
    }
    0
}

/// Cell `i` of the hourly strip, showing hourly reading `idx`.
fn live_hour(times: &Vec<String>, codes: &Vec<u16>, i: usize, idx: usize) -> (s: HourSlot)
    requires
        idx < times@.len(),
    ensures
        s@ == live_hour_view(texts(times@), codes@, i as int, idx as int),
{
    let t = times[idx].as_str();
    let hh: &str = match byte_slice(t, 11, 13) {
        Some(x) => x,
        None => "00",
    };
    let digits = chars_of(hh);
    let h: i64 = match parse_i64(&digits) {
        Some(v) => v,
        None => 12,
    };
    let code: u16 = if idx < codes.len() {
        codes[idx]
    } else {
        0
    };
    HourSlot {
        hour_label: if i == 0 {
            None
        } else {
            Some(hh.to_owned())
        },
        family: Family::from_code(code),
        is_day: 6 <= h && h < 20,
        sample: idx,
    }
}

/// Row `i` of the daily forecast.
fn live_day(api: &ApiOutline, i: usize) -> (s: DaySlot)
    requires
        i < api.daily_time@.len(),
        i < 10,
        api_ok(*api),
    ensures
        s@ == live_day_view(
            texts(api.daily_time@),
            api.daily_weather_code@,
            api.daily_precipitation_probability_max@,
            i as int,
        ),
{
    let name = if i == 0 {
        DayName::Today
    } else {
        let (y, m, d) = parse_ymd(api.daily_time[i].as_str());
        proof {
            assert(date_in_range(ymd_spec(texts(api.daily_time@)[i as int])));
        }
        DayName::Weekday(weekday_index(y, m, d))
    };
    let code: u16 = if i < api.daily_weather_code.len() {
        api.daily_weather_code[i]
    } else {
        0
    };
    let precip: i64 = if i < api.daily_precipitation_probability_max.len() {
        match api.daily_precipitation_probability_max[i] {
            Some(v) => v,
            None => 0,
        }
    } else {
        0
    };
    DaySlot { name, family: Family::from_code(code), precip, sample: i }
}

/// The first entry of `v`, if any.
pub open spec fn first_text(v: Seq<String>) -> Option<Seq<char>> {
    if v.len() > 0 {
        Some(v[0]@)
    } else {
        None
    }
}

/// Turns a parsed Open-Meteo response into the forecast rows: the current sky, sunrise and
/// sunset of the first day, up to 24 hourly cells from the first hour at or after now, and
/// up to ten days.
pub fn process(api: &ApiOutline) -> (w: LiveOutline)
    requires
        api_ok(*api),
    ensures
        w.family == family_of_code(api.current_weather_code),
        w.is_day == (api.current_is_day == 1),
        w.sunrise@ == hm_spec(first_text(api.daily_sunrise@)),
        w.sunset@ == hm_spec(first_text(api.daily_sunset@)),
        ({
            let times = texts(api.hourly_time@);
            let start = first_at_or_after(times, now_key(api.current_time@), 0);
            &&& w.hourly@.len() == (if times.len() - start < 24 {
                times.len() - start
            } else {
                24
            })
            &&& forall|i: int|
                0 <= i < w.hourly@.len() ==> #[trigger] w.hourly@[i]@ == live_hour_view(
                    times,
                    api.hourly_weather_code@,
                    i,
                    start + i,
                )
        }),
        ({
            let times = texts(api.hourly_time@);
            let key = encode_utf8(api.current_time@.take(13));
            is_ascii_chars(api.current_time@) && api.current_time@.len() >= 13 && w.hourly@.len()
                > 0 ==> {
                let s0 = w.hourly@[0]@.sample;
                &&& forall|i: int|
                    0 <= i < s0 ==> !#[trigger] bytes_le(key, encode_utf8(times[i]))
                &&& (exists|i: int|
                    0 <= i < times.len() && #[trigger] bytes_le(key, encode_utf8(times[i])))
                    ==> bytes_le(key, encode_utf8(times[s0]))
            }
        }),
        ({
            let days = texts(api.daily_time@);
            &&& w.daily@.len() == (if days.len() < 10 {
                days.len()
            } else {
                10
            })
            &&& forall|i: int|
                0 <= i < w.daily@.len() ==> #[trigger] w.daily@[i]@ == live_day_view(
                    days,
                    api.daily_weather_code@,
                    api.daily_precipitation_probability_max@,
                    i,
                )
        }),
{
    proof {
        if is_ascii_chars(api.current_time@) && api.current_time@.len() >= 13 {
            lemma_now_key_ascii(api.current_time@);
        }
        lemma_first_at_or_after(texts(api.hourly_time@), now_key(api.current_time@), 0);
    }
    let family = Family::from_code(api.current_weather_code);
    let is_day = api.current_is_day == 1;
    let key = cut_now_key(api.current_time.as_str());
    let start = find_start(&api.hourly_time, key);
    let ghost times = texts(api.hourly_time@);
    let n_times = api.hourly_time.len();
    let mut hourly: Vec<HourSlot> = Vec::new();
    let mut i: usize = 0;
    while i < 24
        invariant
            times == texts(api.hourly_time@),
            n_times == times.len(),
            n_times == 0 || start < n_times,
            n_times == 0 ==> start == 0,
            i <= 24,
            start + i <= n_times || (n_times == 0 && i == 0),
            hourly@.len() == i,
            forall|k: int|
                0 <= k < i ==> #[trigger] hourly@[k]@ == live_hour_view(
                    times,
                    api.hourly_weather_code@,
                    k,
                    start + k,
                ),
        ensures
            hourly@.len() == (if times.len() - start < 24 {
                times.len() - start
            } else {
                24
            }),
            forall|k: int|
                0 <= k < hourly@.len() ==> #[trigger] hourly@[k]@ == live_hour_view(
                    times,
                    api.hourly_weather_code@,
                    k,
                    start + k,
                ),
        decreases 24 - i,
    {
        let idx = start + i;
        if idx >= n_times {
            break;
        }
        hourly.push(live_hour(&api.hourly_time, &api.hourly_weather_code, i, idx));
        i = i + 1;
    }
    let n_days: usize = if api.daily_time.len() < 10 {
        api.daily_time.len()
    } else {
        10
    };
    let mut daily: Vec<DaySlot> = Vec::new();
    let mut j: usize = 0;
    while j < n_days
        invariant
            j <= n_days,
            n_days <= 10,
            n_days <= api.daily_time@.len(),
            api_ok(*api),
            daily@.len() == j,
            forall|k: int|
                0 <= k < j ==> #[trigger] daily@[k]@ == live_day_view(
                    texts(api.daily_time@),
                    api.daily_weather_code@,
                    api.daily_precipitation_probability_max@,
                    k,
                ),
        decreases n_days - j,
    {
        daily.push(live_day(api, j));
        j = j + 1;
    }
    let sunrise = hm(if api.daily_sunrise.len() > 0 {
        Some(&api.daily_sunrise[0])
    } else {
        None
    });
    let sunset = hm(if api.daily_sunset.len() > 0 {
        Some(&api.daily_sunset[0])
    } else {
        None
    });
    LiveOutline { family, is_day, sunrise, sunset, hourly, daily }
}


/// Whether an HTTP status reports success (2xx). The HTTP layer hands 4xx and 5xx over as
/// responses; the fetch turns them into this error.
pub fn check_status(status: u16) -> (r: Result<(), String>)
    ensures
        match r {
            Ok(()) => 200 <= status < 300,
            Err(m) => !(200 <= status < 300) && m@ == "request failed: HTTP "@ + decimal(
                status as nat,
            ),
        },
{
    if 200 <= status && status < 300 {
        Ok(())
    } else {
        let mut m = "request failed: HTTP ".to_owned();
        write_decimal(status as u64, &mut m);
        Err(m)
    }
}


/// Whether `process` accepts the response: the checks of [`api_ok`], made on the values.
pub fn processable(api: &ApiOutline) -> (r: bool)
    ensures
        r == api_ok(*api),
{
    let t = api.current_time.as_str();
    if t.as_bytes().len() > 13 && !t.is_char_boundary(13) {
        return false;
    }
    let n: usize = if api.daily_time.len() < 10 {
        api.daily_time.len()
    } else {
        10
    };
    let mut i: usize = 1;
    while i < n
        invariant
            1 <= i,
            n <= 10,
            n <= api.daily_time@.len(),
            n == api.daily_time@.len() || n == 10,
            forall|k: int| 1 <= k < i && k < n ==> date_in_range(
                #[trigger] ymd_spec(texts(api.daily_time@)[k]),
            ),
        decreases n - i,
    {
        let (y, m, d) = parse_ymd(api.daily_time[i].as_str());
        if !weekday_supported(y, m, d) {
            proof {
                assert(texts(api.daily_time@)[i as int] == api.daily_time@[i as int]@);
                assert(!date_in_range(ymd_spec(texts(api.daily_time@)[i as int])));
            }
            return false;
        }
        i = i + 1;
    }
    true
}

} // verus!
