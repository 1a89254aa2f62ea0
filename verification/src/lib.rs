//! Day Skies: the logic of a weather app that draws each city under a sky matching its
//! forecast. The library holds the forecast model and its processing (WMO weather-code
//! families, the deterministic mock forecast, the hourly and daily rows of an Open-Meteo
//! response), calendar arithmetic for the day rows, the user's city list with its mutations
//! and form decisions, and the choice of weather glyph.

use vstd::prelude::*;

pub mod calendar;
pub mod cities;
pub mod icons;
pub mod text;
pub mod weather;

verus! {

} // verus!
