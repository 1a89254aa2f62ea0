# Day Skies

The logic of a weather app that draws each city under a sky matching its forecast, written
in Verus and proved against its contracts.

- `src/weather.rs`: WMO weather-code families, the deterministic mock forecast, and the
  turning of an Open-Meteo response into hourly and daily rows (readings that are real
  numbers stay with the caller; each row names the reading it shows).
- `src/calendar.rs`: month lengths, weekdays by Sakamoto's method with day-of-month overflow
  carried into the following months, ISO date fields; laws that the weekdays agree with the
  proleptic Gregorian calendar counted day by day, repeat every seven days, and that ISO
  dates read back.
- `src/cities.rs`: the city list (reorder, insert-or-replace, remove), the catalog, route
  keys (`slug`, `unique_id`), and the decisions of the city form; laws on distinct ids,
  undoing a move, and the shape of route keys.
- `src/icons.rs`: which weather glyph a sky gets.
- `src/text.rs`: decimal numbers, integer parsing as `str::parse` reads it, ASCII case,
  whitespace trimming, byte ranges of UTF-8 text.
- `app/`: the window, preferences, HTTP and location services, the floating-point parts
  (temperature curve, coordinates, glyph geometry) and the widgets.
