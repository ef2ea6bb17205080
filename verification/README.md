# weatherapp

A terminal dashboard showing the current weather, the hours still ahead
today with a temperature chart, and live WMATA rail arrivals.

- `src/` is the library, verified with Verus:
  - `text.rs`: the character-level model (trimming, ASCII upper-casing,
    decimal literals and their text, code point order, padding, searching)
    and the routines built on it;
  - `wmata.rs`: station and row settings, ETA reading, the fixed-width
    arrival rows, the stably sorted arrivals board, and the panel text for
    each outcome of a prediction request, and the panel grouping several
    stations;
  - `weather.rs`: forecast time stamps, the choice of upcoming hours, and the
    twelve-hour chart labels;
  - `opm.rs`: the operating-status lines;
  - `dashboard.rs`: when to quit, and the texts of the current-weather and
    chart panels.
- `app/` is the program around it: environment, HTTP, JSON, the terminal
  user interface, and the floating-point temperatures.
- `tests/` runs the library on concrete inputs.

Configuration: `WMATA_API_KEY` (required for arrivals), `WMATA_STATION_CODE`
(comma-separated codes, default `A01`), `WMATA_MAX_ROWS` (1 to 20, default 6).
