# tokyo_weather

Tools for the Polymarket markets on Tokyo's daily high temperature: reading
the temperature bucket of each market question, scheduling paper entries,
choosing bands of four buckets, selecting resolved events for a backtest and
settling paper signals.

- `src/` is the library, written in Verus and verified: every public function
  carries a contract over mathematical models (`Seq`, `int`, day numbers,
  Unix seconds), and the laws that span several functions are public proof
  functions.
  - `text`: substring search, splitting, trimming and `i32` parsing on
    characters, specified as `str` behaves.
  - `bucket`: the bucket a question names and its short label.
  - `calendar`: dates as day numbers, the paper entry schedule and its timing
    classes, Tokyo dates of observations; the few chrono calls sit behind
    small trusted wrappers.
  - `markets`: threshold order of a day's markets, the predicted bucket, band
    coverage, the resolved winner, market and ensemble-series filters.
  - `events`: which closed events a backtest reads and the longest market list
    of each date.
  - `ledger`: paper-signal settlement, buy/skip decisions and backtest tallies.
  - `observations`: which hourly observations count toward a Tokyo date.
- `app/` is the command-line program around it: HTTP requests, JSON, the
  floating-point forecast statistics, and printing.
- `tests/` runs the library on concrete inputs.
