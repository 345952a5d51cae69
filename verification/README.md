# timegrid

Business hours, availability, downtime, capacity and working-time
calculations over weekly rules and dated windows, verified with Verus.

Instants are microseconds since 1970-01-01T00:00:00, dates are days since
that day, times of day are microseconds since midnight and durations are
microseconds. Windows are half-open: `[start, end)`.

## Layout

- `src/` — the verified library.
  - `time`, `windows`, `sort`, `text`: instants, windows and their algebra
    (merge, subtract, complement, cover, intersect).
  - `rules`, `calendar`: weekly rules, dated windows, capacity overrides,
    named entries, and the capacity of a calendar at an instant.
  - `states`, `measure`: the state windows of a range (maximal runs of equal
    capacity) and the windows at a capacity level.
  - `search`, `around`, `analysis`: working-time arithmetic, slot search,
    transitions and current windows around an instant, analyses.
  - `timeline`: a calendar compiled over a window for repeated queries.
  - `definition`: a calendar as plain data, and back.
  - `api`, `grid`, `queries`: the types and methods callers use.
  - `laws`: properties that relate several operations.
- `tests/` — tests of the library on concrete values.
- `app/` — the Python extension module: `datetime`, `date`, `time` and
  `timedelta` conversions, JSON, and the Python classes around the library.
