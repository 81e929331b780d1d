# muser_console

A console for a fleet of inference engines, with its decisions verified by
Verus. It consists of three programs:

- the console, which authenticates browsers, forwards their requests to engines
  with each engine's own key, bridges the engines' streams, and keeps a history
  of what they publish;
- `gx10-exporter`, which publishes NVIDIA GPU telemetry;
- `mac-exporter`, which publishes a Mac host's power.

## Layout

- `src/` is the library: everything that is decided or computed. Every function
  states in its contract what it returns, and the functions whose name starts
  with `law_` state what holds of the library as a whole: that a ticket is spent
  once, that a credential never crosses the console, that what an exporter
  writes is what the console reads, that a gap is never filled, that a
  maintenance pass leaves of each series what it is meant to.
- `tests/` runs the library on concrete values, with the real outside crates.
- `app/` is what surrounds it: sockets, files, processes, the driver's library,
  SQLite, and the arithmetic of doubles. One program goes by the name that it is
  called under.

## Numbers

The library holds no floating point. A number that was read travels as the bits
of the double that it denotes, or as the numeral that it was printed as; means
and scaled values are formed in `app/`.

## Time

The console and the power exporter measure time in nanoseconds since their
start, and the history store in milliseconds since the Unix epoch. No function
but `history::sampler::now_ms` reads a clock.
