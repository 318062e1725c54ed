# tradingsim

A simulated intraday electricity exchange, with its trading rules verified by
Verus.

- `src/` is the library: decimals and their grids, delivery areas and periods,
  order books, price-time matching within an area and across coupled ones,
  portfolios (gridpools), the life of an order from submission to expiry, market
  makers and aggressors, scenarios, the wire conversions, and what the service,
  the command line and the browser show. Every function states what it returns
  or changes, and Verus proves it.
- `tests/` runs the library on concrete values.
- `app/` is the program around it: the clock, the sockets, the configuration
  file, the floating-point models of prices and weather, and the page in the
  browser.

Where to start reading: `src/model.rs` holds the state of the exchange as a
value and the steps on it; `src/world.rs` is the exchange itself. What holds of
every such step is stated in `src/laws.rs`, `src/sweeping.rs`,
`src/lifecycle.rs`, `src/expiring.rs`, `src/linkage.rs`, `src/upkeep.rs`,
`src/outcomes.rs` and `src/quoting.rs`; what holds of a book, alone and over a
run of orders, in `src/matching.rs`, `src/listing.rs` and `src/running.rs`.

Decimal arithmetic comes from `rust_decimal`, time zones from `chrono` and
`chrono-tz`, and random steps from `rand`. The contracts of those calls are
trusted; each stands above a function marked `external_body`.
