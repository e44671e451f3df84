# ob

A multi-instrument limit order book whose matching core is verified with Verus.

- `src/domain` — orders, trades, statuses, symbols and instruments, with order
  validation and the order lifecycle.
- `src/matching` — the book (an arena of nodes linked into FIFO price levels, with a
  `BTreeMap` per side and a `HashMap` from order id to node), its mathematical model
  (`model.rs`: price levels as maps from price to queues of orders), the engine that
  stamps sequences, the exchange that routes by symbol, and the laws proved of the
  model (`laws.rs`).
- `src/service`, `src/http`, `src/config` — the decisions of the request layer: ring
  capacity checks, book reads by depth, query parsing, error answers, and the checks on
  configuration text.
- `app/` — the service around the library: configuration from the environment, one
  Disruptor ring and consumer thread per symbol, and the Axum routes.

`Book::submit` and `Book::cancel` are specified as functions of the book's model, so
every answer and every state change is stated exactly; the laws then say what holds of
every valid book: a refused submit changes nothing, accepted fills account for every
lot and follow price-time priority, market remainders never rest, a cancel frees
exactly one slot, resting then cancelling gives the book back, each accepted order
receives one sequence, and reads are determined by the book (a depth read is a prefix
of the snapshot).
