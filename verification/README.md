# matching_engine

An in-memory limit order matching engine with price-time priority, one book per
symbol, and a primary/replica scheme in which replicas follow the primary's
level changes. The library in `src/` is verified with Verus; `app/` is the HTTP
and WebSocket server around it.

- `src/models.rs`: sides, orders, fills.
- `src/orderbook.rs`: the book (price levels of FIFO queues), its abstract view,
  and adding a resting order.
- `src/engine.rs`: matching (`process_order`) and its specification.
- `src/state.rs`: configuration and the per-symbol engine.
- `src/api/`: request checks, order submission, book queries, and the messages
  that keep replicas in step (`api/ws.rs`).
- `src/replica.rs`: the level totals a replica keeps.
- `src/laws.rs`: properties of matching and replication, proved.
- `src/text.rs`, `src/key_order.rs`: the std string calls the library makes, and
  a fact about the order of `BTreeMap` keys.
