# trading

A limit order book matching engine with a binary wire protocol, verified with
Verus.

- `src/` is the verified library: the order pool and intrusive queues, the
  bitmap-indexed price levels, the order book (GTC, IOC and FOK orders,
  self-trade prevention, cancel and modify) and the market data it
  publishes, the multi-asset exchange, the
  engine's command processing, the wire codec, connection framing, the
  journal's frame splitting and the decisions of the event loop and of the
  HTTP front end. `matching.rs` holds the mathematical model of a book that
  the contracts speak of; `laws.rs` holds the properties proved of it.
- `app/` is the unverified shell: the io_uring reactor, the journal file,
  and the HTTP handlers with their JSON types.
- `tests/` runs the library on concrete values.
