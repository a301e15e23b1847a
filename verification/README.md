# skew

Analytics of option volatility skew: the 25-delta skew of daily option chains, dealer
gamma from stored snapshots, a long-option backtest, a put-hedge simulation, and a small
dashboard server.

- `src/` is the library. It decides: which quotes and contracts count, which days a
  measure looks at, where a value stands in its series, when a tranche is bought and sold,
  what a request asks for, and how files and documents are read and written. It is written
  in Verus and proved against its contracts. Numbers are held as the bit patterns of
  doubles; the library compares and selects them and does not calculate with them.
- `app/` is the program around it: files, network, threads, the server's sockets, and the
  floating-point calculations.
- `tests/` exercise the library on concrete values.

What the library takes from `serde_json` and from the standard library without proof is
stated in the contracts of `src/json.rs` and `src/text.rs`.
