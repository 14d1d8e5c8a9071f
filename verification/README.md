# GameStore

A key-value store that speaks the Redis protocol (RESP2 and RESP3). Its logic is a Verus library:
what its functions return and change stands in contracts, and Verus proves that they keep them. What
is taken on trust instead is named below, and what an engine outside the library owes stands at the
trait `GeneralEngine`.

- `src/protocol` decodes and encodes RESP. A value that is encoded reads back, however its bytes are
  cut up on the way.
- `src/engine` keeps strings, hashes, sets, sorted sets and lists as records of an ordered map of
  bytes to bytes, with versions and expiry. `model` says what each operation does, `store` does it,
  and `laws` proves what follows for the values that the records stand for.
- `src/datamodel` turns requests into operations on a store, and their answers into replies.
- `src/datanode` is a node: the course of a connection and of the listener, `HELLO` and the other
  commands of a connection, metrics, the slow log, and the arguments of the program.
- `src/common` holds the configuration and the errors around it.
- `src/float` reads and writes doubles as text: reading rounds correctly, and writing gives the
  shortest text that reads back.
- `src/buffer.rs`, `utf8_text` and `lossy` in `src/text.rs`, and `now_micros` in
  `src/engine/store.rs` are what is trusted: the `bytes` crate, UTF-8 in the standard library, and
  the clock.

`app` is the program around the library: sockets, files, the environment, logging, the metrics
recorder, and the engine on RocksDB. `tests` holds the tests of the library; they run on an engine
in memory.
