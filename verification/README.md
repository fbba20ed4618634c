# lib: a verified Redis-style server core

`src/` holds the proved core; `app/main.rs` is the server program around it
(command line, TCP, threads, replication traffic).

- `number`: decimal reading (`str::parse` for `u128` and `i32`) and writing, with round-trip proofs.
- `text`: character-level helpers, `str::split` on a separator, ASCII lower-casing.
- `helpers`: RESP framing (`resp_response`, `resp_command`, `parse_array`), command reading
  (`to_command`), command-line reading (`parse_config`), hex decoding, the clock.
- `commands`: the request types (`Command`, `SetArgs`, `XA`, `ReplConfData`, `XRangeData`).
- `table`: an insertion-ordered map from string keys, specified as a `Map`.
- `data`, `types`: stored values, streams, replication settings.
- `actions`: the replies of `PING`, `ECHO`, `SET`, `GET`, `TYPE`, `INFO`, `REPLCONF`, `PSYNC`,
  `XADD`, `XRANGE`, expiry purging, and the store's laws.
- `streams`: stream entries, id assignment (`*` sequence numbers), `XADD` ordering, `XRANGE` selection.
- `handler`: one request end to end, and the replica handshake as a state machine.
