# Jerusalem

A small in-memory key-value server that speaks the RESP protocol and answers
a subset of the Redis commands (strings, lists, hashes, sets, expiry and
publish/subscribe), with its logic verified by Verus.

## Layout

- `src/` — the verified library.
  - `wish.rs` — reading requests off the wire (`Virtue`), with
    `wish/util.rs` (numbers and line endings), `wish/protocol.rs` (the
    request encoding and the law that reading it gives the terms back) and
    `wish/grant.rs` (checking a request and turning it into a command).
  - `temple.rs` — the keeper of the keyspace (`Sanctum`): database commands
    and channel subscriptions; `temple/soul.rs` holds the keyspace itself and
    `temple/laws.rs` the properties proved of it.
  - `egress.rs` — the bytes of every reply.
  - `byte_map.rs` — a map keyed by byte strings.
  - `memory_database.rs`, `handle_connection.rs` — the simpler line-based
    store and its handlers.
- `app/` — the server around the library: the event loop, the worker
  threads, the thread that writes replies and the snapshot file.
- `tests/` — tests of the library on concrete values.
