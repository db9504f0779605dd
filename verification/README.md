# chat_base

The network layer of a small chat server and client, verified with Verus.

- `src/serialization.rs`: the wire format. Integers go little-endian at their
  fixed width, `bool` as one byte, vectors and strings behind a `u32` length,
  `Option` behind a presence flag, slices element by element
  (`serialize_slice`). Every `serialize` call is specified, failures
  included, and reading back what was written gives the value back
  (`lemma_write_then_read`).
- `src/stream.rs`, `src/le.rs`: in-memory byte streams and little-endian
  integers.
- `src/connection.rs`: the two directions of a connection.
- `src/protocol.rs`: the handshake language and its step-by-step interpreter,
  proved to run each protocol as its recursive reading (`eval_protocol`).
- `src/init.rs`: the chat's handshake (version check, user name, test).
- `src/structs.rs`, `src/server.rs`, `src/client.rs`: users, the messages
  between a connection's threads, chat commands, server addresses.
- `src/addons.rs`, `src/derive.rs`: extension traits and the fields that the
  `Serializable` derive goes through.
- `app/`: the programs (`server` or client): sockets, threads, the terminal,
  and the derive's token handling with `syn` and `quote`.
