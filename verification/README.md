# tiny_redis

A minimal Redis-like in-memory datastore: the RESP wire format, a store of text
keys and values, and a handler that turns the bytes a client sent into replies.
The library under `src/` is written in Verus and verified; `app/` holds the TCP
server around it.

- `src/parser.rs`: reading one RESP value from the front of a buffer.
- `src/number.rs`: signed decimal integers read and lengths written in decimal.
- `src/text.rs`: UTF-8 decoding and upper-casing, done by the standard library.
- `src/db.rs`: the store.
- `src/executor.rs`: commands (PING, ECHO, SET, GET, DEL), their replies, and
  the handler of a connection's buffer.
- `src/server.rs`: what the handler tells the connection loop, and the error
  line sent to a refused client.
- `src/framing.rs`, `src/session.rs`: laws of reading values from a stream and
  of a client session.
