# dnskit

A DNS toolkit whose core is verified with Verus.

- `src/protocol/` — the wire format of DNS messages (RFC 1035): header,
  questions and resource records, their serializer (`message.rs`) and parser
  (`parser.rs`, with name compression), TXT record data (`records/txt.rs`),
  the byte-level layout shared by both (`format.rs`), and the laws that tie
  them together (`laws.rs`), among them that a well-formed message read back
  from its wire form is the same message.
- `src/cache.rs` — an in-memory cache of answers: a lookup finds, and keeps,
  the records whose expiry is later than the clock's reading.
- `src/proxy.rs` — the decisions of a caching proxy: the query sent upstream,
  the order in which answers are gathered from the cache and from upstream,
  and the response built for the client.
- `src/hints.rs` — the root name servers.
- `src/sys.rs` — the few calls into the standard library that Verus cannot
  see into (UTF-8 decoding of raw bytes, the monotonic clock, a number
  written in decimal), each with what its documentation gives. Comparing and
  adding instants is named rather than spelled out; of the clock's reading
  itself nothing is stated.
- `app/` — the `resolver` binary: command line, UDP sockets and logs, in
  forward or caching-proxy mode.
- `tests/` — tests of the library on concrete values.
