# Bulwark

A filtering DNS resolver: it answers the queries of a network, blocks what filter
lists ask it to block, caches what it learns and forwards the rest to upstream
resolvers over UDP, TCP, TLS, HTTPS or QUIC.

`src/` is the library, written and proved in Verus. Everything that decides stands
there, without I/O and without a clock of its own:

- `filter`: filter lists in AdBlock and hosts syntax, their rules, and the verdict on a
  name.
- `engine`: parsing of queries, the pipeline from a query to its response, the response
  cache with its snapshots, synthesized responses, clients, the query log and the
  statistics.
- `upstream`: upstream specs, selection and failover, health and probes, bootstrap
  lookups, and what the transports accept.
- `config`: the settings and their validation.
- `text`, `net`, `message`: characters, addresses and DNS messages.

What the proofs take from other crates on trust is marked `external_body` or
`assume_specification`, with a comment on what is claimed of the call. Latencies are
whole microseconds, times and timeouts milliseconds, TTLs and ages seconds.

`app/` is ordinary Rust around the library: sockets, TLS, timers, files, locks and
serialization. HTTP/3 needs a build of `reqwest` with its `http3` feature and
`--cfg reqwest_unstable`; without it such a client reports an error.

`tests/` holds the tests of the library.
