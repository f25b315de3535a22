# tracker-server

A BitTorrent tracker that answers `/announce` from an in-memory peer store and
fills that store from upstream trackers (HTTP, UDP and WebSocket).

The logic is a library verified with Verus, under `src/`:

- `store` — the peer store: torrents keyed by info-hash, peers keyed by
  `(ip, port)`, upsert, removal, listing, statistics and expiry.
- `announce` — the decisions of one announce: validation and failure
  reasons, the client's address, what is recorded, the upstream parameters.
- `inflight` — at most one upstream fetch per torrent, with its waiters.
- `query`, `encoding`, `text` — query strings, info-hash forms (hex, base32,
  `urn:btih:`, percent-encoded, double-encoded), encodings and numbers.
- `response`, `ipv4` — the bencoded replies and compact peer lists.
- `reply`, `udp`, `upstream` — upstream trackers: choosing them, building
  requests and URLs, reading their replies.
- `config` — settings from environment values.
- `download` — the steps of downloading the tracker list (attempts, pauses,
  TLS fallback) and the summary of a fetch from upstream trackers.

The store and the table of fetches in flight keep their entries in vectors,
each with an invariant that no key occurs twice, rather than in hash maps:
their keys are text, and with text keys the verifier's model of the standard
hash map does not give what these proofs need (not even the length after one
insertion). Keeping the vectors also fixes the order in which torrents and
peers are listed: the order they were first announced.

`app/main.rs` is the server around it: HTTP, sockets, timers, files and logs.
`tests/` exercise the library on concrete values.
