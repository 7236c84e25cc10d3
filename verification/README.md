# psmsg

A small publish/subscribe library over TCP. A publisher accepts subscribers,
records the topics each one asks for, and sends what it publishes to the
connected subscribers of a topic, or to all of them. Every message is one
compact JSON object on one line.

Layout:

- `src/` — the verified library (Verus):
  - `json.rs`: the JSON pieces of the wire format; string, string-array and
    byte-array values are written by `serde_json` behind three trusted wrappers.
  - `messages.rs`: the messages and their encoding, one line each.
  - `table.rs`: lists read as maps and sets, with their lemmas.
  - `broker.rs`: the publisher's broker as a state machine over an abstract
    view (connected peers, topic → subscribers, subscriber → topics), and the
    laws it keeps.
  - `server.rs`: client ids, and what a subscriber's request asks of the broker.
  - `client.rs`: the subscriber's configuration and its per-connection state
    machine.
- `app/` — tasks, channels, sockets and JSON decoding (async-std, futures,
  serde), driving the state machines of `src/`.
- `tests/` — tests of the library against the real `serde_json`.

## Why the broker's tables are lists

The broker keeps its tables (connected peers, topic → subscribers, subscriber
→ topics) as vectors with invariants (no duplicates, distinct keys), read as
sets and maps in `table.rs`. The topic table is keyed by `String`, and the
subscriber table holds sets of `String`; vstd's hash-map and hash-set models
are proved for integer keys only, so neither can be stated over `String`. The
peer list and the subscriber table are keyed by `usize` and could use vstd's
hash models, but the publish path walks their contents, and a hash set is
walked in an order that vstd leaves unspecified; one list representation for
all three tables keeps the proofs uniform. The original's hash tables left the
order of delivery open too, so a fixed order is one of its allowed behaviours.
