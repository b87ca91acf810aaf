# codex_channel

The filesystem channel of a terminal assistant session, with its decisions
proved by Verus.

A producer drops JSON envelopes into `<dir>/inbox/` (or `<dir>/`). The watcher
consumes each file once, writes a receipt to `<dir>/outbox/`, moves the file to
`<dir>/processed/` and submits the trimmed text as a user turn. When the turn
ends, one terminal envelope (`reply`, `error` or `cancel`) answering the inbound
envelope is written atomically to the outbox.

Layout:

- `src/` – the verified library.
  - `inbound.rs` – size and text limits, trimming, the rendered turn, the reply metadata.
  - `outbound.rs` – channel state, terminal envelopes, receipts, the retry rule of atomic writes, and the law that a reply answers its inbound envelope.
  - `listing.rs` – which directory entries are envelopes and the order in which they are consumed.
  - `watch.rs` – the per-process set of seen envelopes.
  - `filename.rs` – envelope, temporary and receipt file names, with their shape and ordering laws.
  - `format.rs`, `text.rs` – zero-padded number rendering and Unicode trimming.
  - `outside.rs` – the trusted calls into `chrono`, `rand` and `std::str::from_utf8`.
- `app/` – file I/O, JSON encoding with `serde`, the process-wide state and the `tokio` watcher loop.
- `tests/` – tests of the library.
