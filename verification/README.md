# scryd

The core of a single-purpose mail daemon that fetches one IMAP mailbox,
indexes it, and serves search over a local tool server, with its logic
verified by Verus.

- `src/` is the verified library: how a message becomes an index document
  and its segments, search snippets, the in-memory indexer, the drainer's
  loop decisions and error sanitizing, queue failure counting, crash-loop
  history and startup backoff, account reconciliation and ownership,
  sync-state merging, migrations, message ids, raw-file paths, XDG paths and
  the preflight permission checks. Every public function states its result
  in its contract; the `pub proof fn`s state the properties that relate
  several calls.
- The model-backed semantic index itself is not part of this crate: it
  needs the `witchcraft` engine, which is not among the dependencies.
  `src/witchcraft.rs` holds the parts of its binding that need no model
  (document keys, metadata, mapping results back to messages within the
  account scope), and `src/in_memory.rs` is the index the rest runs on.
- `tests/` exercises the library on concrete values.
- `app/` is the daemon around it: the SQLite store, the raw-file store, the
  asynchronous indexer interface, the drainer loop, the message sink and
  the environment- and filesystem-facing startup.
