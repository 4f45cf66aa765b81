# dashchat

The logic of a small chat system, verified with Verus: a mailbox server that
stores encrypted blobs and messages per topic and log, and the node-side
bookkeeping that talks to it.

## Layout

- `src/` — the verified library.
  - `blobs_key.rs`, `store_blobs.rs`, `blobs.rs`, `watermark.rs`, `cleanup.rs`:
    the mailbox server's blob table: key text and its ordering, which blobs a
    store request writes, which a get request returns, per-log watermarks and
    the removal of expired blobs.
  - `messages.rs`: the message table of the mailbox server.
  - `mailbox.rs`, `mem_mailbox.rs`, `toy.rs`, `relay.rs`: the node's mailbox
    polling decisions and the in-memory mailbox and relay.
  - `topic.rs`, `alias.rs`, `inbox.rs`, `chat.rs`, `payload.rs`, `receipts.rs`,
    `op_store.rs`, `interleave.rs`, `consistency.rs`, `node_model.rs`: topics
    and their text, chats and their message order, payload decisions, receipts,
    operation bookkeeping and the node's state machine.
  - `text.rs`, `keyed.rs`, `uuid_text.rs`: text, keyed collections and UUID text.
- `tests/` — tests of the library against concrete values.
- `app/` — the mailbox server binary: HTTP handlers over an embedded database,
  calling the library for the table logic (which keys, which blobs, which
  watermarks); what stays in app/ is reading and writing the tables and
  turning the library's errors into HTTP answers.
