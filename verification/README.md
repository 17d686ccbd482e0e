# chordify

A Chord distributed hash table for sharing songs: nodes join and leave a
ring through a bootstrap node, keys are placed by a SHA-1 based position on
a ring of 1024 slots, and requests are passed around the ring to the node
that stores them. With a replication factor k above 1, the storing node
passes each write on to its k - 1 successors, which keep copies: in
linearizable mode (`-m 0`) the write completes when the last copy is
written, in eventual mode (`-m 1`) the copies follow the answer and any node
holding a copy answers a read from it.

## Layout

- `src/` — the verified library (Verus):
  - `nodes/` — ring positions (`ring.rs`), the node state machine
    (`node.rs`: what a node stores, where it passes requests, how it answers
    each request), the bootstrap coordinator (`bootstrap.rs`) and the
    request/response types (`protocol.rs`);
  - `communication/` — 160-bit identifiers with their ring order and hex
    form (`node_id.rs`), the message protocol, a messaging-layer node state
    and what a client makes of each answer;
  - `store.rs` — key-value storage with its map view;
  - `tcp.rs` — length-prefixed message framing;
  - `tools.rs` — command-line splitting, workload files, result printing;
  - `hashing.rs`, `text.rs` — SHA-1 digests and text helpers.
- `app/` — the executable: sockets, the async runtime, JSON encoding, the
  interactive command loop, the HTTP interface and the workload runners. It
  hands the library each request it receives and carries out the sends the
  library asks for.
- `tests/` — tests of the library, including whole rings simulated in
  memory.

## Running

```text
chordify <ip:port> -k <replication factor> -m <0|1>    # bootstrap
chordify <ip:port> <bootstrap ip:port>                  # node with a command loop
chordify gui <ip:port> [bootstrap ip:port] [-k .. -m ..]
chordify requests-runner --addr <ip:port> --bootstrap <ip:port>
```

Commands of the loop: `insert <key> <value>`, `query <key|*>`,
`delete <key>`, `overlay`, `depart`, `help`; a key with spaces is written
in double quotes.
