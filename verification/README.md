# ordwoj

The WJK-20 token ledger, the wojakmap block claims and the `.wjk` domain
registry of the Wojakcoin ordinals indexer, as a library whose behaviour
is stated in contracts and proved with Verus.

- `src/` — the verified library:
  - `table.rs`: ordered key-value tables (the in-memory form of the index
    tables), with their contents as maps;
  - `tables.rs`: the records, the set of tables, clearing and rebuilding,
    stored amounts and balance keys;
  - `parse.rs`: WJK-20 JSON bodies and `{N}.wojakmap` claims;
  - `ledger.rs`: the ledger as a state machine — deploys, staged mints and
    transfers and their settlement, claims, domain registration and
    ownership;
  - `replay.rs`: replaying a block, following inscriptions from inputs to
    outputs (positions and holders carry over from block to block);
  - `read.rs`, `sort.rs`: the explorer's queries, sorting and paging;
  - `laws.rs`, `supply.rs`: what every transition keeps (first claims and
    registrations stand, the owner index stays in step, supplies stay
    within `max`, mints and transfers settle once);
  - `chain.rs`, `rpc.rs`, `text.rs`: chain parameters, node replies, text.
- `tests/` — tests over the library, with the real outside crates.
- `app/` — the command line: the redb store, the node's RPC, JSON answers.
