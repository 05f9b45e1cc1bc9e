# aerokv

A key-value service whose writes are replicated among nodes and recorded on
a Solana program, with Merkle proofs for what a read returns.

- `src/` is the library, verified with Verus:
  - `storage/`: the append-only log store (entry format, index, reads,
    scans, pages, compaction);
  - `log_store`, `state_machine`, `raft_node`, `raft_server`: the
    replicated log, the state machine it drives and a small Raft node;
  - `sessions`, `auth`: users, sessions and permissions;
  - `merkle`: the tree over the stored keys and the proofs of reads;
  - `chain`, `chainlog`, `solana`: what goes into a program call and what
    is read out of its logs and accounts;
  - `program`: the on-chain program's rules (accounts, counter, fees,
    pause, reads);
  - `proxy`: the gateway's routing decisions.
- `tests/` exercises the library.
- `app/` holds the programs around it: the HTTP servers, the RPC client,
  openraft's storage and network, and the files the stores are kept in.
