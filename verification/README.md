# rust_btcd

A Bitcoin node library whose contracts are proved with Verus, and the node binary around it.

- `src/` is the verified library: the header tree and its proof-of-work rules, block and
  transaction encodings, the storage layer (tables, key encodings, batches, the chainstate
  writes that connect and disconnect a block, and an in-memory engine), the wire checks, and the
  peer-to-peer decisions: the address book, bans, permissions, the connection table, the
  version handshake, keepalive, header sync and block download.
- `app/` is ordinary Rust: the binary's `main`, the TOML configuration, the RocksDB engine, and
  the tokio event loop that runs connections and carries out what the library decides.
- `tests/` exercises the library from outside.

Run `verus` on `src/lib.rs` to check the proofs.
