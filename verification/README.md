# tahoe_share

A verified reader for Tahoe-LAFS immutable shares.

- `src/share.rs`: the share container (big-endian lease header, URI extension block).
- `src/ueb.rs`: the URI extension block: `name:` + netstring values, read to the end;
  includes the proof that netstring-framed values read back as written.
- `src/decimal.rs`: ASCII decimal byte counts (reading and writing).
- `src/hashing.rs`: netstrings and tagged double-SHA-256 hashes (via `bitcoin_hashes`).
- `src/base32.rs`: lower-case unpadded base32 (via `data-encoding`).
- `src/hash_tree.rs`: the crypttext hash tree's stored nodes and leaf hashes.
- `app/main.rs`: file reading, printing, and the `rs_merkle` tree.
