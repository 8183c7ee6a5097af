# covekit

The framework core of the CoveKit desktop toolbox, written in Verus: the
library's functions in `src/` carry contracts that the verifier proves,
apart from a few small helpers without one and the trusted wrappers around
outside crates listed below, whose contracts are believed, not proved.

- `src/` — the verified library: storage layout and data context
  (`paths`, `context`, `brand_compat`), per-space preferences
  (`preferences`), close coordination (`lifecycle`, `exit`, `window`), the
  command registry and module manifest (`ipc_registry`, `module_manifest`),
  credential references and namespaces (`credential_refs`, `credentials`),
  the secure store (`secure_store`: AES-GCM payloads, master-key decision,
  protection status, load recovery), and data transfer (`data_transfer`: the
  `.pbdata` container, export catalog and selection closure, manifest
  assembly and checks, import planning into a new space and merge or
  overwrite into the current one, sessions and transfer cancellation,
  backups, lineage map).
- `app/` — a small command-line program around the library: file and
  keyring I/O, JSON wire types, and the loops that hand the library what
  the disk and the keyring hold.
- `tests/` — executable tests of the library.

Outside crates are called from `src/` only through small trusted wrappers
(AES-GCM, Argon2id, SHA-256, hex, UUID, clock, randomness, JSON field
reading, and std's platform rule for absolute paths), each documented
where it is declared.
