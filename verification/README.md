# ic_kit

Building blocks for Internet Computer canisters and for testing them locally,
written in Verus: every function in `src/` carries a contract that Verus
proves.

## Layout

- `src/` — the verified library.
  - `memory`, `checksum`, `hole`, `allocator`, `lru`, `global`, `pointer`:
    stable storage that grows by pages, checksummed block headers, the
    segregated free lists and the allocator built on them, and the
    least-recently-used block cache.
  - `hashtree`, `label`, `rbtree`, `collections`, `group`: Merkle hash trees,
    keys ordered by their byte labels, the certified red-black tree with its
    witnesses, the certified map, sequence and paged map, and the builder of
    groups of certified data.
  - `call`, `canister`, `replica`, `http`, `codegen`: call replies and their
    errors, the system API of a canister as the local replica runs it, the
    replica's bookkeeping of canisters, HTTP request and response types, and
    the decisions the canister macros take.
- `tests/` — tests run against the compiled library.
- `app/` — what stays outside the library: per-thread global state, the
  process-wide request counter, the wall clock, and serde forms of the
  library's types.
