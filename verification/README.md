# loro_internal — map state and mergeable containers, verified

The state of a map container in a collaborative document, the document
bookkeeping around mergeable child containers, and the fast snapshot of a
map state, written in Verus with their contracts proved.

Layout of `src/`:

- `types`, `value` — container identifiers, stamps, document values and the
  last-writer-wins register of a key.
- `keys`, `str_map`, `child_table` — the key order (UTF-8 byte order), a
  sorted string-keyed map, and the table of child containers.
- `map_state` — the map state: registers, children, tombstones of deleted
  mergeable keys; diffs, local operations, values.
- `laws`, `register_laws`, `stamp_laws` — properties across operations:
  read after write, convergence of imports, monotonic tombstones, one
  mergeable child per key, idempotent and order-independent registration,
  and how first and last operation stamps move as the history grows.
- `dead_containers_cache`, `doc_state` — the arena of identifiers, the store
  of states, the op log, and whether a container is deleted.
- `mergeable`, `lww`, `repopulate` — first and last operation stamps of a
  mergeable child, the resolution between competing children of one key,
  eviction under tombstones, and recovery of the side tables.
- `wire`, `snapshot` — LEB128 numbers, little-endian peers, postcard string
  lists, and the fast snapshot after its value section.

The string-keyed tables (the registers, the children of a map, the
tombstones) are sorted vectors with their order as an invariant, not hash
or B-tree maps: their keys are strings and container identifiers, whose
equality and hashing the verifier does not read, and the sorted form lets
each contract state exactly which entries a lookup, an insertion or an
iteration meets, in key order. The cache of deleted containers, keyed by
integers, keeps its `FxHashMap`.

`app/` holds what the library does not: the value section of the snapshot,
serialized with postcard through a serde copy of the value type.
