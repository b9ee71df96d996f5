# bdk_core

A sparse view of the chain, verified with Verus: block checkpoints, transactions ordered by where
they sit in the chain, and the changes by which one such view is merged into another.

- `src/` is the verified library. `sparse_chain` holds `SparseChain`, `change_set` holds
  `ChangeSet`, `chain_index` the trait by which transactions are ordered, and `chain_data` the
  heights and times that implement it. The contracts speak of the mathematical chains in `model`;
  `laws` states and proves what holds of them as a whole. `txid_map`, `ordered_set` and `heights`
  are the ordered collections underneath.
- `tests/` runs it.
- `app/` is plain Rust around it: conversions to and from `bitcoin`'s types, standard ranges and
  iterators, `Display` and `Error` for the errors, and serialisation of change sets.
