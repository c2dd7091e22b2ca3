# monad_execution

The execution side of a node, as a library that Verus verifies, and a thin program around it.

- `src/` holds the library: the engine's loop and the hashes of its blocks, the database of proposed
  blocks and what is written when they are finalized, the exchange of state between peers, the
  blocks and transactions that users are told of, and the ledger's keys. Every function states what
  it does; laws that relate several functions are public proof functions, named `lemma_...`.
- What comes from other crates is called through wrappers whose contracts are believed: Keccak-256
  (`hashing`), headers (`header`), transactions (`rpc::tx`), bytecode (`bundle`), bundles of state
  (`db::merge`) and concurrent maps (`txpool::maps`). Each says which function it calls and what it
  claims of it.
- What the library needs of its surroundings it takes through traits: `StateStore` for storage,
  `BlockExecutor` for execution. `StateStore` promises nothing; a contract that speaks of a store says
  what was handed to it and what follows each answer. A store is reached only through `WatchedStore`,
  which records each write, so a contract can also say that nothing else was written.
- `tests/` runs the library on concrete values, with the other crates linked.
- `app/` is the program: channels, timers, files and databases.
