# monad_core

A Block-STM parallel EVM execution core with machine-checked contracts.

`src/` is verified with Verus:

- `mv_hashmap`, `read_write_sets`, `mv_database`: the multi-version state,
  per-transaction read and write sets, and the database view a transaction
  executes against.
- `scheduler`, `parallel`, `worker`: the Block-STM scheduler as a state
  machine, the block's shared state (`ParallelBlock`), and the
  classification of execution outcomes. A block whose finished tasks are
  the claimed ones ends with every transaction validated; one driven a
  task at a time also ends with every stored read valid against the final
  multi-version state. (With tasks in flight at once a validated
  transaction is not checked again when a lower one writes later, so its
  reads may be stale at the end.)
- `merge`, `block_executor`, `equivalence`: merging parallel results,
  sequential application of account changes, the deterministic state root,
  and the proof that both paths give the same root when each write set is
  the conversion of its transaction's account changes and the block either
  collected fees or its coinbase account exists without code.
- `state`, `cached_provider`, `db_bridge`: in-memory state and views on it.
- `conflict`, `game_events`, `block_builder`, `simulation`, `cli`,
  `mip4_reserve`: conflict analysis, the musical event mapping and its wire
  format, block construction from a contract ABI, the simulation pipeline
  around the Solidity compiler and an external engine (parsing the
  compiler's output, the stages, the request checks and cache keys of the
  server), the command-line bridge's parsing and report, and the MIP-4
  reserve balance precompile.

`app/` is the `monad-cli` program: JSON on stdin, revm execution through the
library's database views, JSON on stdout.

`tests/` runs the library on concrete inputs.
