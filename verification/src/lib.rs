//! Block-STM parallel execution core: multi-version state, read/write sets,
//! the scheduler's state machine, block merging and the analysis helpers
//! built on top of them.

pub mod primitives;
pub mod sorted_map;
pub mod text;
pub mod types;
pub mod mv_types;
pub mod mv_hashmap;
pub mod read_write_sets;
pub mod scheduler;
pub mod state;
pub mod cached_provider;
pub mod mv_database;
pub mod merge;
pub mod block_executor;
pub mod worker;
pub mod conflict;
pub mod game_events;
pub mod block_builder;
pub mod mip4_reserve;
pub mod parallel;
pub mod db_bridge;
pub mod simulation;
pub mod cli;
pub mod equivalence;
