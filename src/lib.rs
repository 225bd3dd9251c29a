//! A small snapshot tool: an initial snapshot of a working tree plus an
//! append-only log of positional byte deltas, replayed to rebuild the baseline.

pub mod change;
pub mod commit;
pub mod engine;
pub mod hexname;
pub mod ignore;
pub mod laws;
pub mod log;
pub mod replay;
pub mod text;
pub mod tree;
