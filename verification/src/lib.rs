//! Exact game-theoretic solving for two-player sowing games in the
//! Mancala/Kalah family.
//!
//! The crate enumerates the reachable state graph of a board, memoizes
//! outcomes in a sharded transposition store keyed by a canonical encoding
//! of the position, and offers three search modes: a raw margin score, an
//! exact win/lose/draw settlement with distance-to-end, and a bounded-width
//! approximation.  A post-hoc compactor keeps only nodes within a bounded
//! distance of the root.

pub mod board;
pub mod db;
pub mod game;
pub mod rules;
pub mod search;
pub mod searcher;

pub use board::{Board, CompactKey};
pub use db::{NoLockDB, StoreKey, DB};
pub use rules::Side;
pub use search::{compress_dag, search_clean, search_score, Settlement};
pub use searcher::{MultiSearcher, Searcher, WidthCutSearcher};
