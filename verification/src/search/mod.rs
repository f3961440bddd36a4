//! Search engines over the fixed-configuration board, keyed by the packed
//! canonical key, plus the post-hoc DAG compressor.

pub mod clean;
pub mod compress_dag;
pub mod score;

pub use clean::{search_clean, Settlement};
pub use compress_dag::compress_dag;
pub use score::search_score;
