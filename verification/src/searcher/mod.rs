//! Search engines over the dynamic-size board: exact single-threaded
//! search, a worker-pool variant sharing one sharded store, and a
//! bounded-width approximation.

pub mod multi;
pub mod single;
pub mod width_cut;

pub use self::multi::MultiSearcher;
pub use self::single::Searcher;
pub use self::width_cut::WidthCutSearcher;
