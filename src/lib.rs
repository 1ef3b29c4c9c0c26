//! Weighted-average price aggregation over several price providers, with a
//! snapshot cache that is replaced whole on every successful refresh cycle.
pub mod config;
pub mod providers;
