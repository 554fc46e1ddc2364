pub mod coef;
pub mod counting;
pub mod downset;
pub mod flow;
pub mod graph;
pub mod ideal;
pub mod partitions;
pub mod semigroup;
