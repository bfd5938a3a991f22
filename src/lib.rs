//! Parallel aggregation of load-balancer access logs: records are grouped by
//! (system, day, client address) and counted, file by file, and the per-file
//! results are merged by a single controller into one global aggregate.

pub mod aggregation;
pub mod controller;
pub mod key;
pub mod worker;
