//! Verified core of a pointer-chasing cache latency benchmark.
//!
//! The benchmark links the nodes of a buffer into one ring in a random order and times
//! dependent loads along it. This crate holds the parts that decide and compute: the
//! checks on the command line's values, the ring and its walk, the timing loop over an
//! abstract time-stamp counter, the counter's overhead, and the choice of NUMA node.
pub mod benchmark;
pub mod benchmark_ptr;
pub mod cli;
pub mod order;
pub mod pointer_chasing;
pub mod timed_run;
pub mod topo;
pub mod util;
