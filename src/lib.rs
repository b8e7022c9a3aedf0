//! Metrics from a fuzzing engine's progress lines: the two line grammars,
//! per-source job records, and their reduction into published gauges.
pub mod scan;
pub mod line;
pub mod job;
pub mod aggregate;
pub mod laws;
