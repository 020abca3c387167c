//! An online causal-graph engine for futex wait/wake traces.
//!
//! The engine consumes a stream of futex events observed on a target
//! process and maintains a forest of wake nodes whose edges encode
//! inferred wake-to-wait causality.  On demand it reports the
//! root-to-leaf path that accumulated the most weight (wall time or
//! retired instructions).  All engine logic is verified; the host that
//! feeds events in and prints results lives outside this library.

pub mod analysis;
pub mod counter;
pub mod events;
pub mod flow_web;
pub mod laws;
pub mod maps;
