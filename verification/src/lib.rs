//! Analysis of assistant session logs: the typed block model, the
//! transformation of raw log entries into blocks, the session graph and its
//! turns, tool-event lifecycles, and the aggregations behind the statistics.

pub mod analysis;
pub mod model;
pub mod output;
pub mod parser;
pub mod text;
