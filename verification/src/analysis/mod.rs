//! The computations behind the reports: token and time aggregates, block filters and
//! summaries, tool statistics and permission statistics.

pub mod blocks;
pub mod detail;
pub mod groups;
pub mod time;
pub mod order;
pub mod permissions;
pub mod reports;
pub mod tokens;
pub mod tools;
pub mod usage;
