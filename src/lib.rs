//! Time tracking from a heading-structured log: dates, clock times and
//! category headings become deduplicated intervals and per-day totals.

pub mod builder;
pub mod clock;
pub mod kinds;
pub mod logs;
pub mod md;
pub mod text;

pub use builder::{build_logs, parse_log, LogError};
pub use clock::{Date, DateTime, Time};
pub use kinds::Kinds;
pub use logs::{Log, Logs};
pub use md::{
    parse_log_nodes, parse_markdown, DayHeader, KindHeader, LogNode, Node, Root, TimeHeader,
};
