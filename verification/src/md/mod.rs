//! What a report of changes shows.

pub mod change_report;
