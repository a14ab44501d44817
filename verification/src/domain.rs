//! The conversion domain: decimal numbers, units, and history records.

pub mod json;
pub mod num;
pub mod records;
pub mod text;
pub mod units;
