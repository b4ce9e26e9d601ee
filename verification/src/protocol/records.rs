//! Data of resource records.

pub mod txt;
