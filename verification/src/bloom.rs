//! Bit-array membership filters.

pub mod speed_db;
