//! Probabilistic set-membership filters for a log-structured storage engine.
//!
//! A filter is built once over a table's key hashes; a negative answer from
//! `may_contain` is certain, a positive answer may be a false positive with a
//! statistically bounded rate. The double-probe design packs two bit probes
//! per 64-bit word access and confines every key's probe words to one
//! power-of-two-aligned block of words.

pub mod bloom;
pub mod types;
