//! Concurrent multi-source torrent search: per-source page extraction into a
//! canonical record shape, fan-in aggregation, and deterministic ranking.
//!
//! The library holds the verified core: size normalization, record
//! extraction from fetched page bodies, the dispatch plan, and the
//! aggregator's stable descending sort with truncation. Network fetching,
//! terminal interaction and configuration loading live outside the library
//! and exchange plain values with it.

pub mod dispatch;
pub mod interface;
pub mod magnet;
pub mod nyaa;
pub mod piratebay;
pub mod rank;
pub mod settings;
pub mod size;
pub mod text;
pub mod types;
pub mod yts;
