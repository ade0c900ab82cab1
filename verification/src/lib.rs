//! Scanning and synthesis of search-session logs.
//!
//! A session log is a text of lines such as `QS 01.02.2024_10:00:00 {query}`,
//! `CARD_SEARCH_START ...`, `DOC_OPEN ...` and result lines `<search id> doc ...`.
//! The library scans such texts into per-session statistics, folds those
//! statistics into sampling distributions, and renders synthetic sessions
//! drawn from the distributions.

pub mod text;
pub mod timestamp;
pub mod scan;
pub mod freq;
pub mod codec;
pub mod dist;
pub mod render;
pub mod plan;
pub mod draws;
pub mod laws;
pub mod roundtrip;
pub mod dicts;
