//! Verified core of a football match-history ingestion pipeline.
//!
//! The library parses tab-separated team and match feeds, reconciles team
//! identity across renames (successor links), resolves per-team alias sets,
//! and normalizes raw match rows into structured records with a single
//! rating value chosen by home/away membership. All I/O stays outside.

pub mod date;
pub mod error;
pub mod matches;
pub mod num;
pub mod plan;
pub mod team;
pub mod text;
