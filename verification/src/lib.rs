//! Core of a dynamic selection menu.
//!
//! Two subsystems: a multi-font text layout engine (run segmentation over an
//! ordered font set with fallback discovery, width measurement, and
//! ellipsis truncation to a pixel budget) and a match engine that ranks
//! candidate strings against live input, either by exact/prefix/substring
//! classification or by fuzzy scoring.

pub mod config;
pub mod fontset;
pub mod layout;
pub mod matching;
pub mod segment;
pub mod spool;
pub mod text;
