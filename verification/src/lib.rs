//! Finds duplicate files: exact ones, byte for byte, and images and videos that
//! show the same in another format or encoding.
//!
//! The library decides; reading directories, files and options, running other
//! programs and removing files is left to its callers, who hand in what they
//! found as plain values.

pub mod accuracy;
pub mod actions;
pub mod binary64;
pub mod bucket;
pub mod cache;
pub mod cli;
pub mod cluster;
pub mod decimal;
pub mod fingerprint;
pub mod hashing;
pub mod index;
pub mod keeping;
pub mod matching;
pub mod media;
pub mod numeral;
pub mod order;
pub mod paint;
pub mod path;
pub mod path_table;
pub mod report;
pub mod rerun;
pub mod run;
pub mod scan;
pub mod search;
pub mod similar;
pub mod similar_report;
pub mod text;
pub mod util;
pub mod video;
