//! Web access-log processing: parsing, resume planning, aggregation and report formatting.

pub mod accumulators;
pub mod addresses;
pub mod aggregator;
pub mod bitmaps;
pub mod compression;
pub mod config;
pub mod database;
pub mod doubles;
pub mod fingerprint;
pub mod geo;
pub mod hll;
pub mod ip;
pub mod loader;
pub mod logging;
pub mod maps;
pub mod method_proto;
pub mod mmdb;
pub mod parser;
pub mod progress;
pub mod ranking;
pub mod reading;
pub mod registers;
pub mod rendering;
pub mod reports;
pub mod run_accumulators;
pub mod settings;
pub mod text;
