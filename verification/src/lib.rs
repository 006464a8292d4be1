//! Stream S3 prefixes into HuggingFace Buckets: the verified core.
//!
//! The modules here decide: what a listing keeps, how the keyspace is cut into
//! ranges, what a batch response means, what the destination check reports.
//! The program around them owns the network, the clock and the terminal.
pub mod text;
pub mod byte_order;
pub mod keymap;
pub mod http;
pub mod dest;
pub mod bucket_client;
pub mod settlement;
pub mod urls;
pub mod bucket_tree;
pub mod globs;
pub mod keys;
pub mod listing;
pub mod jobs_client;
pub mod planner;
pub mod partition;
pub mod verify;
pub mod census;
pub mod report;
pub mod rerun;
pub mod clean_copy;
pub mod sync;
pub mod cli;
pub mod cas_uploader;
pub mod progress;
pub mod ledger;
