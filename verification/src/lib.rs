//! Frontier simulator: transport-level benchmarking of debrid providers.
//!
//! A benchmark downloads a file in parallel byte ranges and follows the
//! frontier, the number of bytes at the start of the file that are there
//! without a gap. From the timeline of the frontier it finds the bitrate that
//! a player could have sustained.

// Text, sequences and sorting.
pub mod seqs;
pub mod stable;
pub mod text;

// What is recorded.
pub mod envelope;
pub mod events;
pub mod runs;

// The frontier, the simulated player, and the run that ties them together.
pub mod budget;
pub mod runner;
pub mod tracker;

// Transfers.
pub mod curl_ffi;
pub mod download;
pub mod headers;
pub mod outcome;
pub mod pages;
pub mod probe;
pub mod reactor;
pub mod retry;
pub mod transport;
pub mod url_hash;

// Providers.
pub mod premiumize;
pub mod provider;
pub mod realdebrid;

// Configuration and command line.
pub mod config;
pub mod plan;
