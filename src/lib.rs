//! Binary file search with hexadecimal escape patterns.
//!
//! The library holds the verified core of the search: the pattern compiler,
//! the reusable window buffers, the sequential windowed matcher, the chunked
//! matcher used for parallel scans, and the hex-dump traversal. Reading files
//! and printing results is left to the caller.
//!
//! Besides each function's own guarantees, `boundary` proves that for a byte
//! literal the windowed scan misses no occurrence that a window edge cuts
//! (when the window padding is at least the literal's length less one), and
//! that the sequential and the chunked scans then report the same offsets.
pub mod boundary;
pub mod buffer_manager;
pub mod cli;
pub mod config;
pub mod error;
pub mod forensic_image;
pub mod multifile;
pub mod output;
pub mod parallel;
pub mod progress;
pub mod regex_processor;
pub mod stream;
pub mod structured_output;
pub mod text;

pub use cli::Cli;
pub use config::Config;
pub use error::BingrepError;
pub use regex_processor::RegexProcessor;
pub use stream::FileProcessor;
