use vstd::prelude::*;

verus! {

/// When to color terminal output.
#[derive(Debug, Clone, Copy, PartialEq, Eq)]
pub enum ColorChoice {
    /// Always color.
    Always,
    /// Never color.
    Never,
    /// Color only when the output is a terminal.
    Auto,
}

/// The command-line options, as plain values.
#[derive(Debug, Clone)]
pub struct Cli {
    /// Input file path, or a file-name pattern in multi-file mode.
    pub file_path: Option<String>,
    /// The pattern expression, e.g. `\x00\x00\x00\x01\x67`.
    pub expression: Option<String>,
    /// Bytes shown per line.
    pub line_width: usize,
    /// Lines or matches to show per file (0: no limit).
    pub limit: usize,
    /// Start position in bytes.
    pub position: u64,
    /// Text between two bytes in hex output.
    pub separator: String,
    /// Do not print offsets.
    pub hide_offset: bool,
    /// Use chunked parallel scanning.
    pub parallel: bool,
    /// Chunk size in bytes for parallel scanning.
    pub chunk_size: usize,
    /// Treat the path as a file-name pattern and process every file it names.
    pub multi_file: bool,
    /// Limit over all files (0: no limit).
    pub global_limit: usize,
    /// Output format name: hex, json, csv or plain.
    pub output_format: String,
    /// Show a progress bar.
    pub show_progress: bool,
    /// When to color output.
    pub color: ColorChoice,
}

} // verus!
