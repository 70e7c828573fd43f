use vstd::prelude::*;

verus! {

/// Errors reported by the library.
#[derive(Debug, Clone, PartialEq, Eq)]
pub enum BingrepError {
    /// A read or seek on the byte source failed; the text describes it.
    Io(String),
    /// The pattern expression or a parameter is not acceptable.
    InvalidPattern(String),
    /// The display width lies outside the permitted range.
    InvalidWidth(usize),
    /// The pattern engine refused the rewritten pattern; the text is its message.
    RegexCompilation(String),
    /// A file-name pattern could not be parsed.
    GlobPattern(String),
    /// A path produced by a file-name pattern could not be read.
    GlobPath(String),
}

/// The result type used throughout the library.
pub type Result<T> = core::result::Result<T, BingrepError>;

} // verus!
