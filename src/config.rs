use vstd::prelude::*;

use crate::cli::Cli;
use crate::error::{BingrepError, Result};
use crate::text::{decimal, push_decimal};

verus! {

/// Sizes and limits of a search.
#[derive(Debug, Clone)]
pub struct Config {
    /// Primary window size for wide display widths.
    pub buffer_size: usize,
    /// How far before the end of a full window the next read starts.
    pub buffer_padding: usize,
    /// Largest display width.
    pub max_line_width: usize,
    /// Smallest display width.
    pub min_line_width: usize,
    /// Largest file that is processed.
    pub max_file_size: u64,
    /// Memory ceiling in bytes; a chunk may use a quarter of it.
    pub max_memory_usage: usize,
}

/// The default configuration.
pub open spec fn default_config() -> Config {
    Config {
        buffer_size: 65536,
        buffer_padding: 4096,
        max_line_width: 8192,
        min_line_width: 1,
        max_file_size: 107374182400,
        max_memory_usage: 1073741824,
    }
}

impl Default for Config {
    fn default() -> (r: Config)
        ensures
            r == default_config(),
    {
        Config {
            buffer_size: 64 * 1024,
            buffer_padding: 4096,
            max_line_width: 8192,
            min_line_width: 1,
            max_file_size: 100 * 1024 * 1024 * 1024u64,
            max_memory_usage: 1024 * 1024 * 1024,
        }
    }
}

/// The primary window size used for display width `width`: four times the
/// width but at least 4096 for widths below 1024, else the configured size.
pub open spec fn buffer_size_for(c: Config, width: usize) -> usize {
    if width < 1024 {
        if width * 4 > 4096 {
            (width * 4) as usize
        } else {
            4096
        }
    } else {
        c.buffer_size
    }
}

/// The message for a chunk size over the ceiling.
pub open spec fn chunk_size_message(chunk: usize, max: usize) -> Seq<char> {
    "Chunk size "@ + decimal(chunk as nat) + " too large, maximum allowed: "@ + decimal(max as nat)
}

/// The message for a file over the size limit.
pub open spec fn file_size_message(size: u64, max: u64) -> Seq<char> {
    "File size "@ + decimal(size as nat) + " bytes exceeds maximum allowed: "@ + decimal(max as nat)
        + " bytes"@
}

impl Config {
    /// Checks the width and chunk size of the command line: a width outside
    /// `[min_line_width, max_line_width]` is `InvalidWidth`; a chunk size over
    /// a quarter of `max_memory_usage` is `InvalidPattern`.
    pub fn validate_cli(&self, cli: &Cli) -> (r: Result<()>)
        ensures
            !(self.min_line_width <= cli.line_width <= self.max_line_width) ==> r == Err::<
                (),
                BingrepError,
            >(BingrepError::InvalidWidth(cli.line_width)),
            self.min_line_width <= cli.line_width <= self.max_line_width && cli.chunk_size
                > self.max_memory_usage / 4 ==> (r matches Err(BingrepError::InvalidPattern(m))
                && m@ == chunk_size_message(cli.chunk_size, self.max_memory_usage / 4)),
            self.min_line_width <= cli.line_width <= self.max_line_width && cli.chunk_size
                <= self.max_memory_usage / 4 ==> r is Ok,
    {
        if !self.validate_width(cli.line_width) {
            return Err(BingrepError::InvalidWidth(cli.line_width));
        }
        let max = self.max_memory_usage / 4;
        if cli.chunk_size > max {
            let mut m = String::from_str("Chunk size ");
            push_decimal(&mut m, cli.chunk_size as u64);
            m.append(" too large, maximum allowed: ");
            push_decimal(&mut m, max as u64);
            return Err(BingrepError::InvalidPattern(m));
        }
        Ok(())
    }

    /// Whether `width` lies in `[min_line_width, max_line_width]`.
    pub fn validate_width(&self, width: usize) -> (r: bool)
        ensures
            r == (self.min_line_width <= width <= self.max_line_width),
    {
        width >= self.min_line_width && width <= self.max_line_width
    }

    /// The primary window size for display width `width`.
    pub fn get_buffer_size(&self, width: usize) -> (r: usize)
        ensures
            r == buffer_size_for(*self, width),
    {
        if width < 1024 {
            if width * 4 > 4096 {
                width * 4
            } else {
                4096
            }
        } else {
            self.buffer_size
        }
    }

    pub fn get_min_width(&self) -> (r: usize)
        ensures
            r == self.min_line_width,
    {
        self.min_line_width
    }

    pub fn get_max_width(&self) -> (r: usize)
        ensures
            r == self.max_line_width,
    {
        self.max_line_width
    }

    /// Rejects a file larger than `max_file_size`.
    pub fn validate_file_size(&self, size: u64) -> (r: Result<()>)
        ensures
            size <= self.max_file_size ==> r is Ok,
            size > self.max_file_size ==> (r matches Err(BingrepError::InvalidPattern(m)) && m@
                == file_size_message(size, self.max_file_size)),
    {
        if size > self.max_file_size {
            let mut m = String::from_str("File size ");
            push_decimal(&mut m, size);
            m.append(" bytes exceeds maximum allowed: ");
            push_decimal(&mut m, self.max_file_size);
            m.append(" bytes");
            return Err(BingrepError::InvalidPattern(m));
        }
        Ok(())
    }

    pub fn get_max_file_size(&self) -> (r: u64)
        ensures
            r == self.max_file_size,
    {
        self.max_file_size
    }

    pub fn get_max_memory_usage(&self) -> (r: usize)
        ensures
            r == self.max_memory_usage,
    {
        self.max_memory_usage
    }
}

} // verus!
