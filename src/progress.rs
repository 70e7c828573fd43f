use vstd::prelude::*;

verus! {

/// The counters of a progress display. Timing and drawing belong to the
/// caller, which asks `redraw_due` whether enough time has passed.
#[derive(Debug, Clone, Copy, PartialEq, Eq)]
pub struct ProgressIndicator {
    /// Bytes to process in all.
    pub total_bytes: u64,
    /// Bytes processed so far; saturates rather than wrapping.
    pub processed_bytes: u64,
    /// Progress is shown: it was asked for and there is something to process.
    pub enabled: bool,
    /// Progress was asked for.
    pub show_progress: bool,
}

/// The least time between two redraws, in milliseconds.
pub const REDRAW_INTERVAL_MS: u64 = 100;

impl ProgressIndicator {
    /// Counters for `total_bytes` bytes, none processed yet.
    pub fn new(total_bytes: u64, show_progress: bool) -> (r: Self)
        ensures
            r == (ProgressIndicator {
                total_bytes,
                processed_bytes: 0,
                enabled: show_progress && total_bytes > 0,
                show_progress,
            }),
    {
        ProgressIndicator {
            total_bytes,
            processed_bytes: 0,
            enabled: show_progress && total_bytes > 0,
            show_progress,
        }
    }

    /// Counts `bytes_processed` more bytes, saturating at the largest value.
    pub fn update(&mut self, bytes_processed: u64)
        ensures
            final(self).processed_bytes == if old(self).processed_bytes + bytes_processed
                > u64::MAX {
                u64::MAX
            } else {
                (old(self).processed_bytes + bytes_processed) as u64
            },
            final(self).total_bytes == old(self).total_bytes,
            final(self).enabled == old(self).enabled,
            final(self).show_progress == old(self).show_progress,
    {
        self.processed_bytes = self.processed_bytes.saturating_add(bytes_processed);
    }

    /// Whether the display should be drawn again, `millis_since_last_draw`
    /// after the last drawing: only when shown, and at most every 100 ms.
    pub fn redraw_due(&self, millis_since_last_draw: u64) -> (r: bool)
        ensures
            r == (self.enabled && millis_since_last_draw >= REDRAW_INTERVAL_MS),
    {
        self.enabled && millis_since_last_draw >= REDRAW_INTERVAL_MS
    }

    /// Marks the work complete when shown; returns whether a final drawing
    /// is due.
    pub fn finish(&mut self) -> (r: bool)
        ensures
            r == old(self).enabled,
            final(self).processed_bytes == if old(self).enabled {
                old(self).total_bytes
            } else {
                old(self).processed_bytes
            },
            final(self).total_bytes == old(self).total_bytes,
            final(self).enabled == old(self).enabled,
            final(self).show_progress == old(self).show_progress,
    {
        if !self.enabled {
            return false;
        }
        self.processed_bytes = self.total_bytes;
        true
    }

    /// Counters that never show anything.
    pub fn disabled() -> (r: Self)
        ensures
            r == (ProgressIndicator {
                total_bytes: 0,
                processed_bytes: 0,
                enabled: false,
                show_progress: false,
            }),
    {
        ProgressIndicator { total_bytes: 0, processed_bytes: 0, enabled: false, show_progress: false }
    }
}

} // verus!
