//! Line-start offsets of a file together with the indexing progress.
use vstd::prelude::*;

verus! {

/// Stage of background indexing.
#[derive(Debug, Clone, Copy, PartialEq, Eq, Structural)]
pub enum Phase {
    Priming,
    Indexing,
    Paused,
    Complete,
}

/// A snapshot of the indexing progress.
#[derive(Debug, Clone, Copy)]
pub struct IndexStatus {
    pub phase: Phase,
    pub bytes_done: u64,
    pub total_bytes: u64,
}

/// Start offset of every line known so far, plus indexing state. The
/// application shares one behind a lock between the indexer and the view.
#[derive(Clone)]
pub struct LineIndex {
    offsets: Vec<u64>,
    total_bytes: u64,
    bytes_done: u64,
    phase: Phase,
    pause: bool,
}

impl LineIndex {
    /// The recorded line starts, in order.
    pub closed spec fn offsets(&self) -> Seq<u64> {
        self.offsets@
    }

    /// Size of the file being indexed.
    pub closed spec fn total(&self) -> u64 {
        self.total_bytes
    }

    pub closed spec fn done(&self) -> u64 {
        self.bytes_done
    }

    pub closed spec fn phase(&self) -> Phase {
        self.phase
    }

    pub closed spec fn pausing(&self) -> bool {
        self.pause
    }

    /// An empty index for a file of `total_bytes` bytes, in the priming phase.
    pub fn new(total_bytes: u64) -> (idx: LineIndex)
        ensures
            idx.offsets() == Seq::<u64>::empty(),
            idx.total() == total_bytes,
            idx.done() == 0,
            idx.phase() == Phase::Priming,
            !idx.pausing(),
    {
        LineIndex { offsets: Vec::new(), total_bytes, bytes_done: 0, phase: Phase::Priming, pause: false }
    }

    /// Appends one line start.
    pub fn push_offset(&mut self, off: u64)
        ensures
            final(self).offsets() == old(self).offsets().push(off),
            final(self).total() == old(self).total(),
            final(self).done() == old(self).done(),
            final(self).phase() == old(self).phase(),
            final(self).pausing() == old(self).pausing(),
    {
        self.offsets.push(off);
    }

    /// Replaces the whole offset array at once (the result of a full scan).
    pub fn replace_offsets(&mut self, offsets: Vec<u64>)
        ensures
            final(self).offsets() == offsets@,
            final(self).total() == old(self).total(),
            final(self).done() == old(self).done(),
            final(self).phase() == old(self).phase(),
            final(self).pausing() == old(self).pausing(),
    {
        self.offsets = offsets;
    }

    /// Number of lines known.
    pub fn line_count(&self) -> (n: usize)
        ensures
            n == self.offsets().len(),
    {
        self.offsets.len()
    }

    /// Start offset of `row`, if known.
    pub fn offset(&self, row: usize) -> (r: Option<u64>)
        ensures
            r == (if row < self.offsets().len() { Some(self.offsets()[row as int]) } else { None }),
    {
        if row < self.offsets.len() {
            Some(self.offsets[row])
        } else {
            None
        }
    }

    /// Byte range `[start, end)` of `row`; the last known row ends at the end of the file.
    pub fn line_range(&self, row: usize) -> (r: Option<(u64, u64)>)
        ensures
            r == (if row < self.offsets().len() {
                Some((self.offsets()[row as int], if row + 1 < self.offsets().len() {
                    self.offsets()[row + 1]
                } else {
                    self.total()
                }))
            } else {
                None
            }),
    {
        if row >= self.offsets.len() {
            return None;
        }
        let start = self.offsets[row];
        let end = if row + 1 < self.offsets.len() { self.offsets[row + 1] } else { self.total_bytes };
        Some((start, end))
    }

    pub fn set_phase(&mut self, phase: Phase)
        ensures
            final(self).phase() == phase,
            final(self).offsets() == old(self).offsets(),
            final(self).total() == old(self).total(),
            final(self).done() == old(self).done(),
            final(self).pausing() == old(self).pausing(),
    {
        self.phase = phase;
    }

    pub fn set_bytes_done(&mut self, n: u64)
        ensures
            final(self).done() == n,
            final(self).offsets() == old(self).offsets(),
            final(self).total() == old(self).total(),
            final(self).phase() == old(self).phase(),
            final(self).pausing() == old(self).pausing(),
    {
        self.bytes_done = n;
    }

    /// Current phase and progress.
    pub fn status(&self) -> (st: IndexStatus)
        ensures
            st.phase == self.phase(),
            st.bytes_done == self.done(),
            st.total_bytes == self.total(),
    {
        IndexStatus { phase: self.phase, bytes_done: self.bytes_done, total_bytes: self.total_bytes }
    }

    /// Asks a running indexer to stop at its next chunk boundary.
    pub fn request_pause(&mut self)
        ensures
            final(self).pausing(),
            final(self).offsets() == old(self).offsets(),
            final(self).total() == old(self).total(),
            final(self).done() == old(self).done(),
            final(self).phase() == old(self).phase(),
    {
        self.pause = true;
    }

    pub fn pause_requested(&self) -> (r: bool)
        ensures
            r == self.pausing(),
    {
        self.pause
    }

    pub fn clear_pause(&mut self)
        ensures
            !final(self).pausing(),
            final(self).offsets() == old(self).offsets(),
            final(self).total() == old(self).total(),
            final(self).done() == old(self).done(),
            final(self).phase() == old(self).phase(),
    {
        self.pause = false;
    }
}

} // verus!
