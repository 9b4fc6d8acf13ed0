//! Counters of what the database has done.
use crate::compaction::at_most;
use vstd::prelude::*;

verus! {

/// What a merge read and wrote.
#[derive(Debug, Clone, Copy)]
pub struct JobOutcome {
    pub bytes_read: u64,
    pub bytes_written: u64,
    pub input_files: u64,
    pub output_files: u64,
}

/// Totals since the database was opened.
#[derive(Debug)]
pub struct Metrics {
    pub compactions: u64,
    pub full_compactions: u64,
    pub compactions_by_level: Vec<u64>,
    pub bytes_read: u64,
    pub bytes_written: u64,
    pub input_files: u64,
    pub output_files: u64,
    pub bytes_flushed: u64,
}

pub struct MetricsState {
    pub compactions: u64,
    pub full_compactions: u64,
    pub compactions_by_level: Seq<u64>,
    pub bytes_read: u64,
    pub bytes_written: u64,
    pub input_files: u64,
    pub output_files: u64,
    pub bytes_flushed: u64,
}

/// The sum, or the largest 64-bit number where that is less.
pub open spec fn plus(a: u64, b: u64) -> u64 {
    at_most(a + b, u64::MAX as int) as u64
}

/// One more merge at a level.
pub open spec fn counted_at(counts: Seq<u64>, level: int) -> Seq<u64> {
    let len = if counts.len() > level {
        counts.len() as int
    } else {
        level + 1
    };
    Seq::new(
        len as nat,
        |i: int|
            {
                let count = if i < counts.len() {
                    counts[i]
                } else {
                    0
                };
                if i == level {
                    plus(count, 1)
                } else {
                    count
                }
            },
    )
}

/// The totals after a merge; one of all tables has no level.
pub open spec fn recorded(metrics: MetricsState, level: Option<int>, outcome: JobOutcome) -> MetricsState {
    MetricsState {
        compactions: plus(metrics.compactions, 1),
        full_compactions: if level is None {
            plus(metrics.full_compactions, 1)
        } else {
            metrics.full_compactions
        },
        compactions_by_level: match level {
            Some(level) => counted_at(metrics.compactions_by_level, level),
            None => metrics.compactions_by_level,
        },
        bytes_read: plus(metrics.bytes_read, outcome.bytes_read),
        bytes_written: plus(metrics.bytes_written, outcome.bytes_written),
        input_files: plus(metrics.input_files, outcome.input_files),
        output_files: plus(metrics.output_files, outcome.output_files),
        bytes_flushed: metrics.bytes_flushed,
    }
}

impl Metrics {
    pub open spec fn state(&self) -> MetricsState {
        MetricsState {
            compactions: self.compactions,
            full_compactions: self.full_compactions,
            compactions_by_level: self.compactions_by_level@,
            bytes_read: self.bytes_read,
            bytes_written: self.bytes_written,
            input_files: self.input_files,
            output_files: self.output_files,
            bytes_flushed: self.bytes_flushed,
        }
    }

    pub fn new() -> (metrics: Self)
        ensures
            metrics.state() == (MetricsState {
                compactions: 0,
                full_compactions: 0,
                compactions_by_level: Seq::empty(),
                bytes_read: 0,
                bytes_written: 0,
                input_files: 0,
                output_files: 0,
                bytes_flushed: 0,
            }),
    {
        Metrics {
            compactions: 0,
            full_compactions: 0,
            compactions_by_level: Vec::new(),
            bytes_read: 0,
            bytes_written: 0,
            input_files: 0,
            output_files: 0,
            bytes_flushed: 0,
        }
    }

    /// Counts a merge.
    pub fn record(&mut self, level: Option<u32>, outcome: &JobOutcome)
        ensures
            final(self).state() == recorded(
                old(self).state(),
                match level {
                    Some(level) => Some(level as int),
                    None => None,
                },
                *outcome,
            ),
    {
        self.compactions = self.compactions.saturating_add(1);
        self.bytes_read = self.bytes_read.saturating_add(outcome.bytes_read);
        self.bytes_written = self.bytes_written.saturating_add(outcome.bytes_written);
        self.input_files = self.input_files.saturating_add(outcome.input_files);
        self.output_files = self.output_files.saturating_add(outcome.output_files);
        match level {
            Some(level) => {
                let index: usize = level as usize;
                let ghost before = self.compactions_by_level@;
                while self.compactions_by_level.len() <= index
                    invariant
                        index == level as int,
                        self.compactions == plus(old(self).compactions, 1),
                        self.full_compactions == old(self).full_compactions,
                        self.bytes_read == plus(old(self).bytes_read, outcome.bytes_read),
                        self.bytes_written == plus(old(self).bytes_written, outcome.bytes_written),
                        self.input_files == plus(old(self).input_files, outcome.input_files),
                        self.output_files == plus(old(self).output_files, outcome.output_files),
                        self.bytes_flushed == old(self).bytes_flushed,
                        before == old(self).compactions_by_level@,
                        self.compactions_by_level@.len() >= before.len(),
                        self.compactions_by_level@.len() <= index + 1 || self.compactions_by_level@ == before,
                        forall|i: int|
                            0 <= i < self.compactions_by_level@.len() ==> self.compactions_by_level@[i] == (if i
                                < before.len() {
                                before[i]
                            } else {
                                0u64
                            }),
                    decreases index + 1 - self.compactions_by_level@.len(),
                {
                    self.compactions_by_level.push(0);
                }
                let count: u64 = self.compactions_by_level[index];
                self.compactions_by_level[index] = count.saturating_add(1);
                proof {
                    assert(self.compactions_by_level@ =~= counted_at(before, level as int));
                }
            },
            None => {
                self.full_compactions = self.full_compactions.saturating_add(1);
            },
        }
    }
}

}
