//! Bounded retry with backoff, and the step sequence of an atomic table
//! rewrite: write a temporary file, flush it, rename it over the table.
//! The caller performs each step and reports whether it succeeded.

use vstd::prelude::*;

verus! {

/// How many attempts a table read or write makes before giving up.
pub const MAX_RETRY: u32 = 5;

/// Counts the failed attempts of an operation retried with backoff.
pub struct Retry {
    pub failures: u32,
    pub max_attempts: u32,
}

impl Retry {
    pub fn new(max_attempts: u32) -> (r: Retry)
        ensures
            r.failures == 0,
            r.max_attempts == max_attempts,
    {
        Retry { failures: 0, max_attempts }
    }

    /// Whether another attempt may be made.
    pub fn may_attempt(&self) -> (r: bool)
        ensures
            r == (self.failures < self.max_attempts),
    {
        self.failures < self.max_attempts
    }

    /// Records a failed attempt. Every failure is followed by one backoff
    /// interval; after it comes another attempt while attempts remain.
    pub fn after_failure(&mut self) -> (next: AfterFailure)
        requires
            old(self).failures < old(self).max_attempts,
        ensures
            final(self).failures == old(self).failures + 1,
            final(self).max_attempts == old(self).max_attempts,
            next == if final(self).failures < final(self).max_attempts {
                AfterFailure::BackoffThenRetry
            } else {
                AfterFailure::BackoffThenGiveUp
            },
    {
        self.failures = self.failures + 1;
        if self.failures < self.max_attempts {
            AfterFailure::BackoffThenRetry
        } else {
            AfterFailure::BackoffThenGiveUp
        }
    }
}

/// What follows a failed attempt: one backoff interval in either case.
#[derive(Clone, Copy, Debug, PartialEq, Eq, Structural)]
pub enum AfterFailure {
    /// Sleep one backoff interval, then attempt again.
    BackoffThenRetry,
    /// Sleep one backoff interval, then give up.
    BackoffThenGiveUp,
}

/// The step of an atomic rewrite that is due next.
#[derive(Clone, Copy, Debug, PartialEq, Eq, Structural)]
pub enum WriteStep {
    /// Create (or truncate) the temporary file beside the table.
    CreateTemp,
    /// Write the whole new content to the temporary file.
    WriteTemp,
    /// Flush the temporary file.
    FlushTemp,
    /// Rename the temporary file over the table.
    RenameOverTarget,
    /// Sleep one backoff interval, then start over or give up.
    Backoff,
    /// The table holds the new content.
    Done,
    /// Every attempt failed.
    GiveUp,
}

/// The progress of an atomic rewrite.
pub struct AtomicWrite {
    pub step: WriteStep,
    pub failures: u32,
    pub max_attempts: u32,
}

/// The state after performing `w.step` with outcome `ok`.
pub open spec fn next_write(w: AtomicWrite, ok: bool) -> AtomicWrite {
    match w.step {
        WriteStep::Done | WriteStep::GiveUp => w,
        WriteStep::Backoff => if w.failures < w.max_attempts {
            AtomicWrite { step: WriteStep::CreateTemp, ..w }
        } else {
            AtomicWrite { step: WriteStep::GiveUp, ..w }
        },
        _ => if ok {
            let s = match w.step {
                WriteStep::CreateTemp => WriteStep::WriteTemp,
                WriteStep::WriteTemp => WriteStep::FlushTemp,
                WriteStep::FlushTemp => WriteStep::RenameOverTarget,
                _ => WriteStep::Done,
            };
            AtomicWrite { step: s, ..w }
        } else {
            AtomicWrite { step: WriteStep::Backoff, failures: (w.failures + 1) as u32, ..w }
        },
    }
}

pub open spec fn write_wf(w: AtomicWrite) -> bool {
    &&& w.failures <= w.max_attempts
    &&& (w.step != WriteStep::GiveUp && w.step != WriteStep::Backoff ==> w.failures
        < w.max_attempts)
}

impl AtomicWrite {
    /// A rewrite that may make `max_attempts` attempts.
    pub fn start(max_attempts: u32) -> (r: AtomicWrite)
        requires
            max_attempts > 0,
        ensures
            r.step == WriteStep::CreateTemp,
            r.failures == 0,
            r.max_attempts == max_attempts,
            write_wf(r),
    {
        AtomicWrite { step: WriteStep::CreateTemp, failures: 0, max_attempts }
    }

    /// Whether the rewrite has ended, well or not.
    pub fn finished(&self) -> (r: bool)
        ensures
            r == (self.step == WriteStep::Done || self.step == WriteStep::GiveUp),
    {
        match self.step {
            WriteStep::Done | WriteStep::GiveUp => true,
            _ => false,
        }
    }

    /// Moves on after the current step was performed with outcome `ok`.
    pub fn advance(&mut self, ok: bool)
        requires
            write_wf(*old(self)),
        ensures
            *final(self) == next_write(*old(self), ok),
            write_wf(*final(self)),
    {
        match self.step {
            WriteStep::Done | WriteStep::GiveUp => {},
            WriteStep::Backoff => {
                self.step =
                if self.failures < self.max_attempts {
                    WriteStep::CreateTemp
                } else {
                    WriteStep::GiveUp
                };
            },
            _ => {
                if ok {
                    self.step =
                    match self.step {
                        WriteStep::CreateTemp => WriteStep::WriteTemp,
                        WriteStep::WriteTemp => WriteStep::FlushTemp,
                        WriteStep::FlushTemp => WriteStep::RenameOverTarget,
                        _ => WriteStep::Done,
                    };
                } else {
                    self.step = WriteStep::Backoff;
                    self.failures = self.failures + 1;
                }
            },
        }
    }
}


/// The two files an atomic rewrite touches: the table and its temporary file.
pub struct DiskView {
    pub target: Seq<u8>,
    pub temp: Option<Seq<u8>>,
}

/// What performing `step` with outcome `ok` does to the files; a failed
/// write may leave any bytes `partial` in the temporary file, and a rename
/// either happens whole or not at all.
pub open spec fn perform(
    step: WriteStep,
    ok: bool,
    partial: Seq<u8>,
    content: Seq<u8>,
    d: DiskView,
) -> DiskView {
    match step {
        WriteStep::CreateTemp => if ok {
            DiskView { temp: Some(seq![]), ..d }
        } else {
            d
        },
        WriteStep::WriteTemp => if ok {
            DiskView { temp: Some(content), ..d }
        } else {
            DiskView { temp: Some(partial), ..d }
        },
        WriteStep::RenameOverTarget => if ok && d.temp is Some {
            DiskView { target: d.temp->0, temp: None }
        } else {
            d
        },
        _ => d,
    }
}

/// The state and the files after the outcomes `events` (each a success flag
/// and what a failed write left behind), performed in order.
pub open spec fn run_write(
    w: AtomicWrite,
    d: DiskView,
    content: Seq<u8>,
    events: Seq<(bool, Seq<u8>)>,
) -> (AtomicWrite, DiskView)
    decreases events.len(),
{
    if events.len() == 0 {
        (w, d)
    } else {
        let (w1, d1) = run_write(w, d, content, events.drop_last());
        let (ok, partial) = events.last();
        (next_write(w1, ok), perform(w1.step, ok, partial, content, d1))
    }
}

pub open spec fn crash_safe(w: AtomicWrite, d: DiskView, old_table: Seq<u8>, content: Seq<u8>) -> bool {
    &&& (w.step != WriteStep::Done ==> d.target == old_table)
    &&& (w.step == WriteStep::Done ==> d.target == content)
    &&& (w.step == WriteStep::FlushTemp || w.step == WriteStep::RenameOverTarget ==> d.temp == Some(
        content,
    ))
}

proof fn lemma_run_crash_safe(
    w: AtomicWrite,
    d: DiskView,
    old_table: Seq<u8>,
    content: Seq<u8>,
    events: Seq<(bool, Seq<u8>)>,
)
    requires
        crash_safe(w, d, old_table, content),
    ensures
        ({
            let (w2, d2) = run_write(w, d, content, events);
            crash_safe(w2, d2, old_table, content)
        }),
    decreases events.len(),
{
    if events.len() > 0 {
        lemma_run_crash_safe(w, d, old_table, content, events.drop_last());
    }
}

/// An atomic rewrite never leaves the table half-written: stopped after any
/// number of steps, whatever their outcomes (a kill between writing the
/// temporary file and renaming it included), the table holds its old content
/// until the rename succeeds, and the whole new content from then on.
pub proof fn lemma_atomic_write_crash_safe(
    max_attempts: u32,
    old_table: Seq<u8>,
    old_temp: Option<Seq<u8>>,
    content: Seq<u8>,
    events: Seq<(bool, Seq<u8>)>,
)
    ensures
        ({
            let w0 = AtomicWrite { step: WriteStep::CreateTemp, failures: 0, max_attempts };
            let (w, d) = run_write(
                w0,
                DiskView { target: old_table, temp: old_temp },
                content,
                events,
            );
            &&& w.step != WriteStep::Done ==> d.target == old_table
            &&& w.step == WriteStep::Done ==> d.target == content
        }),
{
    let w0 = AtomicWrite { step: WriteStep::CreateTemp, failures: 0, max_attempts };
    lemma_run_crash_safe(
        w0,
        DiskView { target: old_table, temp: old_temp },
        old_table,
        content,
        events,
    );
}

} // verus!
