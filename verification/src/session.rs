//! The write phase of a split, as a state machine.
//!
//! Splitting computes artifacts in memory; persisting them is a sequence of
//! writes that can fail half-way.  The machine prescribes, for each state,
//! the one action to perform next; the driver performs it and reports back
//! whether it succeeded.  Its contract is all-or-nothing: the manifest is
//! written only after every chunk artifact has been written, and after any
//! failure the only remaining action is removing the whole chunk directory.

use vstd::prelude::*;

verus! {

/// The one action to perform next while persisting a split.
#[derive(Clone, Copy, Debug, PartialEq, Eq, Structural)]
pub enum SplitStep {
    /// Write the chunk artifact at this 0-based position.
    WriteArtifact(usize),
    /// Write the manifest artifact; every chunk artifact is on disk.
    WriteManifest,
    /// Remove the whole chunk directory: the failure cleanup.
    RemoveDir,
    /// Terminal: everything is on disk and owned by the caller.
    Done,
    /// Terminal: the split failed and its directory was removed.
    Failed,
}

/// The progress of persisting one split.
#[derive(Clone, Copy, Debug)]
pub struct SplitSession {
    /// How many chunk artifacts there are to write.
    pub total: usize,
    /// The next artifact position to write.
    pub next: usize,
    /// Whether some write has failed.
    pub failed: bool,
    /// Whether the manifest artifact has been written.
    pub manifest_written: bool,
    /// Whether the failure cleanup has run.
    pub cleaned: bool,
}

/// The states the machine can reach.
pub open spec fn session_wf(s: SplitSession) -> bool {
    &&& s.next <= s.total
    &&& s.manifest_written ==> s.next == s.total && !s.failed
    &&& s.cleaned ==> s.failed
}

/// The action prescribed in a state.
pub open spec fn step_of(s: SplitSession) -> SplitStep {
    if s.failed {
        if s.cleaned {
            SplitStep::Failed
        } else {
            SplitStep::RemoveDir
        }
    } else if s.next < s.total {
        SplitStep::WriteArtifact(s.next)
    } else if !s.manifest_written {
        SplitStep::WriteManifest
    } else {
        SplitStep::Done
    }
}

impl SplitSession {
    /// Begins persisting a split with `total` chunk artifacts.
    pub fn start(total: usize) -> (r: Self)
        ensures
            session_wf(r),
            r.total == total,
            r.next == 0,
            !r.failed,
            !r.manifest_written,
            !r.cleaned,
    {
        SplitSession { total, next: 0, failed: false, manifest_written: false, cleaned: false }
    }

    /// The action to perform next.
    pub fn next_step(&self) -> (a: SplitStep)
        ensures
            a == step_of(*self),
    {
        if self.failed {
            if self.cleaned {
                SplitStep::Failed
            } else {
                SplitStep::RemoveDir
            }
        } else if self.next < self.total {
            SplitStep::WriteArtifact(self.next)
        } else if !self.manifest_written {
            SplitStep::WriteManifest
        } else {
            SplitStep::Done
        }
    }

    /// Reports the outcome of the action last prescribed.  A failed write
    /// puts the session on the cleanup path for good; the directory
    /// removal itself is unconditional, as the split owns everything in it.
    pub fn report(&mut self, ok: bool)
        requires
            session_wf(*old(self)),
            !(step_of(*old(self)) is Done),
            !(step_of(*old(self)) is Failed),
        ensures
            session_wf(*final(self)),
            final(self).total == old(self).total,
            old(self).failed ==> final(self).failed,
            match step_of(*old(self)) {
                SplitStep::WriteArtifact(i) => if ok {
                    *final(self) == (SplitSession { next: (i + 1) as usize, ..*old(self) })
                } else {
                    *final(self) == (SplitSession { failed: true, ..*old(self) })
                },
                SplitStep::WriteManifest => if ok {
                    *final(self) == (SplitSession { manifest_written: true, ..*old(self) })
                } else {
                    *final(self) == (SplitSession { failed: true, ..*old(self) })
                },
                SplitStep::RemoveDir => *final(self) == (
                    SplitSession { cleaned: true, ..*old(self) }
                ),
                _ => false,
            },
    {
        if self.failed {
            self.cleaned = true;
        } else if self.next < self.total {
            if ok {
                self.next = self.next + 1;
            } else {
                self.failed = true;
            }
        } else {
            if ok {
                self.manifest_written = true;
            } else {
                self.failed = true;
            }
        }
    }
}

/// Cleanup on failure: once a write has failed, the machine never again
/// asks for a chunk or manifest write; all that remains is removing the
/// chunk directory and stopping.
pub proof fn lemma_failed_never_writes(s: SplitSession)
    requires
        session_wf(s),
        s.failed,
    ensures
        !(step_of(s) is WriteArtifact),
        !(step_of(s) is WriteManifest),
        step_of(s) == if s.cleaned {
            SplitStep::Failed
        } else {
            SplitStep::RemoveDir
        },
{
}

/// The manifest is written only after every chunk artifact: a state that
/// prescribes the manifest write has all chunks on disk and no failure
/// behind it.
pub proof fn lemma_manifest_last(s: SplitSession)
    requires
        session_wf(s),
        step_of(s) is WriteManifest,
    ensures
        s.next == s.total,
        !s.failed,
{
}

} // verus!
