//! When the graph of an index is written back: every change marks the index
//! dirty and, unless one is pending, asks for a one-shot flush a fixed delay
//! later; the flush writes the graph only if it is still dirty.
use vstd::prelude::*;

verus! {

/// Delay between the first unsaved change and the flush that saves it.
pub const FLUSH_DELAY_MS: u64 = 10000;

/// Whether memory has diverged from the stored graph, and whether a flush is
/// pending.
#[derive(Debug, Clone, Copy, PartialEq, Eq, Structural)]
pub struct FlushState {
    pub dirty: bool,
    pub scheduled: bool,
}

/// What the caller must do after an event.
#[derive(Debug, Clone, Copy, PartialEq, Eq, Structural)]
pub enum FlushAction {
    /// Nothing to do.
    Idle,
    /// Arm a one-shot timer `FLUSH_DELAY_MS` from now.
    Schedule,
    /// Write the whole graph to the store, then report how it went.
    Persist,
}

impl FlushState {
    /// A freshly opened index: in step with the store, no flush pending.
    pub fn new() -> (s: FlushState)
        ensures
            !s.dirty && !s.scheduled,
    {
        FlushState { dirty: false, scheduled: false }
    }

    /// A change was applied in memory: the index is dirty, and a flush is
    /// scheduled unless one is pending already.
    pub fn on_mutation(&mut self) -> (a: FlushAction)
        ensures
            final(self).dirty,
            final(self).scheduled,
            a == (if old(self).scheduled { FlushAction::Idle } else { FlushAction::Schedule }),
    {
        self.dirty = true;
        if self.scheduled {
            FlushAction::Idle
        } else {
            self.scheduled = true;
            FlushAction::Schedule
        }
    }

    /// The timer fired: a dirty index is written out; a clean one drops the
    /// pending flag and nothing is rescheduled.
    pub fn on_timer(&mut self) -> (a: FlushAction)
        ensures
            old(self).dirty ==> a == FlushAction::Persist && *final(self) == *old(self),
            !old(self).dirty ==> a == FlushAction::Idle && !final(self).dirty && !final(self).scheduled,
    {
        if self.dirty {
            FlushAction::Persist
        } else {
            self.scheduled = false;
            FlushAction::Idle
        }
    }

    /// The write asked for by `on_timer` finished. On success the index is
    /// clean and no flush is pending; on failure it stays dirty and the flush
    /// is tried again after another delay.
    pub fn on_persisted(&mut self, ok: bool) -> (a: FlushAction)
        ensures
            ok ==> a == FlushAction::Idle && !final(self).dirty && !final(self).scheduled,
            !ok ==> a == FlushAction::Schedule && final(self).dirty && final(self).scheduled,
    {
        if ok {
            self.dirty = false;
            self.scheduled = false;
            FlushAction::Idle
        } else {
            self.dirty = true;
            self.scheduled = true;
            FlushAction::Schedule
        }
    }
}

} // verus!
