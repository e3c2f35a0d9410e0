//! The accept loop's coordination state: whether new connections are
//! still admitted, and how many connection tasks are in flight. The
//! loop that owns the listener drives this state: it accepts only
//! while `accepting`, flips `accepting` off when the termination
//! signal fires, and returns only once `may_finish` holds — so no
//! spawned connection task is abandoned.

use vstd::prelude::*;

verus! {

/// The serve loop's shutdown-and-drain bookkeeping.
pub struct Serve {
    pub accepting: bool,
    pub tasks: u64,
}

impl Serve {
    /// A fresh loop: accepting, nothing in flight.
    pub fn new() -> (r: Serve)
        ensures
            r.accepting,
            r.tasks == 0,
    {
        Serve { accepting: true, tasks: 0 }
    }

    /// A connection was accepted and its task spawned. Only an
    /// accepting loop admits connections.
    pub fn on_accept(&mut self)
        requires
            old(self).accepting,
            old(self).tasks < u64::MAX,
        ensures
            final(self).accepting == old(self).accepting,
            final(self).tasks == old(self).tasks + 1,
    {
        self.tasks = self.tasks + 1;
    }

    /// The termination signal fired: stop admitting new connections;
    /// tasks already spawned are left to finish.
    pub fn on_shutdown(&mut self)
        ensures
            !final(self).accepting,
            final(self).tasks == old(self).tasks,
    {
        self.accepting = false;
    }

    /// A connection task finished, or was gracefully half-closed and
    /// exited.
    pub fn on_task_done(&mut self)
        requires
            old(self).tasks > 0,
        ensures
            final(self).accepting == old(self).accepting,
            final(self).tasks == old(self).tasks - 1,
    {
        self.tasks = self.tasks - 1;
    }

    /// The loop may return: shutdown was signaled and every spawned
    /// task has finished.
    pub fn may_finish(&self) -> (r: bool)
        ensures
            r == (!self.accepting && self.tasks == 0),
    {
        !self.accepting && self.tasks == 0
    }
}

} // verus!
