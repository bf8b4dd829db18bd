use vstd::prelude::*;

verus! {

/// The suspension of the target around one scan or filter pass.
///
/// The caller asks `wants_suspend`, suspends, reports the outcome with
/// `record_suspend`, runs the pass, and on every way out calls `finish`,
/// resuming the target exactly when it returns true.
#[derive(Clone, Copy, Debug, PartialEq, Eq, Structural)]
pub struct PassGuard {
    pub do_suspend: bool,
    pub suspended: bool,
    pub finished: bool,
}

/// Whether finishing resumes the target: the suspend succeeded, the
/// desired final state is running, and the pass has not finished before.
pub open spec fn resumes(g: PassGuard, do_play: bool) -> bool {
    g.suspended && do_play && !g.finished
}

impl PassGuard {
    /// A guard for a pass that suspends the target if `do_suspend`.
    pub fn new(do_suspend: bool) -> (r: PassGuard)
        ensures
            r.do_suspend == do_suspend,
            !r.suspended,
            !r.finished,
    {
        PassGuard { do_suspend, suspended: false, finished: false }
    }

    /// Whether the caller should suspend the target now.
    pub fn wants_suspend(&self) -> (r: bool)
        ensures
            r == (self.do_suspend && !self.suspended && !self.finished),
    {
        self.do_suspend && !self.suspended && !self.finished
    }

    /// Records whether the suspend succeeded.
    pub fn record_suspend(&mut self, ok: bool)
        ensures
            final(self).do_suspend == old(self).do_suspend,
            final(self).finished == old(self).finished,
            final(self).suspended == (old(self).suspended || (old(self).do_suspend && ok
                && !old(self).finished)),
    {
        if self.do_suspend && ok && !self.finished {
            self.suspended = true;
        }
    }

    /// Ends the pass; true when the caller must resume the target.
    pub fn finish(&mut self, do_play: bool) -> (r: bool)
        ensures
            r == resumes(*old(self), do_play),
            final(self).finished,
            final(self).suspended == old(self).suspended,
            final(self).do_suspend == old(self).do_suspend,
    {
        let r = self.suspended && do_play && !self.finished;
        self.finished = true;
        r
    }
}

/// However often a pass is finished, the target is resumed at most once,
/// and never unless the suspend succeeded.
pub proof fn lemma_resume_at_most_once(g: PassGuard, first: bool, second: bool)
    ensures
        !resumes(PassGuard { finished: true, ..g }, second),
        resumes(g, first) ==> g.suspended,
{
}

} // verus!
