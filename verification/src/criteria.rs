//! Run criteria: gates deciding whether a stage or a system set executes.
//!
//! A criterion is a user system returning a [`ShouldRun`] verdict.  Running
//! that system is outside work, so the holder here records whether a
//! criterion is attached and folds the verdict the caller obtained into the
//! protocol: no criterion means run once.

use vstd::prelude::*;

verus! {

/// The verdict of a run criterion.
#[derive(Clone, Copy, PartialEq, Eq, Structural, Debug)]
pub enum ShouldRun {
    /// No, the governed body should not run.
    No,
    /// Yes, the governed body should run once, then stop.
    Yes,
    /// Yes, the governed body should run, and the criterion should then be
    /// checked again.
    YesAndLoop,
    /// Not right now, but the criterion should be checked again later.
    NoAndLoop,
}

/// Whether the verdict lets the governed body run this iteration.
pub open spec fn verdict_runs(s: ShouldRun) -> bool {
    s == ShouldRun::Yes || s == ShouldRun::YesAndLoop
}

/// Whether the verdict keeps the governing loop alive.
pub open spec fn verdict_has_work(s: ShouldRun) -> bool {
    s == ShouldRun::Yes || s == ShouldRun::YesAndLoop || s == ShouldRun::NoAndLoop
}

/// Whether the verdict asks for re-evaluation on the next iteration.
pub open spec fn verdict_loops(s: ShouldRun) -> bool {
    s == ShouldRun::YesAndLoop || s == ShouldRun::NoAndLoop
}

/// Decides whether the verdict lets the governed body run this iteration.
pub fn runs_now(s: ShouldRun) -> (r: bool)
    ensures
        r == verdict_runs(s),
{
    match s {
        ShouldRun::Yes => true,
        ShouldRun::YesAndLoop => true,
        ShouldRun::No => false,
        ShouldRun::NoAndLoop => false,
    }
}

/// An optionally attached run criterion, with its one-shot initialization
/// bookkeeping.  The criterion system itself lives with the caller, which
/// runs it and hands the verdict in.
pub struct RunCriteria {
    has_criterion: bool,
    initialized: bool,
}

impl RunCriteria {
    /// Whether a criterion system is attached.
    pub closed spec fn spec_has_criterion(&self) -> bool {
        self.has_criterion
    }

    /// Whether the attached criterion was initialized.
    pub closed spec fn spec_initialized(&self) -> bool {
        self.initialized
    }

    /// The verdict this holder derives from what the criterion system
    /// returned: no criterion always says yes; a criterion that declined to
    /// produce output says no.
    pub open spec fn folded_verdict(&self, outcome: Option<ShouldRun>) -> ShouldRun {
        if self.spec_has_criterion() {
            match outcome {
                Some(s) => s,
                None => ShouldRun::No,
            }
        } else {
            ShouldRun::Yes
        }
    }

    /// A holder with no criterion attached.
    pub fn new() -> (r: Self)
        ensures
            !r.spec_has_criterion(),
            !r.spec_initialized(),
    {
        RunCriteria { has_criterion: false, initialized: false }
    }

    /// Attaches a criterion system; it will need initialization.
    pub fn set(&mut self)
        ensures
            final(self).spec_has_criterion(),
            !final(self).spec_initialized(),
    {
        self.has_criterion = true;
        self.initialized = false;
    }

    /// Folds the verdict the caller obtained from the criterion system (or
    /// nothing, where none is attached) into the protocol's answer, marking
    /// the criterion initialized.
    pub fn should_run(&mut self, outcome: Option<ShouldRun>) -> (r: ShouldRun)
        ensures
            r == old(self).folded_verdict(outcome),
            final(self).spec_has_criterion() == old(self).spec_has_criterion(),
            final(self).spec_initialized() == (old(self).spec_has_criterion() || old(
                self,
            ).spec_initialized()),
    {
        if self.has_criterion {
            self.initialized = true;
            match outcome {
                Some(s) => s,
                None => ShouldRun::No,
            }
        } else {
            ShouldRun::Yes
        }
    }
}

impl Default for RunCriteria {
    /// A holder with no criterion attached.
    fn default() -> (r: Self)
        ensures
            !r.spec_has_criterion(),
            !r.spec_initialized(),
    {
        RunCriteria::new()
    }
}

/// A run criterion that lets its governed body run exactly once.
pub struct RunOnce {
    ran: bool,
}

impl RunOnce {
    /// Whether the one allowed run already happened.
    pub closed spec fn spec_ran(&self) -> bool {
        self.ran
    }

    /// A criterion that has not fired yet.
    pub fn new() -> (r: Self)
        ensures
            !r.spec_ran(),
    {
        RunOnce { ran: false }
    }

    /// Says yes the first time and no forever after.
    pub fn evaluate(&mut self) -> (r: ShouldRun)
        ensures
            r == if old(self).spec_ran() {
                ShouldRun::No
            } else {
                ShouldRun::Yes
            },
            final(self).spec_ran(),
    {
        if self.ran {
            ShouldRun::No
        } else {
            self.ran = true;
            ShouldRun::Yes
        }
    }
}

impl Default for RunOnce {
    /// A criterion that has not fired yet.
    fn default() -> (r: Self)
        ensures
            !r.spec_ran(),
    {
        RunOnce::new()
    }
}

} // verus!
