//! Hierarchical state-driven sub-scheduling.
//!
//! A user state type is layered over enter/update/exit phases.  A driver
//! criterion reads queued state changes and sequences the phases within a
//! single outer tick; pattern criteria gate the systems of each phase.

use vstd::prelude::*;

use crate::access::PlainEq;
use crate::access::slice_contains;
use crate::criteria::ShouldRun;

verus! {

/// A pattern over states, given by the values it accepts and a display
/// name; two patterns with the same name are the same pattern.
pub struct PatternLiteral<T>(pub Vec<T>, pub &'static str);

impl<T: PlainEq + Copy> PatternLiteral<T> {
    /// Whether the pattern accepts the state.
    pub fn matches(&self, t: &T) -> (r: bool)
        ensures
            r == self.0@.contains(*t),
    {
        slice_contains(&self.0, t)
    }
}

/// The phase of a state transition the driver is sequencing.
pub enum Transition<T> {
    /// No transition in progress.
    Settled,
    /// The exit phase ran; the enter phase of the new state is next.
    Enter { exiting: T, update_same_frame: bool },
    /// A transition was requested; the exit phase of the old state is next.
    Exit { entering: T, update_same_frame: bool },
    /// The initial state was requested but not yet installed.
    InitializeRequest { initial: T },
    /// The initial state is being installed.
    Initialize { initial: T },
}

/// An error answering a user's attempt to queue a state change.
#[derive(Clone, Copy, PartialEq, Eq, Structural, Debug)]
pub enum StateError {
    /// The queued state equals the current state.
    AlreadyInState,
    /// A state change is already queued and the setter does not overwrite.
    StateAlreadyQueued,
}

/// A queued state change: the state to move to, and whether its update
/// phase should run in the same frame as its enter phase.
#[derive(Clone, Copy)]
pub struct StateChange<T> {
    pub v: T,
    pub update_same_frame: bool,
}

impl<T> StateChange<T> {
    /// A change to the given state whose update runs next frame.
    pub fn to(v: T) -> (r: Self)
        ensures
            r == (StateChange { v, update_same_frame: false }),
    {
        StateChange { v, update_same_frame: false }
    }
}

/// The current user state, with the queued changes; only `None` on
/// startup, before the driver installed the initial state.
pub struct State<T> {
    /// The installed state; only `None` before the driver's first ticks.
    pub current: Option<T>,
    /// The queued state changes, oldest first.
    pub pending: Vec<StateChange<T>>,
}

/// The driver's working space: phase flags and the transition in progress.
pub struct StateScratchSpace<T> {
    /// Whether the driver will declare the tick done on its next look.
    pub prepare_for_exit: bool,
    /// Whether the tick is done: every phase gate now answers no.
    pub done: bool,
    /// The transition phase in progress.
    pub transition: Transition<T>,
}

/// Identifies the driver criterion, so that pattern criteria can be
/// ordered after it.
#[derive(Clone, Copy, PartialEq, Eq, Structural, Debug)]
pub struct DriverLabel;

/// The bounded work left in a transition phase: only an enter phase makes
/// the driver look again at its own state.
pub open spec fn transition_rank<T>(t: Transition<T>) -> nat {
    match t {
        Transition::Enter { .. } => 1,
        _ => 0,
    }
}

/// A state and scratch pair the driver can work on: whenever a transition
/// phase refers to the current state, there is one.
pub open spec fn state_wf<T>(current: Option<T>, transition: Transition<T>) -> bool {
    match transition {
        Transition::Settled => current is Some,
        Transition::Enter { .. } => current is Some,
        Transition::Exit { .. } => current is Some,
        Transition::InitializeRequest { .. } => true,
        Transition::Initialize { .. } => true,
    }
}

/// What one driver step does: the new current state, the remaining queued
/// changes, the new scratch, and the verdict handed to the stage.
pub open spec fn driver_step<T>(
    current: Option<T>,
    pending: Seq<StateChange<T>>,
    sc: StateScratchSpace<T>,
) -> (Option<T>, Seq<StateChange<T>>, StateScratchSpace<T>, ShouldRun)
    decreases transition_rank(sc.transition),
{
    match sc.transition {
        Transition::Settled => {
            if pending.len() > 0 {
                let next = pending[0];
                (
                    current,
                    pending.drop_first(),
                    StateScratchSpace {
                        prepare_for_exit: sc.prepare_for_exit,
                        done: sc.done,
                        transition: Transition::Exit {
                            entering: next.v,
                            update_same_frame: next.update_same_frame,
                        },
                    },
                    ShouldRun::NoAndLoop,
                )
            } else if sc.done {
                (
                    current,
                    pending,
                    StateScratchSpace {
                        prepare_for_exit: sc.prepare_for_exit,
                        done: false,
                        transition: Transition::Settled,
                    },
                    ShouldRun::No,
                )
            } else if sc.prepare_for_exit {
                (
                    current,
                    pending,
                    StateScratchSpace {
                        prepare_for_exit: false,
                        done: true,
                        transition: Transition::Settled,
                    },
                    ShouldRun::NoAndLoop,
                )
            } else {
                (
                    current,
                    pending,
                    StateScratchSpace {
                        prepare_for_exit: true,
                        done: sc.done,
                        transition: Transition::Settled,
                    },
                    ShouldRun::NoAndLoop,
                )
            }
        },
        Transition::Enter { exiting, update_same_frame } => {
            let sc1 = StateScratchSpace {
                prepare_for_exit: true,
                done: sc.done,
                transition: Transition::Settled,
            };
            if !update_same_frame {
                driver_step(current, pending, sc1)
            } else {
                (current, pending, sc1, ShouldRun::NoAndLoop)
            }
        },
        Transition::Exit { entering, update_same_frame } => {
            (
                Some(entering),
                pending,
                StateScratchSpace {
                    prepare_for_exit: false,
                    done: sc.done,
                    transition: Transition::Enter { exiting: current->0, update_same_frame },
                },
                ShouldRun::NoAndLoop,
            )
        },
        Transition::InitializeRequest { initial } => {
            (
                current,
                pending,
                StateScratchSpace {
                    prepare_for_exit: sc.prepare_for_exit,
                    done: sc.done,
                    transition: Transition::Initialize { initial },
                },
                ShouldRun::NoAndLoop,
            )
        },
        Transition::Initialize { initial } => {
            (
                Some(initial),
                pending,
                StateScratchSpace {
                    prepare_for_exit: sc.prepare_for_exit,
                    done: sc.done,
                    transition: Transition::Settled,
                },
                ShouldRun::NoAndLoop,
            )
        },
    }
}

impl<T: PlainEq + Copy> State<T> {
    /// The installed state, if the driver has run at least once.
    pub fn current(&self) -> (r: Option<T>)
        ensures
            r == self.current,
    {
        self.current
    }

    /// The queued state changes, oldest first.
    pub fn pending(&self) -> (r: &Vec<StateChange<T>>)
        ensures
            r@ == self.pending@,
    {
        &self.pending
    }

    /// A fresh state resource pair: the state is installed by the driver
    /// on its first ticks.
    pub fn new(initial: T) -> (r: (Self, StateScratchSpace<T>))
        ensures
            (r.0.current is None),
            r.0.pending@.len() == 0,
            !r.1.prepare_for_exit,
            !r.1.done,
            r.1.transition == (Transition::InitializeRequest { initial }),
            state_wf(r.0.current, r.1.transition),
    {
        (
            State { current: None, pending: Vec::new() },
            StateScratchSpace {
                prepare_for_exit: false,
                done: false,
                transition: Transition::InitializeRequest { initial },
            },
        )
    }

    /// Queues a transition without overwriting: rejected when the state is
    /// already current, or when another change is already queued.
    pub fn queue_set(&mut self, next: T) -> (r: Result<(), StateError>)
        ensures
            final(self).current == old(self).current,
            r == Err::<(), StateError>(StateError::AlreadyInState) <==> old(self).current == Some(
                next,
            ),
            old(self).current != Some(next) && old(self).pending@.len() > 0 ==> r == Err::<
                (),
                StateError,
            >(StateError::StateAlreadyQueued) && final(self).pending@ == old(self).pending@,
            old(self).current != Some(next) && old(self).pending@.len() == 0 ==> r == Ok::<
                (),
                StateError,
            >(()),
            r is Ok ==> final(self).pending@ == old(self).pending@.push(
                StateChange { v: next, update_same_frame: false },
            ),
            r is Err ==> final(self).pending@ == old(self).pending@,
    {
        let already = match &self.current {
            Some(c) => c.plain_eq(&next),
            None => false,
        };
        if already {
            Err(StateError::AlreadyInState)
        } else if self.pending.len() > 0 {
            Err(StateError::StateAlreadyQueued)
        } else {
            self.pending.push(StateChange::to(next));
            Ok(())
        }
    }

    /// Queues a transition, overwriting whatever was queued: rejected only
    /// when the state is already current.
    pub fn queue_overwrite(&mut self, next: T) -> (r: Result<(), StateError>)
        ensures
            final(self).current == old(self).current,
            r == Err::<(), StateError>(StateError::AlreadyInState) <==> old(self).current == Some(
                next,
            ),
            r == Ok::<(), StateError>(()) <==> old(self).current != Some(next),
            r is Err ==> final(self).pending@ == old(self).pending@,
            r is Ok ==> final(self).pending@ == seq![
                StateChange { v: next, update_same_frame: false },
            ],
    {
        let already = match &self.current {
            Some(c) => c.plain_eq(&next),
            None => false,
        };
        if already {
            Err(StateError::AlreadyInState)
        } else {
            self.pending.clear();
            self.pending.push(StateChange::to(next));
            proof {
                assert(self.pending@ =~= seq![StateChange { v: next, update_same_frame: false }]);
            }
            Ok(())
        }
    }

    /// Queues a change whose update phase runs in the same frame as its
    /// enter phase.
    pub fn queue_change(&mut self, change: StateChange<T>)
        ensures
            final(self).current == old(self).current,
            final(self).pending@ == old(self).pending@.push(change),
    {
        self.pending.push(change);
    }

    /// Identifies the driver criterion, so pattern criteria can be ordered
    /// after it.
    pub fn get_driver() -> (r: DriverLabel)
        ensures
            r == DriverLabel,
    {
        DriverLabel
    }

    /// The update-phase gate for states the pattern accepts: yes while the
    /// state is current and no transition is in progress.
    pub fn on_update(&self, scratch: &StateScratchSpace<T>, pattern: &PatternLiteral<T>) -> (r:
        ShouldRun)
        ensures
            r == spec_adapter(
                scratch.done,
                match self.current {
                    Some(c) => pattern.0@.contains(c) && scratch.transition is Settled,
                    None => false,
                },
            ),
    {
        let cond = match &self.current {
            Some(c) => {
                let m = pattern.matches(c);
                m && match &scratch.transition {
                    Transition::Settled => true,
                    _ => false,
                }
            },
            None => false,
        };
        should_run_adapter(cond, scratch)
    }

    /// The enter-phase gate for states the pattern accepts: yes once when
    /// such a state is being entered, initialization counted as entering.
    pub fn on_enter(&self, scratch: &StateScratchSpace<T>, pattern: &PatternLiteral<T>) -> (r:
        ShouldRun)
        ensures
            r == spec_adapter(
                scratch.done,
                match self.current {
                    Some(c) => pattern.0@.contains(c) && match scratch.transition {
                        Transition::Enter { exiting, .. } => !pattern.0@.contains(exiting),
                        _ => false,
                    },
                    None => match scratch.transition {
                        Transition::Initialize { initial } => pattern.0@.contains(initial),
                        _ => false,
                    },
                },
            ),
    {
        let cond = match &self.current {
            Some(c) => {
                let m = pattern.matches(c);
                m && match &scratch.transition {
                    Transition::Enter { exiting, .. } => !pattern.matches(exiting),
                    _ => false,
                }
            },
            None => match &scratch.transition {
                Transition::Initialize { initial } => pattern.matches(initial),
                _ => false,
            },
        };
        should_run_adapter(cond, scratch)
    }

    /// The exit-phase gate for states the pattern accepts: yes once when
    /// such a state is being left.
    pub fn on_exit(&self, scratch: &StateScratchSpace<T>, pattern: &PatternLiteral<T>) -> (r:
        ShouldRun)
        ensures
            r == spec_adapter(
                scratch.done,
                match self.current {
                    Some(c) => pattern.0@.contains(c) && match scratch.transition {
                        Transition::Exit { entering, .. } => !pattern.0@.contains(entering),
                        _ => false,
                    },
                    None => false,
                },
            ),
    {
        let cond = match &self.current {
            Some(c) => {
                let m = pattern.matches(c);
                m && match &scratch.transition {
                    Transition::Exit { entering, .. } => !pattern.matches(entering),
                    _ => false,
                }
            },
            None => false,
        };
        should_run_adapter(cond, scratch)
    }
}

/// The verdict a phase gate derives from its condition: no once the driver
/// declared the tick done, otherwise the condition with a request to check
/// again.
pub open spec fn spec_adapter(done: bool, cond: bool) -> ShouldRun {
    if done {
        ShouldRun::No
    } else if cond {
        ShouldRun::YesAndLoop
    } else {
        ShouldRun::NoAndLoop
    }
}

/// Folds a phase condition into the criteria protocol.
pub fn should_run_adapter<T>(cmp_result: bool, scratch: &StateScratchSpace<T>) -> (r: ShouldRun)
    ensures
        r == spec_adapter(scratch.done, cmp_result),
{
    if scratch.done {
        ShouldRun::No
    } else if cmp_result {
        ShouldRun::YesAndLoop
    } else {
        ShouldRun::NoAndLoop
    }
}

/// The driver criterion: sequences initialization, exit, enter and update
/// phases, consuming one queued change per transition.  Its verdict keeps
/// the stage looping until the tick is done.
pub fn state_driver<T: PlainEq + Copy>(
    state: &mut State<T>,
    scratch: &mut StateScratchSpace<T>,
) -> (r: ShouldRun)
    requires
        state_wf(old(state).current, old(scratch).transition),
    ensures
        ({
            let (current2, pending2, scratch2, verdict) = driver_step(
                old(state).current,
                old(state).pending@,
                *old(scratch),
            );
            &&& final(state).current == current2
            &&& final(state).pending@ == pending2
            &&& *final(scratch) == scratch2
            &&& r == verdict
        }),
        state_wf(final(state).current, final(scratch).transition),
    decreases transition_rank(old(scratch).transition),
{
    let mut taken = Transition::Settled;
    std::mem::swap(&mut taken, &mut scratch.transition);
    match taken {
        Transition::Settled => {
            if state.pending.len() > 0 {
                let next = state.pending.remove(0);
                scratch.transition = Transition::Exit {
                    entering: next.v,
                    update_same_frame: next.update_same_frame,
                };
                proof {
                    assert(state.pending@ =~= old(state).pending@.drop_first());
                }
                ShouldRun::NoAndLoop
            } else if scratch.done {
                scratch.done = false;
                ShouldRun::No
            } else if scratch.prepare_for_exit {
                scratch.prepare_for_exit = false;
                scratch.done = true;
                ShouldRun::NoAndLoop
            } else {
                scratch.prepare_for_exit = true;
                ShouldRun::NoAndLoop
            }
        },
        Transition::Enter { exiting: _, update_same_frame } => {
            scratch.prepare_for_exit = true;
            if !update_same_frame {
                state_driver(state, scratch)
            } else {
                ShouldRun::NoAndLoop
            }
        },
        Transition::Exit { entering, update_same_frame } => {
            scratch.prepare_for_exit = false;
            let mut exiting = Some(entering);
            std::mem::swap(&mut exiting, &mut state.current);
            match exiting {
                Some(old_state) => {
                    scratch.transition = Transition::Enter {
                        exiting: old_state,
                        update_same_frame,
                    };
                },
                None => {},
            }
            ShouldRun::NoAndLoop
        },
        Transition::InitializeRequest { initial } => {
            scratch.transition = Transition::Initialize { initial };
            ShouldRun::NoAndLoop
        },
        Transition::Initialize { initial } => {
            state.current = Some(initial);
            ShouldRun::NoAndLoop
        },
    }
}

} // verus!
