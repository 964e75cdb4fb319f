//! Schedules: named, ordered lists of stages.
//!
//! A schedule runs each of its stages in order, and is itself gated by a
//! run criterion, so schedules can drive whole frames.  Stage names must be
//! unique; placing a stage before or after a name that is not registered
//! fails fast.

use vstd::prelude::*;

use crate::criteria::RunCriteria;
use crate::criteria::ShouldRun;
use crate::stage::SystemStage;

verus! {

/// A construction-time failure of a schedule.
#[derive(Clone, Copy, PartialEq, Eq, Structural, Debug)]
pub enum ScheduleError {
    /// A stage with this name is already registered.
    StageAlreadyExists(u64),
    /// No stage with this name is registered.
    TargetStageMissing(u64),
}

/// The position of the first occurrence of `name`, or a negative number.
pub open spec fn name_position(names: Seq<u64>, name: u64) -> int
    decreases names.len(),
{
    if names.len() == 0 {
        -1
    } else if names[0] == name {
        0
    } else {
        let r = name_position(names.drop_first(), name);
        if r < 0 {
            -1
        } else {
            r + 1
        }
    }
}

/// If `names[i]` is the first occurrence of `name`, that is its position.
proof fn lemma_name_position_found(names: Seq<u64>, name: u64, i: int)
    requires
        0 <= i < names.len(),
        names[i] == name,
        forall|j: int| 0 <= j < i ==> names[j] != name,
    ensures
        name_position(names, name) == i,
    decreases names.len(),
{
    if i == 0 {
    } else {
        assert(names[0] != name);
        assert(names.drop_first()[i - 1] == name);
        assert(forall|j: int| 0 <= j < i - 1 ==> #[trigger] names.drop_first()[j] == names[j + 1]);
        lemma_name_position_found(names.drop_first(), name, i - 1);
    }
}

/// If `name` does not occur, its position is negative.
proof fn lemma_name_position_missing(names: Seq<u64>, name: u64)
    requires
        forall|j: int| 0 <= j < names.len() ==> names[j] != name,
    ensures
        name_position(names, name) < 0,
    decreases names.len(),
{
    if names.len() > 0 {
        assert(forall|j: int|
            0 <= j < names.len() - 1 ==> #[trigger] names.drop_first()[j] == names[j + 1]);
        lemma_name_position_missing(names.drop_first(), name);
    }
}

/// Finds the position of a stage name.
fn find_name(names: &Vec<u64>, name: u64) -> (r: Option<usize>)
    ensures
        match r {
            Some(p) => p < names@.len() && p as int == name_position(names@, name)
                && names@[p as int] == name,
            None => name_position(names@, name) < 0 && !names@.contains(name),
        },
{
    let n = names.len();
    let mut i: usize = 0;
    while i < n
        invariant
            0 <= i <= n,
            n == names@.len(),
            forall|j: int| 0 <= j < i ==> names@[j] != name,
        decreases n - i,
    {
        if names[i] == name {
            proof {
                lemma_name_position_found(names@, name, i as int);
            }
            return Some(i);
        }
        i += 1;
    }
    proof {
        lemma_name_position_missing(names@, name);
        if names@.contains(name) {
            let j = choose|j: int| 0 <= j < names@.len() && names@[j] == name;
        }
    }
    None
}

/// Pushing a fresh name keeps the order duplicate-free.
proof fn lemma_name_push_no_duplicates(names: Seq<u64>, name: u64)
    requires
        names.no_duplicates(),
        !names.contains(name),
    ensures
        names.push(name).no_duplicates(),
{
    let t = names.push(name);
    assert forall|i: int, j: int| 0 <= i < t.len() && 0 <= j < t.len() && i != j implies t[i]
        != t[j] by {
        if i < names.len() && j < names.len() {
            assert(t[i] == names[i] && t[j] == names[j]);
        } else if i == names.len() {
            assert(t[j] == names[j] && t[i] == name);
        } else {
            assert(t[i] == names[i] && t[j] == name);
        }
    }
}

/// One entry of a schedule: a stage of systems, or a whole nested
/// schedule, so that schedules can drive schedules.
pub enum StageKind {
    System(SystemStage),
    Nested(Box<Schedule>),
}

/// A named, ordered list of stages with its own run criterion.
pub struct Schedule {
    stage_order: Vec<u64>,
    stages: Vec<StageKind>,
    run_criteria: RunCriteria,
}

/// Well-formedness of one schedule entry: a stage of systems is well
/// formed, a nested schedule recursively so.
pub closed spec fn stage_kind_wf(kind: StageKind) -> bool
    decreases kind,
{
    match kind {
        StageKind::System(stage) => stage.wf(),
        StageKind::Nested(sub) => schedule_wf(*sub),
    }
}

/// Well-formedness of a whole schedule: names are unique and aligned with
/// the entries, each of which is well formed, nested schedules included.
pub closed spec fn schedule_wf(schedule: Schedule) -> bool
    decreases schedule,
{
    &&& schedule.stage_order@.no_duplicates()
    &&& schedule.stage_order@.len() == schedule.stages@.len()
    &&& forall|i: int|
        0 <= i < schedule.stages@.len() ==> stage_kind_wf(#[trigger] schedule.stages@[i])
}

impl Schedule {
    /// The registered stage names, in running order.
    pub closed spec fn spec_order(&self) -> Seq<u64> {
        self.stage_order@
    }

    /// The registered entries, aligned with the names.
    pub closed spec fn spec_stages(&self) -> Seq<StageKind> {
        self.stages@
    }

    /// The schedule's own criterion holder.
    pub closed spec fn spec_criteria(&self) -> RunCriteria {
        self.run_criteria
    }

    /// Internal invariant: names are unique and aligned with the entries,
    /// each of which is well formed, nested schedules included.
    pub open spec fn wf(&self) -> bool {
        schedule_wf(*self)
    }

    /// An empty schedule.
    pub fn new() -> (r: Self)
        ensures
            r.wf(),
            r.spec_order().len() == 0,
            !r.spec_criteria().spec_has_criterion(),
    {
        Schedule { stage_order: Vec::new(), stages: Vec::new(), run_criteria: RunCriteria::new() }
    }

    /// Registers a stage at the end of the order, builder style.
    pub fn with_stage(self, name: u64, stage: SystemStage) -> (r: (Self, Result<
        (),
        ScheduleError,
    >))
        requires
            self.wf(),
            stage.wf(),
        ensures
            r.0.wf(),
    {
        let mut this = self;
        let outcome = this.add_stage(name, stage);
        (this, outcome)
    }

    /// Registers a stage after the named one, builder style.
    pub fn with_stage_after(self, target: u64, name: u64, stage: SystemStage) -> (r: (Self, Result<
        (),
        ScheduleError,
    >))
        requires
            self.wf(),
            stage.wf(),
        ensures
            r.0.wf(),
    {
        let mut this = self;
        let outcome = this.add_stage_after(target, name, stage);
        (this, outcome)
    }

    /// Registers a stage before the named one, builder style.
    pub fn with_stage_before(self, target: u64, name: u64, stage: SystemStage) -> (r: (Self,
        Result<(), ScheduleError>))
        requires
            self.wf(),
            stage.wf(),
        ensures
            r.0.wf(),
    {
        let mut this = self;
        let outcome = this.add_stage_before(target, name, stage);
        (this, outcome)
    }

    /// Attaches a run criterion to the schedule, builder style.
    pub fn with_run_criteria(self) -> (r: Self)
        requires
            self.wf(),
        ensures
            r.wf(),
            r.spec_criteria().spec_has_criterion(),
    {
        let mut this = self;
        this.set_run_criteria();
        this
    }

    /// Attaches a run criterion to the schedule.
    pub fn set_run_criteria(&mut self)
        requires
            old(self).wf(),
        ensures
            final(self).wf(),
            final(self).spec_criteria().spec_has_criterion(),
            final(self).spec_order() == old(self).spec_order(),
            final(self).spec_stages() == old(self).spec_stages(),
    {
        self.run_criteria.set();
    }

    /// Folds the verdict obtained for the schedule's criterion into the
    /// protocol's answer.
    pub fn should_run(&mut self, outcome: Option<ShouldRun>) -> (r: ShouldRun)
        requires
            old(self).wf(),
        ensures
            final(self).wf(),
            r == old(self).spec_criteria().folded_verdict(outcome),
            final(self).spec_order() == old(self).spec_order(),
            final(self).spec_stages() == old(self).spec_stages(),
    {
        self.run_criteria.should_run(outcome)
    }

    /// Registers a stage at the end of the order; rejected when the name
    /// is taken.
    pub fn add_stage(&mut self, name: u64, stage: SystemStage) -> (r: Result<(), ScheduleError>)
        requires
            old(self).wf(),
            stage.wf(),
        ensures
            final(self).wf(),
            r is Ok <==> !old(self).spec_order().contains(name),
            r is Ok ==> final(self).spec_order() == old(self).spec_order().push(name) && final(self).spec_stages() == old(self).spec_stages().push(StageKind::System(stage)),
            r is Err ==> *final(self) == *old(self) && r == Err::<(), ScheduleError>(
                ScheduleError::StageAlreadyExists(name),
            ),
    {
        self.add_entry(name, StageKind::System(stage))
    }

    /// Registers a whole schedule under a name: schedules nest, so a
    /// schedule can drive schedules.
    pub fn add_nested_schedule(&mut self, name: u64, schedule: Schedule) -> (r: Result<
        (),
        ScheduleError,
    >)
        requires
            old(self).wf(),
            schedule.wf(),
        ensures
            final(self).wf(),
            r is Ok <==> !old(self).spec_order().contains(name),
            r is Ok ==> final(self).spec_order() == old(self).spec_order().push(name) && final(self).spec_stages() == old(self).spec_stages().push(
                StageKind::Nested(Box::new(schedule)),
            ),
            r is Err ==> *final(self) == *old(self) && r == Err::<(), ScheduleError>(
                ScheduleError::StageAlreadyExists(name),
            ),
    {
        self.add_entry(name, StageKind::Nested(Box::new(schedule)))
    }

    /// Registers one entry at the end of the order.
    fn add_entry(&mut self, name: u64, entry: StageKind) -> (r: Result<(), ScheduleError>)
        requires
            old(self).wf(),
            stage_kind_wf(entry),
        ensures
            final(self).wf(),
            r is Ok <==> !old(self).spec_order().contains(name),
            r is Ok ==> final(self).spec_order() == old(self).spec_order().push(name) && final(self).spec_stages() == old(self).spec_stages().push(entry),
            r is Err ==> *final(self) == *old(self) && r == Err::<(), ScheduleError>(
                ScheduleError::StageAlreadyExists(name),
            ),
    {
        match find_name(&self.stage_order, name) {
            Some(_) => {
                proof {
                    assert(self.stage_order@.contains(name)) by {
                        let p = name_position(self.stage_order@, name);
                        assert(self.stage_order@[p] == name);
                    }
                }
                Err(ScheduleError::StageAlreadyExists(name))
            },
            None => {
                self.stage_order.push(name);
                self.stages.push(entry);
                proof {
                    lemma_name_push_no_duplicates(old(self).stage_order@, name);
                }
                Ok(())
            },
        }
    }

    /// Registers a stage right after the named one; rejected when the name
    /// is taken or the target is not registered.
    pub fn add_stage_after(&mut self, target: u64, name: u64, stage: SystemStage) -> (r: Result<
        (),
        ScheduleError,
    >)
        requires
            old(self).wf(),
            stage.wf(),
        ensures
            final(self).wf(),
            r is Ok <==> (!old(self).spec_order().contains(name) && old(
                self,
            ).spec_order().contains(target)),
            r is Ok ==> final(self).spec_order() == old(self).spec_order().insert(
                name_position(old(self).spec_order(), target) + 1,
                name,
            ) && final(self).spec_stages() == old(self).spec_stages().insert(
                name_position(old(self).spec_order(), target) + 1,
                StageKind::System(stage),
            ),
            r is Err ==> *final(self) == *old(self),
    {
        self.insert_relative(target, name, StageKind::System(stage), true)
    }

    /// Registers a stage right before the named one; rejected when the
    /// name is taken or the target is not registered.
    pub fn add_stage_before(&mut self, target: u64, name: u64, stage: SystemStage) -> (r: Result<
        (),
        ScheduleError,
    >)
        requires
            old(self).wf(),
            stage.wf(),
        ensures
            final(self).wf(),
            r is Ok <==> (!old(self).spec_order().contains(name) && old(
                self,
            ).spec_order().contains(target)),
            r is Ok ==> final(self).spec_order() == old(self).spec_order().insert(
                name_position(old(self).spec_order(), target),
                name,
            ) && final(self).spec_stages() == old(self).spec_stages().insert(
                name_position(old(self).spec_order(), target),
                StageKind::System(stage),
            ),
            r is Err ==> *final(self) == *old(self),
    {
        self.insert_relative(target, name, StageKind::System(stage), false)
    }

    /// Places a stage next to the target, on the chosen side.
    fn insert_relative(&mut self, target: u64, name: u64, entry: StageKind, after: bool) -> (r:
        Result<(), ScheduleError>)
        requires
            old(self).wf(),
            stage_kind_wf(entry),
        ensures
            final(self).wf(),
            r is Ok <==> (!old(self).spec_order().contains(name) && old(
                self,
            ).spec_order().contains(target)),
            r is Ok ==> ({
                let p = name_position(old(self).spec_order(), target) + if after {
                    1int
                } else {
                    0int
                };
                final(self).spec_order() == old(self).spec_order().insert(p, name) && final(self).spec_stages() == old(self).spec_stages().insert(p, entry)
            }),
            r is Err ==> *final(self) == *old(self),
    {
        match find_name(&self.stage_order, name) {
            Some(_) => {
                proof {
                    assert(self.stage_order@.contains(name)) by {
                        let p = name_position(self.stage_order@, name);
                        assert(self.stage_order@[p] == name);
                    }
                }
                Err(ScheduleError::StageAlreadyExists(name))
            },
            None => {
                match find_name(&self.stage_order, target) {
                    Some(t) => {
                        proof {
                            vstd::std_specs::vec::axiom_spec_len(&self.stage_order);
                        }
                        let at = if after {
                            t + 1
                        } else {
                            t
                        };
                        self.stage_order.insert(at, name);
                        self.stages.insert(at, entry);
                        proof {
                            assert(self.stage_order@.contains(target)) by {
                                assert(old(self).stage_order@[t as int] == target);
                                assert(self.stage_order@ == old(self).stage_order@.insert(
                                    at as int,
                                    name,
                                ));
                                old(self).stage_order@.insert_ensures(at as int, name);
                                if (t as int) < at {
                                    assert(self.stage_order@[t as int] == target);
                                } else {
                                    assert(self.stage_order@[t + 1] == target);
                                }
                            }
                            assert(old(self).stage_order@.contains(target)) by {
                                assert(old(self).stage_order@[t as int] == target);
                            }
                            assert(self.stage_order@.no_duplicates()) by {
                                old(self).stage_order@.insert_ensures(at as int, name);
                                assert forall|i: int, j: int|
                                    0 <= i < self.stage_order@.len() && 0 <= j
                                        < self.stage_order@.len() && i != j
                                    implies self.stage_order@[i] != self.stage_order@[j] by {
                                    let pre = old(self).stage_order@;
                                    let fetch = |k: int|
                                        if k < at {
                                            pre[k]
                                        } else if k == at {
                                            name
                                        } else {
                                            pre[k - 1]
                                        };
                                    assert(self.stage_order@[i] == fetch(i));
                                    assert(self.stage_order@[j] == fetch(j));
                                    if i != at && j != at {
                                    } else if i == at {
                                        assert(!pre.contains(name));
                                        if fetch(j) == name {
                                            let k0 = if j < at {
                                                j
                                            } else {
                                                j - 1
                                            };
                                            assert(pre[k0] == name);
                                        }
                                    } else {
                                        assert(!pre.contains(name));
                                        if fetch(i) == name {
                                            let k0 = if i < at {
                                                i
                                            } else {
                                                i - 1
                                            };
                                            assert(pre[k0] == name);
                                        }
                                    }
                                }
                            }
                            assert forall|i: int|
                                0 <= i < self.stages@.len() implies stage_kind_wf(
                                #[trigger] self.stages@[i],
                            ) by {
                                old(self).stages@.insert_ensures(at as int, entry);
                                if i < at {
                                    assert(self.stages@[i] == old(self).stages@[i]);
                                    assert(stage_kind_wf(old(self).stages@[i]));
                                } else if i == at {
                                    assert(self.stages@[i] == entry);
                                } else {
                                    assert(self.stages@[i] == old(self).stages@[i - 1]);
                                    assert(stage_kind_wf(old(self).stages@[i - 1]));
                                }
                            }
                        }
                        Ok(())
                    },
                    None => Err(ScheduleError::TargetStageMissing(target)),
                }
            },
        }
    }

    /// The number of registered stages.
    pub fn len(&self) -> (r: usize)
        ensures
            r == self.spec_order().len(),
    {
        self.stage_order.len()
    }

    /// The name of the stage at the given running position.
    pub fn name_at(&self, i: usize) -> (r: u64)
        requires
            i < self.spec_order().len(),
        ensures
            r == self.spec_order()[i as int],
    {
        self.stage_order[i]
    }

    /// The registered stage of systems with the given name; a name bound
    /// to a nested schedule answers nothing here.
    pub fn get_stage(&self, name: u64) -> (r: Option<&SystemStage>)
        requires
            self.wf(),
        ensures
            match r {
                Some(stage) => self.spec_order().contains(name) && self.spec_stages()[
                    name_position(self.spec_order(), name)] == StageKind::System(*stage),
                None => !self.spec_order().contains(name) || !(self.spec_stages()[name_position(
                    self.spec_order(),
                    name,
                )] is System),
            },
    {
        match find_name(&self.stage_order, name) {
            Some(p) => {
                proof {
                    assert(self.stage_order@.contains(name)) by {
                        assert(self.stage_order@[p as int] == name);
                    }
                }
                match &self.stages[p] {
                    StageKind::System(stage) => Some(stage),
                    StageKind::Nested(_) => None,
                }
            },
            None => None,
        }
    }

    /// The nested schedule with the given name; a name bound to a stage of
    /// systems answers nothing here.
    pub fn get_nested_schedule(&self, name: u64) -> (r: Option<&Schedule>)
        requires
            self.wf(),
        ensures
            match r {
                Some(sub) => self.spec_order().contains(name) && self.spec_stages()[name_position(
                    self.spec_order(),
                    name,
                )] == StageKind::Nested(Box::new(*sub)) && sub.wf(),
                None => !self.spec_order().contains(name) || !(self.spec_stages()[name_position(
                    self.spec_order(),
                    name,
                )] is Nested),
            },
    {
        match find_name(&self.stage_order, name) {
            Some(p) => {
                proof {
                    assert(self.stage_order@.contains(name)) by {
                        assert(self.stage_order@[p as int] == name);
                    }
                }
                match &self.stages[p] {
                    StageKind::System(_) => None,
                    StageKind::Nested(sub) => {
                        proof {
                            assert(stage_kind_wf(self.stages@[p as int]));
                        }
                        Some(sub)
                    },
                }
            },
            None => None,
        }
    }

    /// Mutable access to the registered stage of systems with the given
    /// name.
    pub fn get_stage_mut(&mut self, name: u64) -> (r: Option<&mut SystemStage>)
        requires
            old(self).wf(),
        ensures
            final(self).spec_order() == old(self).spec_order(),
            final(self).spec_criteria() == old(self).spec_criteria(),
            match r {
                Some(stage) => {
                    &&& old(self).spec_order().contains(name)
                    &&& old(self).spec_stages()[name_position(old(self).spec_order(), name)]
                        == StageKind::System(*stage)
                    &&& final(self).spec_stages() == old(self).spec_stages().update(
                        name_position(old(self).spec_order(), name),
                        StageKind::System(*final(stage)),
                    )
                },
                None => (!old(self).spec_order().contains(name) || !(old(self).spec_stages()[
                name_position(old(self).spec_order(), name)] is System)) && final(self).spec_stages() == old(self).spec_stages(),
            },
    {
        match find_name(&self.stage_order, name) {
            Some(p) => {
                proof {
                    assert(self.stage_order@.contains(name)) by {
                        assert(self.stage_order@[p as int] == name);
                    }
                }
                match &mut self.stages[p] {
                    StageKind::System(stage) => Some(stage),
                    StageKind::Nested(_) => None,
                }
            },
            None => None,
        }
    }
}

impl Default for Schedule {
    /// An empty schedule.
    fn default() -> (r: Self)
        ensures
            r.wf(),
            r.spec_order().len() == 0,
    {
        Schedule::new()
    }
}

} // verus!
