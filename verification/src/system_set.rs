//! System sets: groups of systems that share a run criterion.
//!
//! A stage holds one or more sets.  A set records which of its systems have
//! not been initialized yet, and carries a dirty bit that tells the stage to
//! rebuild its orders and dependencies.

use vstd::prelude::*;

use crate::criteria::RunCriteria;
use crate::criteria::ShouldRun;
use crate::descriptor::ExclusiveSystemDescriptor;
use crate::descriptor::ParallelSystemDescriptor;
use crate::descriptor::SystemDescriptor;

verus! {

/// A group of systems sharing one run criterion.
pub struct SystemSet {
    pub(crate) run_criteria: RunCriteria,
    pub(crate) is_dirty: bool,
    pub(crate) parallel_systems: Vec<ParallelSystemDescriptor>,
    pub(crate) sequential_systems: Vec<ExclusiveSystemDescriptor>,
    pub(crate) uninitialized_parallel: Vec<usize>,
    pub(crate) uninitialized_sequential: Vec<usize>,
    pub(crate) children: Vec<SystemSet>,
}

impl SystemSet {
    /// The parallel systems of the set, in insertion order.
    pub closed spec fn spec_parallel(&self) -> Seq<ParallelSystemDescriptor> {
        self.parallel_systems@
    }

    /// The exclusive systems of the set, in insertion order.
    pub closed spec fn spec_sequential(&self) -> Seq<ExclusiveSystemDescriptor> {
        self.sequential_systems@
    }

    /// Whether systems were added since the stage last rebuilt.
    pub closed spec fn spec_dirty(&self) -> bool {
        self.is_dirty
    }

    /// Whether a run criterion is attached to the set.
    pub closed spec fn spec_has_criterion(&self) -> bool {
        self.run_criteria.spec_has_criterion()
    }

    /// The criterion holder of the set.
    pub closed spec fn spec_criteria(&self) -> RunCriteria {
        self.run_criteria
    }

    /// The indices of parallel systems still awaiting initialization.
    pub closed spec fn spec_uninitialized_parallel(&self) -> Seq<usize> {
        self.uninitialized_parallel@
    }

    /// The indices of exclusive systems still awaiting initialization.
    pub closed spec fn spec_uninitialized_sequential(&self) -> Seq<usize> {
        self.uninitialized_sequential@
    }

    /// The sets nested under this one.
    pub closed spec fn spec_children(&self) -> Seq<SystemSet> {
        self.children@
    }

    /// Internal invariant: every contained system's access sets are well
    /// formed.
    pub open spec fn wf(&self) -> bool {
        &&& forall|i: int|
            0 <= i < self.spec_parallel().len() ==> (#[trigger] self.spec_parallel()[i]).system.wf()
        &&& forall|i: int|
            0 <= i < self.spec_sequential().len() ==> (
            #[trigger] self.spec_sequential()[i]).system.wf()
    }

    /// An empty set with no criterion.
    pub fn new() -> (r: Self)
        ensures
            r.wf(),
            !r.spec_dirty(),
            !r.spec_has_criterion(),
            r.spec_parallel() =~= Seq::<ParallelSystemDescriptor>::empty(),
            r.spec_sequential() =~= Seq::<ExclusiveSystemDescriptor>::empty(),
            r.spec_uninitialized_parallel() =~= Seq::<usize>::empty(),
            r.spec_uninitialized_sequential() =~= Seq::<usize>::empty(),
    {
        SystemSet {
            run_criteria: RunCriteria::new(),
            is_dirty: false,
            parallel_systems: Vec::new(),
            sequential_systems: Vec::new(),
            uninitialized_parallel: Vec::new(),
            uninitialized_sequential: Vec::new(),
            children: Vec::new(),
        }
    }

    /// Attaches a run criterion, builder style.
    pub fn with_run_criteria(self) -> (r: Self)
        ensures
            r.spec_has_criterion(),
            r.spec_dirty() == self.spec_dirty(),
            r.spec_parallel() == self.spec_parallel(),
            r.spec_sequential() == self.spec_sequential(),
            r.spec_uninitialized_parallel() == self.spec_uninitialized_parallel(),
            r.spec_uninitialized_sequential() == self.spec_uninitialized_sequential(),
            self.wf() ==> r.wf(),
    {
        let mut this = self;
        this.add_run_criteria();
        this
    }

    /// Attaches a run criterion.
    pub fn add_run_criteria(&mut self)
        ensures
            final(self).spec_has_criterion(),
            final(self).spec_dirty() == old(self).spec_dirty(),
            final(self).spec_parallel() == old(self).spec_parallel(),
            final(self).spec_sequential() == old(self).spec_sequential(),
            final(self).spec_uninitialized_parallel() == old(self).spec_uninitialized_parallel(),
            final(self).spec_uninitialized_sequential() == old(
                self,
            ).spec_uninitialized_sequential(),
            old(self).wf() ==> final(self).wf(),
    {
        self.run_criteria.set();
    }

    /// Folds the verdict obtained for this set's criterion into the
    /// protocol's answer.
    pub fn criterion_should_run(&mut self, outcome: Option<ShouldRun>) -> (r: ShouldRun)
        ensures
            r == old(self).spec_criteria().folded_verdict(outcome),
            final(self).spec_dirty() == old(self).spec_dirty(),
            final(self).spec_parallel() == old(self).spec_parallel(),
            final(self).spec_sequential() == old(self).spec_sequential(),
            final(self).spec_has_criterion() == old(self).spec_has_criterion(),
            final(self).spec_uninitialized_parallel() == old(self).spec_uninitialized_parallel(),
            final(self).spec_uninitialized_sequential() == old(
                self,
            ).spec_uninitialized_sequential(),
            old(self).wf() ==> final(self).wf(),
    {
        self.run_criteria.should_run(outcome)
    }

    /// Adds a system, builder style.
    pub fn with_system(self, system: SystemDescriptor) -> (r: Self)
        requires
            self.wf(),
            match system {
                SystemDescriptor::Parallel(d) => d.system.wf(),
                SystemDescriptor::Exclusive(d) => d.system.wf(),
            },
        ensures
            r.wf(),
            r.spec_dirty(),
            match system {
                SystemDescriptor::Parallel(d) => {
                    &&& r.spec_parallel() =~= self.spec_parallel().push(d)
                    &&& r.spec_sequential() == self.spec_sequential()
                    &&& r.spec_uninitialized_parallel() =~= self.spec_uninitialized_parallel().push(
                        self.spec_parallel().len() as usize,
                    )
                    &&& r.spec_uninitialized_sequential() == self.spec_uninitialized_sequential()
                },
                SystemDescriptor::Exclusive(d) => {
                    &&& r.spec_parallel() == self.spec_parallel()
                    &&& r.spec_sequential() =~= self.spec_sequential().push(d)
                    &&& r.spec_uninitialized_parallel() == self.spec_uninitialized_parallel()
                    &&& r.spec_uninitialized_sequential()
                        =~= self.spec_uninitialized_sequential().push(
                        self.spec_sequential().len() as usize,
                    )
                },
            },
    {
        let mut this = self;
        this.add_system(system);
        this
    }

    /// Adds a system to the set and marks the set dirty.
    pub fn add_system(&mut self, system: SystemDescriptor)
        requires
            old(self).wf(),
            match system {
                SystemDescriptor::Parallel(d) => d.system.wf(),
                SystemDescriptor::Exclusive(d) => d.system.wf(),
            },
        ensures
            final(self).wf(),
            final(self).spec_dirty(),
            final(self).spec_has_criterion() == old(self).spec_has_criterion(),
            final(self).spec_criteria() == old(self).spec_criteria(),
            match system {
                SystemDescriptor::Parallel(d) => {
                    &&& final(self).spec_parallel() =~= old(self).spec_parallel().push(d)
                    &&& final(self).spec_sequential() == old(self).spec_sequential()
                    &&& final(self).spec_uninitialized_parallel() =~= old(
                        self,
                    ).spec_uninitialized_parallel().push(old(self).spec_parallel().len() as usize)
                    &&& final(self).spec_uninitialized_sequential() == old(
                        self,
                    ).spec_uninitialized_sequential()
                },
                SystemDescriptor::Exclusive(d) => {
                    &&& final(self).spec_parallel() == old(self).spec_parallel()
                    &&& final(self).spec_sequential() =~= old(self).spec_sequential().push(d)
                    &&& final(self).spec_uninitialized_parallel() == old(
                        self,
                    ).spec_uninitialized_parallel()
                    &&& final(self).spec_uninitialized_sequential() =~= old(
                        self,
                    ).spec_uninitialized_sequential().push(
                        old(self).spec_sequential().len() as usize,
                    )
                },
            },
    {
        match system {
            SystemDescriptor::Parallel(descriptor) => {
                self.uninitialized_parallel.push(self.parallel_systems.len());
                self.parallel_systems.push(descriptor);
                assert(self.parallel_systems@.drop_last() =~= old(self).parallel_systems@);
            },
            SystemDescriptor::Exclusive(descriptor) => {
                self.uninitialized_sequential.push(self.sequential_systems.len());
                self.sequential_systems.push(descriptor);
                assert(self.sequential_systems@.drop_last() =~= old(self).sequential_systems@);
            },
        }
        self.is_dirty = true;
    }

    /// Nests a child set, grouping it under this one.
    pub fn add_child(&mut self, system_set: SystemSet)
        ensures
            final(self).spec_children() == old(self).spec_children().push(system_set),
            final(self).spec_dirty() == old(self).spec_dirty(),
            final(self).spec_parallel() == old(self).spec_parallel(),
            final(self).spec_sequential() == old(self).spec_sequential(),
            final(self).spec_has_criterion() == old(self).spec_has_criterion(),
            final(self).spec_criteria() == old(self).spec_criteria(),
            old(self).wf() ==> final(self).wf(),
    {
        self.children.push(system_set);
    }

    /// Ties the spec views to the underlying fields, for the modules of
    /// this crate that work on the fields directly.
    pub(crate) proof fn lemma_field_views(&self)
        ensures
            self.spec_parallel() == self.parallel_systems@,
            self.spec_sequential() == self.sequential_systems@,
            self.spec_dirty() == self.is_dirty,
            self.spec_criteria() == self.run_criteria,
    {
    }

    /// Whether some systems of the set still await initialization.
    pub fn needs_initialization(&self) -> (r: bool)
        ensures
            r == (self.spec_uninitialized_parallel().len() > 0
                || self.spec_uninitialized_sequential().len() > 0),
    {
        self.uninitialized_parallel.len() > 0 || self.uninitialized_sequential.len() > 0
    }

    /// Marks the set as changed, so that the stage rebuilds its caches.
    pub fn mark_changed(&mut self)
        ensures
            final(self).spec_dirty(),
            final(self).spec_parallel() == old(self).spec_parallel(),
            final(self).spec_sequential() == old(self).spec_sequential(),
            final(self).spec_has_criterion() == old(self).spec_has_criterion(),
            final(self).spec_criteria() == old(self).spec_criteria(),
            final(self).spec_uninitialized_parallel() == old(self).spec_uninitialized_parallel(),
            final(self).spec_uninitialized_sequential() == old(
                self,
            ).spec_uninitialized_sequential(),
            old(self).wf() ==> final(self).wf(),
    {
        self.is_dirty = true;
    }

    /// Forgets that the set changed, once the stage rebuilt its caches.
    pub fn clear_dirty(&mut self)
        ensures
            !final(self).spec_dirty(),
            final(self).spec_parallel() == old(self).spec_parallel(),
            final(self).spec_sequential() == old(self).spec_sequential(),
            final(self).spec_has_criterion() == old(self).spec_has_criterion(),
            final(self).spec_criteria() == old(self).spec_criteria(),
            final(self).spec_uninitialized_parallel() == old(self).spec_uninitialized_parallel(),
            final(self).spec_uninitialized_sequential() == old(
                self,
            ).spec_uninitialized_sequential(),
            old(self).wf() ==> final(self).wf(),
    {
        self.is_dirty = false;
    }

    /// Whether systems were added since the stage last rebuilt.
    pub fn is_dirty(&self) -> (r: bool)
        ensures
            r == self.spec_dirty(),
    {
        self.is_dirty
    }

    /// The number of parallel systems in the set.
    pub fn parallel_systems_len(&self) -> (r: usize)
        ensures
            r == self.spec_parallel().len(),
    {
        self.parallel_systems.len()
    }

    /// The parallel systems of the set.
    pub fn parallel_systems(&self) -> (r: &Vec<ParallelSystemDescriptor>)
        ensures
            r@ == self.spec_parallel(),
    {
        &self.parallel_systems
    }

    /// The exclusive systems of the set.
    pub fn sequential_systems(&self) -> (r: &Vec<ExclusiveSystemDescriptor>)
        ensures
            r@ == self.spec_sequential(),
    {
        &self.sequential_systems
    }

    /// Hands out the indices of systems that still need their one-time
    /// initialization against world and resources, and forgets them: the
    /// caller performs that outside work.
    pub fn initialize(&mut self) -> (r: (Vec<usize>, Vec<usize>))
        ensures
            r.0@ == old(self).spec_uninitialized_sequential(),
            r.1@ == old(self).spec_uninitialized_parallel(),
            final(self).spec_uninitialized_parallel() =~= Seq::<usize>::empty(),
            final(self).spec_uninitialized_sequential() =~= Seq::<usize>::empty(),
            final(self).spec_dirty() == old(self).spec_dirty(),
            final(self).spec_parallel() == old(self).spec_parallel(),
            final(self).spec_sequential() == old(self).spec_sequential(),
            final(self).spec_has_criterion() == old(self).spec_has_criterion(),
            final(self).spec_criteria() == old(self).spec_criteria(),
            old(self).wf() ==> final(self).wf(),
    {
        let mut sequential: Vec<usize> = Vec::new();
        let mut parallel: Vec<usize> = Vec::new();
        std::mem::swap(&mut sequential, &mut self.uninitialized_sequential);
        std::mem::swap(&mut parallel, &mut self.uninitialized_parallel);
        (sequential, parallel)
    }
}

impl Default for SystemSet {
    /// An empty set with no criterion.
    fn default() -> (r: Self)
        ensures
            r.wf(),
            !r.spec_dirty(),
            !r.spec_has_criterion(),
            r.spec_parallel() =~= Seq::<ParallelSystemDescriptor>::empty(),
            r.spec_sequential() =~= Seq::<ExclusiveSystemDescriptor>::empty(),
    {
        SystemSet::new()
    }
}

} // verus!
