//! System descriptors: a unit of work plus its scheduling metadata.
//!
//! A system is summarized here by what the executor consumes of it: an
//! identifier, its thread affinity, its query shape, and its declared
//! archetype-component and resource accesses.  Descriptors wrap a system
//! with a label, ordering constraints, and (for exclusive systems) an
//! injection point.

use vstd::prelude::*;

use crate::access::ArchetypeComponent;
use crate::access::TypeAccess;
use crate::query::Archetypes;
use crate::query::QueryAccess;
use crate::query::world_gathered_rw;
use crate::query::world_gathered_w;

verus! {

/// Where an exclusive system runs within its stage.
#[derive(Clone, Copy, PartialEq, Eq, Structural, Debug)]
pub enum InjectionPoint {
    /// Before the parallel systems.
    AtStart,
    /// After the parallel systems, before their command buffers are
    /// applied.
    BeforeCommands,
    /// After the parallel systems' command buffers have been applied.
    AtEnd,
}

/// How an exclusive system is placed within its injection slot.
#[derive(Clone, Copy, PartialEq, Eq, Structural, Debug)]
pub enum Ordering {
    /// Appended at the end of the slot.
    Unordered,
    /// Placed before the system carrying the label.
    Before(u64),
    /// Placed after the system carrying the label.
    After(u64),
}

/// A conflict between declared system parameters, fatal at system
/// construction.
#[derive(Clone, Copy, PartialEq, Eq, Structural, Debug)]
pub enum SystemParamError {
    /// The resource type is already accessed incompatibly by this system.
    ResourceConflict(u64),
}

/// Marks types usable as system labels.
pub struct SystemLabelMarker;

/// What the executor consumes of a system: identity, thread affinity, query
/// shape, and declared accesses.
pub struct SystemMeta {
    /// A globally unique identifier for de-duplication and diagnostics.
    pub id: u64,
    /// Whether the system must run on the spawning thread.
    pub thread_local: bool,
    /// The query shape the system declared; drives access re-analysis.
    pub query: QueryAccess,
    /// The declared archetype-component access.
    pub archetype_component_access: TypeAccess<ArchetypeComponent>,
    /// The declared resource access.
    pub resource_access: TypeAccess<u64>,
}

impl SystemMeta {
    /// The query shape the system declared.
    pub closed spec fn spec_query(&self) -> QueryAccess {
        self.query
    }

    /// The declared archetype-component access.
    pub closed spec fn spec_ac_access(&self) -> TypeAccess<ArchetypeComponent> {
        self.archetype_component_access
    }

    /// The declared resource access.
    pub closed spec fn spec_resource_access(&self) -> TypeAccess<u64> {
        self.resource_access
    }

    /// Internal invariant: both access sets are well formed.
    pub open spec fn wf(&self) -> bool {
        self.spec_ac_access().wf() && self.spec_resource_access().wf()
    }

    /// A system with the given identity and query, accessing nothing yet.
    pub fn new(id: u64, thread_local: bool, query: QueryAccess) -> (r: Self)
        ensures
            r.wf(),
            r.id == id,
            r.thread_local == thread_local,
            r.spec_query() == query,
            !r.spec_ac_access().spec_reads_all(),
            r.spec_ac_access().rw_set() =~= Set::<ArchetypeComponent>::empty(),
            r.spec_ac_access().w_set() =~= Set::<ArchetypeComponent>::empty(),
            !r.spec_resource_access().spec_reads_all(),
            r.spec_resource_access().rw_set() =~= Set::<u64>::empty(),
            r.spec_resource_access().w_set() =~= Set::<u64>::empty(),
    {
        SystemMeta {
            id,
            thread_local,
            query,
            archetype_component_access: TypeAccess::empty(),
            resource_access: TypeAccess::empty(),
        }
    }

    /// Declares shared access to a resource type; rejected when this system
    /// already writes it.
    pub fn add_resource_read(&mut self, ty: u64) -> (r: Result<(), SystemParamError>)
        requires
            old(self).wf(),
        ensures
            final(self).wf(),
            final(self).id == old(self).id,
            final(self).thread_local == old(self).thread_local,
            final(self).spec_query() == old(self).spec_query(),
            final(self).spec_ac_access() == old(self).spec_ac_access(),
            r is Err <==> old(self).spec_resource_access().w_set().contains(ty),
            r is Err ==> final(self).spec_resource_access() == old(self).spec_resource_access()
                && r == Result::<(), SystemParamError>::Err(SystemParamError::ResourceConflict(ty)),
            r is Ok ==> {
                &&& final(self).spec_resource_access().rw_set() =~= old(
                    self,
                ).spec_resource_access().rw_set().insert(ty)
                &&& final(self).spec_resource_access().w_set() == old(
                    self,
                ).spec_resource_access().w_set()
                &&& final(self).spec_resource_access().spec_reads_all() == old(
                    self,
                ).spec_resource_access().spec_reads_all()
            },
    {
        if self.resource_access.is_write(&ty) {
            Err(SystemParamError::ResourceConflict(ty))
        } else {
            self.resource_access.add_read(ty);
            Ok(())
        }
    }

    /// Declares exclusive access to a resource type; rejected when this
    /// system already reads or writes it.
    pub fn add_resource_write(&mut self, ty: u64) -> (r: Result<(), SystemParamError>)
        requires
            old(self).wf(),
        ensures
            final(self).wf(),
            final(self).id == old(self).id,
            final(self).thread_local == old(self).thread_local,
            final(self).spec_query() == old(self).spec_query(),
            final(self).spec_ac_access() == old(self).spec_ac_access(),
            r is Err <==> (old(self).spec_resource_access().spec_reads_all() || old(
                self,
            ).spec_resource_access().rw_set().contains(ty)),
            r is Err ==> final(self).spec_resource_access() == old(self).spec_resource_access()
                && r == Result::<(), SystemParamError>::Err(SystemParamError::ResourceConflict(ty)),
            r is Ok ==> {
                &&& final(self).spec_resource_access().rw_set() =~= old(
                    self,
                ).spec_resource_access().rw_set().insert(ty)
                &&& final(self).spec_resource_access().w_set() =~= old(
                    self,
                ).spec_resource_access().w_set().insert(ty)
                &&& final(self).spec_resource_access().spec_reads_all() == old(
                    self,
                ).spec_resource_access().spec_reads_all()
            },
    {
        if self.resource_access.is_read_or_write(&ty) {
            Err(SystemParamError::ResourceConflict(ty))
        } else {
            self.resource_access.add_write(ty);
            Ok(())
        }
    }

    /// Declares unrestricted read access to resources, as thread-local
    /// systems do for conservative compatibility.
    pub fn read_all_resources(&mut self)
        requires
            old(self).wf(),
        ensures
            final(self).wf(),
            final(self).id == old(self).id,
            final(self).thread_local == old(self).thread_local,
            final(self).spec_query() == old(self).spec_query(),
            final(self).spec_ac_access() == old(self).spec_ac_access(),
            final(self).spec_resource_access().spec_reads_all(),
            final(self).spec_resource_access().rw_set() == old(
                self,
            ).spec_resource_access().rw_set(),
            final(self).spec_resource_access().w_set() == old(self).spec_resource_access().w_set(),
    {
        self.resource_access.read_all();
    }

    /// A read-only view of the archetype-component access.
    pub fn archetype_component_access(&self) -> (r: &TypeAccess<ArchetypeComponent>)
        ensures
            r == &self.spec_ac_access(),
    {
        &self.archetype_component_access
    }

    /// A read-only view of the resource access.
    pub fn resource_access(&self) -> (r: &TypeAccess<u64>)
        ensures
            r == &self.spec_resource_access(),
    {
        &self.resource_access
    }

    /// Recomputes the archetype-component access from the query shape
    /// against the world's current archetypes.
    pub fn update_access(&mut self, archetypes: &Archetypes)
        requires
            old(self).wf(),
            archetypes.list@.len() <= u32::MAX,
        ensures
            final(self).wf(),
            final(self).id == old(self).id,
            final(self).thread_local == old(self).thread_local,
            final(self).spec_query() == old(self).spec_query(),
            final(self).spec_resource_access() == old(self).spec_resource_access(),
            !final(self).spec_ac_access().spec_reads_all(),
            final(self).spec_ac_access().rw_set() =~= world_gathered_rw(
                old(self).spec_query(),
                archetypes.list@,
            ),
            final(self).spec_ac_access().w_set() =~= world_gathered_w(
                old(self).spec_query(),
                archetypes.list@,
            ),
    {
        self.archetype_component_access.clear();
        self.query.get_world_archetype_access(archetypes, &mut self.archetype_component_access);
    }
}

/// A parallel system plus its scheduling metadata.
pub struct ParallelSystemDescriptor {
    pub system: SystemMeta,
    pub label: Option<u64>,
    pub before: Vec<u64>,
    pub after: Vec<u64>,
}

/// Wraps a system into a parallel descriptor with no constraints yet.
pub fn new_parallel_descriptor(system: SystemMeta) -> (r: ParallelSystemDescriptor)
    ensures
        r.system == system,
        r.label is None,
        r.before@ =~= Seq::<u64>::empty(),
        r.after@ =~= Seq::<u64>::empty(),
{
    ParallelSystemDescriptor { system, label: None, before: Vec::new(), after: Vec::new() }
}

/// Builders that attach a label or ordering constraints to a parallel
/// system.
pub trait ParallelSystemDescriptorCoercion: Sized {
    /// Assigns a label to the system.
    fn label(self, label: u64) -> ParallelSystemDescriptor;

    /// Declares that the system runs before the one with the given label.
    fn before(self, label: u64) -> ParallelSystemDescriptor;

    /// Declares that the system runs after the one with the given label.
    fn after(self, label: u64) -> ParallelSystemDescriptor;
}

impl ParallelSystemDescriptorCoercion for ParallelSystemDescriptor {
    fn label(self, label: u64) -> (r: ParallelSystemDescriptor)
        ensures
            r.system == self.system,
            r.label == Some(label),
            r.before == self.before,
            r.after == self.after,
    {
        ParallelSystemDescriptor {
            system: self.system,
            label: Some(label),
            before: self.before,
            after: self.after,
        }
    }

    fn before(self, label: u64) -> (r: ParallelSystemDescriptor)
        ensures
            r.system == self.system,
            r.label == self.label,
            r.before@ =~= self.before@.push(label),
            r.after == self.after,
    {
        let mut before = self.before;
        before.push(label);
        ParallelSystemDescriptor { system: self.system, label: self.label, before, after: self.after }
    }

    fn after(self, label: u64) -> (r: ParallelSystemDescriptor)
        ensures
            r.system == self.system,
            r.label == self.label,
            r.before == self.before,
            r.after@ =~= self.after@.push(label),
    {
        let mut after = self.after;
        after.push(label);
        ParallelSystemDescriptor { system: self.system, label: self.label, before: self.before, after }
    }
}

/// An exclusive system plus its scheduling metadata.
pub struct ExclusiveSystemDescriptor {
    pub system: SystemMeta,
    pub label: Option<u64>,
    pub ordering: Ordering,
    pub injection_point: InjectionPoint,
}

/// Wraps a system into an exclusive descriptor that runs at the start of
/// the stage, appended to its slot.
pub fn new_exclusive_descriptor(system: SystemMeta) -> (r: ExclusiveSystemDescriptor)
    ensures
        r.system == system,
        r.label is None,
        r.ordering == Ordering::Unordered,
        r.injection_point == InjectionPoint::AtStart,
{
    ExclusiveSystemDescriptor {
        system,
        label: None,
        ordering: Ordering::Unordered,
        injection_point: InjectionPoint::AtStart,
    }
}

/// Builders that attach a label, an ordering, or an injection point to an
/// exclusive system.
pub trait ExclusiveSystemDescriptorCoercion: Sized {
    /// Assigns a label to the system.
    fn label(self, label: u64) -> ExclusiveSystemDescriptor;

    /// Places the system before the one with the given label in its slot.
    fn before(self, label: u64) -> ExclusiveSystemDescriptor;

    /// Places the system after the one with the given label in its slot.
    fn after(self, label: u64) -> ExclusiveSystemDescriptor;

    /// Runs the system before the parallel systems.
    fn at_start(self) -> ExclusiveSystemDescriptor;

    /// Runs the system between the parallel systems and the application of
    /// their command buffers.
    fn before_commands(self) -> ExclusiveSystemDescriptor;

    /// Runs the system after the parallel systems' command buffers.
    fn at_end(self) -> ExclusiveSystemDescriptor;
}

impl ExclusiveSystemDescriptorCoercion for ExclusiveSystemDescriptor {
    fn label(self, label: u64) -> (r: ExclusiveSystemDescriptor)
        ensures
            r == (ExclusiveSystemDescriptor { label: Some(label), ..self }),
    {
        ExclusiveSystemDescriptor { label: Some(label), ..self }
    }

    fn before(self, label: u64) -> (r: ExclusiveSystemDescriptor)
        ensures
            r == (ExclusiveSystemDescriptor { ordering: Ordering::Before(label), ..self }),
    {
        ExclusiveSystemDescriptor { ordering: Ordering::Before(label), ..self }
    }

    fn after(self, label: u64) -> (r: ExclusiveSystemDescriptor)
        ensures
            r == (ExclusiveSystemDescriptor { ordering: Ordering::After(label), ..self }),
    {
        ExclusiveSystemDescriptor { ordering: Ordering::After(label), ..self }
    }

    fn at_start(self) -> (r: ExclusiveSystemDescriptor)
        ensures
            r == (ExclusiveSystemDescriptor { injection_point: InjectionPoint::AtStart, ..self }),
    {
        ExclusiveSystemDescriptor { injection_point: InjectionPoint::AtStart, ..self }
    }

    fn before_commands(self) -> (r: ExclusiveSystemDescriptor)
        ensures
            r == (ExclusiveSystemDescriptor {
                injection_point: InjectionPoint::BeforeCommands,
                ..self
            }),
    {
        ExclusiveSystemDescriptor { injection_point: InjectionPoint::BeforeCommands, ..self }
    }

    fn at_end(self) -> (r: ExclusiveSystemDescriptor)
        ensures
            r == (ExclusiveSystemDescriptor { injection_point: InjectionPoint::AtEnd, ..self }),
    {
        ExclusiveSystemDescriptor { injection_point: InjectionPoint::AtEnd, ..self }
    }
}

/// Either kind of system, as handed to a stage or set.
pub enum SystemDescriptor {
    Parallel(ParallelSystemDescriptor),
    Exclusive(ExclusiveSystemDescriptor),
}

} // verus!
