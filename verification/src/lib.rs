//! A verified parallel system scheduler for an entity-component-system world.
//!
//! Systems declare which data they read and write; the scheduler runs them
//! with maximum parallelism while guaranteeing that no two concurrently
//! running systems conflict, that user-declared ordering is respected, and
//! that the dependency graph is free of cycles.

pub mod access;
pub mod bitset;
pub mod condensed;
pub mod criteria;
pub mod descriptor;
pub mod executor_parallel;
pub mod query;
pub mod schedule;
pub mod sorting;
pub mod stage;
pub mod state;
pub mod system_set;

pub use access::ArchetypeComponent;
pub use access::PlainEq;
pub use access::TypeAccess;
pub use access::access_compatible;
pub use condensed::CondensedTypeAccess;
pub use condensed::lemma_condense_is_homomorphism;
pub use query::Archetype;
pub use query::Archetypes;
pub use query::QueryAccess;
pub use sorting::SortingResult;
pub use sorting::topological_sorting;
pub use criteria::RunCriteria;
pub use criteria::RunOnce;
pub use criteria::ShouldRun;
pub use descriptor::ExclusiveSystemDescriptor;
pub use descriptor::ExclusiveSystemDescriptorCoercion;
pub use descriptor::InjectionPoint;
pub use descriptor::Ordering;
pub use descriptor::ParallelSystemDescriptor;
pub use descriptor::ParallelSystemDescriptorCoercion;
pub use descriptor::SystemDescriptor;
pub use descriptor::SystemLabelMarker;
pub use descriptor::SystemMeta;
pub use descriptor::SystemParamError;
pub use descriptor::new_exclusive_descriptor;
pub use descriptor::new_parallel_descriptor;
pub use system_set::SystemSet;
pub use stage::StageAction;
pub use stage::StageError;
pub use stage::SystemIndex;
pub use executor_parallel::ParallelSystemSchedulingData;
pub use executor_parallel::ParallelSystemStageExecutor;
pub use executor_parallel::update_parallel_access;
pub use stage::SystemStage;
pub use schedule::Schedule;
pub use schedule::ScheduleError;
pub use schedule::StageKind;
pub use state::DriverLabel;
pub use state::PatternLiteral;
pub use state::State;
pub use state::StateChange;
pub use state::StateError;
pub use state::StateScratchSpace;
pub use state::Transition;
pub use state::should_run_adapter;
pub use state::state_driver;
