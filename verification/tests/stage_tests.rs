use ecs_scheduler::ExclusiveSystemDescriptorCoercion;
use ecs_scheduler::ParallelSystemDescriptorCoercion;
use ecs_scheduler::InjectionPoint;
use ecs_scheduler::QueryAccess;
use ecs_scheduler::RunCriteria;
use ecs_scheduler::RunOnce;
use ecs_scheduler::Schedule;
use ecs_scheduler::ScheduleError;
use ecs_scheduler::ShouldRun;
use ecs_scheduler::SortingResult;
use ecs_scheduler::StageAction;
use ecs_scheduler::StageError;
use ecs_scheduler::SystemDescriptor;
use ecs_scheduler::SystemIndex;
use ecs_scheduler::SystemMeta;
use ecs_scheduler::SystemSet;
use ecs_scheduler::SystemStage;
use ecs_scheduler::new_exclusive_descriptor;
use ecs_scheduler::new_parallel_descriptor;
use ecs_scheduler::query::Archetypes;
use ecs_scheduler::topological_sorting;

fn empty_world() -> Archetypes {
    Archetypes { list: vec![], generation: 0 }
}

fn plain_system(id: u64) -> SystemMeta {
    SystemMeta::new(id, false, QueryAccess::Nothing)
}

#[test]
fn injection_point_ordering() {
    // Exclusive X at start, parallel P, exclusive Y before commands,
    // exclusive Z at end.  Observable order of the serial pass:
    // X, P runs, Y, P applies its buffers, Z.
    let mut stage = SystemStage::serial();
    stage.add_system(SystemDescriptor::Exclusive(
        new_exclusive_descriptor(plain_system(1)).at_start(),
    ));
    stage.add_system(SystemDescriptor::Parallel(new_parallel_descriptor(plain_system(2))));
    stage.add_system(SystemDescriptor::Exclusive(
        new_exclusive_descriptor(plain_system(3)).before_commands(),
    ));
    stage.add_system(SystemDescriptor::Exclusive(
        new_exclusive_descriptor(plain_system(4)).at_end(),
    ));
    let world = empty_world();
    stage.run_once(&world).unwrap();
    let plan = stage.plan_pass(&vec![true]);
    let x = SystemIndex::new(0, 0);
    let p = SystemIndex::new(0, 0);
    let y = SystemIndex::new(0, 1);
    let z = SystemIndex::new(0, 2);
    assert_eq!(plan, vec![
        StageAction::RunExclusive(x),
        StageAction::RunParallel(p),
        StageAction::RunExclusive(y),
        StageAction::ApplyBuffers(p),
        StageAction::RunExclusive(z),
    ]);
}

#[test]
fn exclusive_before_and_after_in_slot() {
    const ANCHOR: u64 = 7;
    let mut stage = SystemStage::serial();
    stage.add_system(SystemDescriptor::Exclusive(
        new_exclusive_descriptor(plain_system(1)).at_start().label(ANCHOR),
    ));
    stage.add_system(SystemDescriptor::Exclusive(
        new_exclusive_descriptor(plain_system(2)).at_start().before(ANCHOR),
    ));
    stage.add_system(SystemDescriptor::Exclusive(
        new_exclusive_descriptor(plain_system(3)).at_start().after(ANCHOR),
    ));
    let world = empty_world();
    stage.run_once(&world).unwrap();
    let order = stage.slot(InjectionPoint::AtStart);
    assert_eq!(*order, vec![
        SystemIndex::new(0, 1),
        SystemIndex::new(0, 0),
        SystemIndex::new(0, 2),
    ]);
}

#[test]
fn skipped_stage_emits_nothing() {
    // a stage whose criterion said no runs nothing: the pass plan for a
    // set that does not run is empty
    let mut stage = SystemStage::serial();
    stage.add_system(SystemDescriptor::Parallel(new_parallel_descriptor(plain_system(1))));
    stage.add_system(SystemDescriptor::Exclusive(
        new_exclusive_descriptor(plain_system(2)).at_end(),
    ));
    let world = empty_world();
    stage.run_once(&world).unwrap();
    let plan = stage.plan_pass(&vec![false]);
    assert_eq!(plan, vec![]);
}

#[test]
fn stage_criterion_guard() {
    assert_eq!(SystemStage::run_guard(ShouldRun::No), Ok((false, false)));
    assert_eq!(SystemStage::run_guard(ShouldRun::Yes), Ok((true, false)));
    assert_eq!(SystemStage::run_guard(ShouldRun::YesAndLoop), Ok((true, true)));
    assert_eq!(
        SystemStage::run_guard(ShouldRun::NoAndLoop),
        Err(StageError::InfiniteLoopCriterion)
    );
}

#[test]
fn run_criteria_protocol() {
    let mut plain = RunCriteria::new();
    // with no criterion attached the answer is always yes
    assert_eq!(plain.should_run(None), ShouldRun::Yes);
    let mut gated = RunCriteria::new();
    gated.set();
    // the verdict of the criterion system is passed through; a declined
    // output means no
    assert_eq!(gated.should_run(Some(ShouldRun::YesAndLoop)), ShouldRun::YesAndLoop);
    assert_eq!(gated.should_run(None), ShouldRun::No);
}

#[test]
fn run_once_criterion_fires_once() {
    let mut once = RunOnce::new();
    assert_eq!(once.evaluate(), ShouldRun::Yes);
    assert_eq!(once.evaluate(), ShouldRun::No);
    assert_eq!(once.evaluate(), ShouldRun::No);
}

#[test]
fn system_sets_group_and_initialize() {
    let set = SystemSet::new()
        .with_run_criteria()
        .with_system(SystemDescriptor::Parallel(new_parallel_descriptor(plain_system(1))))
        .with_system(SystemDescriptor::Exclusive(new_exclusive_descriptor(plain_system(2))));
    let mut stage = SystemStage::parallel();
    stage.add_system_set(set);
    let lists = stage.initialize();
    // set 0 is the stage's own (empty) set; set 1 is ours
    assert_eq!(lists.len(), 2);
    assert_eq!(lists[1].0, vec![0]);
    assert_eq!(lists[1].1, vec![0]);
    // once drained, nothing is handed out again
    let world = empty_world();
    stage.run_once(&world).unwrap();
    let lists = stage.initialize();
    assert_eq!(lists[1].0, vec![] as Vec<usize>);
    assert_eq!(lists[1].1, vec![] as Vec<usize>);
}

#[test]
fn topological_sorting_on_small_graphs() {
    // a chain: 1 waits for 0, 2 waits for 1
    let chain: Vec<Vec<usize>> = vec![vec![], vec![0], vec![1]];
    match topological_sorting(&chain) {
        SortingResult::Sorted(xs) => assert_eq!(xs, vec![0, 1, 2]),
        SortingResult::FoundCycle(_) => panic!("chain has no cycle"),
    }
    // a two-cycle is rejected with both members reported
    let cyclic: Vec<Vec<usize>> = vec![vec![1], vec![0]];
    match topological_sorting(&cyclic) {
        SortingResult::Sorted(_) => panic!("cycle missed"),
        SortingResult::FoundCycle(rem) => {
            assert!(rem.contains(&0));
            assert!(rem.contains(&1));
        },
    }
    // diamond: 3 waits for 1 and 2, which both wait for 0
    let diamond: Vec<Vec<usize>> = vec![vec![], vec![0], vec![0], vec![1, 2]];
    match topological_sorting(&diamond) {
        SortingResult::Sorted(xs) => {
            assert_eq!(xs.len(), 4);
            assert_eq!(xs[0], 0);
            assert_eq!(xs[3], 3);
        },
        SortingResult::FoundCycle(_) => panic!("diamond has no cycle"),
    }
}

#[test]
fn schedule_registers_stages_in_order() {
    const FIRST: u64 = 1;
    const SECOND: u64 = 2;
    const MIDDLE: u64 = 3;
    let mut schedule = Schedule::new();
    schedule.add_stage(FIRST, SystemStage::parallel()).unwrap();
    schedule.add_stage(SECOND, SystemStage::serial()).unwrap();
    schedule.add_stage_after(FIRST, MIDDLE, SystemStage::parallel()).unwrap();
    assert_eq!(schedule.len(), 3);
    assert_eq!(schedule.name_at(0), FIRST);
    assert_eq!(schedule.name_at(1), MIDDLE);
    assert_eq!(schedule.name_at(2), SECOND);
    assert!(schedule.get_stage(MIDDLE).is_some());
    assert!(schedule.get_stage(99).is_none());

    // duplicate names are rejected
    assert_eq!(
        schedule.add_stage(FIRST, SystemStage::parallel()),
        Err(ScheduleError::StageAlreadyExists(FIRST))
    );
    // placing next to an unregistered stage is rejected
    assert_eq!(
        schedule.add_stage_before(77, 4, SystemStage::parallel()),
        Err(ScheduleError::TargetStageMissing(77))
    );

    // stages can be fetched mutably and driven
    let stage = schedule.get_stage_mut(MIDDLE).unwrap();
    stage.add_system(SystemDescriptor::Parallel(new_parallel_descriptor(plain_system(1))));
    let world = empty_world();
    stage.run_once(&world).unwrap();
    assert_eq!(stage.get_executor().len(), 1);
}

#[test]
fn empty_stage_runs_to_nothing() {
    let mut stage = SystemStage::parallel();
    let world = empty_world();
    // a fresh stage is clean, so there is nothing to rebuild at all
    assert!(stage.run_once(&world).unwrap().is_none());
    assert_eq!(stage.get_executor().len(), 0);
    assert_eq!(stage.plan_pass(&vec![true]), vec![]);
    let ex = stage.get_executor_mut();
    ex.evaluate_run_criteria(&vec![ShouldRun::Yes]);
    ex.prepare_parallel_systems();
    assert!(ex.pass_done());
}

#[test]
fn duplicate_labels_resolve_to_the_last() {
    const SHARED: u64 = 5;
    let mut stage = SystemStage::parallel();
    stage.add_system(SystemDescriptor::Parallel(
        new_parallel_descriptor(plain_system(1)).label(SHARED),
    ));
    stage.add_system(SystemDescriptor::Parallel(
        new_parallel_descriptor(plain_system(2)).label(SHARED),
    ));
    stage.add_system(SystemDescriptor::Parallel(
        new_parallel_descriptor(plain_system(3)).after(SHARED),
    ));
    let world = empty_world();
    stage.run_once(&world).unwrap();
    let ex = stage.get_executor_mut();
    // the label map keeps the system added last
    assert!(ex.depends_on(2, 1));
    assert!(!ex.depends_on(2, 0));
}

#[test]
fn sets_nest_children() {
    let child = SystemSet::new()
        .with_system(SystemDescriptor::Parallel(new_parallel_descriptor(plain_system(1))));
    let mut parent = SystemSet::new();
    parent.add_child(child);
    // nesting does not change what the parent itself schedules
    assert_eq!(parent.parallel_systems_len(), 0);
}

#[test]
fn schedules_nest() {
    const INNER_STAGE: u64 = 1;
    const OUTER_STAGE: u64 = 2;
    const SUB: u64 = 3;
    // a schedule registered inside another schedule keeps its own stages
    let mut inner = Schedule::new();
    inner.add_stage(INNER_STAGE, SystemStage::parallel()).unwrap();
    let mut outer = Schedule::new();
    outer.add_stage(OUTER_STAGE, SystemStage::serial()).unwrap();
    outer.add_nested_schedule(SUB, inner).unwrap();
    assert_eq!(outer.len(), 2);
    // the name of the nested schedule answers as a schedule, not a stage
    assert!(outer.get_stage(SUB).is_none());
    let nested = outer.get_nested_schedule(SUB).unwrap();
    assert_eq!(nested.len(), 1);
    assert!(nested.get_stage(INNER_STAGE).is_some());
    // and the plain stage answers as a stage, not a schedule
    assert!(outer.get_stage(OUTER_STAGE).is_some());
    assert!(outer.get_nested_schedule(OUTER_STAGE).is_none());
    // a nested name cannot be reused
    assert_eq!(
        outer.add_stage(SUB, SystemStage::parallel()),
        Err(ScheduleError::StageAlreadyExists(SUB))
    );
}
