use ecs_scheduler::ArchetypeComponent;
use ecs_scheduler::ExclusiveSystemDescriptorCoercion;
use ecs_scheduler::SystemIndex;
use ecs_scheduler::new_exclusive_descriptor;
use ecs_scheduler::ParallelSystemDescriptorCoercion;
use ecs_scheduler::QueryAccess;
use ecs_scheduler::SystemSet;
use ecs_scheduler::update_parallel_access;
use ecs_scheduler::ShouldRun;
use ecs_scheduler::StageError;
use ecs_scheduler::SystemDescriptor;
use ecs_scheduler::SystemMeta;
use ecs_scheduler::SystemStage;
use ecs_scheduler::new_parallel_descriptor;
use ecs_scheduler::query::Archetypes;

const RES_I32: u64 = 100;
const RES_STRING: u64 = 200;

fn empty_world() -> Archetypes {
    Archetypes { list: vec![], generation: 0 }
}

fn res_reader(id: u64, ty: u64) -> SystemMeta {
    let mut meta = SystemMeta::new(id, false, QueryAccess::Nothing);
    meta.add_resource_read(ty).unwrap();
    meta
}

fn res_writer(id: u64, ty: u64) -> SystemMeta {
    let mut meta = SystemMeta::new(id, false, QueryAccess::Nothing);
    meta.add_resource_write(ty).unwrap();
    meta
}

#[test]
fn non_conflicting_pair_runs_concurrently() {
    // A: Res<i32>, B: ResMut<String> in one parallel stage: both start in
    // the same pass before either finishes, and two finish events arrive.
    let mut stage = SystemStage::parallel();
    stage.add_system(SystemDescriptor::Parallel(new_parallel_descriptor(res_reader(1, RES_I32))));
    stage.add_system(SystemDescriptor::Parallel(new_parallel_descriptor(res_writer(
        2, RES_STRING,
    ))));
    let world = empty_world();
    stage.run_once(&world).unwrap();

    let ex = stage.get_executor_mut();
    assert_eq!(ex.len(), 2);
    ex.evaluate_run_criteria(&vec![ShouldRun::Yes]);
    ex.prepare_parallel_systems();

    let first = ex.find_startable().unwrap();
    ex.start_system(first);
    let second = ex.find_startable().unwrap();
    ex.start_system(second);
    assert!(ex.is_running(0) && ex.is_running(1));

    let mut finish_events = 0;
    ex.system_finished(first);
    finish_events += 1;
    ex.system_finished(second);
    finish_events += 1;
    assert_eq!(finish_events, 2);
    assert!(ex.pass_done());
    assert!(ex.is_finished(0) && ex.is_finished(1));
}

#[test]
fn write_conflict_serializes() {
    // A and B both take ResMut of the same resource: one starts, the other
    // must wait until the first finishes; both complete within one pass.
    let mut stage = SystemStage::parallel();
    stage.add_system(SystemDescriptor::Parallel(new_parallel_descriptor(res_writer(1, RES_I32))));
    stage.add_system(SystemDescriptor::Parallel(new_parallel_descriptor(res_writer(2, RES_I32))));
    let world = empty_world();
    stage.run_once(&world).unwrap();

    let ex = stage.get_executor_mut();
    ex.evaluate_run_criteria(&vec![ShouldRun::Yes]);
    ex.prepare_parallel_systems();

    let first = ex.find_startable().unwrap();
    ex.start_system(first);
    // never both concurrently: no second system can start now
    assert!(ex.find_startable().is_none());
    assert!(!(ex.is_running(0) && ex.is_running(1)));
    ex.system_finished(first);
    let second = ex.find_startable().unwrap();
    assert!(second != first);
    ex.start_system(second);
    ex.system_finished(second);
    assert!(ex.pass_done());
    assert!(ex.is_finished(0) && ex.is_finished(1));
}

#[test]
fn dependency_respected() {
    // A.label("a"); B.after("a"): in every pass B's finish event follows
    // A's, because B is not even queued until A completed.
    const LABEL_A: u64 = 10;
    let mut stage = SystemStage::parallel();
    stage.add_system(SystemDescriptor::Parallel(
        new_parallel_descriptor(res_reader(1, RES_I32)).label(LABEL_A),
    ));
    stage.add_system(SystemDescriptor::Parallel(
        new_parallel_descriptor(res_reader(2, RES_STRING)).after(LABEL_A),
    ));
    let world = empty_world();
    stage.run_once(&world).unwrap();

    let ex = stage.get_executor_mut();
    assert!(ex.depends_on(1, 0));
    ex.evaluate_run_criteria(&vec![ShouldRun::Yes]);
    ex.prepare_parallel_systems();

    // only A is startable, although the accesses would be compatible
    let first = ex.find_startable().unwrap();
    assert_eq!(first, 0);
    ex.start_system(0);
    assert!(ex.find_startable().is_none());
    assert!(!ex.is_queued(1));
    ex.system_finished(0);
    // A's completion releases B
    let second = ex.find_startable().unwrap();
    assert_eq!(second, 1);
    ex.start_system(1);
    ex.system_finished(1);
    assert!(ex.pass_done());
}

#[test]
fn before_clause_builds_reverse_edge() {
    const LABEL_B: u64 = 20;
    let mut stage = SystemStage::parallel();
    stage.add_system(SystemDescriptor::Parallel(
        new_parallel_descriptor(res_reader(1, RES_I32)).before(LABEL_B),
    ));
    stage.add_system(SystemDescriptor::Parallel(
        new_parallel_descriptor(res_reader(2, RES_STRING)).label(LABEL_B),
    ));
    let world = empty_world();
    stage.run_once(&world).unwrap();
    let ex = stage.get_executor_mut();
    // the labelled system waits for the one declared before it
    assert!(ex.depends_on(1, 0));
    assert!(!ex.depends_on(0, 1));
}

#[test]
fn thread_local_runs_on_main_thread() {
    let mut meta = SystemMeta::new(1, true, QueryAccess::Nothing);
    meta.add_resource_write(RES_I32).unwrap();
    let mut stage = SystemStage::parallel();
    stage.add_system(SystemDescriptor::Parallel(new_parallel_descriptor(meta)));
    stage.add_system(SystemDescriptor::Parallel(new_parallel_descriptor(res_reader(
        2, RES_STRING,
    ))));
    let world = empty_world();
    stage.run_once(&world).unwrap();

    let ex = stage.get_executor_mut();
    assert!(ex.is_thread_local(0));
    assert!(!ex.is_thread_local(1));
    ex.evaluate_run_criteria(&vec![ShouldRun::Yes]);
    ex.prepare_parallel_systems();
    // the thread-local system is not handed to worker threads
    let startable = ex.find_startable().unwrap();
    assert_eq!(startable, 1);
    ex.start_system(1);
    // it runs inline on the main thread instead
    let local = ex.run_a_thread_local().unwrap();
    assert_eq!(local, 0);
    assert!(ex.is_finished(0));
    ex.system_finished(1);
    assert!(ex.pass_done());
}

#[test]
fn skipped_set_does_not_run() {
    // one set whose criterion said no: the pass drains without running it
    let mut stage = SystemStage::parallel();
    stage.add_system(SystemDescriptor::Parallel(new_parallel_descriptor(res_reader(1, RES_I32))));
    let world = empty_world();
    stage.run_once(&world).unwrap();
    let ex = stage.get_executor_mut();
    let has_work = ex.evaluate_run_criteria(&vec![ShouldRun::No]);
    assert!(!has_work);
    ex.prepare_parallel_systems();
    assert!(!ex.is_should_run(0));
    assert!(ex.find_startable().is_none());
    assert!(ex.pass_done());
    assert!(!ex.is_finished(0));
}

#[test]
fn criteria_reevaluation_consumes_yes() {
    let mut stage = SystemStage::parallel();
    stage.add_system(SystemDescriptor::Parallel(new_parallel_descriptor(res_reader(1, RES_I32))));
    let world = empty_world();
    stage.run_once(&world).unwrap();
    let ex = stage.get_executor_mut();
    let has_work = ex.evaluate_run_criteria(&vec![ShouldRun::Yes]);
    assert!(has_work);
    // a satisfied plain yes turns into no and leaves no further work
    let more = ex.reevaluate_run_criteria(&vec![None]);
    assert!(!more);
    // a looping criterion is re-run with the fresh outcome
    ex.evaluate_run_criteria(&vec![ShouldRun::YesAndLoop]);
    let more = ex.reevaluate_run_criteria(&vec![Some(ShouldRun::Yes)]);
    assert!(more);
    let more = ex.reevaluate_run_criteria(&vec![None]);
    assert!(!more);
}

#[test]
fn cycle_rejected_with_both_labels() {
    // A.after("b"); B.after("a"): the rebuild reports a cycle whose
    // payload holds both labels.
    const LABEL_A: u64 = 10;
    const LABEL_B: u64 = 20;
    let mut stage = SystemStage::parallel();
    stage.add_system(SystemDescriptor::Parallel(
        new_parallel_descriptor(res_reader(1, RES_I32)).label(LABEL_A).after(LABEL_B),
    ));
    stage.add_system(SystemDescriptor::Parallel(
        new_parallel_descriptor(res_reader(2, RES_STRING)).label(LABEL_B).after(LABEL_A),
    ));
    let world = empty_world();
    match stage.run_once(&world) {
        Err(StageError::DependencyCycle { members, labels }) => {
            assert_eq!(members.len(), 2);
            assert!(labels.contains(&LABEL_A));
            assert!(labels.contains(&LABEL_B));
        },
        other => panic!("expected a dependency cycle, got {:?}", other.is_ok()),
    }
}

#[test]
fn unknown_label_rejected() {
    const NOWHERE: u64 = 99;
    let mut stage = SystemStage::parallel();
    stage.add_system(SystemDescriptor::Parallel(
        new_parallel_descriptor(res_reader(1, RES_I32)).after(NOWHERE),
    ));
    let world = empty_world();
    // the diagnostic names both the offending system and the label
    assert_eq!(
        stage.run_once(&world).map(|_| ()),
        Err(StageError::MissingLabel {
            system: ecs_scheduler::SystemIndex::new(0, 0),
            label: NOWHERE,
        })
    );
}

#[test]
fn rebuild_twice_without_changes_is_a_no_op() {
    let mut stage = SystemStage::parallel();
    stage.add_system(SystemDescriptor::Parallel(new_parallel_descriptor(res_reader(1, RES_I32))));
    let world = empty_world();
    let first = stage.run_once(&world).unwrap();
    assert!(first.is_some());
    // the dirty bits are already cleared: nothing is rebuilt
    let second = stage.run_once(&world).unwrap();
    assert!(second.is_none());
}

#[test]
fn update_access_follows_archetypes() {
    const COMP: u64 = 5;
    let mut meta = SystemMeta::new(1, false, QueryAccess::union(vec![QueryAccess::read(
        COMP, "Comp",
    )]));
    let empty = Archetypes { list: vec![], generation: 0 };
    meta.update_access(&empty);
    assert_eq!(meta.archetype_component_access().all_distinct_types().unwrap().len(), 0);
    let with_comp = Archetypes {
        list: vec![ecs_scheduler::query::Archetype::new(vec![COMP])],
        generation: 1,
    };
    meta.update_access(&with_comp);
    let distinct = meta.archetype_component_access().all_distinct_types().unwrap();
    assert_eq!(distinct.len(), 1);
    assert!(meta
        .archetype_component_access()
        .is_read_or_write(&ecs_scheduler::ArchetypeComponent::new(0, COMP)));
}

#[test]
fn thread_local_waits_for_conflicts() {
    // a thread-local writer of a resource may not run while a reader of
    // the same resource is running
    let mut tl = SystemMeta::new(1, true, QueryAccess::Nothing);
    tl.add_resource_write(RES_I32).unwrap();
    let mut stage = SystemStage::parallel();
    stage.add_system(SystemDescriptor::Parallel(new_parallel_descriptor(tl)));
    stage.add_system(SystemDescriptor::Parallel(new_parallel_descriptor(res_reader(2, RES_I32))));
    let world = empty_world();
    stage.run_once(&world).unwrap();
    let ex = stage.get_executor_mut();
    ex.evaluate_run_criteria(&vec![ShouldRun::Yes]);
    ex.prepare_parallel_systems();
    // start the reader first; the thread-local writer must wait
    ex.start_system(1);
    assert!(ex.run_a_thread_local().is_none());
    ex.system_finished(1);
    assert_eq!(ex.run_a_thread_local(), Some(0));
    assert!(ex.pass_done());
}

#[test]
fn access_reanalysis_covers_new_archetypes() {
    const COMP: u64 = 5;
    let query = QueryAccess::union(vec![QueryAccess::write(COMP, "Comp")]);
    let meta = SystemMeta::new(1, false, query);
    let mut sets = vec![
        SystemSet::new().with_system(SystemDescriptor::Parallel(new_parallel_descriptor(meta))),
    ];

    // the world gained an archetype holding the component: re-analysis
    // records the new archetype-component pair as written
    let grown = Archetypes {
        list: vec![ecs_scheduler::query::Archetype::new(vec![COMP])],
        generation: 1,
    };
    update_parallel_access(&mut sets, &grown);
    let updated = &sets[0].parallel_systems()[0].system;
    let pair = ArchetypeComponent::new(0, COMP);
    assert!(updated.archetype_component_access().is_read_or_write(&pair));
    assert!(updated.archetype_component_access().is_write(&pair));
}

#[test]
fn exclusive_target_must_be_placed_first() {
    // an ordered exclusive whose labelled target is declared after it is
    // rejected rather than silently dropped from the slot order
    const ANCHOR: u64 = 7;
    let mut stage = ecs_scheduler::SystemStage::serial();
    stage.add_system(SystemDescriptor::Exclusive(
        new_exclusive_descriptor(SystemMeta::new(1, false, QueryAccess::Nothing))
            .at_start()
            .before(ANCHOR),
    ));
    stage.add_system(SystemDescriptor::Exclusive(
        new_exclusive_descriptor(SystemMeta::new(2, false, QueryAccess::Nothing))
            .at_start()
            .label(ANCHOR),
    ));
    let world = empty_world();
    assert_eq!(
        stage.run_once(&world).map(|_| ()),
        Err(StageError::TargetNotPlaced { system: SystemIndex::new(0, 0), label: ANCHOR })
    );
}
