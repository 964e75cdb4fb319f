use ecs_scheduler::PatternLiteral;
use ecs_scheduler::PlainEq;
use ecs_scheduler::ShouldRun;
use ecs_scheduler::State;
use ecs_scheduler::StateChange;
use ecs_scheduler::StateError;
use ecs_scheduler::StateScratchSpace;
use ecs_scheduler::state_driver;

#[derive(Copy, Clone, PartialEq, Debug)]
enum SimpleState {
    A,
    B,
    C,
    D(bool),
}

impl PlainEq for SimpleState {
    fn plain_eq(&self, other: &Self) -> bool {
        self == other
    }
}

fn in_a() -> PatternLiteral<SimpleState> {
    PatternLiteral(vec![SimpleState::A], "SimpleState::A")
}

fn in_b() -> PatternLiteral<SimpleState> {
    PatternLiteral(vec![SimpleState::B], "SimpleState::B")
}

fn in_c() -> PatternLiteral<SimpleState> {
    PatternLiteral(vec![SimpleState::C], "SimpleState::C")
}

fn in_d() -> PatternLiteral<SimpleState> {
    PatternLiteral(vec![SimpleState::D(false)], "SimpleState::D(false)")
}

fn any_d() -> PatternLiteral<SimpleState> {
    PatternLiteral(vec![SimpleState::D(false), SimpleState::D(true)], "SimpleState::D(_)")
}

fn in_d_ft() -> PatternLiteral<SimpleState> {
    PatternLiteral(vec![SimpleState::D(true)], "SimpleState::D(true)")
}

enum PhaseKind {
    Enter,
    Update,
    Exit,
}

/// One run of the stage: the driver criterion is stepped, then every phase
/// gate is evaluated in declaration order; systems whose gate says yes run
/// (here: are logged), gates that latched to no stay off, and the run ends
/// when the driver declares the tick done.
fn run_tick(
    state: &mut State<SimpleState>,
    scratch: &mut StateScratchSpace<SimpleState>,
    gates: &Vec<(PhaseKind, PatternLiteral<SimpleState>, &'static str)>,
    log: &mut Vec<String>,
    acc: &mut usize,
) {
    run_tick_scripted(state, scratch, gates, log, acc, false)
}

/// Like `run_tick`, optionally with the side effects of the scripted
/// systems of the full scenario.
fn run_tick_scripted(
    state: &mut State<SimpleState>,
    scratch: &mut StateScratchSpace<SimpleState>,
    gates: &Vec<(PhaseKind, PatternLiteral<SimpleState>, &'static str)>,
    log: &mut Vec<String>,
    acc: &mut usize,
    scripted: bool,
) {
    let mut active = vec![true; gates.len()];
    loop {
        let verdict = state_driver(state, scratch);
        for (g, gate) in gates.iter().enumerate() {
            if !active[g] {
                continue;
            }
            let answer = match gate.0 {
                PhaseKind::Enter => state.on_enter(scratch, &gate.1),
                PhaseKind::Update => state.on_update(scratch, &gate.1),
                PhaseKind::Exit => state.on_exit(scratch, &gate.1),
            };
            match answer {
                ShouldRun::YesAndLoop | ShouldRun::Yes => {
                    log.push(format!("{} {}", gate.2, gate.1 .1));
                    if !scripted {
                        continue;
                    }
                    // the side effects of the scripted systems
                    if gate.2 == "Updating" && gate.1 .1 == "SimpleState::B" {
                        state.queue_change(StateChange::to(SimpleState::C));
                    }
                    if gate.2 == "Entering" && gate.1 .1 == "SimpleState::C" {
                        state.queue_change(StateChange::to(SimpleState::D(false)));
                    }
                    if gate.2 == "Updating" && gate.1 .1 == "SimpleState::D(false)" {
                        // the fixed-timestep accumulator system, ordered
                        // after the plain update by its label
                        *acc += 1;
                        if *acc >= 3 {
                            *acc -= 3;
                            state.queue_change(StateChange {
                                v: SimpleState::D(true),
                                update_same_frame: true,
                            });
                            state.queue_change(StateChange {
                                v: SimpleState::D(false),
                                update_same_frame: false,
                            });
                        }
                    }
                },
                ShouldRun::No => {
                    active[g] = false;
                },
                ShouldRun::NoAndLoop => {},
            }
        }
        if verdict == ShouldRun::No {
            break;
        }
    }
}

fn position(log: &Vec<String>, entry: &str) -> usize {
    log.iter().position(|l| l == entry).unwrap_or_else(|| panic!("missing: {}", entry))
}

#[test]
fn simple_state() {
    let (mut state, mut scratch) = State::new(SimpleState::A);
    let gates: Vec<(PhaseKind, PatternLiteral<SimpleState>, &'static str)> = vec![
        (PhaseKind::Enter, in_a(), "Entering"),
        (PhaseKind::Update, in_a(), "Updating"),
        (PhaseKind::Exit, in_a(), "Exiting"),
        (PhaseKind::Enter, in_b(), "Entering"),
        (PhaseKind::Update, in_b(), "Updating"),
        (PhaseKind::Exit, in_b(), "Exiting"),
        (PhaseKind::Enter, in_c(), "Entering"),
        (PhaseKind::Update, in_c(), "Updating"),
        (PhaseKind::Exit, in_c(), "Exiting"),
        (PhaseKind::Enter, any_d(), "Entering"),
        (PhaseKind::Update, in_d(), "Updating"),
        (PhaseKind::Update, in_d_ft(), "Fixed Updating"),
        (PhaseKind::Exit, any_d(), "Exiting"),
    ];
    let mut acc: usize = 0;

    let mut log1: Vec<String> = Vec::new();
    run_tick_scripted(&mut state, &mut scratch, &gates, &mut log1, &mut acc, true);
    assert_eq!(state.current(), Some(SimpleState::A));
    assert!(log1.contains(&"Entering SimpleState::A".to_string()));
    assert!(log1.contains(&"Updating SimpleState::A".to_string()));
    assert!(!log1.iter().any(|l| l.starts_with("Exiting")));
    assert!(position(&log1, "Entering SimpleState::A") < position(&log1, "Updating SimpleState::A"));

    let mut log2: Vec<String> = Vec::new();
    run_tick_scripted(&mut state, &mut scratch, &gates, &mut log2, &mut acc, true);
    assert!(log2.contains(&"Updating SimpleState::A".to_string()));
    assert!(!log2.iter().any(|l| l.starts_with("Entering")));

    // third run: a queued change to B fires exit and enter; the update
    // phase of B is deferred to the next tick
    state.queue_change(StateChange::to(SimpleState::B));
    let mut log3: Vec<String> = Vec::new();
    run_tick_scripted(&mut state, &mut scratch, &gates, &mut log3, &mut acc, true);
    assert!(position(&log3, "Exiting SimpleState::A") < position(&log3, "Entering SimpleState::B"));
    assert!(!log3.contains(&"Updating SimpleState::B".to_string()));
    assert_eq!(state.current(), Some(SimpleState::B));

    // fourth run: updating B queues C, whose enter queues D, so the tick
    // cascades through the whole script
    let mut log4: Vec<String> = Vec::new();
    run_tick_scripted(&mut state, &mut scratch, &gates, &mut log4, &mut acc, true);
    assert!(position(&log4, "Updating SimpleState::B") < position(&log4, "Exiting SimpleState::B"));
    assert!(position(&log4, "Exiting SimpleState::B") < position(&log4, "Entering SimpleState::C"));
    assert!(position(&log4, "Entering SimpleState::C") < position(&log4, "Exiting SimpleState::C"));
    assert!(
        position(&log4, "Exiting SimpleState::C") < position(&log4, "Entering SimpleState::D(_)")
    );
    assert_eq!(state.current(), Some(SimpleState::D(false)));

    state.queue_change(StateChange::to(SimpleState::D(false)));
    println!("start many runs");
    for i in 5..14 {
        let mut log: Vec<String> = Vec::new();
        run_tick_scripted(&mut state, &mut scratch, &gates, &mut log, &mut acc, true);
        // every third plain update of the fixed-timestep set fires the
        // same-frame fixed update
        if log.contains(&"Fixed Updating SimpleState::D(true)".to_string()) {
            assert!(
                position(&log, "Updating SimpleState::D(false)")
                    < position(&log, "Fixed Updating SimpleState::D(true)")
            );
        }
        println!("{}th run done", i);
    }
}

#[test]
fn state_transition_fires_enter_exit() {
    // initial state A, queue a transition to B: within one outer tick the
    // exit-A systems run, then the enter-B systems, then update-B
    let (mut state, mut scratch) = State::new(SimpleState::A);
    let gates: Vec<(PhaseKind, PatternLiteral<SimpleState>, &'static str)> = vec![
        (PhaseKind::Exit, in_a(), "Exiting"),
        (PhaseKind::Enter, in_b(), "Entering"),
        (PhaseKind::Update, in_b(), "Updating"),
    ];
    let mut acc: usize = 0;
    let mut log0: Vec<String> = Vec::new();
    run_tick(&mut state, &mut scratch, &gates, &mut log0, &mut acc);
    assert_eq!(state.current(), Some(SimpleState::A));

    // a same-frame change lets the update phase run in the same tick as
    // the enter phase
    state.queue_change(StateChange { v: SimpleState::B, update_same_frame: true });
    let mut log: Vec<String> = Vec::new();
    run_tick(&mut state, &mut scratch, &gates, &mut log, &mut acc);
    assert_eq!(state.current(), Some(SimpleState::B));
    assert!(position(&log, "Exiting SimpleState::A") < position(&log, "Entering SimpleState::B"));
    assert!(position(&log, "Entering SimpleState::B") < position(&log, "Updating SimpleState::B"));

    // queueing the state that is already current is rejected
    assert_eq!(state.queue_set(SimpleState::B), Err(StateError::AlreadyInState));
}

#[test]
fn state_queueing_rules() {
    let (mut state, mut scratch) = State::new(SimpleState::A);
    let gates: Vec<(PhaseKind, PatternLiteral<SimpleState>, &'static str)> = vec![];
    let mut acc: usize = 0;
    let mut log: Vec<String> = Vec::new();
    run_tick(&mut state, &mut scratch, &gates, &mut log, &mut acc);
    assert_eq!(state.current(), Some(SimpleState::A));

    // the non-overwriting setter rejects a second change
    state.queue_set(SimpleState::B).unwrap();
    assert_eq!(state.queue_set(SimpleState::C), Err(StateError::StateAlreadyQueued));
    // the overwriting setter silently replaces it
    state.queue_overwrite(SimpleState::C).unwrap();
    assert_eq!(state.pending().len(), 1);
    assert_eq!(state.queue_overwrite(SimpleState::A), Err(StateError::AlreadyInState));

    let mut log: Vec<String> = Vec::new();
    run_tick(&mut state, &mut scratch, &gates, &mut log, &mut acc);
    assert_eq!(state.current(), Some(SimpleState::C));
}
