//! Stages: one execution horizon within a schedule.
//!
//! A stage owns its system sets, caches the orders of its exclusive
//! systems per injection point, and keeps the dependency graph of its
//! parallel systems.  A rebuild resolves labels, validates the graph, and
//! fails fast on unknown labels or cycles.

use vstd::prelude::*;

use crate::criteria::RunCriteria;
use crate::criteria::ShouldRun;
use crate::descriptor::ExclusiveSystemDescriptor;
use crate::descriptor::InjectionPoint;
use crate::descriptor::Ordering;
use crate::descriptor::SystemDescriptor;
use crate::executor_parallel::ParallelSystemStageExecutor;
use crate::executor_parallel::flat_parallel;
use crate::executor_parallel::lemma_flat_parallel_at;
use crate::executor_parallel::lemma_total_parallel_take_le;
use crate::executor_parallel::lemma_total_parallel_take_succ;
use crate::executor_parallel::total_parallel;
use crate::query::Archetypes;
use crate::sorting::SortingResult;
use crate::sorting::graph_of;
use crate::sorting::graph_wf;
use crate::sorting::has_cycle;
use crate::sorting::topological_sorting;
use crate::system_set::SystemSet;

verus! {

/// A stable reference into a stage: which set, and which position in it.
#[derive(Clone, Copy, PartialEq, Eq, Structural, Hash, Debug)]
pub struct SystemIndex {
    pub set: usize,
    pub system: usize,
}

impl SystemIndex {
    /// Builds the reference from its parts.
    pub fn new(set: usize, system: usize) -> (r: Self)
        ensures
            r == (SystemIndex { set, system }),
    {
        SystemIndex { set, system }
    }
}

/// A construction-time failure of a stage.
#[derive(PartialEq, Eq, Debug)]
pub enum StageError {
    /// A system with this identifier is already present.
    SystemAlreadyExists(u64),
    /// The system at the given stage position names a label that no system
    /// of its group carries.
    MissingLabel { system: SystemIndex, label: u64 },
    /// The system at the given stage position asks to be placed next to a
    /// labelled system that is not placed yet: an ordered exclusive must
    /// come after its target in declaration order.
    TargetNotPlaced { system: SystemIndex, label: u64 },
    /// The parallel dependency graph has a cycle; the payload carries the
    /// stuck systems and the labels found among them.
    DependencyCycle { members: Vec<SystemIndex>, labels: Vec<u64> },
    /// The stage's own criterion answered "not now, ask again", which
    /// would loop forever at the outermost level.
    InfiniteLoopCriterion,
}

/// One instruction of a stage pass, for the caller to carry out in order.
#[derive(Clone, Copy, PartialEq, Eq, Structural, Debug)]
pub enum StageAction {
    /// Run the exclusive system at this stage position.
    RunExclusive(SystemIndex),
    /// Run the parallel system at this stage position.
    RunParallel(SystemIndex),
    /// Apply the deferred command buffers of the parallel system at this
    /// stage position.
    ApplyBuffers(SystemIndex),
}

/// The number of exclusive systems over all sets.
pub open spec fn total_sequential(sets: Seq<SystemSet>) -> nat
    decreases sets.len(),
{
    if sets.len() == 0 {
        0
    } else {
        total_sequential(sets.drop_last()) + sets.last().spec_sequential().len()
    }
}

/// The exclusive descriptor at flat (set-major) position `i`.
pub open spec fn flat_sequential(sets: Seq<SystemSet>, i: int) -> ExclusiveSystemDescriptor
    decreases sets.len(),
{
    if sets.len() == 0 {
        arbitrary()
    } else if i < total_sequential(sets.drop_last()) {
        flat_sequential(sets.drop_last(), i)
    } else {
        sets.last().spec_sequential()[i - total_sequential(sets.drop_last())]
    }
}

/// The stage position behind flat (set-major) exclusive position `i`.
pub open spec fn flat_seq_position(sets: Seq<SystemSet>, i: int) -> SystemIndex
    decreases sets.len(),
{
    if sets.len() == 0 {
        arbitrary()
    } else if i < total_sequential(sets.drop_last()) {
        flat_seq_position(sets.drop_last(), i)
    } else {
        SystemIndex {
            set: (sets.len() - 1) as usize,
            system: (i - total_sequential(sets.drop_last())) as usize,
        }
    }
}

/// One more set adds its exclusive systems to the running total.
pub proof fn lemma_total_sequential_take_succ(sets: Seq<SystemSet>, s: int)
    requires
        0 <= s < sets.len(),
    ensures
        total_sequential(sets.take(s + 1)) == total_sequential(sets.take(s))
            + sets[s].spec_sequential().len(),
{
    assert(sets.take(s + 1).drop_last() =~= sets.take(s));
    assert(sets.take(s + 1).last() == sets[s]);
}

/// A prefix never holds more exclusive systems than the whole.
pub proof fn lemma_total_sequential_take_le(sets: Seq<SystemSet>, t: int)
    requires
        0 <= t <= sets.len(),
    ensures
        total_sequential(sets.take(t)) <= total_sequential(sets),
    decreases sets.len() - t,
{
    if t == sets.len() {
        assert(sets.take(t) =~= sets);
    } else {
        assert(sets.drop_last().take(t) =~= sets.take(t));
        lemma_total_sequential_take_le(sets.drop_last(), t);
    }
}

/// The flat position of exclusive system `k` of set `s`.
pub proof fn lemma_flat_sequential_at(sets: Seq<SystemSet>, s: int, k: int)
    requires
        0 <= s < sets.len(),
        0 <= k < sets[s].spec_sequential().len(),
    ensures
        total_sequential(sets.take(s)) + k < total_sequential(sets),
        flat_sequential(sets, total_sequential(sets.take(s)) + k) == sets[s].spec_sequential()[k],
        flat_seq_position(sets, total_sequential(sets.take(s)) + k) == (SystemIndex {
            set: s as usize,
            system: k as usize,
        }),
    decreases sets.len(),
{
    lemma_total_sequential_take_succ(sets, s);
    lemma_total_sequential_take_le(sets, s + 1);
    if s == sets.len() - 1 {
        assert(sets.take(s) =~= sets.drop_last());
    } else {
        assert(sets.drop_last().take(s) =~= sets.take(s));
        assert(sets.drop_last()[s] == sets[s]);
        lemma_flat_sequential_at(sets.drop_last(), s, k);
        assert(sets.drop_last().take(s + 1) =~= sets.take(s + 1));
        lemma_total_sequential_take_le(sets.drop_last(), s + 1);
        assert(total_sequential(sets.take(s)) + k < total_sequential(sets.drop_last()));
    }
}

/// The label map of the parallel systems: among the first `i` flat
/// positions, the last one carrying the label wins.
pub open spec fn parallel_label_upto(sets: Seq<SystemSet>, i: int, label: u64) -> Option<usize>
    decreases i,
{
    if i <= 0 {
        None
    } else if flat_parallel(sets, i - 1).label == Some(label) {
        Some((i - 1) as usize)
    } else {
        parallel_label_upto(sets, i - 1, label)
    }
}

/// The flat position of the parallel system carrying the label, if any.
pub open spec fn parallel_label_lookup(sets: Seq<SystemSet>, label: u64) -> Option<usize> {
    parallel_label_upto(sets, total_parallel(sets) as int, label)
}

/// A resolved label names a flat position in range.
pub proof fn lemma_parallel_label_in_range(sets: Seq<SystemSet>, i: int, label: u64)
    requires
        parallel_label_upto(sets, i, label) is Some,
    ensures
        (parallel_label_upto(sets, i, label)->0 as int) < i,
    decreases i,
{
    if i <= 0 {
    } else if flat_parallel(sets, i - 1).label == Some(label) {
    } else {
        lemma_parallel_label_in_range(sets, i - 1, label);
    }
}

/// The label map of one injection slot: among the first `i` flat exclusive
/// positions, the last one in the slot carrying the label wins.
pub open spec fn slot_label_upto(
    sets: Seq<SystemSet>,
    point: InjectionPoint,
    i: int,
    label: u64,
) -> Option<SystemIndex>
    decreases i,
{
    if i <= 0 {
        None
    } else if flat_sequential(sets, i - 1).injection_point == point && flat_sequential(
        sets,
        i - 1,
    ).label == Some(label) {
        Some(flat_seq_position(sets, i - 1))
    } else {
        slot_label_upto(sets, point, i - 1, label)
    }
}

/// The stage position of the labelled exclusive system in the slot.
pub open spec fn slot_label_lookup(
    sets: Seq<SystemSet>,
    point: InjectionPoint,
    label: u64,
) -> Option<SystemIndex> {
    slot_label_upto(sets, point, total_sequential(sets) as int, label)
}

/// The position of the first occurrence of `t` in `order`, or a negative
/// number if it does not occur.
pub open spec fn first_position(order: Seq<SystemIndex>, t: SystemIndex) -> int
    decreases order.len(),
{
    if order.len() == 0 {
        -1
    } else if order[0] == t {
        0
    } else {
        let r = first_position(order.drop_first(), t);
        if r < 0 {
            -1
        } else {
            r + 1
        }
    }
}

/// Where one exclusive descriptor lands in its slot's order: appended when
/// unordered, inserted before or after its target when the target is
/// already placed.  The fallback arms for an unresolved or unplaced target
/// are never taken on a successful build: the builder fails fast instead,
/// so a returned order never silently drops a system.
pub open spec fn slot_insert_step(
    sets: Seq<SystemSet>,
    point: InjectionPoint,
    order: Seq<SystemIndex>,
    i: int,
) -> Seq<SystemIndex> {
    let d = flat_sequential(sets, i);
    if d.injection_point != point {
        order
    } else {
        match d.ordering {
            Ordering::Unordered => order.push(flat_seq_position(sets, i)),
            Ordering::Before(l) => match slot_label_lookup(sets, point, l) {
                Some(t) => {
                    let p = first_position(order, t);
                    if p < 0 {
                        order
                    } else {
                        order.insert(p, flat_seq_position(sets, i))
                    }
                },
                None => order,
            },
            Ordering::After(l) => match slot_label_lookup(sets, point, l) {
                Some(t) => {
                    let p = first_position(order, t);
                    if p < 0 {
                        order
                    } else {
                        order.insert(p + 1, flat_seq_position(sets, i))
                    }
                },
                None => order,
            },
        }
    }
}

/// The slot order after walking the first `i` flat exclusive positions.
pub open spec fn slot_order_upto(sets: Seq<SystemSet>, point: InjectionPoint, i: int) -> Seq<
    SystemIndex,
>
    decreases i,
{
    if i <= 0 {
        Seq::empty()
    } else {
        slot_insert_step(sets, point, slot_order_upto(sets, point, i - 1), i - 1)
    }
}

/// The full order of one injection slot.
pub open spec fn slot_order(sets: Seq<SystemSet>, point: InjectionPoint) -> Seq<SystemIndex> {
    slot_order_upto(sets, point, total_sequential(sets) as int)
}

/// There is a declared ordering edge from `u` to `v`: `u` waits for `v`.
/// It comes from an `after` clause of `u` or a `before` clause of `v`.
pub open spec fn declared_edge(sets: Seq<SystemSet>, u: int, v: int) -> bool {
    ||| exists|x: int|
        0 <= x < flat_parallel(sets, u).after@.len() && parallel_label_lookup(
            sets,
            #[trigger] flat_parallel(sets, u).after@[x],
        ) == Some(v as usize)
    ||| exists|x: int|
        0 <= x < flat_parallel(sets, v).before@.len() && parallel_label_lookup(
            sets,
            #[trigger] flat_parallel(sets, v).before@[x],
        ) == Some(u as usize)
}

/// Every label in `before`/`after` clauses of parallel systems resolves.
pub open spec fn parallel_labels_resolvable(sets: Seq<SystemSet>) -> bool {
    forall|u: int, x: int|
        0 <= u < total_parallel(sets) && 0 <= x < flat_parallel(sets, u).after@.len()
            ==> parallel_label_lookup(sets, #[trigger] flat_parallel(sets, u).after@[x]) is Some
}

/// Every label in `before`/`after` clauses of parallel systems resolves,
/// the `before` side.
pub open spec fn parallel_before_resolvable(sets: Seq<SystemSet>) -> bool {
    forall|u: int, x: int|
        0 <= u < total_parallel(sets) && 0 <= x < flat_parallel(sets, u).before@.len()
            ==> parallel_label_lookup(sets, #[trigger] flat_parallel(sets, u).before@[x]) is Some
}

/// Every ordering label of an exclusive system resolves within its slot.
pub open spec fn sequential_labels_resolvable(sets: Seq<SystemSet>) -> bool {
    forall|i: int|
        0 <= i < total_sequential(sets) ==> match (#[trigger] flat_sequential(sets, i)).ordering {
            Ordering::Unordered => true,
            Ordering::Before(l) => slot_label_lookup(
                sets,
                flat_sequential(sets, i).injection_point,
                l,
            ) is Some,
            Ordering::After(l) => slot_label_lookup(
                sets,
                flat_sequential(sets, i).injection_point,
                l,
            ) is Some,
        }
}

/// Every ordering label of an exclusive system in the slot resolves.
pub open spec fn slot_labels_resolvable(sets: Seq<SystemSet>, point: InjectionPoint) -> bool {
    forall|i: int|
        0 <= i < total_sequential(sets) && (#[trigger] flat_sequential(sets, i)).injection_point
            == point ==> match flat_sequential(sets, i).ordering {
            Ordering::Unordered => true,
            Ordering::Before(l) => slot_label_lookup(sets, point, l) is Some,
            Ordering::After(l) => slot_label_lookup(sets, point, l) is Some,
        }
}

/// Every ordered exclusive system of the slot finds its target already
/// placed when its turn comes: the slot can be built without dropping or
/// misplacing anyone.
pub open spec fn slot_placeable(sets: Seq<SystemSet>, point: InjectionPoint) -> bool {
    forall|i: int|
        0 <= i < total_sequential(sets) && (#[trigger] flat_sequential(sets, i)).injection_point
            == point ==> match flat_sequential(sets, i).ordering {
            Ordering::Unordered => true,
            Ordering::Before(l) => match slot_label_lookup(sets, point, l) {
                Some(t) => first_position(slot_order_upto(sets, point, i), t) >= 0,
                None => false,
            },
            Ordering::After(l) => match slot_label_lookup(sets, point, l) {
                Some(t) => first_position(slot_order_upto(sets, point, i), t) >= 0,
                None => false,
            },
        }
}

/// The exclusive system at the stage position sits in the slot and names
/// the label in its ordering constraint.
pub open spec fn slot_member_declares(
    sets: Seq<SystemSet>,
    point: InjectionPoint,
    system: SystemIndex,
    label: u64,
) -> bool {
    exists|i: int|
        0 <= i < total_sequential(sets) && #[trigger] flat_seq_position(sets, i) == system
            && flat_sequential(sets, i).injection_point == point && (flat_sequential(
            sets,
            i,
        ).ordering == Ordering::Before(label) || flat_sequential(sets, i).ordering
            == Ordering::After(label))
}

/// The parallel system at the stage position names the label in one of its
/// ordering clauses.
pub open spec fn parallel_member_declares(
    sets: Seq<SystemSet>,
    system: SystemIndex,
    label: u64,
) -> bool {
    exists|u: int|
        0 <= u < total_parallel(sets) && #[trigger] crate::executor_parallel::flat_position(
            sets,
            u,
        ) == system && (flat_parallel(sets, u).after@.contains(label) || flat_parallel(
            sets,
            u,
        ).before@.contains(label))
}

/// Some system of the stage names the label in an ordering constraint:
/// the diagnostic identifies the offending system and label.
pub open spec fn stage_member_declares(
    sets: Seq<SystemSet>,
    system: SystemIndex,
    label: u64,
) -> bool {
    ||| exists|pt: InjectionPoint| slot_member_declares(sets, pt, system, label)
    ||| parallel_member_declares(sets, system, label)
}

/// A walk along declared ordering edges that closes on itself.
pub open spec fn is_declared_cycle(sets: Seq<SystemSet>, p: Seq<usize>) -> bool {
    &&& p.len() > 0
    &&& forall|i: int| 0 <= i < p.len() ==> p[i] < total_parallel(sets)
    &&& forall|i: int| 0 <= i < p.len() - 1 ==> #[trigger] declared_edge(sets, p[i] as int, p[i + 1] as int)
    &&& declared_edge(sets, p[p.len() - 1] as int, p[0] as int)
}

/// The declared ordering constraints contain a cycle.
pub open spec fn has_declared_cycle(sets: Seq<SystemSet>) -> bool {
    exists|p: Seq<usize>| is_declared_cycle(sets, p)
}

/// A dependency-list graph whose edges are exactly the declared ones has a
/// cycle exactly when the declared constraints do.
pub proof fn lemma_cycle_transfer(sets: Seq<SystemSet>, g: Seq<Seq<usize>>)
    requires
        g.len() == total_parallel(sets),
        forall|u: int, v: int|
            0 <= u < g.len() && 0 <= v < g.len() ==> (#[trigger] g[u].contains(v as usize)
                <==> declared_edge(sets, u, v)),
        forall|u: int, k: int| 0 <= u < g.len() && 0 <= k < g[u].len() ==> #[trigger] g[u][k] < g.len(),
    ensures
        has_cycle(g) <==> has_declared_cycle(sets),
{
    if has_cycle(g) {
        let p = choose|p: Seq<usize>| crate::sorting::is_cycle(g, p);
        assert forall|i: int| 0 <= i < p.len() implies p[i] < total_parallel(sets) by {
            if i < p.len() - 1 {
                assert(crate::sorting::dep_edge(g, p[i], p[i + 1]));
            } else {
                assert(crate::sorting::dep_edge(g, p[p.len() - 1], p[0]));
            }
        }
        assert forall|i: int| 0 <= i < p.len() - 1 implies #[trigger] declared_edge(
            sets,
            p[i] as int,
            p[i + 1] as int,
        ) by {
            assert(crate::sorting::dep_edge(g, p[i], p[i + 1]));
            assert(((p[i + 1] as int) as usize) == p[i + 1]);
            assert(g[p[i] as int].contains(((p[i + 1] as int) as usize)));
        }
        assert(crate::sorting::dep_edge(g, p[p.len() - 1], p[0]));
        assert(((p[0] as int) as usize) == p[0]);
        assert(g[p[p.len() - 1] as int].contains(((p[0] as int) as usize)));
        assert(declared_edge(sets, p[p.len() - 1] as int, p[0] as int));
        assert(is_declared_cycle(sets, p));
    }
    if has_declared_cycle(sets) {
        let p = choose|p: Seq<usize>| is_declared_cycle(sets, p);
        assert forall|i: int| 0 <= i < p.len() - 1 implies #[trigger] crate::sorting::dep_edge(
            g,
            p[i],
            p[i + 1],
        ) by {
            assert(declared_edge(sets, p[i] as int, p[i + 1] as int));
            assert(((p[i + 1] as int) as usize) == p[i + 1]);
            assert(g[p[i] as int].contains(((p[i + 1] as int) as usize)));
        }
        assert(declared_edge(sets, p[p.len() - 1] as int, p[0] as int));
        assert(((p[0] as int) as usize) == p[0]);
        assert(g[p[p.len() - 1] as int].contains(((p[0] as int) as usize)));
        assert(crate::sorting::dep_edge(g, p[p.len() - 1], p[0]));
        assert(crate::sorting::is_cycle(g, p));
    }
}

/// A walk along declared edges is a walk in any graph whose edges are
/// exactly the declared ones.
pub proof fn lemma_declared_cycle_to_graph(sets: Seq<SystemSet>, g: Seq<Seq<usize>>, p: Seq<usize>)
    requires
        g.len() == total_parallel(sets),
        forall|u: int, v: int|
            0 <= u < g.len() && 0 <= v < g.len() ==> (#[trigger] g[u].contains(v as usize)
                <==> declared_edge(sets, u, v)),
        is_declared_cycle(sets, p),
    ensures
        crate::sorting::is_cycle(g, p),
{
    assert forall|i: int| 0 <= i < p.len() - 1 implies #[trigger] crate::sorting::dep_edge(
        g,
        p[i],
        p[i + 1],
    ) by {
        assert(declared_edge(sets, p[i] as int, p[i + 1] as int));
        assert(((p[i + 1] as int) as usize) == p[i + 1]);
        assert(g[p[i] as int].contains(((p[i + 1] as int) as usize)));
    }
    assert(declared_edge(sets, p[p.len() - 1] as int, p[0] as int));
    assert(((p[0] as int) as usize) == p[0]);
    assert(g[p[p.len() - 1] as int].contains(((p[0] as int) as usize)));
    assert(crate::sorting::dep_edge(g, p[p.len() - 1], p[0]));
    assert(crate::sorting::is_cycle(g, p));
}

/// Finds the parallel system carrying the label: the one added last wins.
#[verifier::loop_isolation(false)]
fn find_parallel_label(sets: &Vec<SystemSet>, label: u64) -> (r: Option<usize>)
    requires
        total_parallel(sets@) <= usize::MAX,
    ensures
        r == parallel_label_lookup(sets@, label),
{
    let mut acc: Option<usize> = None;
    let n_sets = sets.len();
    let ghost mut flat: int = 0;
    let mut s: usize = 0;
    while s < n_sets
        invariant
            0 <= s <= n_sets,
            n_sets == sets@.len(),
            flat == total_parallel(sets@.take(s as int)),
            flat <= total_parallel(sets@),
            acc == parallel_label_upto(sets@, flat, label),
        decreases n_sets - s,
    {
        proof {
            lemma_total_parallel_take_succ(sets@, s as int);
            lemma_total_parallel_take_le(sets@, s + 1);
        }
        let m = sets[s].parallel_systems_len();
        let mut k: usize = 0;
        while k < m
            invariant
                0 <= k <= m,
                s < n_sets,
                m == sets@[s as int].spec_parallel().len(),
                flat == total_parallel(sets@.take(s as int)),
                flat + m <= total_parallel(sets@),
                acc == parallel_label_upto(sets@, flat + k, label),
            decreases m - k,
        {
            proof {
                lemma_flat_parallel_at(sets@, s as int, k as int);
            }
            match sets[s].parallel_systems()[k].label {
                Some(l) => {
                    if l == label {
                        let flat_now = parallel_flat_of(sets, s, k);
                        acc = Some(flat_now);
                    }
                },
                None => {},
            }
            k += 1;
        }
        proof {
            flat = flat + m as int;
            assert(flat == total_parallel(sets@.take(s + 1)));
        }
        s += 1;
    }
    proof {
        assert(sets@.take(n_sets as int) =~= sets@);
    }
    acc
}

/// The flat position of parallel system `k` of set `s`.
#[verifier::loop_isolation(false)]
fn parallel_flat_of(sets: &Vec<SystemSet>, s: usize, k: usize) -> (r: usize)
    requires
        s < sets@.len(),
        k < sets@[s as int].spec_parallel().len(),
        total_parallel(sets@) <= usize::MAX,
    ensures
        r as int == total_parallel(sets@.take(s as int)) + k,
        r < total_parallel(sets@),
{
    proof {
        lemma_flat_parallel_at(sets@, s as int, k as int);
    }
    let mut count: usize = 0;
    let mut t: usize = 0;
    while t < s
        invariant
            0 <= t <= s,
            s < sets@.len(),
            count == total_parallel(sets@.take(t as int)),
            count <= total_parallel(sets@),
        decreases s - t,
    {
        proof {
            lemma_total_parallel_take_succ(sets@, t as int);
            lemma_total_parallel_take_le(sets@, t + 1);
        }
        count = count + sets[t].parallel_systems_len();
        t += 1;
    }
    count + k
}

/// Finds the exclusive system in the slot carrying the label: the one
/// added last wins.
#[verifier::loop_isolation(false)]
fn find_slot_label(sets: &Vec<SystemSet>, point: InjectionPoint, label: u64) -> (r: Option<
    SystemIndex,
>)
    ensures
        r == slot_label_lookup(sets@, point, label),
{
    let mut acc: Option<SystemIndex> = None;
    let n_sets = sets.len();
    let ghost mut flat: int = 0;
    let mut s: usize = 0;
    while s < n_sets
        invariant
            0 <= s <= n_sets,
            n_sets == sets@.len(),
            flat == total_sequential(sets@.take(s as int)),
            flat <= total_sequential(sets@),
            acc == slot_label_upto(sets@, point, flat, label),
        decreases n_sets - s,
    {
        proof {
            lemma_total_sequential_take_succ(sets@, s as int);
            lemma_total_sequential_take_le(sets@, s + 1);
        }
        let m = sets[s].sequential_systems().len();
        let mut k: usize = 0;
        while k < m
            invariant
                0 <= k <= m,
                s < n_sets,
                m == sets@[s as int].spec_sequential().len(),
                flat == total_sequential(sets@.take(s as int)),
                flat + m <= total_sequential(sets@),
                acc == slot_label_upto(sets@, point, flat + k, label),
            decreases m - k,
        {
            proof {
                lemma_flat_sequential_at(sets@, s as int, k as int);
            }
            let d = &sets[s].sequential_systems()[k];
            let matches_point = match (d.injection_point, point) {
                (InjectionPoint::AtStart, InjectionPoint::AtStart) => true,
                (InjectionPoint::BeforeCommands, InjectionPoint::BeforeCommands) => true,
                (InjectionPoint::AtEnd, InjectionPoint::AtEnd) => true,
                _ => false,
            };
            if matches_point {
                match d.label {
                    Some(l) => {
                        if l == label {
                            acc = Some(SystemIndex { set: s, system: k });
                        }
                    },
                    None => {},
                }
            }
            k += 1;
        }
        proof {
            flat = flat + m as int;
            assert(flat == total_sequential(sets@.take(s + 1)));
        }
        s += 1;
    }
    proof {
        assert(sets@.take(n_sets as int) =~= sets@);
    }
    acc
}

/// If `order[i]` is the first occurrence of `t`, that is its position.
proof fn lemma_first_position_found(order: Seq<SystemIndex>, t: SystemIndex, i: int)
    requires
        0 <= i < order.len(),
        order[i] == t,
        forall|j: int| 0 <= j < i ==> order[j] != t,
    ensures
        first_position(order, t) == i,
    decreases order.len(),
{
    if i == 0 {
    } else {
        assert(order[0] != t);
        assert(order.drop_first()[i - 1] == t);
        assert(forall|j: int| 0 <= j < i - 1 ==> #[trigger] order.drop_first()[j] == order[j + 1]);
        lemma_first_position_found(order.drop_first(), t, i - 1);
    }
}

/// A nonnegative first position lies within the sequence and holds `t`.
proof fn lemma_first_position_in_range(order: Seq<SystemIndex>, t: SystemIndex)
    requires
        first_position(order, t) >= 0,
    ensures
        first_position(order, t) < order.len(),
        order[first_position(order, t)] == t,
    decreases order.len(),
{
    if order.len() == 0 {
    } else if order[0] == t {
    } else {
        lemma_first_position_in_range(order.drop_first(), t);
        assert(order.drop_first()[first_position(order.drop_first(), t)] == order[first_position(
            order,
            t,
        )]);
    }
}

/// If `t` does not occur in `order`, its position is negative.
proof fn lemma_first_position_missing(order: Seq<SystemIndex>, t: SystemIndex)
    requires
        forall|j: int| 0 <= j < order.len() ==> order[j] != t,
    ensures
        first_position(order, t) < 0,
    decreases order.len(),
{
    if order.len() > 0 {
        assert(forall|j: int|
            0 <= j < order.len() - 1 ==> #[trigger] order.drop_first()[j] == order[j + 1]);
        lemma_first_position_missing(order.drop_first(), t);
    }
}

/// Finds the position of the target in the order, if it was placed.
fn find_target_index(order: &Vec<SystemIndex>, target: SystemIndex) -> (r: Option<usize>)
    ensures
        match r {
            Some(p) => p < order@.len() && p as int == first_position(order@, target),
            None => first_position(order@, target) < 0,
        },
{
    let n = order.len();
    let mut i: usize = 0;
    while i < n
        invariant
            0 <= i <= n,
            n == order@.len(),
            forall|j: int| 0 <= j < i ==> order@[j] != target,
        decreases n - i,
    {
        if order[i].set == target.set && order[i].system == target.system {
            proof {
                assert(order@[i as int] == target);
                lemma_first_position_found(order@, target, i as int);
            }
            return Some(i);
        }
        i += 1;
    }
    proof {
        lemma_first_position_missing(order@, target);
    }
    None
}

/// Builds one injection slot's order, failing fast on an unresolved label
/// or on an ordered system whose target is not placed yet.
#[verifier::loop_isolation(false)]
fn build_slot_order(sets: &Vec<SystemSet>, point: InjectionPoint) -> (r: Result<
    Vec<SystemIndex>,
    StageError,
>)
    ensures
        match r {
            Ok(order) => order@ == slot_order(sets@, point) && slot_labels_resolvable(
                sets@,
                point,
            ) && slot_placeable(sets@, point),
            Err(e) => !(slot_labels_resolvable(sets@, point) && slot_placeable(sets@, point))
                && match e {
                StageError::MissingLabel { system, label } => slot_member_declares(
                    sets@,
                    point,
                    system,
                    label,
                ) && slot_label_lookup(sets@, point, label) is None,
                StageError::TargetNotPlaced { system, label } => slot_member_declares(
                    sets@,
                    point,
                    system,
                    label,
                ) && slot_label_lookup(sets@, point, label) is Some,
                _ => false,
            },
        },
{
    let mut order: Vec<SystemIndex> = Vec::new();
    let n_sets = sets.len();
    let ghost mut flat: int = 0;
    let mut s: usize = 0;
    while s < n_sets
        invariant
            0 <= s <= n_sets,
            n_sets == sets@.len(),
            flat == total_sequential(sets@.take(s as int)),
            flat <= total_sequential(sets@),
            order@ == slot_order_upto(sets@, point, flat),
            forall|i: int|
                0 <= i < flat && (#[trigger] flat_sequential(sets@, i)).injection_point == point
                    ==> match flat_sequential(sets@, i).ordering {
                    Ordering::Unordered => true,
                    Ordering::Before(l) => match slot_label_lookup(sets@, point, l) {
                        Some(t) => first_position(slot_order_upto(sets@, point, i), t) >= 0,
                        None => false,
                    },
                    Ordering::After(l) => match slot_label_lookup(sets@, point, l) {
                        Some(t) => first_position(slot_order_upto(sets@, point, i), t) >= 0,
                        None => false,
                    },
                },
        decreases n_sets - s,
    {
        proof {
            lemma_total_sequential_take_succ(sets@, s as int);
            lemma_total_sequential_take_le(sets@, s + 1);
        }
        let m = sets[s].sequential_systems().len();
        let mut k: usize = 0;
        while k < m
            invariant
                0 <= k <= m,
                s < n_sets,
                m == sets@[s as int].spec_sequential().len(),
                flat == total_sequential(sets@.take(s as int)),
                flat + m <= total_sequential(sets@),
                order@ == slot_order_upto(sets@, point, flat + k),
                forall|i: int|
                0 <= i < flat + k && (#[trigger] flat_sequential(sets@, i)).injection_point == point
                        ==> match flat_sequential(sets@, i).ordering {
                        Ordering::Unordered => true,
                        Ordering::Before(l) => match slot_label_lookup(sets@, point, l) {
                            Some(t) => first_position(slot_order_upto(sets@, point, i), t) >= 0,
                            None => false,
                            },
                        Ordering::After(l) => match slot_label_lookup(sets@, point, l) {
                            Some(t) => first_position(slot_order_upto(sets@, point, i), t) >= 0,
                            None => false,
                            },
                    },
            decreases m - k,
        {
            proof {
                lemma_flat_sequential_at(sets@, s as int, k as int);
            }
            let d = &sets[s].sequential_systems()[k];
            let matches_point = match (d.injection_point, point) {
                (InjectionPoint::AtStart, InjectionPoint::AtStart) => true,
                (InjectionPoint::BeforeCommands, InjectionPoint::BeforeCommands) => true,
                (InjectionPoint::AtEnd, InjectionPoint::AtEnd) => true,
                _ => false,
            };
            if matches_point {
                let position = SystemIndex { set: s, system: k };
                proof {
                    assert(position == flat_seq_position(sets@, flat + k));
                }
                match d.ordering {
                    Ordering::Unordered => {
                        order.push(position);
                    },
                    Ordering::Before(l) => {
                        match find_slot_label(sets, point, l) {
                            Some(target) => {
                                match find_target_index(&order, target) {
                                    Some(p) => {
                                        proof {
                                            vstd::std_specs::vec::axiom_spec_len(&order);
                                        }
                                        order.insert(p, position);
                                    },
                                    None => {
                                        proof {
                                            assert(flat_sequential(sets@, flat + k).ordering
                                                == Ordering::Before(l));
                                            assert(slot_member_declares(sets@, point, position, l));
                                            assert(!slot_placeable(sets@, point));
                                        }
                                        return Err(StageError::TargetNotPlaced {
                                            system: position,
                                            label: l,
                                        });
                                    },
                                }
                            },
                            None => {
                                proof {
                                    assert(flat_sequential(sets@, flat + k).ordering
                                        == Ordering::Before(l));
                                    assert(slot_member_declares(sets@, point, position, l));
                                    assert(!slot_labels_resolvable(sets@, point));
                                }
                                return Err(StageError::MissingLabel {
                                    system: position,
                                    label: l,
                                });
                            },
                        }
                    },
                    Ordering::After(l) => {
                        match find_slot_label(sets, point, l) {
                            Some(target) => {
                                match find_target_index(&order, target) {
                                    Some(p) => {
                                        proof {
                                            vstd::std_specs::vec::axiom_spec_len(&order);
                                        }
                                        order.insert(p + 1, position);
                                    },
                                    None => {
                                        proof {
                                            assert(flat_sequential(sets@, flat + k).ordering
                                                == Ordering::After(l));
                                            assert(slot_member_declares(sets@, point, position, l));
                                            assert(!slot_placeable(sets@, point));
                                        }
                                        return Err(StageError::TargetNotPlaced {
                                            system: position,
                                            label: l,
                                        });
                                    },
                                }
                            },
                            None => {
                                proof {
                                    assert(flat_sequential(sets@, flat + k).ordering
                                        == Ordering::After(l));
                                    assert(slot_member_declares(sets@, point, position, l));
                                    assert(!slot_labels_resolvable(sets@, point));
                                }
                                return Err(StageError::MissingLabel {
                                    system: position,
                                    label: l,
                                });
                            },
                        }
                    },
                }
            }
            proof {
                assert(order@ == slot_order_upto(sets@, point, flat + k + 1));
            }
            k += 1;
        }
        proof {
            flat = flat + m as int;
            assert(flat == total_sequential(sets@.take(s + 1)));
        }
        s += 1;
    }
    proof {
        assert(sets@.take(n_sets as int) =~= sets@);
    }
    Ok(order)
}

/// Pushes one marker per exclusive system, witnessing that their total
/// count fits the machine word.
#[verifier::loop_isolation(false)]
fn count_sequential(sets: &Vec<SystemSet>) -> (r: Vec<bool>)
    ensures
        r@.len() == total_sequential(sets@),
{
    let mut out: Vec<bool> = Vec::new();
    let n_sets = sets.len();
    let mut s: usize = 0;
    while s < n_sets
        invariant
            0 <= s <= n_sets,
            n_sets == sets@.len(),
            out@.len() == total_sequential(sets@.take(s as int)),
        decreases n_sets - s,
    {
        proof {
            lemma_total_sequential_take_succ(sets@, s as int);
        }
        let m = sets[s].sequential_systems().len();
        let mut k: usize = 0;
        while k < m
            invariant
                0 <= k <= m,
                s < n_sets,
                m == sets@[s as int].spec_sequential().len(),
                out@.len() == total_sequential(sets@.take(s as int)) + k,
            decreases m - k,
        {
            out.push(true);
            k += 1;
        }
        s += 1;
    }
    proof {
        assert(sets@.take(n_sets as int) =~= sets@);
    }
    out
}

/// Builds the flat index map of the parallel systems: one stage position
/// per flat position, in set-major order.
#[verifier::loop_isolation(false)]
fn build_index_map(sets: &Vec<SystemSet>) -> (r: Vec<SystemIndex>)
    ensures
        r@.len() == total_parallel(sets@),
        forall|i: int|
            0 <= i < r@.len() ==> #[trigger] r@[i] == crate::executor_parallel::flat_position(
                sets@,
                i,
            ),
{
    let mut map: Vec<SystemIndex> = Vec::new();
    let n_sets = sets.len();
    let mut s: usize = 0;
    while s < n_sets
        invariant
            0 <= s <= n_sets,
            n_sets == sets@.len(),
            map@.len() == total_parallel(sets@.take(s as int)),
            forall|i: int|
                0 <= i < map@.len() ==> #[trigger] map@[i]
                    == crate::executor_parallel::flat_position(sets@, i),
        decreases n_sets - s,
    {
        proof {
            lemma_total_parallel_take_succ(sets@, s as int);
        }
        let m = sets[s].parallel_systems_len();
        let mut k: usize = 0;
        while k < m
            invariant
                0 <= k <= m,
                s < n_sets,
                m == sets@[s as int].spec_parallel().len(),
                map@.len() == total_parallel(sets@.take(s as int)) + k,
                forall|i: int|
                    0 <= i < map@.len() ==> #[trigger] map@[i]
                        == crate::executor_parallel::flat_position(sets@, i),
            decreases m - k,
        {
            proof {
                lemma_flat_parallel_at(sets@, s as int, k as int);
            }
            map.push(SystemIndex { set: s, system: k });
            k += 1;
        }
        s += 1;
    }
    proof {
        assert(sets@.take(n_sets as int) =~= sets@);
    }
    map
}

/// Builds the dependency lists of the parallel systems from their
/// `before`/`after` clauses, with labels resolved; fails fast on a label
/// no parallel system carries.
#[verifier::loop_isolation(false)]
fn build_parallel_dependencies(sets: &Vec<SystemSet>, total: usize) -> (r: Result<
    Vec<Vec<usize>>,
    StageError,
>)
    requires
        total == total_parallel(sets@),
    ensures
        match r {
            Ok(deps) => {
                &&& parallel_labels_resolvable(sets@)
                &&& parallel_before_resolvable(sets@)
                &&& deps@.len() == total_parallel(sets@)
                &&& forall|u: int| 0 <= u < deps@.len() ==> (#[trigger] deps@[u]@).no_duplicates()
                &&& forall|u: int, k: int|
                    0 <= u < deps@.len() && 0 <= k < deps@[u]@.len() ==> #[trigger] deps@[u]@[k]
                        < deps@.len()
                &&& forall|u: int, v: int|
                    0 <= u < deps@.len() && 0 <= v < deps@.len() ==> ((#[trigger] deps@[u]@.contains(
                        v as usize,
                    )) <==> declared_edge(sets@, u, v))
            },
            Err(e) => !(parallel_labels_resolvable(sets@) && parallel_before_resolvable(sets@))
                && match e {
                StageError::MissingLabel { system, label } => parallel_member_declares(
                    sets@,
                    system,
                    label,
                ) && parallel_label_lookup(sets@, label) is None,
                _ => false,
            },
        },
{
    let ghost n = total as int;
    let mut deps: Vec<Vec<usize>> = Vec::new();
    let mut i: usize = 0;
    while i < total
        invariant
            0 <= i <= total,
            total == total_parallel(sets@),
            deps@.len() == i,
            forall|u: int| 0 <= u < i ==> (#[trigger] deps@[u]@).len() == 0,
        decreases total - i,
    {
        deps.push(Vec::new());
        i += 1;
    }
    // resolve the `after` clauses: an edge from each system to its target
    let n_sets = sets.len();
    let ghost mut flat: int = 0;
    let mut s: usize = 0;
    while s < n_sets
        invariant
            0 <= s <= n_sets,
            n_sets == sets@.len(),
            flat == total_parallel(sets@.take(s as int)),
            flat <= total_parallel(sets@),
            total == total_parallel(sets@),
            deps@.len() == total,
            forall|u: int| 0 <= u < total ==> (#[trigger] deps@[u]@).no_duplicates(),
            forall|u: int, k: int|
                0 <= u < total && 0 <= k < deps@[u]@.len() ==> #[trigger] deps@[u]@[k] < total,
            forall|u: int, x: int|
                0 <= u < flat && 0 <= x < flat_parallel(sets@, u).after@.len()
                    ==> parallel_label_lookup(
                    sets@,
                    #[trigger] flat_parallel(sets@, u).after@[x],
                ) is Some,
            forall|u: int, v: int|
                0 <= u < total && 0 <= v < total ==> ((#[trigger] deps@[u]@.contains(v as usize))
                    <==> (u < flat && exists|x: int|
                    0 <= x < flat_parallel(sets@, u).after@.len() && parallel_label_lookup(
                        sets@,
                        #[trigger] flat_parallel(sets@, u).after@[x],
                    ) == Some(v as usize))),
        decreases n_sets - s,
    {
        proof {
            lemma_total_parallel_take_succ(sets@, s as int);
            lemma_total_parallel_take_le(sets@, s + 1);
        }
        let m = sets[s].parallel_systems_len();
        let mut k: usize = 0;
        while k < m
            invariant
                0 <= k <= m,
                s < n_sets,
                n_sets == sets@.len(),
                m == sets@[s as int].spec_parallel().len(),
                flat == total_parallel(sets@.take(s as int)),
                flat + m <= total_parallel(sets@),
                total == total_parallel(sets@),
                deps@.len() == total,
                forall|u: int| 0 <= u < total ==> (#[trigger] deps@[u]@).no_duplicates(),
                forall|u: int, k2: int|
                    0 <= u < total && 0 <= k2 < deps@[u]@.len() ==> #[trigger] deps@[u]@[k2] < total,
                forall|u: int, x: int|
                    0 <= u < flat + k && 0 <= x < flat_parallel(sets@, u).after@.len()
                        ==> parallel_label_lookup(
                        sets@,
                        #[trigger] flat_parallel(sets@, u).after@[x],
                    ) is Some,
                forall|u: int, v: int|
                    0 <= u < total && 0 <= v < total ==> ((#[trigger] deps@[u]@.contains(v as usize))
                        <==> (u < flat + k && exists|x: int|
                        0 <= x < flat_parallel(sets@, u).after@.len() && parallel_label_lookup(
                            sets@,
                            #[trigger] flat_parallel(sets@, u).after@[x],
                        ) == Some(v as usize))),
            decreases m - k,
        {
            proof {
                lemma_flat_parallel_at(sets@, s as int, k as int);
            }
            let u_flat = parallel_flat_of(sets, s, k);
            let ghost d = flat_parallel(sets@, flat + k);
            let after_list = &sets[s].parallel_systems()[k].after;
            let a_len = after_list.len();
            let mut x: usize = 0;
            while x < a_len
                invariant
                    0 <= x <= a_len,
                    s < n_sets,
                    n_sets == sets@.len(),
                    k < m,
                    m == sets@[s as int].spec_parallel().len(),
                    flat == total_parallel(sets@.take(s as int)),
                    flat + m <= total_parallel(sets@),
                    total == total_parallel(sets@),
                    u_flat as int == flat + k,
                    d == flat_parallel(sets@, flat + k),
                    after_list@ == d.after@,
                    a_len == d.after@.len(),
                    deps@.len() == total,
                    forall|u: int| 0 <= u < total ==> (#[trigger] deps@[u]@).no_duplicates(),
                    forall|u: int, k2: int|
                        0 <= u < total && 0 <= k2 < deps@[u]@.len() ==> #[trigger] deps@[u]@[k2]
                            < total,
                    forall|x2: int|
                        0 <= x2 < x ==> parallel_label_lookup(
                            sets@,
                            #[trigger] d.after@[x2],
                        ) is Some,
                    forall|u: int, x2: int|
                        0 <= u < flat + k && 0 <= x2 < flat_parallel(sets@, u).after@.len()
                            ==> parallel_label_lookup(
                            sets@,
                            #[trigger] flat_parallel(sets@, u).after@[x2],
                        ) is Some,
                    forall|u: int, v: int|
                        0 <= u < total && 0 <= v < total && u != flat + k ==> ((
                        #[trigger] deps@[u]@.contains(v as usize)) <==> (u < flat + k && exists|x2: int|
                            0 <= x2 < flat_parallel(sets@, u).after@.len() && parallel_label_lookup(
                                sets@,
                                #[trigger] flat_parallel(sets@, u).after@[x2],
                            ) == Some(v as usize))),
                    forall|v: int|
                        0 <= v < total ==> ((#[trigger] deps@[flat + k]@.contains(v as usize))
                            <==> exists|x2: int|
                            0 <= x2 < x && parallel_label_lookup(
                                sets@,
                                #[trigger] d.after@[x2],
                            ) == Some(v as usize)),
                decreases a_len - x,
            {
                let label = after_list[x];
                match find_parallel_label(sets, label) {
                    Some(v) => {
                        proof {
                            lemma_parallel_label_in_range(
                                sets@,
                                total_parallel(sets@) as int,
                                label,
                            );
                            assert(v < total);
                        }
                        let ghost pre = deps@;
                        let row = &mut deps[u_flat];
                        crate::access::push_unique(row, v);
                        proof {
                            assert(deps@ =~= pre.update(u_flat as int, deps@[u_flat as int]));
                            assert(forall|u: int|
                                0 <= u < total && u != flat + k ==> deps@[u] == #[trigger] pre[u]);
                            assert(deps@[flat + k]@.to_set() =~= pre[flat + k]@.to_set().insert(v));
                            assert forall|u: int, k2: int|
                                0 <= u < total && 0 <= k2 < deps@[u]@.len()
                                implies #[trigger] deps@[u]@[k2] < total by {
                                if u == flat + k {
                                    let e = deps@[u]@[k2];
                                    assert(deps@[u]@.to_set().contains(e)) by {
                                        assert(deps@[u]@.contains(e));
                                    }
                                    if e != v {
                                        assert(pre[u]@.to_set().contains(e));
                                        let k3 = choose|k3: int|
                                            0 <= k3 < pre[u]@.len() && #[trigger] pre[u]@[k3] == e;
                                    }
                                } else {
                                    assert(deps@[u] == pre[u]);
                                }
                            }
                            assert forall|v2: int|
                                0 <= v2 < total implies ((#[trigger] deps@[flat + k]@.contains(
                                v2 as usize,
                            )) <==> exists|x2: int|
                                0 <= x2 < x + 1 && parallel_label_lookup(
                                    sets@,
                                    #[trigger] d.after@[x2],
                                ) == Some(v2 as usize)) by {
                                assert(deps@[flat + k]@.contains(v2 as usize) <==> deps@[flat
                                    + k]@.to_set().contains(v2 as usize));
                                assert(pre[flat + k]@.contains(v2 as usize) <==> pre[flat
                                    + k]@.to_set().contains(v2 as usize));
                                if deps@[flat + k]@.contains(v2 as usize) {
                                    if v2 as usize == v {
                                        assert(parallel_label_lookup(sets@, d.after@[x as int])
                                            == Some(v2 as usize));
                                    } else {
                                        assert(pre[flat + k]@.contains(v2 as usize));
                                    }
                                }
                                if exists|x2: int|
                                    0 <= x2 < x + 1 && parallel_label_lookup(
                                        sets@,
                                        #[trigger] d.after@[x2],
                                    ) == Some(v2 as usize) {
                                    let x2 = choose|x2: int|
                                        0 <= x2 < x + 1 && parallel_label_lookup(
                                            sets@,
                                            #[trigger] d.after@[x2],
                                        ) == Some(v2 as usize);
                                    if x2 == x {
                                        assert(v2 as usize == v);
                                    } else {
                                        assert(pre[flat + k]@.contains(v2 as usize));
                                    }
                                }
                            }
                        }
                    },
                    None => {
                        proof {
                            assert(d.after@[x as int] == label);
                            assert(d.after@.contains(label)) by {
                                assert(d.after@[x as int] == label);
                            }
                            assert(crate::executor_parallel::flat_position(sets@, flat + k)
                                == (SystemIndex { set: s, system: k }));
                            assert(parallel_member_declares(
                                sets@,
                                SystemIndex { set: s, system: k },
                                label,
                            ));
                            assert(!parallel_labels_resolvable(sets@));
                        }
                        return Err(StageError::MissingLabel {
                            system: SystemIndex { set: s, system: k },
                            label,
                        });
                    },
                }
                x += 1;
            }
            proof {
                assert forall|u: int, v: int|
                    0 <= u < total && 0 <= v < total implies ((#[trigger] deps@[u]@.contains(
                    v as usize,
                )) <==> (u < flat + k + 1 && exists|x2: int|
                    0 <= x2 < flat_parallel(sets@, u).after@.len() && parallel_label_lookup(
                        sets@,
                        #[trigger] flat_parallel(sets@, u).after@[x2],
                    ) == Some(v as usize))) by {
                }
            }
            k += 1;
        }
        proof {
            flat = flat + m as int;
            assert(flat == total_parallel(sets@.take(s + 1)));
        }
        s += 1;
    }
    proof {
        assert(sets@.take(n_sets as int) =~= sets@);
        assert(flat == total_parallel(sets@));
        assert(parallel_labels_resolvable(sets@));
    }
    // resolve the `before` clauses: an edge from the target to this system
    let ghost after_only = deps@;
    let ghost mut flat_b: int = 0;
    let mut s: usize = 0;
    while s < n_sets
        invariant
            0 <= s <= n_sets,
            n_sets == sets@.len(),
            flat_b == total_parallel(sets@.take(s as int)),
            flat_b <= total_parallel(sets@),
            total == total_parallel(sets@),
            parallel_labels_resolvable(sets@),
            deps@.len() == total,
            forall|u: int| 0 <= u < total ==> (#[trigger] deps@[u]@).no_duplicates(),
            forall|u: int, k2: int|
                0 <= u < total && 0 <= k2 < deps@[u]@.len() ==> #[trigger] deps@[u]@[k2] < total,
            forall|w: int, x: int|
                0 <= w < flat_b && 0 <= x < flat_parallel(sets@, w).before@.len()
                    ==> parallel_label_lookup(
                    sets@,
                    #[trigger] flat_parallel(sets@, w).before@[x],
                ) is Some,
            forall|u: int, v: int|
                0 <= u < total && 0 <= v < total ==> ((#[trigger] deps@[u]@.contains(v as usize))
                    <==> (after_only[u]@.contains(v as usize) || (v < flat_b && exists|x: int|
                    0 <= x < flat_parallel(sets@, v).before@.len() && parallel_label_lookup(
                        sets@,
                        #[trigger] flat_parallel(sets@, v).before@[x],
                    ) == Some(u as usize)))),
        decreases n_sets - s,
    {
        proof {
            lemma_total_parallel_take_succ(sets@, s as int);
            lemma_total_parallel_take_le(sets@, s + 1);
        }
        let m = sets[s].parallel_systems_len();
        let mut k: usize = 0;
        while k < m
            invariant
                0 <= k <= m,
                s < n_sets,
                n_sets == sets@.len(),
                m == sets@[s as int].spec_parallel().len(),
                flat_b == total_parallel(sets@.take(s as int)),
                flat_b + m <= total_parallel(sets@),
                total == total_parallel(sets@),
                parallel_labels_resolvable(sets@),
                deps@.len() == total,
                forall|u: int| 0 <= u < total ==> (#[trigger] deps@[u]@).no_duplicates(),
                forall|u: int, k2: int|
                    0 <= u < total && 0 <= k2 < deps@[u]@.len() ==> #[trigger] deps@[u]@[k2] < total,
                forall|w: int, x: int|
                    0 <= w < flat_b + k && 0 <= x < flat_parallel(sets@, w).before@.len()
                        ==> parallel_label_lookup(
                        sets@,
                        #[trigger] flat_parallel(sets@, w).before@[x],
                    ) is Some,
                forall|u: int, v: int|
                    0 <= u < total && 0 <= v < total ==> ((#[trigger] deps@[u]@.contains(v as usize))
                        <==> (after_only[u]@.contains(v as usize) || (v < flat_b + k && exists|x: int|
                        0 <= x < flat_parallel(sets@, v).before@.len() && parallel_label_lookup(
                            sets@,
                            #[trigger] flat_parallel(sets@, v).before@[x],
                        ) == Some(u as usize)))),
            decreases m - k,
        {
            proof {
                lemma_flat_parallel_at(sets@, s as int, k as int);
            }
            let w_flat = parallel_flat_of(sets, s, k);
            let ghost d = flat_parallel(sets@, flat_b + k);
            let before_list = &sets[s].parallel_systems()[k].before;
            let b_len = before_list.len();
            let mut x: usize = 0;
            while x < b_len
                invariant
                    0 <= x <= b_len,
                    s < n_sets,
                    n_sets == sets@.len(),
                    k < m,
                    m == sets@[s as int].spec_parallel().len(),
                    flat_b == total_parallel(sets@.take(s as int)),
                    flat_b + m <= total_parallel(sets@),
                    total == total_parallel(sets@),
                    parallel_labels_resolvable(sets@),
                    w_flat as int == flat_b + k,
                    d == flat_parallel(sets@, flat_b + k),
                    before_list@ == d.before@,
                    b_len == d.before@.len(),
                    deps@.len() == total,
                    forall|u: int| 0 <= u < total ==> (#[trigger] deps@[u]@).no_duplicates(),
                    forall|u: int, k2: int|
                        0 <= u < total && 0 <= k2 < deps@[u]@.len() ==> #[trigger] deps@[u]@[k2]
                            < total,
                    forall|w: int, x2: int|
                        0 <= w < flat_b + k && 0 <= x2 < flat_parallel(sets@, w).before@.len()
                            ==> parallel_label_lookup(
                            sets@,
                            #[trigger] flat_parallel(sets@, w).before@[x2],
                        ) is Some,
                    forall|x2: int|
                        0 <= x2 < x ==> parallel_label_lookup(
                            sets@,
                            #[trigger] d.before@[x2],
                        ) is Some,
                    forall|u: int, v: int|
                        0 <= u < total && 0 <= v < total ==> ((#[trigger] deps@[u]@.contains(
                            v as usize,
                        )) <==> (after_only[u]@.contains(v as usize) || (v < flat_b + k
                            && exists|x2: int|
                            0 <= x2 < flat_parallel(sets@, v).before@.len()
                                && parallel_label_lookup(
                                sets@,
                                #[trigger] flat_parallel(sets@, v).before@[x2],
                            ) == Some(u as usize)) || (v == flat_b + k && exists|x2: int|
                            0 <= x2 < x && parallel_label_lookup(
                                sets@,
                                #[trigger] d.before@[x2],
                            ) == Some(u as usize)))),
                decreases b_len - x,
            {
                let label = before_list[x];
                match find_parallel_label(sets, label) {
                    Some(t) => {
                        proof {
                            lemma_parallel_label_in_range(
                                sets@,
                                total_parallel(sets@) as int,
                                label,
                            );
                            assert(t < total);
                        }
                        let ghost pre = deps@;
                        let row = &mut deps[t];
                        crate::access::push_unique(row, w_flat);
                        proof {
                            assert(forall|u: int|
                                0 <= u < total && u != t as int ==> deps@[u] == #[trigger] pre[u]);
                            assert(deps@[t as int]@.to_set() =~= pre[t as int]@.to_set().insert(
                                w_flat,
                            ));
                            assert forall|u: int, k2: int|
                                0 <= u < total && 0 <= k2 < deps@[u]@.len()
                                implies #[trigger] deps@[u]@[k2] < total by {
                                if u == t as int {
                                    let e = deps@[u]@[k2];
                                    assert(deps@[u]@.to_set().contains(e)) by {
                                        assert(deps@[u]@.contains(e));
                                    }
                                    if e != w_flat {
                                        assert(pre[u]@.to_set().contains(e));
                                        let k3 = choose|k3: int|
                                            0 <= k3 < pre[u]@.len() && #[trigger] pre[u]@[k3] == e;
                                    }
                                } else {
                                    assert(deps@[u] == pre[u]);
                                }
                            }
                            assert forall|u: int, v: int|
                                0 <= u < total && 0 <= v < total implies ((
                            #[trigger] deps@[u]@.contains(v as usize)) <==> (after_only[u]@.contains(
                                v as usize,
                            ) || (v < flat_b + k && exists|x2: int|
                                0 <= x2 < flat_parallel(sets@, v).before@.len()
                                    && parallel_label_lookup(
                                    sets@,
                                    #[trigger] flat_parallel(sets@, v).before@[x2],
                                ) == Some(u as usize)) || (v == flat_b + k && exists|x2: int|
                                0 <= x2 < x + 1 && parallel_label_lookup(
                                    sets@,
                                    #[trigger] d.before@[x2],
                                ) == Some(u as usize)))) by {
                                assert(deps@[u]@.contains(v as usize) <==> deps@[u]@.to_set().contains(v as usize));
                                assert(pre[u]@.contains(v as usize) <==> pre[u]@.to_set().contains(v as usize));
                                if u == t as int && v == flat_b + k {
                                    assert(parallel_label_lookup(sets@, d.before@[x as int])
                                        == Some(t));
                                } else if u == t as int {
                                    if deps@[u]@.contains(v as usize) {
                                        if v as usize == w_flat {
                                            assert(v == flat_b + k);
                                        } else {
                                            assert(pre[u]@.contains(v as usize));
                                        }
                                    }
                                    if pre[u]@.contains(v as usize) {
                                        assert(deps@[u]@.contains(v as usize));
                                    }
                                }
                            }
                        }
                    },
                    None => {
                        proof {
                            assert(d.before@[x as int] == label);
                            assert(d.before@.contains(label)) by {
                                assert(d.before@[x as int] == label);
                            }
                            assert(crate::executor_parallel::flat_position(sets@, flat_b + k)
                                == (SystemIndex { set: s, system: k }));
                            assert(parallel_member_declares(
                                sets@,
                                SystemIndex { set: s, system: k },
                                label,
                            ));
                            assert(!parallel_before_resolvable(sets@));
                        }
                        return Err(StageError::MissingLabel {
                            system: SystemIndex { set: s, system: k },
                            label,
                        });
                    },
                }
                x += 1;
            }
            k += 1;
        }
        proof {
            flat_b = flat_b + m as int;
            assert(flat_b == total_parallel(sets@.take(s + 1)));
        }
        s += 1;
    }
    proof {
        assert(sets@.take(n_sets as int) =~= sets@);
        assert(flat_b == total_parallel(sets@));
        assert(parallel_before_resolvable(sets@));
        assert forall|u: int, v: int|
            0 <= u < deps@.len() && 0 <= v < deps@.len() implies ((#[trigger] deps@[u]@.contains(
            v as usize,
        )) <==> declared_edge(sets@, u, v)) by {
        }
    }
    Ok(deps)
}

/// The exclusive-run instructions of one slot order, skipping systems of
/// sets whose criterion said no.
pub open spec fn exclusive_actions(order: Seq<SystemIndex>, runs: Seq<bool>) -> Seq<StageAction>
    decreases order.len(),
{
    if order.len() == 0 {
        Seq::empty()
    } else {
        exclusive_actions(order.drop_last(), runs) + (if order.last().set < runs.len() && runs[
            order.last().set as int] {
            seq![StageAction::RunExclusive(order.last())]
        } else {
            Seq::empty()
        })
    }
}

/// The run (or buffer-application) instructions for one set's parallel
/// systems, in insertion order.
pub open spec fn set_parallel_actions(s: usize, count: nat, apply: bool) -> Seq<StageAction>
    decreases count,
{
    if count == 0 {
        Seq::empty()
    } else {
        set_parallel_actions(s, (count - 1) as nat, apply) + seq![
            if apply {
                StageAction::ApplyBuffers(SystemIndex { set: s, system: (count - 1) as usize })
            } else {
                StageAction::RunParallel(SystemIndex { set: s, system: (count - 1) as usize })
            },
        ]
    }
}

/// The run (or buffer-application) instructions of all parallel systems,
/// set by set, skipping sets whose criterion said no.
pub open spec fn parallel_actions(sets: Seq<SystemSet>, runs: Seq<bool>, apply: bool) -> Seq<
    StageAction,
>
    decreases sets.len(),
{
    if sets.len() == 0 {
        Seq::empty()
    } else {
        parallel_actions(sets.drop_last(), runs, apply) + (if sets.len() - 1 < runs.len() && runs[
            sets.len() - 1] {
            set_parallel_actions(
                (sets.len() - 1) as usize,
                sets.last().spec_parallel().len(),
                apply,
            )
        } else {
            Seq::empty()
        })
    }
}

/// The full instruction sequence of one serial stage pass: the start
/// exclusives, the parallel systems, the before-commands exclusives, the
/// deferred command buffers in the same stable order, and the end
/// exclusives.
pub open spec fn serial_pass_plan(
    sets: Seq<SystemSet>,
    at_start: Seq<SystemIndex>,
    before_commands: Seq<SystemIndex>,
    at_end: Seq<SystemIndex>,
    runs: Seq<bool>,
) -> Seq<StageAction> {
    exclusive_actions(at_start, runs) + parallel_actions(sets, runs, false) + exclusive_actions(
        before_commands,
        runs,
    ) + parallel_actions(sets, runs, true) + exclusive_actions(at_end, runs)
}

/// A stage: an executor strategy, the system sets, the cached exclusive
/// orders, and the parallel dependency graph.
pub struct SystemStage {
    run_criteria: RunCriteria,
    serial: bool,
    executor: ParallelSystemStageExecutor,
    system_sets: Vec<SystemSet>,
    at_start: Vec<SystemIndex>,
    before_commands: Vec<SystemIndex>,
    at_end: Vec<SystemIndex>,
    parallel_dependencies: Vec<Vec<usize>>,
}

impl SystemStage {
    /// The system sets of the stage.
    pub closed spec fn spec_sets(&self) -> Seq<SystemSet> {
        self.system_sets@
    }

    /// Whether the stage uses the serial reference executor.
    pub closed spec fn spec_serial(&self) -> bool {
        self.serial
    }

    /// The stage's own criterion holder.
    pub closed spec fn spec_criteria(&self) -> RunCriteria {
        self.run_criteria
    }

    /// The cached order of the start slot.
    pub closed spec fn spec_at_start(&self) -> Seq<SystemIndex> {
        self.at_start@
    }

    /// The cached order of the before-commands slot.
    pub closed spec fn spec_before_commands(&self) -> Seq<SystemIndex> {
        self.before_commands@
    }

    /// The cached order of the end slot.
    pub closed spec fn spec_at_end(&self) -> Seq<SystemIndex> {
        self.at_end@
    }

    /// The parallel dependency graph, one dependency list per flat system.
    pub closed spec fn spec_dependencies(&self) -> Seq<Seq<usize>> {
        graph_of(self.parallel_dependencies@)
    }

    /// The parallel executor's decision state.
    pub closed spec fn spec_executor(&self) -> ParallelSystemStageExecutor {
        self.executor
    }

    /// Some set received systems since the last rebuild.
    pub open spec fn spec_any_dirty(&self) -> bool {
        exists|s: int|
            0 <= s < self.spec_sets().len() && (#[trigger] self.spec_sets()[s]).spec_dirty()
    }

    /// The cached orders and graph agree with the current sets.
    pub open spec fn rebuilt_consistent(&self) -> bool {
        &&& total_parallel(self.spec_sets()) <= usize::MAX
        &&& total_sequential(self.spec_sets()) <= usize::MAX
        &&& self.spec_at_start() == slot_order(self.spec_sets(), InjectionPoint::AtStart)
        &&& self.spec_before_commands() == slot_order(
            self.spec_sets(),
            InjectionPoint::BeforeCommands,
        )
        &&& self.spec_at_end() == slot_order(self.spec_sets(), InjectionPoint::AtEnd)
        &&& self.spec_dependencies().len() == total_parallel(self.spec_sets())
        &&& graph_wf(self.spec_dependencies())
        &&& !has_cycle(self.spec_dependencies())
        &&& forall|u: int|
            0 <= u < self.spec_dependencies().len() ==> (
            #[trigger] self.spec_dependencies()[u]).no_duplicates()
        &&& forall|u: int, v: int|
            0 <= u < self.spec_dependencies().len() && 0 <= v < self.spec_dependencies().len()
                ==> ((#[trigger] self.spec_dependencies()[u].contains(v as usize))
                <==> declared_edge(self.spec_sets(), u, v))
        &&& self.spec_executor().wf_static()
        &&& self.spec_executor().spec_n() == total_parallel(self.spec_sets())
        &&& forall|i: int|
            0 <= i < self.spec_executor().spec_n() ==> #[trigger] self.spec_executor().spec_deps(i)
                == self.spec_dependencies()[i]
        &&& forall|i: int|
            0 <= i < self.spec_executor().spec_n() ==> #[trigger] self.spec_executor().spec_index(
                i,
            ) == crate::executor_parallel::flat_position(self.spec_sets(), i)
        &&& forall|i: int|
            0 <= i < self.spec_executor().spec_n()
                ==> #[trigger] self.spec_executor().spec_thread_local(i) == flat_parallel(
                self.spec_sets(),
                i,
            ).system.thread_local
    }

    /// Internal invariant: the sets are well formed, and a stage with no
    /// dirty set has caches agreeing with its sets.
    pub open spec fn wf(&self) -> bool {
        &&& self.spec_sets().len() >= 1
        &&& forall|s: int| 0 <= s < self.spec_sets().len() ==> (#[trigger] self.spec_sets()[s]).wf()
        &&& !self.spec_any_dirty() ==> self.rebuilt_consistent()
    }

    /// A stage with one empty set and the chosen executor strategy.
    pub fn new(serial: bool) -> (r: Self)
        ensures
            r.wf(),
            r.spec_serial() == serial,
            r.spec_sets().len() == 1,
            !r.spec_sets()[0].spec_dirty(),
            r.spec_sets()[0].spec_parallel().len() == 0,
            r.spec_sets()[0].spec_sequential().len() == 0,
            !r.spec_criteria().spec_has_criterion(),
    {
        let mut system_sets: Vec<SystemSet> = Vec::new();
        let empty_set = SystemSet::new();
        proof {
            assert(empty_set.spec_parallel().len() == 0);
            assert(empty_set.spec_sequential().len() == 0);
        }
        system_sets.push(empty_set);
        proof {
            assert(system_sets@.len() == 1);
            assert(system_sets@[0] == empty_set);
        }
        let r = SystemStage {
            run_criteria: RunCriteria::new(),
            serial,
            executor: ParallelSystemStageExecutor::new(),
            system_sets,
            at_start: Vec::new(),
            before_commands: Vec::new(),
            at_end: Vec::new(),
            parallel_dependencies: Vec::new(),
        };
        proof {
            assert(r.spec_sets().len() == 1);
            assert(r.spec_sets()[0].wf());
            assert(!r.spec_any_dirty()) by {
                if r.spec_any_dirty() {
                    let s = choose|s: int|
                        0 <= s < r.spec_sets().len() && (#[trigger] r.spec_sets()[s]).spec_dirty();
                    assert(s == 0);
                }
            }
            assert(r.spec_sets()[0] == empty_set);
            assert(r.spec_sets().last() == empty_set);
            assert(r.spec_sets().drop_last() =~= Seq::<SystemSet>::empty());
            assert(total_parallel(Seq::<SystemSet>::empty()) == 0);
            assert(total_sequential(Seq::<SystemSet>::empty()) == 0);
            assert(total_parallel(r.spec_sets()) == total_parallel(r.spec_sets().drop_last())
                + r.spec_sets().last().spec_parallel().len());
            assert(total_parallel(r.spec_sets()) == 0);
            assert(total_sequential(r.spec_sets()) == total_sequential(r.spec_sets().drop_last())
                + r.spec_sets().last().spec_sequential().len());
            assert(total_sequential(r.spec_sets()) == 0);
            assert(r.spec_at_start() =~= slot_order(r.spec_sets(), InjectionPoint::AtStart));
            assert(r.spec_before_commands() =~= slot_order(
                r.spec_sets(),
                InjectionPoint::BeforeCommands,
            ));
            assert(r.spec_at_end() =~= slot_order(r.spec_sets(), InjectionPoint::AtEnd));
            assert(r.spec_dependencies().len() == 0);
            assert(r.rebuilt_consistent());
        }
        r
    }

    /// A stage running its systems one by one, for debugging and
    /// determinism.
    pub fn serial() -> (r: Self)
        ensures
            r.wf(),
            r.spec_serial(),
    {
        SystemStage::new(true)
    }

    /// A stage running its systems with maximum parallelism.
    pub fn parallel() -> (r: Self)
        ensures
            r.wf(),
            !r.spec_serial(),
    {
        SystemStage::new(false)
    }

    /// A serial stage holding one system.
    pub fn single(system: SystemDescriptor) -> (r: Self)
        requires
            match system {
                SystemDescriptor::Parallel(d) => d.system.wf(),
                SystemDescriptor::Exclusive(d) => d.system.wf(),
            },
        ensures
            r.wf(),
            r.spec_serial(),
    {
        let mut stage = SystemStage::serial();
        stage.add_system(system);
        stage
    }

    /// Adds a system to the stage's first set, builder style.
    pub fn with_system(self, system: SystemDescriptor) -> (r: Self)
        requires
            self.wf(),
            match system {
                SystemDescriptor::Parallel(d) => d.system.wf(),
                SystemDescriptor::Exclusive(d) => d.system.wf(),
            },
        ensures
            r.wf(),
            r.spec_any_dirty(),
    {
        let mut this = self;
        this.add_system(system);
        this
    }

    /// Adds a system to the stage's first set and marks it dirty.
    pub fn add_system(&mut self, system: SystemDescriptor)
        requires
            old(self).wf(),
            match system {
                SystemDescriptor::Parallel(d) => d.system.wf(),
                SystemDescriptor::Exclusive(d) => d.system.wf(),
            },
        ensures
            final(self).wf(),
            final(self).spec_any_dirty(),
            final(self).spec_serial() == old(self).spec_serial(),
            final(self).spec_criteria() == old(self).spec_criteria(),
            final(self).spec_sets().len() == old(self).spec_sets().len(),
            final(self).spec_sets()[0].spec_dirty(),
            match system {
                SystemDescriptor::Parallel(d) => {
                    &&& final(self).spec_sets()[0].spec_parallel() =~= old(
                        self,
                    ).spec_sets()[0].spec_parallel().push(d)
                    &&& final(self).spec_sets()[0].spec_sequential() == old(
                        self,
                    ).spec_sets()[0].spec_sequential()
                },
                SystemDescriptor::Exclusive(d) => {
                    &&& final(self).spec_sets()[0].spec_parallel() == old(
                        self,
                    ).spec_sets()[0].spec_parallel()
                    &&& final(self).spec_sets()[0].spec_sequential() =~= old(
                        self,
                    ).spec_sets()[0].spec_sequential().push(d)
                },
            },
            forall|s: int|
                1 <= s < final(self).spec_sets().len() ==> #[trigger] final(self).spec_sets()[s]
                    == old(self).spec_sets()[s],
    {
        let ghost pre = self.system_sets@;
        let first = &mut self.system_sets[0];
        first.add_system(system);
        proof {
            assert(forall|s: int|
                1 <= s < self.system_sets@.len() ==> self.system_sets@[s] == #[trigger] pre[s]);
            assert(self.spec_sets()[0].spec_dirty());
            assert(self.spec_any_dirty());
        }
    }

    /// Adds a whole set of systems, builder style.
    pub fn with_system_set(self, system_set: SystemSet) -> (r: Self)
        requires
            self.wf(),
            system_set.wf(),
        ensures
            r.wf(),
    {
        let mut this = self;
        this.add_system_set(system_set);
        this
    }

    /// Adds a whole set of systems and marks the stage dirty.
    pub fn add_system_set(&mut self, system_set: SystemSet)
        requires
            old(self).wf(),
            system_set.wf(),
        ensures
            final(self).wf(),
            final(self).spec_any_dirty(),
            final(self).spec_sets() =~= old(self).spec_sets().update(
                0,
                final(self).spec_sets()[0],
            ).push(system_set),
            final(self).spec_sets()[0].spec_parallel() == old(self).spec_sets()[0].spec_parallel(),
            final(self).spec_sets()[0].spec_sequential() == old(
                self,
            ).spec_sets()[0].spec_sequential(),
            final(self).spec_serial() == old(self).spec_serial(),
            final(self).spec_criteria() == old(self).spec_criteria(),
    {
        let ghost pre = self.system_sets@;
        // mark the stage dirty through its first set, so that the caches
        // are rebuilt even when the new set arrives clean
        let first = &mut self.system_sets[0];
        first.mark_changed();
        self.system_sets.push(system_set);
        proof {
            assert(self.spec_sets()[0].spec_dirty());
            assert(self.spec_any_dirty());
            assert forall|s: int|
                0 <= s < self.spec_sets().len() implies (#[trigger] self.spec_sets()[s]).wf() by {
                if s == 0 {
                    assert(pre[0].wf());
                } else if s < pre.len() {
                    assert(self.spec_sets()[s] == pre[s]);
                }
            }
        }
    }

    /// Attaches a run criterion to the stage, builder style.
    pub fn with_run_criteria(self) -> (r: Self)
        requires
            self.wf(),
        ensures
            r.wf(),
            r.spec_criteria().spec_has_criterion(),
    {
        let ghost pre = self;
        let mut this = self;
        this.run_criteria.set();
        proof {
            assert(this.spec_sets() == pre.spec_sets());
            assert(this.spec_at_start() == pre.spec_at_start());
            assert(this.spec_before_commands() == pre.spec_before_commands());
            assert(this.spec_at_end() == pre.spec_at_end());
            assert(this.spec_dependencies() == pre.spec_dependencies());
            assert(this.spec_executor() == pre.spec_executor());
        }
        this
    }

    /// Folds the verdict obtained for the stage's criterion into the
    /// protocol's answer.
    pub fn should_run(&mut self, outcome: Option<ShouldRun>) -> (r: ShouldRun)
        requires
            old(self).wf(),
        ensures
            final(self).wf(),
            r == old(self).spec_criteria().folded_verdict(outcome),
            final(self).spec_sets() == old(self).spec_sets(),
    {
        let ghost pre = *self;
        let r = self.run_criteria.should_run(outcome);
        proof {
            assert(self.spec_sets() == pre.spec_sets());
            assert(self.spec_at_start() == pre.spec_at_start());
            assert(self.spec_before_commands() == pre.spec_before_commands());
            assert(self.spec_at_end() == pre.spec_at_end());
            assert(self.spec_dependencies() == pre.spec_dependencies());
            assert(self.spec_executor() == pre.spec_executor());
        }
        r
    }

    /// Decides what the stage's criterion verdict means for its caller:
    /// whether to run a pass and whether to ask again after it; a verdict
    /// of "not now, ask again" can never be satisfied at the outermost
    /// level.  A stage whose criterion says no runs nothing, so world and
    /// resources stay untouched.
    pub fn run_guard(verdict: ShouldRun) -> (r: Result<(bool, bool), StageError>)
        ensures
            match verdict {
                ShouldRun::No => r == Ok::<(bool, bool), StageError>((false, false)),
                ShouldRun::Yes => r == Ok::<(bool, bool), StageError>((true, false)),
                ShouldRun::YesAndLoop => r == Ok::<(bool, bool), StageError>((true, true)),
                ShouldRun::NoAndLoop => r == Err::<(bool, bool), StageError>(
                    StageError::InfiniteLoopCriterion,
                ),
            },
    {
        match verdict {
            ShouldRun::No => Ok((false, false)),
            ShouldRun::Yes => Ok((true, false)),
            ShouldRun::YesAndLoop => Ok((true, true)),
            ShouldRun::NoAndLoop => Err(StageError::InfiniteLoopCriterion),
        }
    }

    /// The system sets of the stage.
    pub fn sets(&self) -> (r: &Vec<SystemSet>)
        ensures
            r@ == self.spec_sets(),
    {
        &self.system_sets
    }

    /// The cached order of the given injection slot.
    pub fn slot(&self, point: InjectionPoint) -> (r: &Vec<SystemIndex>)
        ensures
            r@ == match point {
                InjectionPoint::AtStart => self.spec_at_start(),
                InjectionPoint::BeforeCommands => self.spec_before_commands(),
                InjectionPoint::AtEnd => self.spec_at_end(),
            },
    {
        match point {
            InjectionPoint::AtStart => &self.at_start,
            InjectionPoint::BeforeCommands => &self.before_commands,
            InjectionPoint::AtEnd => &self.at_end,
        }
    }

    /// The parallel executor of the stage.
    pub fn get_executor(&self) -> (r: &ParallelSystemStageExecutor)
        ensures
            r == &self.spec_executor(),
    {
        &self.executor
    }

    /// Mutable access to the parallel executor, for driving a pass.
    pub fn get_executor_mut(&mut self) -> (r: &mut ParallelSystemStageExecutor)
        ensures
            *r == old(self).spec_executor(),
            final(self).spec_executor() == *final(r),
            final(self).spec_sets() == old(self).spec_sets(),
            final(self).spec_at_start() == old(self).spec_at_start(),
            final(self).spec_before_commands() == old(self).spec_before_commands(),
            final(self).spec_at_end() == old(self).spec_at_end(),
            final(self).spec_dependencies() == old(self).spec_dependencies(),
            final(self).spec_serial() == old(self).spec_serial(),
            final(self).spec_criteria() == old(self).spec_criteria(),
    {
        &mut self.executor
    }
}

/// A flat parallel position names a valid slot in its set.
pub proof fn lemma_flat_position_valid(sets: Seq<SystemSet>, i: int)
    requires
        0 <= i < total_parallel(sets),
        total_parallel(sets) <= usize::MAX,
        sets.len() <= usize::MAX,
    ensures
        (crate::executor_parallel::flat_position(sets, i).set as int) < sets.len(),
        (crate::executor_parallel::flat_position(sets, i).system as int) < sets[
            crate::executor_parallel::flat_position(sets, i).set as int].spec_parallel().len(),
        flat_parallel(sets, i) == sets[crate::executor_parallel::flat_position(
            sets,
            i,
        ).set as int].spec_parallel()[crate::executor_parallel::flat_position(
            sets,
            i,
        ).system as int],
    decreases sets.len(),
{
    if sets.len() == 0 {
    } else if i < total_parallel(sets.drop_last()) {
        assert(total_parallel(sets.drop_last()) <= total_parallel(sets));
        lemma_flat_position_valid(sets.drop_last(), i);
        let p = crate::executor_parallel::flat_position(sets, i);
        assert(p == crate::executor_parallel::flat_position(sets.drop_last(), i));
        assert((p.set as int) < sets.drop_last().len());
        assert(sets.drop_last()[p.set as int] == sets[p.set as int]);
        assert(flat_parallel(sets, i) == flat_parallel(sets.drop_last(), i));
    } else {
        assert(((sets.len() - 1) as usize) as int == sets.len() - 1);
        assert(((i - total_parallel(sets.drop_last())) as usize) as int == i - total_parallel(
            sets.drop_last(),
        ));
    }
}

/// A flat exclusive position names a valid slot in its set.
pub proof fn lemma_flat_seq_position_valid(sets: Seq<SystemSet>, i: int)
    requires
        0 <= i < total_sequential(sets),
        total_sequential(sets) <= usize::MAX,
        sets.len() <= usize::MAX,
    ensures
        (flat_seq_position(sets, i).set as int) < sets.len(),
        (flat_seq_position(sets, i).system as int) < sets[flat_seq_position(
            sets,
            i,
        ).set as int].spec_sequential().len(),
    decreases sets.len(),
{
    if sets.len() == 0 {
    } else if i < total_sequential(sets.drop_last()) {
        assert(total_sequential(sets.drop_last()) <= total_sequential(sets));
        lemma_flat_seq_position_valid(sets.drop_last(), i);
        let p = flat_seq_position(sets, i);
        assert(p == flat_seq_position(sets.drop_last(), i));
        assert((p.set as int) < sets.drop_last().len());
        assert(sets.drop_last()[p.set as int] == sets[p.set as int]);
        assert(flat_sequential(sets, i) == flat_sequential(sets.drop_last(), i));
    } else {
        assert(((sets.len() - 1) as usize) as int == sets.len() - 1);
        assert(((i - total_sequential(sets.drop_last())) as usize) as int == i - total_sequential(
            sets.drop_last(),
        ));
    }
}

/// Every entry of a slot order is a valid stage position.
pub proof fn lemma_slot_order_entries_valid(sets: Seq<SystemSet>, point: InjectionPoint, i: int)
    requires
        0 <= i <= total_sequential(sets),
        total_sequential(sets) <= usize::MAX,
        sets.len() <= usize::MAX,
    ensures
        forall|j: int|
            0 <= j < slot_order_upto(sets, point, i).len() ==> ((
            #[trigger] slot_order_upto(sets, point, i)[j]).set as int) < sets.len()
                && (slot_order_upto(sets, point, i)[j].system as int) < sets[slot_order_upto(
                sets,
                point,
                i,
            )[j].set as int].spec_sequential().len(),
    decreases i,
{
    if i > 0 {
        lemma_slot_order_entries_valid(sets, point, i - 1);
        let prev = slot_order_upto(sets, point, i - 1);
        let cur = slot_order_upto(sets, point, i);
        lemma_flat_seq_position_valid(sets, i - 1);
        assert forall|j: int|
            0 <= j < cur.len() implies ((#[trigger] cur[j]).set as int) < sets.len() && (
        cur[j].system as int) < sets[cur[j].set as int].spec_sequential().len() by {
            let d = flat_sequential(sets, i - 1);
            if d.injection_point != point {
                assert(cur[j] == prev[j]);
            } else {
                match d.ordering {
                    Ordering::Unordered => {
                        if j < prev.len() {
                            assert(cur[j] == prev[j]);
                        } else {
                            assert(cur[j] == flat_seq_position(sets, i - 1));
                        }
                    },
                    Ordering::Before(l) => {
                        match slot_label_lookup(sets, point, l) {
                            Some(t) => {
                                let p = first_position(prev, t);
                                if p < 0 {
                                    assert(cur[j] == prev[j]);
                                } else {
                                    lemma_first_position_in_range(prev, t);
                                    prev.insert_ensures(p, flat_seq_position(sets, i - 1));
                                    if j < p {
                                        assert(cur[j] == prev[j]);
                                    } else if j == p {
                                        assert(cur[j] == flat_seq_position(sets, i - 1));
                                    } else {
                                        assert(cur[j] == prev[j - 1]);
                                    }
                                }
                            },
                            None => {
                                assert(cur[j] == prev[j]);
                            },
                        }
                    },
                    Ordering::After(l) => {
                        match slot_label_lookup(sets, point, l) {
                            Some(t) => {
                                let p = first_position(prev, t);
                                if p < 0 {
                                    assert(cur[j] == prev[j]);
                                } else {
                                    lemma_first_position_in_range(prev, t);
                                    prev.insert_ensures(p + 1, flat_seq_position(sets, i - 1));
                                    if j < p + 1 {
                                        assert(cur[j] == prev[j]);
                                    } else if j == p + 1 {
                                        assert(cur[j] == flat_seq_position(sets, i - 1));
                                    } else {
                                        assert(cur[j] == prev[j - 1]);
                                    }
                                }
                            },
                            None => {
                                assert(cur[j] == prev[j]);
                            },
                        }
                    },
                }
            }
        }
    }
}

/// Appends the run instructions of one exclusive slot, skipping systems of
/// sets whose criterion said no.
#[verifier::loop_isolation(false)]
fn append_exclusive_actions(
    actions: &mut Vec<StageAction>,
    order: &Vec<SystemIndex>,
    set_runs: &Vec<bool>,
)
    requires
        forall|j: int|
            0 <= j < order@.len() ==> ((#[trigger] order@[j]).set as int) < set_runs@.len(),
    ensures
        final(actions)@ == old(actions)@ + exclusive_actions(order@, set_runs@),
{
    let n = order.len();
    let mut j: usize = 0;
    while j < n
        invariant
            0 <= j <= n,
            n == order@.len(),
            actions@ == old(actions)@ + exclusive_actions(order@.take(j as int), set_runs@),
        decreases n - j,
    {
        let idx = order[j];
        proof {
            assert(order@.take(j + 1).drop_last() =~= order@.take(j as int));
            assert(order@.take(j + 1).last() == order@[j as int]);
        }
        if set_runs[idx.set] {
            actions.push(StageAction::RunExclusive(idx));
        }
        proof {
            assert(actions@ =~= old(actions)@ + exclusive_actions(order@.take(j + 1), set_runs@));
        }
        j += 1;
    }
    proof {
        assert(order@.take(n as int) =~= order@);
    }
}

/// Appends the run (or buffer-application) instructions of the parallel
/// systems, set by set, skipping sets whose criterion said no.
#[verifier::loop_isolation(false)]
fn append_parallel_actions(
    actions: &mut Vec<StageAction>,
    sets: &Vec<SystemSet>,
    set_runs: &Vec<bool>,
    apply: bool,
)
    requires
        set_runs@.len() == sets@.len(),
    ensures
        final(actions)@ == old(actions)@ + parallel_actions(sets@, set_runs@, apply),
{
    let n_sets = sets.len();
    let mut s: usize = 0;
    while s < n_sets
        invariant
            0 <= s <= n_sets,
            n_sets == sets@.len(),
            set_runs@.len() == sets@.len(),
            actions@ == old(actions)@ + parallel_actions(sets@.take(s as int), set_runs@, apply),
        decreases n_sets - s,
    {
        proof {
            assert(sets@.take(s + 1).drop_last() =~= sets@.take(s as int));
            assert(sets@.take(s + 1).last() == sets@[s as int]);
        }
        if set_runs[s] {
            let m = sets[s].parallel_systems_len();
            let mut k: usize = 0;
            while k < m
                invariant
                    0 <= k <= m,
                    s < n_sets,
                    m == sets@[s as int].spec_parallel().len(),
                    actions@ == old(actions)@ + parallel_actions(
                        sets@.take(s as int),
                        set_runs@,
                        apply,
                    ) + set_parallel_actions(s, k as nat, apply),
                decreases m - k,
            {
                if apply {
                    actions.push(StageAction::ApplyBuffers(SystemIndex { set: s, system: k }));
                } else {
                    actions.push(StageAction::RunParallel(SystemIndex { set: s, system: k }));
                }
                proof {
                    assert(actions@ =~= old(actions)@ + parallel_actions(
                        sets@.take(s as int),
                        set_runs@,
                        apply,
                    ) + set_parallel_actions(s, (k + 1) as nat, apply));
                }
                k += 1;
            }
            proof {
                assert(actions@ =~= old(actions)@ + parallel_actions(
                    sets@.take(s + 1),
                    set_runs@,
                    apply,
                ));
            }
        } else {
            proof {
                assert(actions@ =~= old(actions)@ + parallel_actions(
                    sets@.take(s + 1),
                    set_runs@,
                    apply,
                ));
            }
        }
        s += 1;
    }
    proof {
        assert(sets@.take(n_sets as int) =~= sets@);
    }
}

impl SystemStage {
    /// Hands out, per set, the indices of systems that still need their
    /// one-time initialization against world and resources, and forgets
    /// them: the caller performs that outside work.  A stage that handed
    /// out anything is marked changed.
    #[verifier::loop_isolation(false)]
    pub fn initialize(&mut self) -> (r: Vec<(Vec<usize>, Vec<usize>)>)
        requires
            old(self).wf(),
        ensures
            final(self).wf(),
            r@.len() == old(self).spec_sets().len(),
            forall|s: int|
                0 <= s < r@.len() ==> (#[trigger] r@[s]).0@ == old(
                    self,
                ).spec_sets()[s].spec_uninitialized_sequential() && r@[s].1@ == old(
                    self,
                ).spec_sets()[s].spec_uninitialized_parallel(),
            forall|s: int|
                0 <= s < final(self).spec_sets().len() ==> (#[trigger] final(self).spec_sets()[s]).spec_parallel() == old(self).spec_sets()[s].spec_parallel()
                    && final(self).spec_sets()[s].spec_sequential() == old(
                    self,
                ).spec_sets()[s].spec_sequential(),
            forall|s: int|
                0 <= s < final(self).spec_sets().len() ==> (#[trigger] final(self).spec_sets()[s]).spec_uninitialized_parallel().len() == 0 && final(self).spec_sets()[s].spec_uninitialized_sequential().len() == 0,
    {
        let mut out: Vec<(Vec<usize>, Vec<usize>)> = Vec::new();
        let n_sets = self.system_sets.len();
        let mut changed = false;
        let mut s: usize = 0;
        while s < n_sets
            invariant
                0 <= s <= n_sets,
                n_sets == self.system_sets@.len(),
                n_sets == old(self).system_sets@.len(),
                out@.len() == s,
                self.run_criteria == old(self).run_criteria,
                self.serial == old(self).serial,
                self.executor == old(self).executor,
                self.at_start@ == old(self).at_start@,
                self.before_commands@ == old(self).before_commands@,
                self.at_end@ == old(self).at_end@,
                self.parallel_dependencies@ == old(self).parallel_dependencies@,
                forall|t: int|
                    0 <= t < s ==> (#[trigger] out@[t]).0@ == old(
                        self,
                    ).system_sets@[t].spec_uninitialized_sequential() && out@[t].1@ == old(
                        self,
                    ).system_sets@[t].spec_uninitialized_parallel(),
                forall|t: int|
                    s <= t < n_sets ==> #[trigger] self.system_sets@[t] == old(
                        self,
                    ).system_sets@[t],
                forall|t: int|
                    0 <= t < s ==> (#[trigger] self.system_sets@[t]).spec_parallel() == old(
                        self,
                    ).system_sets@[t].spec_parallel() && self.system_sets@[t].spec_sequential()
                        == old(self).system_sets@[t].spec_sequential()
                        && self.system_sets@[t].wf(),
                forall|t: int|
                    0 <= t < s ==> (#[trigger] self.system_sets@[t]).spec_uninitialized_parallel().len()
                        == 0 && self.system_sets@[t].spec_uninitialized_sequential().len() == 0,
                !changed ==> self.system_sets@ == old(self).system_sets@,
                changed ==> self.spec_any_dirty(),
            decreases n_sets - s,
        {
            proof {
                assert(old(self).system_sets@[s as int].wf());
            }
            let needs = self.system_sets[s].needs_initialization();
            if needs {
                let ghost pre = self.system_sets@;
                let set = &mut self.system_sets[s];
                let (seq_list, par_list) = set.initialize();
                set.mark_changed();
                out.push((seq_list, par_list));
                changed = true;
                proof {
                    assert(forall|t: int|
                        0 <= t < n_sets && t != s ==> self.system_sets@[t] == #[trigger] pre[t]);
                    assert(self.system_sets@[s as int].spec_dirty());
                    assert((s as int) < self.spec_sets().len());
                    assert(self.spec_sets()[s as int].spec_dirty());
                    assert(self.spec_any_dirty());
                }
            } else {
                let empty_pair: (Vec<usize>, Vec<usize>) = (Vec::new(), Vec::new());
                proof {
                    assert(old(self).system_sets@[s as int].spec_uninitialized_parallel()
                        =~= Seq::<usize>::empty());
                    assert(old(self).system_sets@[s as int].spec_uninitialized_sequential()
                        =~= Seq::<usize>::empty());
                }
                out.push(empty_pair);
            }
            s += 1;
        }
        proof {
            if !changed {
                assert(self.system_sets@ == old(self).system_sets@);
                assert forall|t: int|
                    0 <= t < n_sets implies (#[trigger] self.system_sets@[t]).wf() by {
                    assert(old(self).system_sets@[t].wf());
                }
            }
        }
        out
    }

    /// Rebuilds the exclusive orders and the parallel dependency graph
    /// from the current sets.  Succeeds exactly when every ordering label
    /// resolves and the declared constraints have no cycle; on failure the
    /// stage is left as it was.
    #[verifier::loop_isolation(false)]
    #[verifier::rlimit(40)]
    pub fn rebuild_orders_and_dependencies(&mut self) -> (r: Result<(), StageError>)
        requires
            forall|s: int|
                0 <= s < old(self).spec_sets().len() ==> (#[trigger] old(self).spec_sets()[s]).wf(),
        ensures
            final(self).spec_sets() == old(self).spec_sets(),
            final(self).spec_serial() == old(self).spec_serial(),
            final(self).spec_criteria() == old(self).spec_criteria(),
            final(self).spec_executor() == old(self).spec_executor(),
            r is Ok <==> (slot_labels_resolvable(old(self).spec_sets(), InjectionPoint::AtStart)
                && slot_labels_resolvable(old(self).spec_sets(), InjectionPoint::BeforeCommands)
                && slot_labels_resolvable(old(self).spec_sets(), InjectionPoint::AtEnd)
                && slot_placeable(old(self).spec_sets(), InjectionPoint::AtStart)
                && slot_placeable(old(self).spec_sets(), InjectionPoint::BeforeCommands)
                && slot_placeable(old(self).spec_sets(), InjectionPoint::AtEnd)
                && parallel_labels_resolvable(old(self).spec_sets()) && parallel_before_resolvable(
                old(self).spec_sets(),
            ) && !has_declared_cycle(old(self).spec_sets())),
            match r {
                Err(StageError::MissingLabel { system, label }) => stage_member_declares(
                    old(self).spec_sets(),
                    system,
                    label,
                ),
                Err(StageError::TargetNotPlaced { system, label }) => stage_member_declares(
                    old(self).spec_sets(),
                    system,
                    label,
                ),
                Err(StageError::DependencyCycle { members, labels }) => {
                    &&& has_declared_cycle(old(self).spec_sets())
                    &&& members@.len() > 0
                    &&& forall|p: Seq<usize>, i: int|
                        #[trigger] is_declared_cycle(old(self).spec_sets(), p) && 0 <= i
                            < p.len() ==> (exists|j: int|
                            0 <= j < members@.len() && #[trigger] members@[j]
                                == crate::executor_parallel::flat_position(
                                old(self).spec_sets(),
                                (#[trigger] p[i]) as int,
                            )) && (match flat_parallel(old(self).spec_sets(), p[i] as int).label {
                            Some(l) => labels@.contains(l),
                            None => true,
                        })
                },
                Err(StageError::SystemAlreadyExists(_)) => false,
                Err(StageError::InfiniteLoopCriterion) => false,
                Ok(_) => true,
            },
            r is Ok ==> {
                &&& total_parallel(old(self).spec_sets()) <= usize::MAX
                &&& total_sequential(old(self).spec_sets()) <= usize::MAX
                &&& final(self).spec_at_start() == slot_order(
                    old(self).spec_sets(),
                    InjectionPoint::AtStart,
                )
                &&& final(self).spec_before_commands() == slot_order(
                    old(self).spec_sets(),
                    InjectionPoint::BeforeCommands,
                )
                &&& final(self).spec_at_end() == slot_order(
                    old(self).spec_sets(),
                    InjectionPoint::AtEnd,
                )
                &&& final(self).spec_dependencies().len() == total_parallel(old(self).spec_sets())
                &&& graph_wf(final(self).spec_dependencies())
                &&& !has_cycle(final(self).spec_dependencies())
                &&& forall|u: int|
                    0 <= u < final(self).spec_dependencies().len() ==> (#[trigger] final(self).spec_dependencies()[u]).no_duplicates()
                &&& forall|u: int, v: int|
                    0 <= u < final(self).spec_dependencies().len() && 0 <= v < final(self).spec_dependencies().len() ==> ((#[trigger] final(self).spec_dependencies()[u].contains(v as usize)) <==> declared_edge(
                        old(self).spec_sets(),
                        u,
                        v,
                    ))
            },
            r is Err ==> final(self).spec_at_start() == old(self).spec_at_start() && final(self).spec_before_commands() == old(self).spec_before_commands() && final(self).spec_at_end() == old(self).spec_at_end() && final(self).spec_dependencies() == old(
                self,
            ).spec_dependencies(),
    {
        let at_start = match build_slot_order(&self.system_sets, InjectionPoint::AtStart) {
            Ok(v) => v,
            Err(e) => {
                proof {
                    match e {
                        StageError::MissingLabel { system, label } => {
                            assert(slot_member_declares(
                                old(self).spec_sets(),
                                InjectionPoint::AtStart,
                                system,
                                label,
                            ));
                            assert(stage_member_declares(old(self).spec_sets(), system, label));
                        },
                        StageError::TargetNotPlaced { system, label } => {
                            assert(slot_member_declares(
                                old(self).spec_sets(),
                                InjectionPoint::AtStart,
                                system,
                                label,
                            ));
                            assert(stage_member_declares(old(self).spec_sets(), system, label));
                        },
                        _ => {},
                    }
                }
                return Err(e);
            },
        };
        let before_commands = match build_slot_order(
            &self.system_sets,
            InjectionPoint::BeforeCommands,
        ) {
            Ok(v) => v,
            Err(e) => {
                proof {
                    match e {
                        StageError::MissingLabel { system, label } => {
                            assert(slot_member_declares(
                                old(self).spec_sets(),
                                InjectionPoint::BeforeCommands,
                                system,
                                label,
                            ));
                            assert(stage_member_declares(old(self).spec_sets(), system, label));
                        },
                        StageError::TargetNotPlaced { system, label } => {
                            assert(slot_member_declares(
                                old(self).spec_sets(),
                                InjectionPoint::BeforeCommands,
                                system,
                                label,
                            ));
                            assert(stage_member_declares(old(self).spec_sets(), system, label));
                        },
                        _ => {},
                    }
                }
                return Err(e);
            },
        };
        let at_end = match build_slot_order(&self.system_sets, InjectionPoint::AtEnd) {
            Ok(v) => v,
            Err(e) => {
                proof {
                    match e {
                        StageError::MissingLabel { system, label } => {
                            assert(slot_member_declares(
                                old(self).spec_sets(),
                                InjectionPoint::AtEnd,
                                system,
                                label,
                            ));
                            assert(stage_member_declares(old(self).spec_sets(), system, label));
                        },
                        StageError::TargetNotPlaced { system, label } => {
                            assert(slot_member_declares(
                                old(self).spec_sets(),
                                InjectionPoint::AtEnd,
                                system,
                                label,
                            ));
                            assert(stage_member_declares(old(self).spec_sets(), system, label));
                        },
                        _ => {},
                    }
                }
                return Err(e);
            },
        };
        let index_map = build_index_map(&self.system_sets);
        let total = index_map.len();
        let seq_count = count_sequential(&self.system_sets);
        proof {
            vstd::std_specs::vec::axiom_spec_len(&index_map);
            vstd::std_specs::vec::axiom_spec_len(&seq_count);
        }
        let deps = match build_parallel_dependencies(&self.system_sets, total) {
            Ok(v) => v,
            Err(e) => {
                proof {
                    match e {
                        StageError::MissingLabel { system, label } => {
                            assert(parallel_member_declares(
                                old(self).spec_sets(),
                                system,
                                label,
                            ));
                            assert(stage_member_declares(old(self).spec_sets(), system, label));
                        },
                        _ => {},
                    }
                }
                return Err(e);
            },
        };
        match topological_sorting(&deps) {
            SortingResult::Sorted(_) => {
                proof {
                    lemma_cycle_transfer(self.system_sets@, graph_of(deps@));
                }
                self.at_start = at_start;
                self.before_commands = before_commands;
                self.at_end = at_end;
                self.parallel_dependencies = deps;
                Ok(())
            },
            SortingResult::FoundCycle(rem) => {
                proof {
                    lemma_cycle_transfer(self.system_sets@, graph_of(deps@));
                    vstd::std_specs::vec::axiom_spec_len(&self.system_sets);
                    assert forall|t: int|
                        0 <= t < self.system_sets@.len() implies (
                    #[trigger] self.system_sets@[t]).wf() by {
                        assert(old(self).spec_sets()[t].wf());
                    }
                }
                let mut members: Vec<SystemIndex> = Vec::new();
                let mut labels: Vec<u64> = Vec::new();
                let m = rem.len();
                let mut j: usize = 0;
                while j < m
                    invariant
                        0 <= j <= m,
                        m == rem@.len(),
                        total == total_parallel(self.system_sets@),
                        index_map@.len() == total,
                        forall|t: int|
                            0 <= t < index_map@.len() ==> #[trigger] index_map@[t]
                                == crate::executor_parallel::flat_position(self.system_sets@, t),
                        forall|t: int| 0 <= t < rem@.len() ==> #[trigger] rem@[t] < total,
                        total_parallel(self.system_sets@) <= usize::MAX,
                        self.system_sets@.len() <= usize::MAX,
                        forall|t: int|
                            0 <= t < self.system_sets@.len() ==> (
                            #[trigger] self.system_sets@[t]).wf(),
                        members@.len() == j,
                        forall|t: int|
                            0 <= t < j ==> #[trigger] members@[t]
                                == crate::executor_parallel::flat_position(
                                self.system_sets@,
                                rem@[t] as int,
                            ),
                        forall|t: int|
                            0 <= t < j ==> match flat_parallel(
                                self.system_sets@,
                                #[trigger] rem@[t] as int,
                            ).label {
                                Some(l) => labels@.contains(l),
                                None => true,
                            },
                    decreases m - j,
                {
                    let flat = rem[j];
                    let position = index_map[flat];
                    members.push(position);
                    proof {
                        lemma_flat_position_valid(self.system_sets@, flat as int);
                    }
                    let set_ref = &self.system_sets[position.set];
                    let ghost pre_labels = labels@;
                    match set_ref.parallel_systems()[position.system].label {
                        Some(l) => {
                            labels.push(l);
                            proof {
                                assert(labels@[labels@.len() - 1] == l);
                            }
                        },
                        None => {},
                    }
                    proof {
                        // labels only grow, so earlier coverage is kept
                        assert forall|t: int|
                            0 <= t < j + 1 implies match flat_parallel(
                            self.system_sets@,
                            #[trigger] rem@[t] as int,
                        ).label {
                            Some(l) => labels@.contains(l),
                            None => true,
                        } by {
                            match flat_parallel(self.system_sets@, rem@[t] as int).label {
                                Some(l) => {
                                    if t < j {
                                        let x = choose|x: int|
                                            0 <= x < pre_labels.len() && pre_labels[x] == l;
                                        assert(labels@[x] == l);
                                    }
                                },
                                None => {},
                            }
                        }
                    }
                    j += 1;
                }
                proof {
                    // every declared cycle's nodes are among the stuck
                    // ones, so the payload covers them and their labels
                    assert forall|p: Seq<usize>, i: int|
                        #[trigger] is_declared_cycle(self.system_sets@, p) && 0 <= i
                        < p.len() implies (exists|j2: int|
                        0 <= j2 < members@.len() && #[trigger] members@[j2]
                            == crate::executor_parallel::flat_position(
                            self.system_sets@,
                            (#[trigger] p[i]) as int,
                        )) && (match flat_parallel(self.system_sets@, p[i] as int).label {
                        Some(l) => labels@.contains(l),
                        None => true,
                    }) by {
                        lemma_declared_cycle_to_graph(self.system_sets@, graph_of(deps@), p);
                        assert(crate::sorting::is_cycle(graph_of(deps@), p));
                        assert(rem@.contains(p[i]));
                        let t = choose|t: int| 0 <= t < rem@.len() && rem@[t] == p[i];
                        assert(members@[t] == crate::executor_parallel::flat_position(
                            self.system_sets@,
                            rem@[t] as int,
                        ));
                    }
                    assert(members@.len() > 0);
                    // the same facts, phrased over the caller's view of
                    // the sets, which this path never changed
                    assert(self.system_sets@ == old(self).spec_sets());
                    assert(has_declared_cycle(old(self).spec_sets()));
                    assert forall|p: Seq<usize>, i: int|
                        #[trigger] is_declared_cycle(old(self).spec_sets(), p) && 0 <= i
                        < p.len() implies (exists|j2: int|
                        0 <= j2 < members@.len() && #[trigger] members@[j2]
                            == crate::executor_parallel::flat_position(
                            old(self).spec_sets(),
                            (#[trigger] p[i]) as int,
                        )) && (match flat_parallel(old(self).spec_sets(), p[i] as int).label {
                        Some(l) => labels@.contains(l),
                        None => true,
                    }) by {
                        assert(is_declared_cycle(self.system_sets@, p));
                        let j2 = choose|j2: int|
                            0 <= j2 < members@.len() && #[trigger] members@[j2]
                                == crate::executor_parallel::flat_position(
                                self.system_sets@,
                                p[i] as int,
                            );
                        assert(members@[j2] == crate::executor_parallel::flat_position(
                            old(self).spec_sets(),
                            p[i] as int,
                        ));
                    }
                }
                Err(StageError::DependencyCycle { members, labels })
            },
        }
    }

    /// Prepares one pass: when any set changed, clears the dirty bits,
    /// rebuilds orders and dependencies, and regenerates the executor
    /// scheduling data, returning the gathered universes.  A stage with no
    /// changed set does nothing at all.
    #[verifier::loop_isolation(false)]
    pub fn run_once(&mut self, archetypes: &Archetypes) -> (r: Result<
        Option<(Vec<u64>, Vec<crate::access::ArchetypeComponent>)>,
        StageError,
    >)
        requires
            old(self).wf(),
        ensures
            final(self).wf(),
            !old(self).spec_any_dirty() ==> r == Ok::<
                Option<(Vec<u64>, Vec<crate::access::ArchetypeComponent>)>,
                StageError,
            >(None) && *final(self) == *old(self),
            old(self).spec_any_dirty() ==> (r is Ok <==> (slot_labels_resolvable(
                old(self).spec_sets(),
                InjectionPoint::AtStart,
            ) && slot_labels_resolvable(old(self).spec_sets(), InjectionPoint::BeforeCommands)
                && slot_labels_resolvable(old(self).spec_sets(), InjectionPoint::AtEnd)
                && slot_placeable(old(self).spec_sets(), InjectionPoint::AtStart)
                && slot_placeable(old(self).spec_sets(), InjectionPoint::BeforeCommands)
                && slot_placeable(old(self).spec_sets(), InjectionPoint::AtEnd)
                && parallel_labels_resolvable(old(self).spec_sets())
                && parallel_before_resolvable(old(self).spec_sets()) && !has_declared_cycle(
                old(self).spec_sets(),
            ))),
            r is Ok ==> !final(self).spec_any_dirty() && final(self).rebuilt_consistent(),
            final(self).spec_serial() == old(self).spec_serial(),
            final(self).spec_criteria() == old(self).spec_criteria(),
            final(self).spec_sets().len() == old(self).spec_sets().len(),
            forall|s: int|
                0 <= s < final(self).spec_sets().len() ==> (#[trigger] final(self).spec_sets()[s]).spec_parallel() == old(self).spec_sets()[s].spec_parallel()
                    && final(self).spec_sets()[s].spec_sequential() == old(
                    self,
                ).spec_sets()[s].spec_sequential(),
    {
        let mut any_dirty = false;
        let n_sets = self.system_sets.len();
        let mut s: usize = 0;
        while s < n_sets
            invariant
                0 <= s <= n_sets,
                n_sets == self.system_sets@.len(),
                *self == *old(self),
                any_dirty <==> exists|t: int|
                    0 <= t < s && (#[trigger] self.system_sets@[t]).spec_dirty(),
            decreases n_sets - s,
        {
            if self.system_sets[s].is_dirty() {
                any_dirty = true;
                proof {
                    assert(self.system_sets@[s as int].spec_dirty());
                }
            }
            s += 1;
        }
        if !any_dirty {
            proof {
                assert(!self.spec_any_dirty());
            }
            return Ok(None);
        }
        // forget the dirty bits first, so that the caches relate to the
        // final value of the sets
        let ghost pre_sets = self.system_sets@;
        let mut s: usize = 0;
        while s < n_sets
            invariant
                0 <= s <= n_sets,
                n_sets == self.system_sets@.len(),
                n_sets == pre_sets.len(),
                pre_sets == old(self).system_sets@,
                self.run_criteria == old(self).run_criteria,
                self.serial == old(self).serial,
                self.executor == old(self).executor,
                self.at_start@ == old(self).at_start@,
                self.before_commands@ == old(self).before_commands@,
                self.at_end@ == old(self).at_end@,
                self.parallel_dependencies@ == old(self).parallel_dependencies@,
                forall|t: int| 0 <= t < s ==> !(#[trigger] self.system_sets@[t]).spec_dirty(),
                forall|t: int|
                    0 <= t < n_sets ==> (#[trigger] self.system_sets@[t]).spec_parallel()
                        == pre_sets[t].spec_parallel() && self.system_sets@[t].spec_sequential()
                        == pre_sets[t].spec_sequential() && self.system_sets@[t].wf()
                        && self.system_sets@[t].spec_criteria() == pre_sets[t].spec_criteria(),
                forall|t: int| s <= t < n_sets ==> #[trigger] self.system_sets@[t] == pre_sets[t],
            decreases n_sets - s,
        {
            proof {
                assert(old(self).spec_sets()[s as int].wf());
                assert(pre_sets[s as int].wf());
            }
            let ghost mid_sets = self.system_sets@;
            let set = &mut self.system_sets[s];
            set.clear_dirty();
            proof {
                assert(forall|t: int|
                    0 <= t < n_sets && t != s ==> self.system_sets@[t] == #[trigger] mid_sets[t]);
            }
            s += 1;
        }
        proof {
            assert(!self.spec_any_dirty());
        }
        let ghost cleaned = self.system_sets@;
        proof {
            assert(same_systems_listed(old(self).spec_sets(), cleaned)) by {
                assert forall|t: int|
                    0 <= t < old(self).spec_sets().len() implies (#[trigger] old(
                    self,
                ).spec_sets()[t]).spec_parallel() == cleaned[t].spec_parallel() && old(
                    self,
                ).spec_sets()[t].spec_sequential() == cleaned[t].spec_sequential() by {
                    assert(self.system_sets@[t].spec_parallel() == pre_sets[t].spec_parallel());
                }
            }
            lemma_scheduling_views_transfer(old(self).spec_sets(), cleaned);
            assert(slot_labels_resolvable(old(self).spec_sets(), InjectionPoint::AtStart)
                == slot_labels_resolvable(cleaned, InjectionPoint::AtStart));
            assert(slot_labels_resolvable(old(self).spec_sets(), InjectionPoint::BeforeCommands)
                == slot_labels_resolvable(cleaned, InjectionPoint::BeforeCommands));
            assert(slot_labels_resolvable(old(self).spec_sets(), InjectionPoint::AtEnd)
                == slot_labels_resolvable(cleaned, InjectionPoint::AtEnd));
            assert(slot_placeable(old(self).spec_sets(), InjectionPoint::AtStart)
                == slot_placeable(cleaned, InjectionPoint::AtStart));
            assert(slot_placeable(old(self).spec_sets(), InjectionPoint::BeforeCommands)
                == slot_placeable(cleaned, InjectionPoint::BeforeCommands));
            assert(slot_placeable(old(self).spec_sets(), InjectionPoint::AtEnd)
                == slot_placeable(cleaned, InjectionPoint::AtEnd));
        }
        match self.rebuild_orders_and_dependencies() {
            Ok(()) => {},
            Err(e) => {
                let first = &mut self.system_sets[0];
                first.mark_changed();
                proof {
                    assert(self.spec_sets()[0].spec_dirty());
                    assert(self.spec_any_dirty());
                }
                return Err(e);
            },
        }
        proof {
            assert(graph_of(self.parallel_dependencies@) == self.spec_dependencies());
            assert forall|u: int|
                0 <= u < self.parallel_dependencies@.len() implies (
            #[trigger] self.parallel_dependencies@[u]@).no_duplicates() by {
                assert(self.spec_dependencies()[u].no_duplicates());
                assert(self.spec_dependencies()[u] == self.parallel_dependencies@[u]@);
            }
        }
        let universes = self.executor.rebuild_scheduling_data(
            &self.system_sets,
            &self.parallel_dependencies,
            archetypes,
        );
        proof {
            assert(!self.spec_any_dirty());
            assert forall|i: int|
                0 <= i < self.spec_executor().spec_n() implies #[trigger] self.spec_executor().spec_deps(
                i,
            ) == self.spec_dependencies()[i] by {
                assert(self.spec_executor().spec_deps(i) == self.parallel_dependencies@[i]@);
            }
            assert(self.rebuilt_consistent());
        }
        Ok(Some(universes))
    }

    /// Whether the parallel dependency graph of the last rebuild has a
    /// cycle; a rebuilt stage never has one.
    pub fn has_a_dependency_cycle(&self) -> (r: bool)
        requires
            self.wf(),
            !self.spec_any_dirty(),
        ensures
            r == has_cycle(self.spec_dependencies()),
            !r,
    {
        match topological_sorting(&self.parallel_dependencies) {
            SortingResult::Sorted(_) => false,
            SortingResult::FoundCycle(_) => true,
        }
    }

    /// The instruction sequence of one serial pass over this stage, given
    /// which sets' criteria said yes: the start exclusives, every parallel
    /// system in set-major order, the before-commands exclusives, the
    /// deferred command buffers in the same stable order, and the end
    /// exclusives.
    pub fn plan_pass(&self, set_runs: &Vec<bool>) -> (r: Vec<StageAction>)
        requires
            self.wf(),
            !self.spec_any_dirty(),
            set_runs@.len() == self.spec_sets().len(),
        ensures
            r@ == serial_pass_plan(
                self.spec_sets(),
                self.spec_at_start(),
                self.spec_before_commands(),
                self.spec_at_end(),
                set_runs@,
            ),
    {
        proof {
            vstd::std_specs::vec::axiom_spec_len(&self.system_sets);
            lemma_slot_order_entries_valid(
                self.system_sets@,
                InjectionPoint::AtStart,
                total_sequential(self.system_sets@) as int,
            );
            lemma_slot_order_entries_valid(
                self.system_sets@,
                InjectionPoint::BeforeCommands,
                total_sequential(self.system_sets@) as int,
            );
            lemma_slot_order_entries_valid(
                self.system_sets@,
                InjectionPoint::AtEnd,
                total_sequential(self.system_sets@) as int,
            );
        }
        let mut actions: Vec<StageAction> = Vec::new();
        append_exclusive_actions(&mut actions, &self.at_start, set_runs);
        append_parallel_actions(&mut actions, &self.system_sets, set_runs, false);
        append_exclusive_actions(&mut actions, &self.before_commands, set_runs);
        append_parallel_actions(&mut actions, &self.system_sets, set_runs, true);
        append_exclusive_actions(&mut actions, &self.at_end, set_runs);
        proof {
            assert(actions@ =~= serial_pass_plan(
                self.spec_sets(),
                self.spec_at_start(),
                self.spec_before_commands(),
                self.spec_at_end(),
                set_runs@,
            ));
        }
        actions
    }
}

/// With no set allowed to run, an exclusive slot emits nothing.
proof fn lemma_no_runs_no_exclusive(order: Seq<SystemIndex>, runs: Seq<bool>)
    requires
        forall|s: int| 0 <= s < runs.len() ==> !runs[s],
    ensures
        exclusive_actions(order, runs).len() == 0,
    decreases order.len(),
{
    if order.len() > 0 {
        lemma_no_runs_no_exclusive(order.drop_last(), runs);
    }
}

/// With no set allowed to run, the parallel phases emit nothing.
proof fn lemma_no_runs_no_parallel(sets: Seq<SystemSet>, runs: Seq<bool>, apply: bool)
    requires
        forall|s: int| 0 <= s < runs.len() ==> !runs[s],
    ensures
        parallel_actions(sets, runs, apply).len() == 0,
    decreases sets.len(),
{
    if sets.len() > 0 {
        lemma_no_runs_no_parallel(sets.drop_last(), runs, apply);
    }
}

/// A pass whose sets all answered no emits no instruction at all: the
/// world and the resources are left untouched.
pub proof fn lemma_no_runs_empty_plan(
    sets: Seq<SystemSet>,
    at_start: Seq<SystemIndex>,
    before_commands: Seq<SystemIndex>,
    at_end: Seq<SystemIndex>,
    runs: Seq<bool>,
)
    requires
        forall|s: int| 0 <= s < runs.len() ==> !runs[s],
    ensures
        serial_pass_plan(sets, at_start, before_commands, at_end, runs).len() == 0,
{
    lemma_no_runs_no_exclusive(at_start, runs);
    lemma_no_runs_no_exclusive(before_commands, runs);
    lemma_no_runs_no_exclusive(at_end, runs);
    lemma_no_runs_no_parallel(sets, runs, false);
    lemma_no_runs_no_parallel(sets, runs, true);
}

/// Two set lists agree on everything scheduling reads: each pair of sets
/// has the same parallel and exclusive systems.  Bookkeeping such as the
/// dirty bits plays no role.
pub open spec fn same_systems_listed(a: Seq<SystemSet>, b: Seq<SystemSet>) -> bool {
    &&& a.len() == b.len()
    &&& forall|s: int|
        0 <= s < a.len() ==> (#[trigger] a[s]).spec_parallel() == b[s].spec_parallel()
            && a[s].spec_sequential() == b[s].spec_sequential()
}

/// Totals are read off the systems alone.
proof fn lemma_totals_transfer(a: Seq<SystemSet>, b: Seq<SystemSet>)
    requires
        same_systems_listed(a, b),
    ensures
        total_parallel(a) == total_parallel(b),
        total_sequential(a) == total_sequential(b),
    decreases a.len(),
{
    if a.len() > 0 {
        assert(same_systems_listed(a.drop_last(), b.drop_last())) by {
            assert forall|s: int|
                0 <= s < a.drop_last().len() implies (#[trigger] a.drop_last()[s]).spec_parallel()
                == b.drop_last()[s].spec_parallel() && a.drop_last()[s].spec_sequential()
                == b.drop_last()[s].spec_sequential() by {
                assert(a.drop_last()[s] == a[s]);
                assert(b.drop_last()[s] == b[s]);
            }
        }
        lemma_totals_transfer(a.drop_last(), b.drop_last());
        assert(a.last().spec_parallel() == b.last().spec_parallel());
        assert(a.last().spec_sequential() == b.last().spec_sequential());
    }
}

/// Flat parallel positions are read off the systems alone.
proof fn lemma_flat_parallel_transfer(a: Seq<SystemSet>, b: Seq<SystemSet>, i: int)
    requires
        same_systems_listed(a, b),
        0 <= i < total_parallel(a),
    ensures
        flat_parallel(a, i) == flat_parallel(b, i),
        crate::executor_parallel::flat_position(a, i) == crate::executor_parallel::flat_position(
            b,
            i,
        ),
    decreases a.len(),
{
    lemma_totals_transfer(a, b);
    assert(same_systems_listed(a.drop_last(), b.drop_last())) by {
        assert forall|s: int|
            0 <= s < a.drop_last().len() implies (#[trigger] a.drop_last()[s]).spec_parallel()
            == b.drop_last()[s].spec_parallel() && a.drop_last()[s].spec_sequential()
            == b.drop_last()[s].spec_sequential() by {
            assert(a.drop_last()[s] == a[s]);
            assert(b.drop_last()[s] == b[s]);
        }
    }
    lemma_totals_transfer(a.drop_last(), b.drop_last());
    if i < total_parallel(a.drop_last()) {
        lemma_flat_parallel_transfer(a.drop_last(), b.drop_last(), i);
    } else {
        assert(a.last().spec_parallel() == b.last().spec_parallel());
    }
}

/// Flat exclusive positions are read off the systems alone.
proof fn lemma_flat_sequential_transfer(a: Seq<SystemSet>, b: Seq<SystemSet>, i: int)
    requires
        same_systems_listed(a, b),
        0 <= i < total_sequential(a),
    ensures
        flat_sequential(a, i) == flat_sequential(b, i),
        flat_seq_position(a, i) == flat_seq_position(b, i),
    decreases a.len(),
{
    lemma_totals_transfer(a, b);
    assert(same_systems_listed(a.drop_last(), b.drop_last())) by {
        assert forall|s: int|
            0 <= s < a.drop_last().len() implies (#[trigger] a.drop_last()[s]).spec_parallel()
            == b.drop_last()[s].spec_parallel() && a.drop_last()[s].spec_sequential()
            == b.drop_last()[s].spec_sequential() by {
            assert(a.drop_last()[s] == a[s]);
            assert(b.drop_last()[s] == b[s]);
        }
    }
    lemma_totals_transfer(a.drop_last(), b.drop_last());
    if i < total_sequential(a.drop_last()) {
        lemma_flat_sequential_transfer(a.drop_last(), b.drop_last(), i);
    } else {
        assert(a.last().spec_sequential() == b.last().spec_sequential());
    }
}

/// Parallel label lookups are read off the systems alone.
proof fn lemma_parallel_label_transfer(a: Seq<SystemSet>, b: Seq<SystemSet>, i: int, label: u64)
    requires
        same_systems_listed(a, b),
        0 <= i <= total_parallel(a),
    ensures
        parallel_label_upto(a, i, label) == parallel_label_upto(b, i, label),
    decreases i,
{
    if i > 0 {
        lemma_flat_parallel_transfer(a, b, i - 1);
        lemma_parallel_label_transfer(a, b, i - 1, label);
    }
}

/// Slot label lookups are read off the systems alone.
proof fn lemma_slot_label_transfer(
    a: Seq<SystemSet>,
    b: Seq<SystemSet>,
    point: InjectionPoint,
    i: int,
    label: u64,
)
    requires
        same_systems_listed(a, b),
        0 <= i <= total_sequential(a),
    ensures
        slot_label_upto(a, point, i, label) == slot_label_upto(b, point, i, label),
    decreases i,
{
    if i > 0 {
        lemma_flat_sequential_transfer(a, b, i - 1);
        lemma_slot_label_transfer(a, b, point, i - 1, label);
    }
}

/// Slot orders are read off the systems alone.
proof fn lemma_slot_order_transfer(
    a: Seq<SystemSet>,
    b: Seq<SystemSet>,
    point: InjectionPoint,
    i: int,
)
    requires
        same_systems_listed(a, b),
        0 <= i <= total_sequential(a),
    ensures
        slot_order_upto(a, point, i) == slot_order_upto(b, point, i),
    decreases i,
{
    lemma_totals_transfer(a, b);
    if i > 0 {
        lemma_slot_order_transfer(a, b, point, i - 1);
        lemma_flat_sequential_transfer(a, b, i - 1);
        let d = flat_sequential(a, i - 1);
        if d.injection_point == point {
            match d.ordering {
                Ordering::Unordered => {},
                Ordering::Before(l) => {
                    lemma_slot_label_transfer(a, b, point, total_sequential(a) as int, l);
                },
                Ordering::After(l) => {
                    lemma_slot_label_transfer(a, b, point, total_sequential(a) as int, l);
                },
            }
        }
    }
}

/// The well-formedness of the declared ordering constraints is read off
/// the systems alone: label resolution, slot placement, and cycles agree
/// between two set lists with the same systems.
pub proof fn lemma_scheduling_views_transfer(a: Seq<SystemSet>, b: Seq<SystemSet>)
    requires
        same_systems_listed(a, b),
    ensures
        total_parallel(a) == total_parallel(b),
        total_sequential(a) == total_sequential(b),
        forall|pt: InjectionPoint|
            #[trigger] slot_labels_resolvable(a, pt) == slot_labels_resolvable(b, pt),
        forall|pt: InjectionPoint| #[trigger] slot_placeable(a, pt) == slot_placeable(b, pt),
        parallel_labels_resolvable(a) == parallel_labels_resolvable(b),
        parallel_before_resolvable(a) == parallel_before_resolvable(b),
        has_declared_cycle(a) == has_declared_cycle(b),
{
    lemma_totals_transfer(a, b);
    assert(same_systems_listed(b, a)) by {
        assert forall|t: int|
            0 <= t < b.len() implies (#[trigger] b[t]).spec_parallel() == a[t].spec_parallel()
            && b[t].spec_sequential() == a[t].spec_sequential() by {
            assert(a[t].spec_parallel() == b[t].spec_parallel());
        }
    }
    assert forall|pt: InjectionPoint| #[trigger] slot_labels_resolvable(a, pt)
        == slot_labels_resolvable(b, pt) by {
        if slot_labels_resolvable(a, pt) {
            lemma_slot_resolvable_transfer(a, b, pt);
        }
        if slot_labels_resolvable(b, pt) {
            lemma_slot_resolvable_transfer(b, a, pt);
        }
    }
    assert forall|pt: InjectionPoint| #[trigger] slot_placeable(a, pt) == slot_placeable(
        b,
        pt,
    ) by {
        if slot_placeable(a, pt) {
            lemma_slot_placeable_transfer(a, b, pt);
        }
        if slot_placeable(b, pt) {
            lemma_slot_placeable_transfer(b, a, pt);
        }
    }
    if parallel_labels_resolvable(a) || parallel_before_resolvable(a) {
        lemma_parallel_resolvable_transfer(a, b);
    }
    if parallel_labels_resolvable(b) || parallel_before_resolvable(b) {
        lemma_parallel_resolvable_transfer(b, a);
    }
    if has_declared_cycle(a) {
        lemma_declared_cycle_spec_transfer(a, b);
    }
    if has_declared_cycle(b) {
        lemma_declared_cycle_spec_transfer(b, a);
    }
}

/// One direction of slot-resolvability transfer.
proof fn lemma_slot_resolvable_transfer(a: Seq<SystemSet>, b: Seq<SystemSet>, pt: InjectionPoint)
    requires
        same_systems_listed(a, b),
        slot_labels_resolvable(a, pt),
    ensures
        slot_labels_resolvable(b, pt),
{
    lemma_totals_transfer(a, b);
    assert forall|i: int|
        0 <= i < total_sequential(b) && (#[trigger] flat_sequential(b, i)).injection_point == pt
        implies match flat_sequential(b, i).ordering {
        Ordering::Unordered => true,
        Ordering::Before(l) => slot_label_lookup(b, pt, l) is Some,
        Ordering::After(l) => slot_label_lookup(b, pt, l) is Some,
    } by {
        lemma_flat_sequential_transfer(a, b, i);
        assert(flat_sequential(a, i).injection_point == pt);
        match flat_sequential(a, i).ordering {
            Ordering::Unordered => {},
            Ordering::Before(l) => {
                lemma_slot_label_transfer(a, b, pt, total_sequential(a) as int, l);
            },
            Ordering::After(l) => {
                lemma_slot_label_transfer(a, b, pt, total_sequential(a) as int, l);
            },
        }
    }
}

/// One direction of slot-placement transfer.
proof fn lemma_slot_placeable_transfer(a: Seq<SystemSet>, b: Seq<SystemSet>, pt: InjectionPoint)
    requires
        same_systems_listed(a, b),
        slot_placeable(a, pt),
    ensures
        slot_placeable(b, pt),
{
    lemma_totals_transfer(a, b);
    assert forall|i: int|
        0 <= i < total_sequential(b) && (#[trigger] flat_sequential(b, i)).injection_point == pt
        implies match flat_sequential(b, i).ordering {
        Ordering::Unordered => true,
        Ordering::Before(l) => match slot_label_lookup(b, pt, l) {
            Some(t) => first_position(slot_order_upto(b, pt, i), t) >= 0,
            None => false,
        },
        Ordering::After(l) => match slot_label_lookup(b, pt, l) {
            Some(t) => first_position(slot_order_upto(b, pt, i), t) >= 0,
            None => false,
        },
    } by {
        lemma_flat_sequential_transfer(a, b, i);
        assert(flat_sequential(a, i).injection_point == pt);
        match flat_sequential(a, i).ordering {
            Ordering::Unordered => {},
            Ordering::Before(l) => {
                lemma_slot_label_transfer(a, b, pt, total_sequential(a) as int, l);
                lemma_slot_order_transfer(a, b, pt, i);
            },
            Ordering::After(l) => {
                lemma_slot_label_transfer(a, b, pt, total_sequential(a) as int, l);
                lemma_slot_order_transfer(a, b, pt, i);
            },
        }
    }
}

/// One direction of the parallel-resolvability transfers.
proof fn lemma_parallel_resolvable_transfer(a: Seq<SystemSet>, b: Seq<SystemSet>)
    requires
        same_systems_listed(a, b),
        parallel_labels_resolvable(a) || parallel_before_resolvable(a),
    ensures
        parallel_labels_resolvable(a) ==> parallel_labels_resolvable(b),
        parallel_before_resolvable(a) ==> parallel_before_resolvable(b),
{
    lemma_totals_transfer(a, b);
    if parallel_labels_resolvable(a) {
        assert forall|u: int, x: int|
            0 <= u < total_parallel(b) && 0 <= x < flat_parallel(b, u).after@.len()
            implies parallel_label_lookup(b, #[trigger] flat_parallel(b, u).after@[x]) is Some by {
            lemma_flat_parallel_transfer(a, b, u);
            lemma_parallel_label_transfer(a, b, total_parallel(a) as int, flat_parallel(
                a,
                u,
            ).after@[x]);
        }
    }
    if parallel_before_resolvable(a) {
        assert forall|u: int, x: int|
            0 <= u < total_parallel(b) && 0 <= x < flat_parallel(b, u).before@.len()
            implies parallel_label_lookup(b, #[trigger] flat_parallel(b, u).before@[x]) is Some by {
            lemma_flat_parallel_transfer(a, b, u);
            lemma_parallel_label_transfer(a, b, total_parallel(a) as int, flat_parallel(
                a,
                u,
            ).before@[x]);
        }
    }
}

/// One direction of cycle-existence transfer.
proof fn lemma_declared_cycle_spec_transfer(a: Seq<SystemSet>, b: Seq<SystemSet>)
    requires
        same_systems_listed(a, b),
        has_declared_cycle(a),
    ensures
        has_declared_cycle(b),
{
    lemma_totals_transfer(a, b);
    let p = choose|p: Seq<usize>| is_declared_cycle(a, p);
    assert forall|i: int| 0 <= i < p.len() - 1 implies #[trigger] declared_edge(
        b,
        p[i] as int,
        p[i + 1] as int,
    ) by {
        lemma_declared_edge_transfer(a, b, p[i] as int, p[i + 1] as int);
    }
    assert(declared_edge(a, p[p.len() - 1] as int, p[0] as int));
    lemma_declared_edge_transfer(a, b, p[p.len() - 1] as int, p[0] as int);
    assert(is_declared_cycle(b, p));
}

/// One direction of edge transfer, for nodes in range.
proof fn lemma_declared_edge_transfer(a: Seq<SystemSet>, b: Seq<SystemSet>, u: int, v: int)
    requires
        same_systems_listed(a, b),
        0 <= u < total_parallel(a),
        0 <= v < total_parallel(a),
        declared_edge(a, u, v),
    ensures
        declared_edge(b, u, v),
{
    lemma_totals_transfer(a, b);
    lemma_flat_parallel_transfer(a, b, u);
    lemma_flat_parallel_transfer(a, b, v);
    if exists|x: int|
        0 <= x < flat_parallel(a, u).after@.len() && parallel_label_lookup(
            a,
            #[trigger] flat_parallel(a, u).after@[x],
        ) == Some(v as usize) {
        let x = choose|x: int|
            0 <= x < flat_parallel(a, u).after@.len() && parallel_label_lookup(
                a,
                #[trigger] flat_parallel(a, u).after@[x],
            ) == Some(v as usize);
        lemma_parallel_label_transfer(a, b, total_parallel(a) as int, flat_parallel(
            a,
            u,
        ).after@[x]);
        assert(parallel_label_lookup(b, flat_parallel(b, u).after@[x]) == Some(v as usize));
    } else {
        let x = choose|x: int|
            0 <= x < flat_parallel(a, v).before@.len() && parallel_label_lookup(
                a,
                #[trigger] flat_parallel(a, v).before@[x],
            ) == Some(u as usize);
        lemma_parallel_label_transfer(a, b, total_parallel(a) as int, flat_parallel(
            a,
            v,
        ).before@[x]);
        assert(parallel_label_lookup(b, flat_parallel(b, v).before@[x]) == Some(u as usize));
    }
}

} // verus!
