//! The parallel stage executor: runs one stage iteration with maximum
//! parallelism under access constraints.
//!
//! The executor here is the decision core.  It holds per-system scheduling
//! data (condensed accesses, dependency counters, dependants) and the pass
//! state (which systems should run, are queued, running, or finished), and
//! decides which system may start next.  The caller performs the outside
//! work: it spawns tasks, runs the chosen systems, and reports back each
//! completion.  Every verdict the executor gives preserves the pass
//! invariants: concurrently running systems are pairwise compatible, and a
//! system starts only after all its dependencies completed.

use vstd::prelude::*;

use crate::access::ArchetypeComponent;
use crate::access::TypeAccess;
use crate::condensed::CondensedTypeAccess;
use crate::condensed::condensed_indices;
use crate::condensed::condensed_rw_indices;
use crate::criteria::ShouldRun;
use crate::query::Archetypes;
use crate::system_set::SystemSet;
use crate::criteria::verdict_has_work;
use crate::criteria::verdict_loops;
use crate::criteria::verdict_runs;
use crate::criteria::runs_now;
use crate::sorting::has_cycle;
use crate::stage::SystemIndex;

verus! {

/// Per-system scheduling data, regenerated on every schedule rebuild.
pub struct ParallelSystemSchedulingData {
    /// The system's place in the stage's system sets.
    pub index: SystemIndex,
    /// The systems this one waits for, as flat executor indices.
    pub dependencies: Vec<usize>,
    /// The systems waiting for this one, as flat executor indices.
    pub dependants: Vec<usize>,
    /// The number of dependencies in total.
    pub dependencies_total: usize,
    /// The number of dependencies not yet satisfied this pass; the system
    /// is queued exactly when this reaches zero.
    pub dependencies_now: usize,
    /// Archetype-component access, condensed against the stage's universe.
    pub archetype_component_access: CondensedTypeAccess,
    /// Resource access, condensed against the stage's universe.
    pub resource_access: CondensedTypeAccess,
}

/// The parallel stage executor's decision state.
pub struct ParallelSystemStageExecutor {
    /// Last archetypes generation observed by parallel systems.
    pub(crate) last_archetypes_generation: u64,
    /// Cached verdicts of the system sets' run criteria.
    pub(crate) system_set_should_run: Vec<ShouldRun>,
    /// Scheduling data per parallel system, in stage set-major order.
    pub(crate) parallel: Vec<ParallelSystemSchedulingData>,
    /// Parallel systems that should run this pass.
    pub(crate) should_run: Vec<bool>,
    /// Parallel systems that must run on the main thread.
    pub(crate) thread_local: Vec<bool>,
    /// Parallel systems ready to be started.
    pub(crate) queued: Vec<bool>,
    /// Parallel systems currently running.
    pub(crate) running: Vec<bool>,
    /// Parallel systems that completed this pass.
    pub(crate) finished: Vec<bool>,
    /// Compound archetype-component access of the running systems.
    pub(crate) active_archetype_component_access: CondensedTypeAccess,
    /// Compound resource access of the running systems.
    pub(crate) active_resource_access: CondensedTypeAccess,
    /// Scratch space for dependants of freshly finished systems.
    pub(crate) dependants_scratch: Vec<usize>,
}

/// Every system named in `ds` is marked finished in `fin`.
pub open spec fn deps_done(ds: Seq<usize>, fin: Seq<bool>) -> bool {
    forall|k: int| 0 <= k < ds.len() ==> ds[k] < fin.len() && fin[#[trigger] ds[k] as int]
}

/// How many entries of `ds` name a system not yet finished.
pub open spec fn count_unfinished(ds: Seq<usize>, fin: Seq<bool>) -> nat
    decreases ds.len(),
{
    if ds.len() == 0 {
        0
    } else {
        count_unfinished(ds.drop_last(), fin) + if ds.last() < fin.len() && fin[ds.last() as int] {
            0nat
        } else {
            1nat
        }
    }
}

/// With every named system finished the count is zero, and conversely.
proof fn lemma_count_zero(ds: Seq<usize>, fin: Seq<bool>)
    requires
        forall|k: int| 0 <= k < ds.len() ==> ds[k] < fin.len(),
    ensures
        (count_unfinished(ds, fin) == 0) <==> (forall|k: int|
            0 <= k < ds.len() ==> fin[#[trigger] ds[k] as int]),
    decreases ds.len(),
{
    if ds.len() > 0 {
        lemma_count_zero(ds.drop_last(), fin);
        assert(forall|k: int| 0 <= k < ds.len() - 1 ==> ds.drop_last()[k] == ds[k]);
        if count_unfinished(ds, fin) == 0 {
            assert forall|k: int| 0 <= k < ds.len() implies fin[#[trigger] ds[k] as int] by {
                if k < ds.len() - 1 {
                    assert(ds.drop_last()[k] == ds[k]);
                } else {
                    assert(ds[k] == ds.last());
                }
            }
        } else {
        }
    }
}

/// A count over an all-false finished vector equals the entry count.
proof fn lemma_count_none_finished(ds: Seq<usize>, fin: Seq<bool>)
    requires
        forall|k: int| 0 <= k < ds.len() ==> ds[k] < fin.len(),
        forall|j: int| 0 <= j < fin.len() ==> !fin[j],
    ensures
        count_unfinished(ds, fin) == ds.len(),
    decreases ds.len(),
{
    if ds.len() > 0 {
        assert(forall|k: int| 0 <= k < ds.len() - 1 ==> ds.drop_last()[k] == ds[k]);
        lemma_count_none_finished(ds.drop_last(), fin);
    }
}

/// Finishing a named, unfinished system lowers the count by one where the
/// entries are duplicate-free.
proof fn lemma_count_finish_member(ds: Seq<usize>, fin: Seq<bool>, x: usize)
    requires
        forall|k: int| 0 <= k < ds.len() ==> ds[k] < fin.len(),
        ds.no_duplicates(),
        ds.contains(x),
        x < fin.len(),
        !fin[x as int],
    ensures
        count_unfinished(ds, fin.update(x as int, true)) + 1 == count_unfinished(ds, fin),
    decreases ds.len(),
{
    assert(forall|k: int| 0 <= k < ds.len() - 1 ==> ds.drop_last()[k] == ds[k]);
    if ds.last() == x {
        assert(!ds.drop_last().contains(x)) by {
            if ds.drop_last().contains(x) {
                let k = choose|k: int| 0 <= k < ds.len() - 1 && ds.drop_last()[k] == x;
                assert(ds[k] == x && ds[ds.len() - 1] == x);
            }
        }
        lemma_count_not_member(ds.drop_last(), fin, x, true);
    } else {
        assert(ds.drop_last().contains(x)) by {
            let k = choose|k: int| 0 <= k < ds.len() && ds[k] == x;
            assert(k < ds.len() - 1);
            assert(ds.drop_last()[k] == x);
        }
        lemma_count_finish_member(ds.drop_last(), fin, x);
    }
}

/// Updating a system that is not named leaves the count alone.
proof fn lemma_count_not_member(ds: Seq<usize>, fin: Seq<bool>, x: usize, b: bool)
    requires
        forall|k: int| 0 <= k < ds.len() ==> ds[k] < fin.len(),
        !ds.contains(x),
        x < fin.len(),
    ensures
        count_unfinished(ds, fin.update(x as int, b)) == count_unfinished(ds, fin),
    decreases ds.len(),
{
    if ds.len() > 0 {
        assert(forall|k: int| 0 <= k < ds.len() - 1 ==> ds.drop_last()[k] == ds[k]);
        assert(!ds.drop_last().contains(x)) by {
            if ds.drop_last().contains(x) {
                let k = choose|k: int| 0 <= k < ds.len() - 1 && ds.drop_last()[k] == x;
                assert(ds[k] == x);
            }
        }
        assert(ds.last() != x) by {
            if ds.last() == x {
                assert(ds[ds.len() - 1] == x);
            }
        }
        lemma_count_not_member(ds.drop_last(), fin, x, b);
    }
}

/// Two executors with the same pass state satisfy the same structural
/// invariant, whatever their cached verdicts are.
proof fn lemma_same_pass_state_wf(a: &ParallelSystemStageExecutor, b: &ParallelSystemStageExecutor)
    requires
        a.spec_pass_state() == b.spec_pass_state(),
    ensures
        a.wf_static() ==> b.wf_static(),
{
    assert(a.parallel@ == b.parallel@);
    assert(a.should_run@ == b.should_run@);
    assert(a.thread_local@ == b.thread_local@);
    assert(a.queued@ == b.queued@);
    assert(a.running@ == b.running@);
    assert(a.finished@ == b.finished@);
    assert(a.spec_dep_graph() =~= b.spec_dep_graph());
    assert(forall|i: int| #[trigger] b.spec_deps(i) == a.spec_deps(i));
    assert(forall|i: int| #[trigger] b.spec_dependants(i) == a.spec_dependants(i));
    assert(forall|i: int| #[trigger] b.spec_data(i) == a.spec_data(i));
    if a.wf_static() {
        assert(b.wf_static());
    }
}

impl ParallelSystemStageExecutor {
    /// The number of parallel systems under scheduling.
    pub closed spec fn spec_n(&self) -> nat {
        self.parallel@.len()
    }

    /// The scheduling data of system `i`.
    pub closed spec fn spec_data(&self, i: int) -> ParallelSystemSchedulingData {
        self.parallel@[i]
    }

    /// The stage position of system `i`.
    pub closed spec fn spec_index(&self, i: int) -> SystemIndex {
        self.parallel@[i].index
    }

    /// The dependencies of system `i`, as flat indices.
    pub closed spec fn spec_deps(&self, i: int) -> Seq<usize> {
        self.parallel@[i].dependencies@
    }

    /// The dependants of system `i`, as flat indices.
    pub closed spec fn spec_dependants(&self, i: int) -> Seq<usize> {
        self.parallel@[i].dependants@
    }

    /// The unsatisfied-dependency counter of system `i`.
    pub closed spec fn spec_deps_now(&self, i: int) -> nat {
        self.parallel@[i].dependencies_now as nat
    }

    /// The condensed resource access of system `i`.
    pub closed spec fn spec_rc(&self, i: int) -> CondensedTypeAccess {
        self.parallel@[i].resource_access
    }

    /// The condensed archetype-component access of system `i`.
    pub closed spec fn spec_ac(&self, i: int) -> CondensedTypeAccess {
        self.parallel@[i].archetype_component_access
    }

    /// Whether system `i` should run this pass.
    pub closed spec fn spec_should_run(&self, i: int) -> bool {
        self.should_run@[i]
    }

    /// Whether system `i` must run on the main thread.
    pub closed spec fn spec_thread_local(&self, i: int) -> bool {
        self.thread_local@[i]
    }

    /// Whether system `i` is queued.
    pub closed spec fn spec_queued(&self, i: int) -> bool {
        self.queued@[i]
    }

    /// Whether system `i` is running.
    pub closed spec fn spec_running(&self, i: int) -> bool {
        self.running@[i]
    }

    /// Whether system `i` finished this pass.
    pub closed spec fn spec_finished(&self, i: int) -> bool {
        self.finished@[i]
    }

    /// The finished vector itself.
    pub closed spec fn spec_finished_vec(&self) -> Seq<bool> {
        self.finished@
    }

    /// The cached run-criteria verdicts, one per system set.
    pub closed spec fn spec_verdicts(&self) -> Seq<ShouldRun> {
        self.system_set_should_run@
    }

    /// The compound resource access of the running systems.
    pub closed spec fn spec_active_rc(&self) -> CondensedTypeAccess {
        self.active_resource_access
    }

    /// The compound archetype-component access of the running systems.
    pub closed spec fn spec_active_ac(&self) -> CondensedTypeAccess {
        self.active_archetype_component_access
    }

    /// The dependency graph of the pass, one dependency list per system.
    pub closed spec fn spec_dep_graph(&self) -> Seq<Seq<usize>> {
        Seq::new(self.parallel@.len(), |i: int| self.parallel@[i].dependencies@)
    }

    /// The archetypes generation the executor last observed.
    pub closed spec fn spec_generation(&self) -> u64 {
        self.last_archetypes_generation
    }

    /// The whole pass state apart from the cached verdicts, for framing.
    pub closed spec fn spec_pass_state(&self) -> (
        Seq<ParallelSystemSchedulingData>,
        Seq<bool>,
        Seq<bool>,
        Seq<bool>,
        Seq<bool>,
        Seq<bool>,
        CondensedTypeAccess,
        CondensedTypeAccess,
        Seq<usize>,
        u64,
    ) {
        (
            self.parallel@,
            self.should_run@,
            self.thread_local@,
            self.queued@,
            self.running@,
            self.finished@,
            self.active_resource_access,
            self.active_archetype_component_access,
            self.dependants_scratch@,
            self.last_archetypes_generation,
        )
    }

    /// Systems `i` and `j` have compatible accesses on both dimensions.
    pub open spec fn spec_compatible(&self, i: int, j: int) -> bool {
        &&& self.spec_rc(i).compatible_with(&self.spec_rc(j))
        &&& self.spec_ac(i).compatible_with(&self.spec_ac(j))
    }

    /// System `i` does not conflict with the currently running systems'
    /// compound access.
    pub open spec fn spec_can_start(&self, i: int) -> bool {
        &&& self.spec_rc(i).compatible_with(&self.spec_active_rc())
        &&& self.spec_ac(i).compatible_with(&self.spec_active_ac())
    }

    /// Every dependency of system `i` has finished.
    pub open spec fn spec_deps_finished(&self, i: int) -> bool {
        deps_done(self.spec_deps(i), self.spec_finished_vec())
    }

    /// System `i` is neither queued nor running: nothing of the pass still
    /// touches it.
    pub open spec fn spec_idle(&self, i: int) -> bool {
        !self.spec_queued(i) && !self.spec_running(i)
    }

    /// The scheduling skeleton of `self` agrees with `other`: same systems,
    /// dependency data, accesses and thread affinity; only the pass state
    /// and counters may differ.
    pub open spec fn spec_same_systems(&self, other: &Self) -> bool {
        &&& self.spec_n() == other.spec_n()
        &&& forall|i: int|
            0 <= i < self.spec_n() ==> #[trigger] self.spec_index(i) == other.spec_index(i)
        &&& forall|i: int|
            0 <= i < self.spec_n() ==> #[trigger] self.spec_deps(i) == other.spec_deps(i)
        &&& forall|i: int|
            0 <= i < self.spec_n() ==> #[trigger] self.spec_dependants(i) == other.spec_dependants(
                i,
            )
        &&& forall|i: int|
            0 <= i < self.spec_n() ==> #[trigger] self.spec_rc(i) == other.spec_rc(i)
        &&& forall|i: int|
            0 <= i < self.spec_n() ==> #[trigger] self.spec_ac(i) == other.spec_ac(i)
        &&& forall|i: int|
            0 <= i < self.spec_n() ==> #[trigger] self.spec_thread_local(i)
                == other.spec_thread_local(i)
        &&& forall|i: int|
            0 <= i < self.spec_n() ==> #[trigger] self.spec_data(i).dependencies_total
                == other.spec_data(i).dependencies_total
    }

    /// System `i` may be started off the main thread right now.
    pub open spec fn spec_startable(&self, i: int) -> bool {
        &&& self.spec_queued(i)
        &&& !self.spec_thread_local(i)
        &&& self.spec_can_start(i)
    }

    /// System `i` is waiting: it should run but is neither queued, running,
    /// nor finished.
    pub open spec fn spec_waiting(&self, i: int) -> bool {
        &&& self.spec_should_run(i)
        &&& !self.spec_queued(i)
        &&& !self.spec_running(i)
        &&& !self.spec_finished(i)
    }

    /// Structural well-formedness: vectors agree in length, dependency data
    /// is in range and duplicate-free, dependants invert dependencies, and
    /// the dependency graph has no cycle.
    pub closed spec fn wf_static(&self) -> bool {
        let n = self.spec_n();
        &&& self.should_run@.len() == n
        &&& self.thread_local@.len() == n
        &&& self.queued@.len() == n
        &&& self.running@.len() == n
        &&& self.finished@.len() == n
        &&& forall|i: int, k: int|
            0 <= i < n && 0 <= k < self.spec_deps(i).len() ==> #[trigger] self.spec_deps(i)[k] < n
        &&& forall|i: int, k: int|
            0 <= i < n && 0 <= k < self.spec_dependants(i).len()
                ==> #[trigger] self.spec_dependants(i)[k] < n
        &&& forall|i: int| 0 <= i < n ==> (#[trigger] self.spec_deps(i)).no_duplicates()
        &&& forall|i: int| 0 <= i < n ==> (#[trigger] self.spec_dependants(i)).no_duplicates()
        &&& forall|u: int, v: int|
            0 <= u < n && 0 <= v < n ==> (#[trigger] self.spec_dependants(u).contains(v as usize)
                <==> self.spec_deps(v).contains(u as usize))
        &&& forall|i: int|
            0 <= i < n ==> #[trigger] self.spec_data(i).dependencies_total
                == self.spec_deps(i).len()
        &&& !has_cycle(self.spec_dep_graph())
    }

    /// The active accesses are exactly the union of the running systems'
    /// accesses, flagwise and bitwise.
    pub closed spec fn wf_active(&self) -> bool {
        let n = self.spec_n();
        &&& (self.spec_active_rc().spec_reads_all() <==> exists|j: int|
            0 <= j < n && self.spec_running(j) && (#[trigger] self.spec_rc(
                j,
            )).spec_reads_all())
        &&& (self.spec_active_ac().spec_reads_all() <==> exists|j: int|
            0 <= j < n && self.spec_running(j) && (#[trigger] self.spec_ac(
                j,
            )).spec_reads_all())
        &&& forall|x: usize|
            #[trigger] self.spec_active_rc().rw_bits().contains(x) <==> exists|j: int|
                0 <= j < n && self.spec_running(j) && (#[trigger] self.spec_rc(
                    j,
                )).rw_bits().contains(x)
        &&& forall|x: usize|
            #[trigger] self.spec_active_rc().w_bits().contains(x) <==> exists|j: int|
                0 <= j < n && self.spec_running(j) && (#[trigger] self.spec_rc(
                    j,
                )).w_bits().contains(x)
        &&& forall|x: usize|
            #[trigger] self.spec_active_ac().rw_bits().contains(x) <==> exists|j: int|
                0 <= j < n && self.spec_running(j) && (#[trigger] self.spec_ac(
                    j,
                )).rw_bits().contains(x)
        &&& forall|x: usize|
            #[trigger] self.spec_active_ac().w_bits().contains(x) <==> exists|j: int|
                0 <= j < n && self.spec_running(j) && (#[trigger] self.spec_ac(
                    j,
                )).w_bits().contains(x)
    }

    /// Pass well-formedness on top of the structural part: the scheduling
    /// state is consistent, running systems are pairwise compatible, and
    /// counters track unfinished dependencies.
    pub closed spec fn wf(&self) -> bool {
        let n = self.spec_n();
        &&& self.wf_static()
        &&& self.dependants_scratch@.len() == 0
        // queued, running and finished are disjoint and only ever cover
        // systems that should run
        &&& forall|i: int|
            0 <= i < n && #[trigger] self.spec_queued(i) ==> self.spec_should_run(i)
                && !self.spec_running(i) && !self.spec_finished(i)
        &&& forall|i: int|
            0 <= i < n && #[trigger] self.spec_running(i) ==> self.spec_should_run(i)
                && !self.spec_finished(i)
        &&& forall|i: int|
            0 <= i < n && #[trigger] self.spec_finished(i) ==> self.spec_should_run(i)
        // a system is queued exactly when it should run, has not begun, and
        // all its dependencies have finished
        &&& forall|i: int|
            0 <= i < n ==> (#[trigger] self.spec_queued(i) <==> (self.spec_should_run(i)
                && !self.spec_running(i) && !self.spec_finished(i) && self.spec_deps_finished(i)))
        // a system that has begun or finished has all dependencies finished
        &&& forall|i: int|
            0 <= i < n && (self.spec_running(i) || self.spec_finished(i))
                ==> #[trigger] self.spec_deps_finished(i)
        // waiting systems count their unfinished dependencies
        &&& forall|i: int|
            0 <= i < n && #[trigger] self.spec_waiting(i) ==> self.spec_deps_now(i)
                == count_unfinished(self.spec_deps(i), self.spec_finished_vec())
        // running systems are pairwise compatible
        &&& forall|i: int, j: int|
            0 <= i < n && 0 <= j < n && i != j && #[trigger] self.spec_running(i)
                && #[trigger] self.spec_running(j) ==> self.spec_compatible(i, j)
        &&& self.wf_active()
    }

    /// A fresh executor with no scheduling data.
    pub fn new() -> (r: Self)
        ensures
            r.spec_n() == 0,
            r.wf_static(),
            r.spec_verdicts() =~= Seq::<ShouldRun>::empty(),
            r.spec_generation() == u64::MAX,
    {
        let r = ParallelSystemStageExecutor {
            last_archetypes_generation: u64::MAX,
            system_set_should_run: Vec::new(),
            parallel: Vec::new(),
            should_run: Vec::new(),
            thread_local: Vec::new(),
            queued: Vec::new(),
            running: Vec::new(),
            finished: Vec::new(),
            active_archetype_component_access: CondensedTypeAccess::empty(),
            active_resource_access: CondensedTypeAccess::empty(),
            dependants_scratch: Vec::new(),
        };
        proof {
            assert(!has_cycle(r.spec_dep_graph())) by {
                if has_cycle(r.spec_dep_graph()) {
                    let p = choose|p: Seq<usize>| crate::sorting::is_cycle(r.spec_dep_graph(), p);
                    assert(crate::sorting::dep_edge(
                        r.spec_dep_graph(),
                        p[p.len() - 1],
                        p[0],
                    ));
                }
            }
        }
        r
    }

    /// Caches the verdicts obtained for every set's run criterion and says
    /// whether any set keeps the stage loop alive.
    pub fn evaluate_run_criteria(&mut self, verdicts: &Vec<ShouldRun>) -> (r: bool)
        ensures
            final(self).spec_verdicts() == verdicts@,
            r <==> exists|s: int|
                0 <= s < verdicts@.len() && verdict_has_work(#[trigger] verdicts@[s]),
            final(self).spec_pass_state() == old(self).spec_pass_state(),
            old(self).wf_static() ==> final(self).wf_static(),
    {
        self.system_set_should_run.clear();
        let n = verdicts.len();
        let mut has_any = false;
        let mut s: usize = 0;
        while s < n
            invariant
                0 <= s <= n,
                n == verdicts@.len(),
                self.system_set_should_run@ =~= verdicts@.take(s as int),
                has_any <==> exists|t: int|
                    0 <= t < s && verdict_has_work(#[trigger] verdicts@[t]),
                self.parallel == old(self).parallel,
                self.should_run == old(self).should_run,
                self.thread_local == old(self).thread_local,
                self.queued == old(self).queued,
                self.running == old(self).running,
                self.finished == old(self).finished,
                self.active_resource_access == old(self).active_resource_access,
                self.active_archetype_component_access == old(
                    self,
                ).active_archetype_component_access,
                self.dependants_scratch == old(self).dependants_scratch,
                self.last_archetypes_generation == old(self).last_archetypes_generation,
            decreases n - s,
        {
            let v = verdicts[s];
            self.system_set_should_run.push(v);
            let works = match v {
                ShouldRun::Yes => true,
                ShouldRun::YesAndLoop => true,
                ShouldRun::NoAndLoop => true,
                ShouldRun::No => false,
            };
            if works {
                has_any = true;
                assert(verdict_has_work(verdicts@[s as int]));
            }
            proof {
                assert(self.system_set_should_run@ =~= verdicts@.take(s + 1));
            }
            s += 1;
        }
        proof {
            assert(verdicts@.take(n as int) =~= verdicts@);
            lemma_same_pass_state_wf(old(self), self);
        }
        has_any
    }

    /// Applies the between-iterations rule to the cached verdicts: a
    /// satisfied yes becomes no, loop verdicts are replaced by the fresh
    /// outcome the caller obtained, and plain no stays.  Says whether any
    /// set still keeps the stage loop alive.
    pub fn reevaluate_run_criteria(&mut self, fresh: &Vec<Option<ShouldRun>>) -> (r: bool)
        requires
            fresh@.len() == old(self).spec_verdicts().len(),
            forall|s: int|
                0 <= s < fresh@.len() ==> ((#[trigger] fresh@[s]) is Some <==> verdict_loops(
                    old(self).spec_verdicts()[s],
                )),
        ensures
            final(self).spec_verdicts().len() == old(self).spec_verdicts().len(),
            forall|s: int|
                0 <= s < fresh@.len() ==> #[trigger] final(self).spec_verdicts()[s] == (
                if verdict_loops(old(self).spec_verdicts()[s]) {
                    fresh@[s]->0
                } else {
                    ShouldRun::No
                }),
            r <==> exists|s: int|
                0 <= s < final(self).spec_verdicts().len() && verdict_has_work(
                    #[trigger] final(self).spec_verdicts()[s],
                ),
            final(self).spec_pass_state() == old(self).spec_pass_state(),
            old(self).wf_static() ==> final(self).wf_static(),
    {
        let n = self.system_set_should_run.len();
        let mut has_any = false;
        let mut s: usize = 0;
        while s < n
            invariant
                0 <= s <= n,
                n == self.system_set_should_run@.len(),
                n == fresh@.len(),
                n == old(self).spec_verdicts().len(),
                forall|t: int|
                    0 <= t < fresh@.len() ==> ((#[trigger] fresh@[t]) is Some <==> verdict_loops(
                        old(self).spec_verdicts()[t],
                    )),
                forall|t: int|
                    s <= t < n ==> #[trigger] self.system_set_should_run@[t] == old(
                        self,
                    ).spec_verdicts()[t],
                forall|t: int|
                    0 <= t < s ==> #[trigger] self.system_set_should_run@[t] == (
                    if verdict_loops(old(self).spec_verdicts()[t]) {
                        fresh@[t]->0
                    } else {
                        ShouldRun::No
                    }),
                has_any <==> exists|t: int|
                    0 <= t < s && verdict_has_work(#[trigger] self.system_set_should_run@[t]),
                self.parallel == old(self).parallel,
                self.should_run == old(self).should_run,
                self.thread_local == old(self).thread_local,
                self.queued == old(self).queued,
                self.running == old(self).running,
                self.finished == old(self).finished,
                self.active_resource_access == old(self).active_resource_access,
                self.active_archetype_component_access == old(
                    self,
                ).active_archetype_component_access,
                self.dependants_scratch == old(self).dependants_scratch,
                self.last_archetypes_generation == old(self).last_archetypes_generation,
            decreases n - s,
        {
            let cur = self.system_set_should_run[s];
            let is_loop = match cur {
                ShouldRun::YesAndLoop => true,
                ShouldRun::NoAndLoop => true,
                ShouldRun::Yes => false,
                ShouldRun::No => false,
            };
            let updated = if is_loop {
                match fresh[s] {
                    Some(v) => v,
                    None => ShouldRun::No,
                }
            } else {
                ShouldRun::No
            };
            let ghost prev_seq = self.system_set_should_run@;
            let ghost prev_any = has_any;
            self.system_set_should_run.set(s, updated);
            let works = match updated {
                ShouldRun::Yes => true,
                ShouldRun::YesAndLoop => true,
                ShouldRun::NoAndLoop => true,
                ShouldRun::No => false,
            };
            if works {
                has_any = true;
            }
            proof {
                let cur_seq = self.system_set_should_run@;
                assert(cur_seq[s as int] == updated);
                if has_any {
                    if works {
                        assert(verdict_has_work(cur_seq[s as int]));
                    } else {
                        let t = choose|t: int|
                            0 <= t < s && verdict_has_work(#[trigger] prev_seq[t]);
                        assert(cur_seq[t] == prev_seq[t]);
                        assert(verdict_has_work(cur_seq[t]));
                    }
                } else {
                    assert forall|t: int| 0 <= t < s + 1 implies !verdict_has_work(
                        #[trigger] cur_seq[t],
                    ) by {
                        if t < s {
                            assert(cur_seq[t] == prev_seq[t]);
                        } else {
                            assert(cur_seq[t] == updated);
                        }
                    }
                }
            }
            s += 1;
        }
        proof {
            lemma_same_pass_state_wf(old(self), self);
        }
        has_any
    }

    /// Whether every queued or running system is gone: the parallel part of
    /// the pass is complete.
    pub fn pass_done(&self) -> (r: bool)
        requires
            self.wf_static(),
        ensures
            r <==> (forall|i: int| 0 <= i < self.spec_n() ==> #[trigger] self.spec_idle(i)),
    {
        let n = self.queued.len();
        let mut i: usize = 0;
        while i < n
            invariant
                0 <= i <= n,
                self.wf_static(),
                n == self.spec_n(),
                forall|j: int| 0 <= j < i ==> #[trigger] self.spec_idle(j),
            decreases n - i,
        {
            if self.queued[i] || self.running[i] {
                proof {
                    assert(!self.spec_idle(i as int));
                }
                return false;
            }
            proof {
                assert(self.spec_idle(i as int));
            }
            i += 1;
        }
        true
    }

    /// Decides whether the parallel system with the given index conflicts
    /// with the currently running systems.
    pub fn can_start_now(&self, index: usize) -> (r: bool)
        requires
            self.wf_static(),
            index < self.spec_n(),
        ensures
            r == self.spec_can_start(index as int),
    {
        let data = &self.parallel[index];
        data.resource_access.is_compatible(&self.active_resource_access)
            && data.archetype_component_access.is_compatible(
            &self.active_archetype_component_access,
        )
    }
}

/// The parts of scheduling data that a pass never changes: everything but
/// the dependency counter.
pub open spec fn data_skeleton_eq(
    a: ParallelSystemSchedulingData,
    b: ParallelSystemSchedulingData,
) -> bool {
    &&& a.index == b.index
    &&& a.dependencies@ == b.dependencies@
    &&& a.dependants@ == b.dependants@
    &&& a.dependencies_total == b.dependencies_total
    &&& a.archetype_component_access == b.archetype_component_access
    &&& a.resource_access == b.resource_access
}

/// An access compatible with the compound access of a running family is
/// compatible with each member, as long as the compound covers every member
/// and a member that does not itself read all writes nothing whenever some
/// other member reads all.
proof fn lemma_compatible_with_union_member(
    a_ra: bool,
    a_rw: Set<usize>,
    a_w: Set<usize>,
    act_ra: bool,
    act_rw: Set<usize>,
    act_w: Set<usize>,
    m_ra: bool,
    m_rw: Set<usize>,
    m_w: Set<usize>,
)
    requires
        crate::access::access_compatible(a_ra, a_rw, a_w, act_ra, act_rw, act_w),
        m_ra ==> act_ra,
        m_rw <= act_rw,
        m_w <= act_w,
        act_ra && !m_ra ==> m_w.is_empty(),
    ensures
        crate::access::access_compatible(a_ra, a_rw, a_w, m_ra, m_rw, m_w),
{
    if a_ra && m_ra {
        assert(act_ra);
        assert(a_w.is_empty() && act_w.is_empty());
        assert(m_w.is_empty());
    } else if a_ra {
        if act_ra {
            assert(a_w.is_empty() && act_w.is_empty());
            assert(m_w.is_empty());
        } else {
            assert(act_w.is_empty());
            assert(m_w.is_empty());
        }
    } else if m_ra {
        assert(act_ra);
        assert(a_w.is_empty());
    } else {
        if act_ra {
            assert(a_w.is_empty());
            assert(m_w.is_empty());
            assert(a_w.disjoint(m_rw));
            assert(a_rw.disjoint(m_w));
        } else {
            assert forall|x: usize| a_w.contains(x) implies !m_rw.contains(x) by {
                assert(!act_rw.contains(x));
            }
            assert forall|x: usize| a_rw.contains(x) implies !m_w.contains(x) by {
                assert(!act_w.contains(x));
            }
        }
    }
}

impl ParallelSystemStageExecutor {
    /// The candidate `a`, compatible with the compound active access, is
    /// compatible with every running system.
    proof fn lemma_can_start_vs_running(&self, a: int)
        requires
            self.wf(),
            0 <= a < self.spec_n(),
            self.spec_can_start(a),
        ensures
            forall|j: int|
                0 <= j < self.spec_n() && #[trigger] self.spec_running(j) && j != a
                    ==> self.spec_compatible(a, j),
    {
        assert forall|j: int|
            0 <= j < self.spec_n() && #[trigger] self.spec_running(j) && j != a
            implies self.spec_compatible(a, j) by {
            let a_rc = self.spec_rc(a);
            let a_ac = self.spec_ac(a);
            let m_rc = self.spec_rc(j);
            let m_ac = self.spec_ac(j);
            let act_rc = self.spec_active_rc();
            let act_ac = self.spec_active_ac();
            assert(m_rc.rw_bits() <= act_rc.rw_bits()) by {
                assert forall|x: usize| m_rc.rw_bits().contains(x) implies act_rc.rw_bits().contains(
                    x,
                ) by {
                    assert(exists|j2: int|
                        0 <= j2 < self.spec_n() && self.spec_running(j2) && (#[trigger] self.spec_rc(
                            j2,
                        )).rw_bits().contains(x)) by {
                        assert(self.spec_rc(j).rw_bits().contains(x));
                    }
                }
            }
            assert(m_rc.w_bits() <= act_rc.w_bits()) by {
                assert forall|x: usize| m_rc.w_bits().contains(x) implies act_rc.w_bits().contains(
                    x,
                ) by {
                    assert(exists|j2: int|
                        0 <= j2 < self.spec_n() && self.spec_running(j2) && (#[trigger] self.spec_rc(
                            j2,
                        )).w_bits().contains(x)) by {
                        assert(self.spec_rc(j).w_bits().contains(x));
                    }
                }
            }
            assert(m_ac.rw_bits() <= act_ac.rw_bits()) by {
                assert forall|x: usize| m_ac.rw_bits().contains(x) implies act_ac.rw_bits().contains(
                    x,
                ) by {
                    assert(exists|j2: int|
                        0 <= j2 < self.spec_n() && self.spec_running(j2) && (#[trigger] self.spec_ac(
                            j2,
                        )).rw_bits().contains(x)) by {
                        assert(self.spec_ac(j).rw_bits().contains(x));
                    }
                }
            }
            assert(m_ac.w_bits() <= act_ac.w_bits()) by {
                assert forall|x: usize| m_ac.w_bits().contains(x) implies act_ac.w_bits().contains(
                    x,
                ) by {
                    assert(exists|j2: int|
                        0 <= j2 < self.spec_n() && self.spec_running(j2) && (#[trigger] self.spec_ac(
                            j2,
                        )).w_bits().contains(x)) by {
                        assert(self.spec_ac(j).w_bits().contains(x));
                    }
                }
            }
            if m_rc.spec_reads_all() {
                assert(act_rc.spec_reads_all());
            }
            if m_ac.spec_reads_all() {
                assert(act_ac.spec_reads_all());
            }
            if act_rc.spec_reads_all() && !m_rc.spec_reads_all() {
                let j2 = choose|j2: int|
                    0 <= j2 < self.spec_n() && self.spec_running(j2) && (#[trigger] self.spec_rc(
                        j2,
                    )).spec_reads_all();
                if j2 != j {
                    assert(self.spec_compatible(j2, j));
                    assert(m_rc.w_bits().is_empty());
                } else {
                    assert(false);
                }
            }
            if act_ac.spec_reads_all() && !m_ac.spec_reads_all() {
                let j2 = choose|j2: int|
                    0 <= j2 < self.spec_n() && self.spec_running(j2) && (#[trigger] self.spec_ac(
                        j2,
                    )).spec_reads_all();
                if j2 != j {
                    assert(self.spec_compatible(j2, j));
                    assert(m_ac.w_bits().is_empty());
                } else {
                    assert(false);
                }
            }
            lemma_compatible_with_union_member(
                a_rc.spec_reads_all(),
                a_rc.rw_bits(),
                a_rc.w_bits(),
                act_rc.spec_reads_all(),
                act_rc.rw_bits(),
                act_rc.w_bits(),
                m_rc.spec_reads_all(),
                m_rc.rw_bits(),
                m_rc.w_bits(),
            );
            lemma_compatible_with_union_member(
                a_ac.spec_reads_all(),
                a_ac.rw_bits(),
                a_ac.w_bits(),
                act_ac.spec_reads_all(),
                act_ac.rw_bits(),
                act_ac.w_bits(),
                m_ac.spec_reads_all(),
                m_ac.rw_bits(),
                m_ac.w_bits(),
            );
        }
    }

    /// Two distinct systems marked concurrently running have compatible
    /// accesses.
    pub proof fn lemma_concurrent_systems_compatible(&self, i: int, j: int)
        requires
            self.wf(),
            0 <= i < self.spec_n(),
            0 <= j < self.spec_n(),
            i != j,
            self.spec_running(i),
            self.spec_running(j),
        ensures
            self.spec_compatible(i, j),
    {
    }

    /// A system that is queued, running or finished has every dependency
    /// finished: a dependant begins only after its dependencies completed.
    pub proof fn lemma_dependency_respected(&self, i: int)
        requires
            self.wf(),
            0 <= i < self.spec_n(),
            self.spec_queued(i) || self.spec_running(i) || self.spec_finished(i),
        ensures
            self.spec_deps_finished(i),
    {
    }

    /// With nothing running, any queued system can start at once: the
    /// compound active access is empty, so no conflict is possible.  The
    /// coordinator therefore never deadlocks, as long as it waits for
    /// completions only while something is running.
    pub proof fn lemma_idle_queued_can_start(&self, i: int)
        requires
            self.wf(),
            0 <= i < self.spec_n(),
            self.spec_queued(i),
            forall|j: int| 0 <= j < self.spec_n() ==> !(#[trigger] self.spec_running(j)),
        ensures
            self.spec_can_start(i),
    {
        assert(!self.spec_active_rc().spec_reads_all());
        assert(!self.spec_active_ac().spec_reads_all());
        assert forall|x: usize| !(#[trigger] self.spec_active_rc().rw_bits().contains(x)) by {
            if self.spec_active_rc().rw_bits().contains(x) {
                let j = choose|j: int|
                    0 <= j < self.spec_n() && self.spec_running(j) && (#[trigger] self.spec_rc(
                        j,
                    )).rw_bits().contains(x);
            }
        }
        assert forall|x: usize| !(#[trigger] self.spec_active_rc().w_bits().contains(x)) by {
            if self.spec_active_rc().w_bits().contains(x) {
                let j = choose|j: int|
                    0 <= j < self.spec_n() && self.spec_running(j) && (#[trigger] self.spec_rc(
                        j,
                    )).w_bits().contains(x);
            }
        }
        assert forall|x: usize| !(#[trigger] self.spec_active_ac().rw_bits().contains(x)) by {
            if self.spec_active_ac().rw_bits().contains(x) {
                let j = choose|j: int|
                    0 <= j < self.spec_n() && self.spec_running(j) && (#[trigger] self.spec_ac(
                        j,
                    )).rw_bits().contains(x);
            }
        }
        assert forall|x: usize| !(#[trigger] self.spec_active_ac().w_bits().contains(x)) by {
            if self.spec_active_ac().w_bits().contains(x) {
                let j = choose|j: int|
                    0 <= j < self.spec_n() && self.spec_running(j) && (#[trigger] self.spec_ac(
                        j,
                    )).w_bits().contains(x);
            }
        }
        assert(self.spec_active_rc().w_bits().is_empty());
        assert(self.spec_active_ac().w_bits().is_empty());
        assert(self.spec_rc(i).w_bits().disjoint(self.spec_active_rc().rw_bits()));
        assert(self.spec_rc(i).rw_bits().disjoint(self.spec_active_rc().w_bits()));
        assert(self.spec_ac(i).w_bits().disjoint(self.spec_active_ac().rw_bits()));
        assert(self.spec_ac(i).rw_bits().disjoint(self.spec_active_ac().w_bits()));
    }

    /// When the pass has drained and every dependency of a system that
    /// should run also should run, exactly the systems whose set's
    /// criterion said yes have finished.  The hypothesis on dependencies
    /// cannot be dropped: a system whose set said yes but which waits on a
    /// system of a set that said no is never released, so it stays
    /// unfinished for that pass.
    pub proof fn lemma_pass_complete(&self)
        requires
            self.wf(),
            forall|i: int| 0 <= i < self.spec_n() ==> #[trigger] self.spec_idle(i),
            forall|i: int, k: int|
                0 <= i < self.spec_n() && self.spec_should_run(i) && 0 <= k < self.spec_deps(
                    i,
                ).len() ==> self.spec_should_run(#[trigger] self.spec_deps(i)[k] as int),
        ensures
            forall|i: int|
                0 <= i < self.spec_n() ==> (#[trigger] self.spec_finished(i)
                    <==> self.spec_should_run(i)),
    {
        let n = self.spec_n();
        let g = self.spec_dep_graph();
        assert(forall|i: int| 0 <= i < n ==> #[trigger] g[i] == self.spec_deps(i));
        assert(n <= usize::MAX) by {
            vstd::std_specs::vec::axiom_spec_len(&self.parallel);
        }
        if exists|i: int| 0 <= i < n && #[trigger] self.spec_should_run(i) && !self.spec_finished(i) {
            let i0 = choose|i: int|
                0 <= i < n && #[trigger] self.spec_should_run(i) && !self.spec_finished(i);
            assert((i0 as usize) as int == i0);
            let stuck = Set::new(
                |u: usize| u < n && self.spec_should_run(u as int) && !self.spec_finished(u as int),
            );
            assert(stuck.contains(i0 as usize));
            assert forall|u: usize| #[trigger] stuck.contains(u) implies u < g.len() && exists|k: int|
                0 <= k < g[u as int].len() && stuck.contains(g[u as int][k]) by {
                assert(self.spec_idle(u as int));
                assert(!self.spec_queued(u as int));
                assert(!(self.spec_should_run(u as int) && !self.spec_running(u as int)
                    && !self.spec_finished(u as int) && self.spec_deps_finished(u as int)));
                assert(!self.spec_deps_finished(u as int));
                let k = choose|k: int|
                    0 <= k < self.spec_deps(u as int).len() && !(self.spec_deps(u as int)[k]
                        < self.spec_finished_vec().len() && self.spec_finished_vec()[self.spec_deps(
                        u as int,
                    )[k] as int]);
                let v = self.spec_deps(u as int)[k];
                assert(v < n);
                assert(!self.spec_finished(v as int));
                assert(self.spec_should_run(v as int));
                assert(g[u as int][k] == v);
                assert(stuck.contains(v));
            }
            crate::sorting::lemma_stuck_implies_cycle(g, stuck, i0 as usize);
            assert(false);
        }
        assert forall|i: int| 0 <= i < n implies (#[trigger] self.spec_finished(i)
            <==> self.spec_should_run(i)) by {
            if self.spec_finished(i) {
                assert(self.spec_should_run(i));
            }
        }
    }

    /// Resets the pass: caches which systems should run from their set's
    /// verdict, queues systems with no dependencies, resets dependency
    /// counters, and clears the pass bookkeeping.
    #[verifier::loop_isolation(false)]
    pub fn prepare_parallel_systems(&mut self)
        requires
            old(self).wf_static(),
            forall|i: int|
                0 <= i < old(self).spec_n() ==> (#[trigger] old(self).spec_index(i)).set < old(
                    self,
                ).spec_verdicts().len(),
        ensures
            final(self).wf(),
            final(self).spec_n() == old(self).spec_n(),
            final(self).spec_verdicts() == old(self).spec_verdicts(),
            final(self).spec_same_systems(old(self)),
            final(self).spec_generation() == old(self).spec_generation(),
            forall|i: int|
                0 <= i < final(self).spec_n() ==> #[trigger] final(self).spec_should_run(i)
                    == verdict_runs(
                    old(self).spec_verdicts()[old(self).spec_index(i).set as int],
                ),
            forall|i: int| 0 <= i < final(self).spec_n() ==> !(#[trigger] final(self).spec_running(i)),
            forall|i: int| 0 <= i < final(self).spec_n() ==> !(#[trigger] final(self).spec_finished(i)),
            forall|i: int|
                0 <= i < final(self).spec_n() ==> (#[trigger] final(self).spec_queued(i) <==> (
                final(self).spec_should_run(i) && final(self).spec_deps(i).len() == 0)),
    {
        let n = self.parallel.len();
        self.dependants_scratch.clear();
        self.active_resource_access.clear();
        self.active_archetype_component_access.clear();
        let mut i: usize = 0;
        while i < n
            invariant
                0 <= i <= n,
                n == self.parallel@.len(),
                n == old(self).parallel@.len(),
                self.system_set_should_run@ == old(self).system_set_should_run@,
                self.last_archetypes_generation == old(self).last_archetypes_generation,
                self.thread_local@ == old(self).thread_local@,
                self.should_run@.len() == n,
                self.queued@.len() == n,
                self.running@.len() == n,
                self.finished@.len() == n,
                self.dependants_scratch@.len() == 0,
                !self.active_resource_access.spec_reads_all(),
                self.active_resource_access.rw_bits() =~= Set::<usize>::empty(),
                self.active_resource_access.w_bits() =~= Set::<usize>::empty(),
                !self.active_archetype_component_access.spec_reads_all(),
                self.active_archetype_component_access.rw_bits() =~= Set::<usize>::empty(),
                self.active_archetype_component_access.w_bits() =~= Set::<usize>::empty(),
                forall|j: int|
                    0 <= j < n ==> data_skeleton_eq(
                        #[trigger] self.parallel@[j],
                        old(self).parallel@[j],
                    ),
                forall|j: int|
                    0 <= j < i ==> #[trigger] self.should_run@[j] == verdict_runs(
                        old(self).system_set_should_run@[old(self).parallel@[j].index.set as int],
                    ),
                forall|j: int| 0 <= j < i ==> !(#[trigger] self.running@[j]),
                forall|j: int| 0 <= j < i ==> !(#[trigger] self.finished@[j]),
                forall|j: int|
                    0 <= j < i ==> (#[trigger] self.queued@[j] <==> (self.should_run@[j]
                        && self.parallel@[j].dependencies@.len() == 0)),
                forall|j: int|
                    0 <= j < i ==> #[trigger] self.parallel@[j].dependencies_now
                        == self.parallel@[j].dependencies@.len(),
            decreases n - i,
        {
            proof {
                assert(data_skeleton_eq(self.parallel@[i as int], old(self).parallel@[i as int]));
                assert(i < old(self).spec_n());
                assert(old(self).spec_index(i as int).set < old(self).spec_verdicts().len());
            }
            let set_index = self.parallel[i].index.set;
            let run = runs_now(self.system_set_should_run[set_index]);
            self.should_run.set(i, run);
            self.running.set(i, false);
            self.finished.set(i, false);
            let total = self.parallel[i].dependencies_total;
            self.queued.set(i, run && total == 0);
            proof {
                assert(i < old(self).spec_n());
                assert(old(self).spec_data(i as int).dependencies_total == old(self).spec_deps(
                    i as int,
                ).len());
            }
            self.parallel[i].dependencies_now = total;
            i += 1;
        }
        proof {
            let fin = self;
            assert(fin.spec_n() == old(self).spec_n());
            assert forall|j: int| 0 <= j < n implies #[trigger] fin.spec_deps(j) == old(
                self,
            ).spec_deps(j) by {
                assert(data_skeleton_eq(fin.parallel@[j], old(self).parallel@[j]));
            }
            assert forall|j: int| 0 <= j < n implies #[trigger] fin.spec_dependants(j) == old(
                self,
            ).spec_dependants(j) by {
                assert(data_skeleton_eq(fin.parallel@[j], old(self).parallel@[j]));
            }
            assert forall|j: int| 0 <= j < n implies #[trigger] fin.spec_index(j) == old(
                self,
            ).spec_index(j) by {
                assert(data_skeleton_eq(fin.parallel@[j], old(self).parallel@[j]));
            }
            assert forall|j: int| 0 <= j < n implies #[trigger] fin.spec_rc(j) == old(self).spec_rc(
                j,
            ) by {
                assert(data_skeleton_eq(fin.parallel@[j], old(self).parallel@[j]));
            }
            assert forall|j: int| 0 <= j < n implies #[trigger] fin.spec_ac(j) == old(self).spec_ac(
                j,
            ) by {
                assert(data_skeleton_eq(fin.parallel@[j], old(self).parallel@[j]));
            }
            assert forall|j: int| 0 <= j < n implies #[trigger] fin.spec_data(j).dependencies_total
                == old(self).spec_data(j).dependencies_total by {
                assert(data_skeleton_eq(fin.parallel@[j], old(self).parallel@[j]));
            }
            assert(fin.spec_same_systems(old(self)));
            assert(fin.spec_dep_graph() =~~= old(self).spec_dep_graph());
            assert(fin.wf_static());
            assert forall|j: int|
                0 <= j < n && #[trigger] fin.spec_queued(j) implies (fin.spec_should_run(j)
                && !fin.spec_running(j) && !fin.spec_finished(j) && fin.spec_deps_finished(
                j,
            )) by {
                assert(fin.queued@[j]);
                assert(fin.should_run@[j] && fin.parallel@[j].dependencies@.len() == 0);
                assert(fin.spec_deps(j).len() == 0);
            }
            assert forall|j: int|
                0 <= j < n && (fin.spec_should_run(j) && !fin.spec_running(j)
                    && !fin.spec_finished(j) && fin.spec_deps_finished(j))
                implies #[trigger] fin.spec_queued(j) by {
                if fin.spec_deps(j).len() > 0 {
                    let d = fin.spec_deps(j)[0];
                    assert(d < n);
                    assert(fin.spec_finished_vec()[d as int]);
                    assert(fin.spec_finished(d as int));
                    assert(fin.finished@[d as int]);
                    assert(false);
                }
            }
            assert forall|j: int| 0 <= j < n && #[trigger] fin.spec_waiting(j) implies fin.spec_deps_now(
                j,
            ) == count_unfinished(fin.spec_deps(j), fin.spec_finished_vec()) by {
                assert forall|k: int|
                    0 <= k < fin.spec_finished_vec().len() implies !(
                #[trigger] fin.spec_finished_vec()[k]) by {
                    assert(!fin.finished@[k]);
                }
                assert(forall|k: int|
                    0 <= k < fin.spec_deps(j).len() ==> #[trigger] fin.spec_deps(j)[k] < n);
                lemma_count_none_finished(fin.spec_deps(j), fin.spec_finished_vec());
                assert(fin.parallel@[j].dependencies_now == fin.parallel@[j].dependencies@.len());
            }
            assert(fin.wf());
        }
    }

    /// Finds a queued, thread-agnostic system that does not conflict with
    /// the running systems.
    pub fn find_startable(&self) -> (r: Option<usize>)
        requires
            self.wf_static(),
        ensures
            match r {
                Some(i) => i < self.spec_n() && self.spec_startable(i as int),
                None => forall|i: int|
                    0 <= i < self.spec_n() ==> !(#[trigger] self.spec_startable(i)),
            },
    {
        let n = self.parallel.len();
        let mut i: usize = 0;
        while i < n
            invariant
                0 <= i <= n,
                self.wf_static(),
                n == self.spec_n(),
                forall|j: int| 0 <= j < i ==> !(#[trigger] self.spec_startable(j)),
            decreases n - i,
        {
            if self.queued[i] && !self.thread_local[i] && self.can_start_now(i) {
                proof {
                    assert(self.spec_startable(i as int));
                }
                return Some(i);
            }
            proof {
                assert(!self.spec_startable(i as int));
            }
            i += 1;
        }
        None
    }

    /// Moves a queued, non-conflicting system into the running set and
    /// unions its access into the active access.  The chosen system is
    /// compatible with every system already running.
    pub fn start_system(&mut self, index: usize)
        requires
            old(self).wf(),
            index < old(self).spec_n(),
            old(self).spec_queued(index as int),
            old(self).spec_can_start(index as int),
        ensures
            final(self).wf(),
            final(self).spec_n() == old(self).spec_n(),
            final(self).spec_verdicts() == old(self).spec_verdicts(),
            final(self).spec_same_systems(old(self)),
            final(self).spec_generation() == old(self).spec_generation(),
            forall|j: int|
                0 <= j < final(self).spec_n()
                    ==> #[trigger] final(self).spec_should_run(j) == old(self).spec_should_run(j),
            forall|j: int|
                0 <= j < final(self).spec_n() ==> (#[trigger] final(self).spec_queued(j) == (old(
                    self,
                ).spec_queued(j) && j != index)),
            forall|j: int|
                0 <= j < final(self).spec_n() ==> (#[trigger] final(self).spec_running(j) == (old(
                    self,
                ).spec_running(j) || j == index)),
            forall|j: int|
                0 <= j < final(self).spec_n()
                    ==> #[trigger] final(self).spec_finished(j) == old(self).spec_finished(j),
            forall|j: int|
                0 <= j < old(self).spec_n() && #[trigger] old(self).spec_running(j) ==> old(
                    self,
                ).spec_compatible(index as int, j),
    {
        proof {
            self.lemma_can_start_vs_running(index as int);
        }
        self.queued.set(index, false);
        self.running.set(index, true);
        self.active_resource_access.extend(&self.parallel[index].resource_access);
        self.active_archetype_component_access.extend(
            &self.parallel[index].archetype_component_access,
        );
        proof {
            let a = index as int;
            let n = self.spec_n();
            assert(forall|j: int| 0 <= j < n ==> #[trigger] self.spec_deps(j) == old(
                self,
            ).spec_deps(j));
            assert(forall|j: int| 0 <= j < n ==> #[trigger] self.spec_dependants(j) == old(
                self,
            ).spec_dependants(j));
            assert(forall|j: int| 0 <= j < n ==> #[trigger] self.spec_index(j) == old(
                self,
            ).spec_index(j));
            assert(forall|j: int| 0 <= j < n ==> #[trigger] self.spec_data(j) == old(
                self,
            ).spec_data(j));
            assert(forall|j: int| 0 <= j < n ==> #[trigger] self.spec_rc(j) == old(self).spec_rc(j));
            assert(forall|j: int| 0 <= j < n ==> #[trigger] self.spec_ac(j) == old(self).spec_ac(j));
            assert(self.spec_dep_graph() =~~= old(self).spec_dep_graph());
            assert(self.wf_static());
            // pairwise compatibility now also holds against the new system
            assert forall|i: int, j: int|
                0 <= i < n && 0 <= j < n && i != j && #[trigger] self.spec_running(i)
                    && #[trigger] self.spec_running(j) implies self.spec_compatible(i, j) by {
                if i == a {
                    assert(old(self).spec_running(j));
                    assert(old(self).spec_compatible(a, j));
                } else if j == a {
                    assert(old(self).spec_running(i));
                    assert(old(self).spec_compatible(a, i));
                    assert(old(self).spec_rc(a).compatible_with(&old(self).spec_rc(i)));
                    lemma_compatible_symmetric(
                        old(self).spec_rc(a).spec_reads_all(),
                        old(self).spec_rc(a).rw_bits(),
                        old(self).spec_rc(a).w_bits(),
                        old(self).spec_rc(i).spec_reads_all(),
                        old(self).spec_rc(i).rw_bits(),
                        old(self).spec_rc(i).w_bits(),
                    );
                    lemma_compatible_symmetric(
                        old(self).spec_ac(a).spec_reads_all(),
                        old(self).spec_ac(a).rw_bits(),
                        old(self).spec_ac(a).w_bits(),
                        old(self).spec_ac(i).spec_reads_all(),
                        old(self).spec_ac(i).rw_bits(),
                        old(self).spec_ac(i).w_bits(),
                    );
                } else {
                    assert(old(self).spec_running(i));
                    assert(old(self).spec_running(j));
                    assert(old(self).spec_compatible(i, j));
                }
            }
            // the active access is again the union over the running systems
            assert(self.wf_active()) by {
                assert forall|x: usize| #[trigger] self.spec_active_rc().rw_bits().contains(x)
                    implies exists|j: int|
                    0 <= j < n && self.spec_running(j) && (#[trigger] self.spec_rc(
                        j,
                    )).rw_bits().contains(x) by {
                    if old(self).spec_active_rc().rw_bits().contains(x) {
                        let j = choose|j: int|
                            0 <= j < n && old(self).spec_running(j) && (#[trigger] old(
                                self,
                            ).spec_rc(j)).rw_bits().contains(x);
                        assert(self.spec_running(j) && self.spec_rc(j).rw_bits().contains(x));
                    } else {
                        assert(self.spec_rc(a).rw_bits().contains(x));
                        assert(self.spec_running(a));
                    }
                }
                assert forall|x: usize|
                    (exists|j: int|
                        0 <= j < n && self.spec_running(j) && (#[trigger] self.spec_rc(
                            j,
                        )).rw_bits().contains(x)) implies #[trigger] self.spec_active_rc().rw_bits().contains(x) by {
                    let j = choose|j: int|
                        0 <= j < n && self.spec_running(j) && (#[trigger] self.spec_rc(
                            j,
                        )).rw_bits().contains(x);
                    if j == a {
                    } else {
                        assert(old(self).spec_running(j));
                        assert(old(self).spec_active_rc().rw_bits().contains(x));
                    }
                }
                assert forall|x: usize| #[trigger] self.spec_active_rc().w_bits().contains(x)
                    implies exists|j: int|
                    0 <= j < n && self.spec_running(j) && (#[trigger] self.spec_rc(
                        j,
                    )).w_bits().contains(x) by {
                    if old(self).spec_active_rc().w_bits().contains(x) {
                        let j = choose|j: int|
                            0 <= j < n && old(self).spec_running(j) && (#[trigger] old(
                                self,
                            ).spec_rc(j)).w_bits().contains(x);
                        assert(self.spec_running(j) && self.spec_rc(j).w_bits().contains(x));
                    } else {
                        assert(self.spec_rc(a).w_bits().contains(x));
                        assert(self.spec_running(a));
                    }
                }
                assert forall|x: usize|
                    (exists|j: int|
                        0 <= j < n && self.spec_running(j) && (#[trigger] self.spec_rc(
                            j,
                        )).w_bits().contains(x)) implies #[trigger] self.spec_active_rc().w_bits().contains(x) by {
                    let j = choose|j: int|
                        0 <= j < n && self.spec_running(j) && (#[trigger] self.spec_rc(
                            j,
                        )).w_bits().contains(x);
                    if j == a {
                    } else {
                        assert(old(self).spec_running(j));
                        assert(old(self).spec_active_rc().w_bits().contains(x));
                    }
                }
                assert forall|x: usize| #[trigger] self.spec_active_ac().rw_bits().contains(x)
                    implies exists|j: int|
                    0 <= j < n && self.spec_running(j) && (#[trigger] self.spec_ac(
                        j,
                    )).rw_bits().contains(x) by {
                    if old(self).spec_active_ac().rw_bits().contains(x) {
                        let j = choose|j: int|
                            0 <= j < n && old(self).spec_running(j) && (#[trigger] old(
                                self,
                            ).spec_ac(j)).rw_bits().contains(x);
                        assert(self.spec_running(j) && self.spec_ac(j).rw_bits().contains(x));
                    } else {
                        assert(self.spec_ac(a).rw_bits().contains(x));
                        assert(self.spec_running(a));
                    }
                }
                assert forall|x: usize|
                    (exists|j: int|
                        0 <= j < n && self.spec_running(j) && (#[trigger] self.spec_ac(
                            j,
                        )).rw_bits().contains(x)) implies #[trigger] self.spec_active_ac().rw_bits().contains(x) by {
                    let j = choose|j: int|
                        0 <= j < n && self.spec_running(j) && (#[trigger] self.spec_ac(
                            j,
                        )).rw_bits().contains(x);
                    if j == a {
                    } else {
                        assert(old(self).spec_running(j));
                        assert(old(self).spec_active_ac().rw_bits().contains(x));
                    }
                }
                assert forall|x: usize| #[trigger] self.spec_active_ac().w_bits().contains(x)
                    implies exists|j: int|
                    0 <= j < n && self.spec_running(j) && (#[trigger] self.spec_ac(
                        j,
                    )).w_bits().contains(x) by {
                    if old(self).spec_active_ac().w_bits().contains(x) {
                        let j = choose|j: int|
                            0 <= j < n && old(self).spec_running(j) && (#[trigger] old(
                                self,
                            ).spec_ac(j)).w_bits().contains(x);
                        assert(self.spec_running(j) && self.spec_ac(j).w_bits().contains(x));
                    } else {
                        assert(self.spec_ac(a).w_bits().contains(x));
                        assert(self.spec_running(a));
                    }
                }
                assert forall|x: usize|
                    (exists|j: int|
                        0 <= j < n && self.spec_running(j) && (#[trigger] self.spec_ac(
                            j,
                        )).w_bits().contains(x)) implies #[trigger] self.spec_active_ac().w_bits().contains(x) by {
                    let j = choose|j: int|
                        0 <= j < n && self.spec_running(j) && (#[trigger] self.spec_ac(
                            j,
                        )).w_bits().contains(x);
                    if j == a {
                    } else {
                        assert(old(self).spec_running(j));
                        assert(old(self).spec_active_ac().w_bits().contains(x));
                    }
                }
                assert((self.spec_active_rc().spec_reads_all()) <==> (exists|j: int|
                    0 <= j < n && self.spec_running(j) && (#[trigger] self.spec_rc(
                        j,
                    )).spec_reads_all())) by {
                    if self.spec_active_rc().spec_reads_all() {
                        if old(self).spec_active_rc().spec_reads_all() {
                            let j = choose|j: int|
                                0 <= j < n && old(self).spec_running(j) && (#[trigger] old(
                                    self,
                                ).spec_rc(j)).spec_reads_all();
                            assert(self.spec_running(j) && self.spec_rc(j).spec_reads_all());
                        } else {
                            assert(self.spec_rc(a).spec_reads_all() && self.spec_running(a));
                        }
                    }
                    if exists|j: int|
                        0 <= j < n && self.spec_running(j) && (#[trigger] self.spec_rc(
                            j,
                        )).spec_reads_all() {
                        let j = choose|j: int|
                            0 <= j < n && self.spec_running(j) && (#[trigger] self.spec_rc(
                                j,
                            )).spec_reads_all();
                        if j != a {
                            assert(old(self).spec_running(j));
                            assert(old(self).spec_active_rc().spec_reads_all());
                        }
                    }
                }
                assert((self.spec_active_ac().spec_reads_all()) <==> (exists|j: int|
                    0 <= j < n && self.spec_running(j) && (#[trigger] self.spec_ac(
                        j,
                    )).spec_reads_all())) by {
                    if self.spec_active_ac().spec_reads_all() {
                        if old(self).spec_active_ac().spec_reads_all() {
                            let j = choose|j: int|
                                0 <= j < n && old(self).spec_running(j) && (#[trigger] old(
                                    self,
                                ).spec_ac(j)).spec_reads_all();
                            assert(self.spec_running(j) && self.spec_ac(j).spec_reads_all());
                        } else {
                            assert(self.spec_ac(a).spec_reads_all() && self.spec_running(a));
                        }
                    }
                    if exists|j: int|
                        0 <= j < n && self.spec_running(j) && (#[trigger] self.spec_ac(
                            j,
                        )).spec_reads_all() {
                        let j = choose|j: int|
                            0 <= j < n && self.spec_running(j) && (#[trigger] self.spec_ac(
                                j,
                            )).spec_reads_all();
                        if j != a {
                            assert(old(self).spec_running(j));
                            assert(old(self).spec_active_ac().spec_reads_all());
                        }
                    }
                }
            }
            // the waiting systems and their counters are untouched
            assert forall|j: int| 0 <= j < n && #[trigger] self.spec_waiting(j) implies self.spec_deps_now(
                j,
            ) == count_unfinished(self.spec_deps(j), self.spec_finished_vec()) by {
                assert(old(self).spec_waiting(j));
                assert(self.spec_finished_vec() == old(self).spec_finished_vec());
            }
            assert forall|j: int|
                0 <= j < n implies (#[trigger] self.spec_queued(j) <==> (self.spec_should_run(j)
                    && !self.spec_running(j) && !self.spec_finished(j) && self.spec_deps_finished(
                j,
            ))) by {
                assert(self.spec_deps_finished(j) == old(self).spec_deps_finished(j));
                if j == a {
                } else {
                    assert(self.spec_queued(j) == old(self).spec_queued(j));
                }
            }
            assert forall|j: int|
                0 <= j < n && (self.spec_running(j) || self.spec_finished(j))
                implies #[trigger] self.spec_deps_finished(j) by {
                assert(self.spec_deps_finished(j) == old(self).spec_deps_finished(j));
                if j == a {
                    assert(old(self).spec_deps_finished(a));
                } else {
                    assert(old(self).spec_running(j) || old(self).spec_finished(j));
                }
            }
            assert forall|j: int|
                0 <= j < n && #[trigger] self.spec_running(j) implies self.spec_should_run(j)
                && !self.spec_finished(j) by {
                if j == a {
                    assert(old(self).spec_queued(a));
                } else {
                    assert(old(self).spec_running(j));
                }
            }
            assert forall|j: int|
                0 <= j < n && #[trigger] self.spec_finished(j) implies self.spec_should_run(j) by {
                assert(old(self).spec_finished(j));
            }
            assert forall|j: int|
                0 <= j < n && #[trigger] self.spec_queued(j) implies self.spec_should_run(j)
                && !self.spec_running(j) && !self.spec_finished(j) by {
                assert(j != index as int);
                assert(old(self).spec_queued(j));
            }
            assert(self.wf());
        }
    }
}

/// Compatibility of two accesses does not depend on their order.
proof fn lemma_compatible_symmetric(
    ra1: bool,
    rw1: Set<usize>,
    w1: Set<usize>,
    ra2: bool,
    rw2: Set<usize>,
    w2: Set<usize>,
)
    requires
        crate::access::access_compatible(ra1, rw1, w1, ra2, rw2, w2),
    ensures
        crate::access::access_compatible(ra2, rw2, w2, ra1, rw1, w1),
{
    if !ra1 && !ra2 {
        assert forall|x: usize| w2.contains(x) implies !rw1.contains(x) by {
            assert(!w2.contains(x) || !rw1.contains(x));
        }
        assert forall|x: usize| rw2.contains(x) implies !w1.contains(x) by {
            assert(!rw2.contains(x) || !w1.contains(x));
        }
    }
}


impl ParallelSystemStageExecutor {
    /// Drains the dependants of the freshly finished system `f` from the
    /// scratch space, decrementing their counters and queueing those whose
    /// dependencies are now all satisfied.
    #[verifier::loop_isolation(false)]
    fn update_counters_and_queue(&mut self, Ghost(f): Ghost<int>)
        requires
            old(self).wf_static(),
            0 <= f < old(self).spec_n(),
            old(self).spec_finished(f),
            !old(self).spec_running(f),
            !old(self).spec_queued(f),
            old(self).spec_should_run(f),
            old(self).dependants_scratch@ == old(self).spec_dependants(f),
            forall|j: int|
                0 <= j < old(self).spec_n() ==> (#[trigger] old(self).spec_queued(j) <==> (old(
                    self,
                ).spec_should_run(j) && !old(self).spec_running(j) && !old(self).spec_finished(j)
                    && deps_done(
                    old(self).spec_deps(j),
                    old(self).spec_finished_vec().update(f, false),
                ))),
            forall|j: int|
                0 <= j < old(self).spec_n() && #[trigger] old(self).spec_waiting(j) ==> old(
                    self,
                ).spec_deps_now(j) == count_unfinished(
                    old(self).spec_deps(j),
                    old(self).spec_finished_vec().update(f, false),
                ),
            forall|j: int|
                0 <= j < old(self).spec_n() && (old(self).spec_running(j) || old(
                    self,
                ).spec_finished(j)) ==> #[trigger] deps_done(
                    old(self).spec_deps(j),
                    old(self).spec_finished_vec().update(f, false),
                ),
            forall|j: int|
                0 <= j < old(self).spec_n() && #[trigger] old(self).spec_running(j) ==> old(
                    self,
                ).spec_should_run(j) && !old(self).spec_finished(j),
            forall|j: int|
                0 <= j < old(self).spec_n() && #[trigger] old(self).spec_finished(j) ==> old(
                    self,
                ).spec_should_run(j),
        ensures
            final(self).spec_n() == old(self).spec_n(),
            final(self).wf_static(),
            final(self).spec_same_systems(old(self)),
            final(self).spec_verdicts() == old(self).spec_verdicts(),
            final(self).spec_generation() == old(self).spec_generation(),
            final(self).dependants_scratch@.len() == 0,
            forall|j: int|
                0 <= j < final(self).spec_n()
                    ==> #[trigger] final(self).spec_should_run(j) == old(self).spec_should_run(j),
            forall|j: int|
                0 <= j < final(self).spec_n()
                    ==> #[trigger] final(self).spec_running(j) == old(self).spec_running(j),
            forall|j: int|
                0 <= j < final(self).spec_n()
                    ==> #[trigger] final(self).spec_finished(j) == old(self).spec_finished(j),
            final(self).spec_active_rc() == old(self).spec_active_rc(),
            final(self).spec_active_ac() == old(self).spec_active_ac(),
            forall|j: int|
                0 <= j < final(self).spec_n() ==> (#[trigger] final(self).spec_queued(j) <==> (
                final(self).spec_should_run(j) && !final(self).spec_running(j)
                    && !final(self).spec_finished(j) && final(self).spec_deps_finished(j))),
            forall|j: int|
                0 <= j < final(self).spec_n() && #[trigger] final(self).spec_waiting(j)
                    ==> final(self).spec_deps_now(j) == count_unfinished(
                    final(self).spec_deps(j),
                    final(self).spec_finished_vec(),
                ),
    {
        let ghost n = self.spec_n() as int;
        let ghost pre_fin = self.finished@.update(f, false);
        let ghost deps_of_f = old(self).spec_dependants(f);
        proof {
            assert(self.spec_n() <= usize::MAX) by {
                vstd::std_specs::vec::axiom_spec_len(&self.parallel);
            }
            assert((f as usize) as int == f);
            // f has no edge to itself, else the graph would cycle
            assert(!old(self).spec_deps(f).contains(f as usize)) by {
                if old(self).spec_deps(f).contains(f as usize) {
                    let p = seq![f as usize];
                    assert(p[0] == f as usize);
                    assert(crate::sorting::dep_edge(
                        old(self).spec_dep_graph(),
                        f as usize,
                        f as usize,
                    )) by {
                        assert(old(self).spec_dep_graph()[f] == old(self).spec_deps(f));
                        assert(old(self).spec_dep_graph()[f].contains(f as usize));
                    }
                    assert(crate::sorting::is_cycle(old(self).spec_dep_graph(), p));
                    assert(false);
                }
            }
            assert(!deps_of_f.contains(f as usize));
            // the loop below starts with nothing processed
            assert forall|j: int| 0 <= j < n implies !(#[trigger] deps_of_f.take(0).contains(
                j as usize,
            )) by {
                if deps_of_f.take(0).contains(j as usize) {
                    let k2 = choose|k2: int|
                        0 <= k2 < 0 && #[trigger] deps_of_f.take(0)[k2] == j as usize;
                }
            }
            assert(old(self).spec_finished_vec().update(f, false) == pre_fin);
            assert forall|j: int|
                0 <= j < n implies (#[trigger] self.queued@[j] <==> (self.should_run@[j]
                    && !self.running@[j] && !self.finished@[j] && deps_done(
                    self.parallel@[j].dependencies@,
                    pre_fin,
                ))) by {
                assert(old(self).spec_queued(j) <==> (old(self).spec_should_run(j) && !old(
                    self,
                ).spec_running(j) && !old(self).spec_finished(j) && deps_done(
                    old(self).spec_deps(j),
                    old(self).spec_finished_vec().update(f, false),
                )));
                assert(old(self).spec_deps(j) == self.parallel@[j].dependencies@);
            }
            assert forall|j: int|
                0 <= j < n && self.should_run@[j] && !self.queued@[j] && !self.running@[j]
                    && !self.finished@[j] implies #[trigger] self.parallel@[j].dependencies_now
                == count_unfinished(self.parallel@[j].dependencies@, pre_fin) by {
                assert(old(self).spec_waiting(j));
                assert(old(self).spec_deps_now(j) == count_unfinished(
                    old(self).spec_deps(j),
                    old(self).spec_finished_vec().update(f, false),
                ));
                assert(old(self).spec_deps(j) == self.parallel@[j].dependencies@);
            }
        }
        let m = self.dependants_scratch.len();
        let mut k: usize = 0;
        while k < m
            invariant
                0 <= k <= m,
                m == deps_of_f.len(),
                self.dependants_scratch@ == deps_of_f,
                n == self.parallel@.len(),
                self.system_set_should_run@ == old(self).system_set_should_run@,
                self.last_archetypes_generation == old(self).last_archetypes_generation,
                self.thread_local@ == old(self).thread_local@,
                self.should_run@ == old(self).should_run@,
                self.running@ == old(self).running@,
                self.finished@ == old(self).finished@,
                self.active_resource_access == old(self).active_resource_access,
                self.active_archetype_component_access == old(
                    self,
                ).active_archetype_component_access,
                self.queued@.len() == n,
                forall|j: int|
                    0 <= j < n ==> data_skeleton_eq(
                        #[trigger] self.parallel@[j],
                        old(self).parallel@[j],
                    ),
                forall|j: int|
                    0 <= j < n ==> (#[trigger] self.queued@[j] <==> (self.should_run@[j]
                        && !self.running@[j] && !self.finished@[j] && deps_done(
                        self.parallel@[j].dependencies@,
                        if deps_of_f.take(k as int).contains(j as usize) {
                            self.finished@
                        } else {
                            pre_fin
                        },
                    ))),
                forall|j: int|
                    0 <= j < n && self.should_run@[j] && !self.queued@[j] && !self.running@[j]
                        && !self.finished@[j] ==> #[trigger] self.parallel@[j].dependencies_now
                        == count_unfinished(
                        self.parallel@[j].dependencies@,
                        if deps_of_f.take(k as int).contains(j as usize) {
                            self.finished@
                        } else {
                            pre_fin
                        },
                    ),
            decreases m - k,
        {
            let v = self.dependants_scratch[k];
            proof {
                assert(deps_of_f[k as int] == v);
                assert(deps_of_f.contains(v)) by {
                    assert(deps_of_f[k as int] == v);
                }
                assert(v < n) by {
                    assert(old(self).spec_dependants(f)[k as int] < old(self).spec_n());
                }
                assert(old(self).spec_deps(v as int).contains(f as usize)) by {
                    assert((v as int) < n);
                    assert((v as int) as usize == v);
                    assert(old(self).spec_dependants(f).contains((v as int) as usize));
                }
                assert(self.parallel@[v as int].dependencies@.contains(f as usize)) by {
                    assert(data_skeleton_eq(self.parallel@[v as int], old(self).parallel@[v as int]));
                }
                // v has not been processed yet: dependants are duplicate-free
                assert(!deps_of_f.take(k as int).contains(v)) by {
                    if deps_of_f.take(k as int).contains(v) {
                        let k2 = choose|k2: int|
                            0 <= k2 < k && #[trigger] deps_of_f.take(k as int)[k2] == v;
                        assert(deps_of_f[k2] == v);
                        assert(old(self).spec_dependants(f).no_duplicates());
                    }
                }
                assert(!pre_fin[f]);
            }
            if self.should_run[v] {
                proof {
                    // v cannot be queued, running or finished: its dependency
                    // f was unfinished in the pre view
                    assert(!deps_done(self.parallel@[v as int].dependencies@, pre_fin)) by {
                        assert(self.parallel@[v as int].dependencies@.contains(f as usize));
                        let kf = choose|kf: int|
                            0 <= kf < self.parallel@[v as int].dependencies@.len()
                                && self.parallel@[v as int].dependencies@[kf] == f as usize;
                        assert(!pre_fin[self.parallel@[v as int].dependencies@[kf] as int]);
                    }
                    assert(!self.queued@[v as int]);
                    assert(!self.running@[v as int] && !self.finished@[v as int]) by {
                        if self.running@[v as int] || self.finished@[v as int] {
                            assert(old(self).spec_running(v as int) || old(self).spec_finished(
                                v as int,
                            ));
                            assert(deps_done(
                                old(self).spec_deps(v as int),
                                old(self).spec_finished_vec().update(f, false),
                            ));
                            assert(old(self).spec_deps(v as int) == self.parallel@[v as int].dependencies@);
                            assert(old(self).spec_finished_vec().update(f, false) == pre_fin);
                            assert(false);
                        }
                    }
                    assert(self.parallel@[v as int].dependencies_now == count_unfinished(
                        self.parallel@[v as int].dependencies@,
                        pre_fin,
                    ));
                    assert(forall|k2: int|
                        0 <= k2 < self.parallel@[v as int].dependencies@.len()
                            ==> #[trigger] self.parallel@[v as int].dependencies@[k2]
                            < pre_fin.len()) by {
                        assert(forall|k2: int|
                            0 <= k2 < old(self).spec_deps(v as int).len()
                                ==> #[trigger] old(self).spec_deps(v as int)[k2] < old(
                                self,
                            ).spec_n());
                    }
                    assert(self.parallel@[v as int].dependencies@.no_duplicates()) by {
                        assert(old(self).spec_deps(v as int).no_duplicates());
                    }
                    lemma_count_finish_member(
                        self.parallel@[v as int].dependencies@,
                        pre_fin,
                        f as usize,
                    );
                    assert(pre_fin.update(f, true) == self.finished@) by {
                        assert(pre_fin.update(f, true) =~= self.finished@);
                    }
                    assert(self.parallel@[v as int].dependencies_now == count_unfinished(
                        self.parallel@[v as int].dependencies@,
                        self.finished@,
                    ) + 1);
                }
                let dn = self.parallel[v].dependencies_now;
                let ghost pre_par = self.parallel@;
                self.parallel[v].dependencies_now = dn - 1;
                proof {
                    assert(forall|j: int|
                        0 <= j < n && j != v ==> self.parallel@[j] == #[trigger] pre_par[j]);
                    assert(data_skeleton_eq(self.parallel@[v as int], pre_par[v as int]));
                }
                proof {
                    lemma_count_zero(self.parallel@[v as int].dependencies@, self.finished@);
                }
                if dn - 1 == 0 {
                    self.queued.set(v, true);
                    proof {
                        assert(deps_done(self.parallel@[v as int].dependencies@, self.finished@));
                    }
                } else {
                    proof {
                        assert(!deps_done(self.parallel@[v as int].dependencies@, self.finished@));
                    }
                }
            }
            proof {
                assert(deps_of_f.take(k + 1).drop_last() =~= deps_of_f.take(k as int));
                assert(deps_of_f.take(k + 1).last() == v);
                assert forall|j: int|
                    0 <= j < n implies (#[trigger] deps_of_f.take(k + 1).contains(j as usize) <==> (
                deps_of_f.take(k as int).contains(j as usize) || j == v)) by {
                    if deps_of_f.take(k + 1).contains(j as usize) {
                        let k2 = choose|k2: int|
                            0 <= k2 < k + 1 && #[trigger] deps_of_f.take(k + 1)[k2] == j as usize;
                        if k2 < k {
                            assert(deps_of_f.take(k as int)[k2] == j as usize);
                        } else {
                            assert(j as usize == v);
                        }
                    }
                    if deps_of_f.take(k as int).contains(j as usize) {
                        let k2 = choose|k2: int|
                            0 <= k2 < k && #[trigger] deps_of_f.take(k as int)[k2] == j as usize;
                        assert(deps_of_f.take(k + 1)[k2] == j as usize);
                    }
                    if j == v {
                        assert(deps_of_f.take(k + 1)[k as int] == j as usize);
                    }
                }
            }
            k += 1;
        }
        self.dependants_scratch.clear();
        proof {
            let fin = self;
            assert(deps_of_f.take(m as int) =~= deps_of_f);
            assert forall|j: int| 0 <= j < n implies #[trigger] fin.spec_deps(j) == old(
                self,
            ).spec_deps(j) by {
                assert(data_skeleton_eq(fin.parallel@[j], old(self).parallel@[j]));
            }
            assert forall|j: int| 0 <= j < n implies #[trigger] fin.spec_dependants(j) == old(
                self,
            ).spec_dependants(j) by {
                assert(data_skeleton_eq(fin.parallel@[j], old(self).parallel@[j]));
            }
            assert forall|j: int| 0 <= j < n implies #[trigger] fin.spec_index(j) == old(
                self,
            ).spec_index(j) by {
                assert(data_skeleton_eq(fin.parallel@[j], old(self).parallel@[j]));
            }
            assert forall|j: int| 0 <= j < n implies #[trigger] fin.spec_rc(j) == old(self).spec_rc(
                j,
            ) by {
                assert(data_skeleton_eq(fin.parallel@[j], old(self).parallel@[j]));
            }
            assert forall|j: int| 0 <= j < n implies #[trigger] fin.spec_ac(j) == old(self).spec_ac(
                j,
            ) by {
                assert(data_skeleton_eq(fin.parallel@[j], old(self).parallel@[j]));
            }
            assert forall|j: int| 0 <= j < n implies #[trigger] fin.spec_data(j).dependencies_total
                == old(self).spec_data(j).dependencies_total by {
                assert(data_skeleton_eq(fin.parallel@[j], old(self).parallel@[j]));
            }
            assert(fin.spec_same_systems(old(self)));
            assert(fin.spec_dep_graph() =~~= old(self).spec_dep_graph());
            assert(fin.wf_static());
            // with the pass fully drained, the per-system views collapse:
            // a dependant of f saw the new finished vector, anyone else sees
            // no difference because f is not among their dependencies
            assert forall|j: int|
                0 <= j < n && !deps_of_f.contains(j as usize) implies (deps_done(
                fin.parallel@[j].dependencies@,
                pre_fin,
            ) == deps_done(fin.parallel@[j].dependencies@, fin.finished@)) by {
                assert(!old(self).spec_deps(j).contains(f as usize)) by {
                    if old(self).spec_deps(j).contains(f as usize) {
                        assert(old(self).spec_dependants(f).contains(j as usize));
                    }
                }
                assert(fin.parallel@[j].dependencies@ == old(self).spec_deps(j));
                let ds = fin.parallel@[j].dependencies@;
                assert forall|k2: int| 0 <= k2 < ds.len() implies (pre_fin[#[trigger] ds[k2] as int]
                    == fin.finished@[ds[k2] as int]) by {
                    assert(ds[k2] != f as usize) by {
                        if ds[k2] == f as usize {
                            assert(ds.contains(f as usize)) by {
                                assert(ds[k2] == f as usize);
                            }
                        }
                    }
                }
            }
            assert forall|j: int|
                0 <= j < n && !deps_of_f.contains(j as usize) && self.should_run@[j]
                    && !self.queued@[j] && !self.running@[j] && !self.finished@[j] implies (
            count_unfinished(fin.parallel@[j].dependencies@, pre_fin) == count_unfinished(
                fin.parallel@[j].dependencies@,
                fin.finished@,
            )) by {
                assert(!old(self).spec_deps(j).contains(f as usize)) by {
                    if old(self).spec_deps(j).contains(f as usize) {
                        assert(old(self).spec_dependants(f).contains(j as usize));
                    }
                }
                assert(fin.parallel@[j].dependencies@ == old(self).spec_deps(j));
                assert(forall|k2: int|
                    0 <= k2 < fin.parallel@[j].dependencies@.len()
                        ==> #[trigger] fin.parallel@[j].dependencies@[k2] < pre_fin.len());
                assert(pre_fin.update(f, true) =~= fin.finished@);
                lemma_count_not_member(
                    fin.parallel@[j].dependencies@,
                    pre_fin,
                    f as usize,
                    true,
                );
                assert(count_unfinished(fin.parallel@[j].dependencies@, pre_fin.update(f, true))
                    == count_unfinished(fin.parallel@[j].dependencies@, pre_fin));
            }
            assert forall|j: int|
                0 <= j < n implies (#[trigger] fin.spec_queued(j) <==> (fin.spec_should_run(j)
                    && !fin.spec_running(j) && !fin.spec_finished(j) && fin.spec_deps_finished(
                j,
            ))) by {
                if deps_of_f.contains(j as usize) {
                } else {
                }
            }
            assert forall|j: int|
                0 <= j < n && #[trigger] fin.spec_waiting(j) implies fin.spec_deps_now(j)
                == count_unfinished(fin.spec_deps(j), fin.spec_finished_vec()) by {
                if deps_of_f.contains(j as usize) {
                } else {
                }
            }
        }
    }
}

/// A dependency list done under one finished vector stays done when more
/// systems finish.
proof fn lemma_deps_done_monotone(ds: Seq<usize>, fin1: Seq<bool>, fin2: Seq<bool>)
    requires
        deps_done(ds, fin1),
        fin1.len() == fin2.len(),
        forall|i: int| 0 <= i < fin1.len() && fin1[i] ==> fin2[i],
    ensures
        deps_done(ds, fin2),
{
    assert forall|k: int| 0 <= k < ds.len() implies (#[trigger] ds[k]) < fin2.len()
        && fin2[ds[k] as int] by {
        assert(ds[k] < fin1.len() && fin1[ds[k] as int]);
    }
}

impl ParallelSystemStageExecutor {
    /// Records that the running system `index` completed: moves it to the
    /// finished set, releases its dependants, and rebuilds the compound
    /// active access from the systems still running.
    #[verifier::loop_isolation(false)]
    pub fn system_finished(&mut self, index: usize)
        requires
            old(self).wf(),
            index < old(self).spec_n(),
            old(self).spec_running(index as int),
        ensures
            final(self).wf(),
            final(self).spec_n() == old(self).spec_n(),
            final(self).spec_verdicts() == old(self).spec_verdicts(),
            final(self).spec_same_systems(old(self)),
            final(self).spec_generation() == old(self).spec_generation(),
            forall|j: int|
                0 <= j < final(self).spec_n()
                    ==> #[trigger] final(self).spec_should_run(j) == old(self).spec_should_run(j),
            forall|j: int|
                0 <= j < final(self).spec_n() ==> (#[trigger] final(self).spec_running(j) == (old(
                    self,
                ).spec_running(j) && j != index)),
            forall|j: int|
                0 <= j < final(self).spec_n() ==> (#[trigger] final(self).spec_finished(j) == (old(
                    self,
                ).spec_finished(j) || j == index)),
    {
        let ghost n = self.spec_n() as int;
        self.running.set(index, false);
        self.finished.set(index, true);
        proof {
            assert(self.finished@.update(index as int, false) =~= old(self).finished@);
        }
        let m = self.parallel[index].dependants.len();
        let mut k: usize = 0;
        while k < m
            invariant
                0 <= k <= m,
                index < n,
                n == self.parallel@.len(),
                m == self.parallel@[index as int].dependants@.len(),
                self.parallel@ == old(self).parallel@,
                self.queued@ == old(self).queued@,
                self.running@ == old(self).running@.update(index as int, false),
                self.finished@ == old(self).finished@.update(index as int, true),
                self.should_run@ == old(self).should_run@,
                self.thread_local@ == old(self).thread_local@,
                self.system_set_should_run@ == old(self).system_set_should_run@,
                self.last_archetypes_generation == old(self).last_archetypes_generation,
                self.active_resource_access == old(self).active_resource_access,
                self.active_archetype_component_access == old(
                    self,
                ).active_archetype_component_access,
                self.dependants_scratch@ == self.parallel@[index as int].dependants@.take(k as int),
            decreases m - k,
        {
            let d = self.parallel[index].dependants[k];
            self.dependants_scratch.push(d);
            proof {
                assert(self.dependants_scratch@ =~= self.parallel@[index as int].dependants@.take(
                    k + 1,
                ));
            }
            k += 1;
        }
        proof {
            assert(self.parallel@[index as int].dependants@.take(m as int)
                =~= self.parallel@[index as int].dependants@);
            assert(self.dependants_scratch@ == self.spec_dependants(index as int));
            // the pre view of the counter update is exactly the old pass state
            let pre_fin = self.finished@.update(index as int, false);
            assert(pre_fin =~= old(self).finished@);
            assert(self.wf_static()) by {
                assert(forall|j: int| 0 <= j < n ==> #[trigger] self.spec_deps(j) == old(
                    self,
                ).spec_deps(j));
                assert(forall|j: int| 0 <= j < n ==> #[trigger] self.spec_dependants(j) == old(
                    self,
                ).spec_dependants(j));
                assert(forall|j: int| 0 <= j < n ==> #[trigger] self.spec_data(j) == old(
                    self,
                ).spec_data(j));
                assert(self.spec_dep_graph() =~~= old(self).spec_dep_graph());
            }
            assert forall|j: int|
                0 <= j < n implies (#[trigger] self.spec_queued(j) <==> (self.spec_should_run(j)
                    && !self.spec_running(j) && !self.spec_finished(j) && deps_done(
                    self.spec_deps(j),
                    self.spec_finished_vec().update(index as int, false),
                ))) by {
                assert(self.spec_finished_vec().update(index as int, false) == pre_fin);
                assert(old(self).spec_queued(j) <==> (old(self).spec_should_run(j) && !old(
                    self,
                ).spec_running(j) && !old(self).spec_finished(j) && old(self).spec_deps_finished(
                    j,
                )));
                if j == index as int {
                    assert(!self.spec_queued(j));
                    assert(self.spec_finished(j));
                }
            }
            assert forall|j: int|
                0 <= j < n && #[trigger] self.spec_waiting(j) implies self.spec_deps_now(j)
                == count_unfinished(
                self.spec_deps(j),
                self.spec_finished_vec().update(index as int, false),
            ) by {
                assert(self.spec_finished_vec().update(index as int, false) == pre_fin);
                assert(old(self).spec_waiting(j));
            }
            assert forall|j: int|
                0 <= j < n && (self.spec_running(j) || self.spec_finished(j)) implies
                #[trigger] deps_done(
                self.spec_deps(j),
                self.spec_finished_vec().update(index as int, false),
            ) by {
                assert(self.spec_finished_vec().update(index as int, false) == pre_fin);
                if j == index as int {
                    assert(old(self).spec_running(j));
                    assert(old(self).spec_deps_finished(j));
                } else {
                    assert(old(self).spec_running(j) || old(self).spec_finished(j));
                    assert(old(self).spec_deps_finished(j));
                }
            }
            assert forall|j: int|
                0 <= j < n && #[trigger] self.spec_running(j) implies self.spec_should_run(j)
                && !self.spec_finished(j) by {
                assert(old(self).spec_running(j));
            }
            assert forall|j: int|
                0 <= j < n && #[trigger] self.spec_finished(j) implies self.spec_should_run(j) by {
                if j == index as int {
                    assert(old(self).spec_running(j));
                } else {
                    assert(old(self).spec_finished(j));
                }
            }
            assert(!self.spec_queued(index as int)) by {
                assert(!old(self).spec_queued(index as int));
            }
            assert(self.spec_should_run(index as int)) by {
                assert(old(self).spec_running(index as int));
            }
        }
        let ghost before_counters = *self;
        self.update_counters_and_queue(Ghost(index as int));
        let ghost mid = *self;
        // at least one system finished: rebuild the active access from the
        // systems still running
        self.active_resource_access.clear();
        self.active_archetype_component_access.clear();
        let n_sys = self.parallel.len();
        let mut j: usize = 0;
        while j < n_sys
            invariant
                0 <= j <= n_sys,
                n_sys == self.parallel@.len(),
                self.parallel@ == mid.parallel@,
                self.queued@ == mid.queued@,
                self.running@ == mid.running@,
                self.finished@ == mid.finished@,
                self.should_run@ == mid.should_run@,
                self.thread_local@ == mid.thread_local@,
                self.system_set_should_run@ == mid.system_set_should_run@,
                self.last_archetypes_generation == mid.last_archetypes_generation,
                self.dependants_scratch@ == mid.dependants_scratch@,
                (self.active_resource_access.spec_reads_all() <==> exists|j2: int|
                    0 <= j2 < j && self.running@[j2] && (#[trigger] self.parallel@[j2].resource_access).spec_reads_all()),
                (self.active_archetype_component_access.spec_reads_all() <==> exists|j2: int|
                    0 <= j2 < j && self.running@[j2] && (#[trigger] self.parallel@[j2].archetype_component_access).spec_reads_all()),
                forall|x: usize|
                    #[trigger] self.active_resource_access.rw_bits().contains(x) <==> exists|j2: int|
                        0 <= j2 < j && self.running@[j2] && (#[trigger] self.parallel@[j2].resource_access).rw_bits().contains(x),
                forall|x: usize|
                    #[trigger] self.active_resource_access.w_bits().contains(x) <==> exists|j2: int|
                        0 <= j2 < j && self.running@[j2] && (#[trigger] self.parallel@[j2].resource_access).w_bits().contains(x),
                forall|x: usize|
                    #[trigger] self.active_archetype_component_access.rw_bits().contains(x) <==> exists|j2: int|
                        0 <= j2 < j && self.running@[j2] && (#[trigger] self.parallel@[j2].archetype_component_access).rw_bits().contains(x),
                forall|x: usize|
                    #[trigger] self.active_archetype_component_access.w_bits().contains(x) <==> exists|j2: int|
                        0 <= j2 < j && self.running@[j2] && (#[trigger] self.parallel@[j2].archetype_component_access).w_bits().contains(x),
            decreases n_sys - j,
        {
            if self.running[j] {
                let ghost pre_rc = self.active_resource_access;
                let ghost pre_ac = self.active_archetype_component_access;
                self.active_resource_access.extend(&self.parallel[j].resource_access);
                self.active_archetype_component_access.extend(
                    &self.parallel[j].archetype_component_access,
                );
                proof {
                    assert forall|x: usize|
                        #[trigger] self.active_resource_access.rw_bits().contains(x) implies exists|j2: int|
                            0 <= j2 < j + 1 && self.running@[j2] && (#[trigger] self.parallel@[j2].resource_access).rw_bits().contains(x) by {
                        if pre_rc.rw_bits().contains(x) {
                            let j2 = choose|j2: int|
                                0 <= j2 < j && self.running@[j2] && (#[trigger] self.parallel@[j2].resource_access).rw_bits().contains(x);
                            assert(0 <= j2 < j + 1 && self.running@[j2] && self.parallel@[j2].resource_access.rw_bits().contains(x));
                        } else {
                            assert(self.parallel@[j as int].resource_access.rw_bits().contains(x));
                        }
                    }
                    assert forall|x: usize|
                        (exists|j2: int|
                            0 <= j2 < j + 1 && self.running@[j2] && (#[trigger] self.parallel@[j2].resource_access).rw_bits().contains(x))
                        implies #[trigger] self.active_resource_access.rw_bits().contains(x) by {
                        let j2 = choose|j2: int|
                            0 <= j2 < j + 1 && self.running@[j2] && (#[trigger] self.parallel@[j2].resource_access).rw_bits().contains(x);
                        if j2 < j {
                            assert(pre_rc.rw_bits().contains(x));
                        }
                    }
                    assert forall|x: usize|
                        #[trigger] self.active_resource_access.w_bits().contains(x) implies exists|j2: int|
                            0 <= j2 < j + 1 && self.running@[j2] && (#[trigger] self.parallel@[j2].resource_access).w_bits().contains(x) by {
                        if pre_rc.w_bits().contains(x) {
                            let j2 = choose|j2: int|
                                0 <= j2 < j && self.running@[j2] && (#[trigger] self.parallel@[j2].resource_access).w_bits().contains(x);
                            assert(0 <= j2 < j + 1 && self.running@[j2] && self.parallel@[j2].resource_access.w_bits().contains(x));
                        } else {
                            assert(self.parallel@[j as int].resource_access.w_bits().contains(x));
                        }
                    }
                    assert forall|x: usize|
                        (exists|j2: int|
                            0 <= j2 < j + 1 && self.running@[j2] && (#[trigger] self.parallel@[j2].resource_access).w_bits().contains(x))
                        implies #[trigger] self.active_resource_access.w_bits().contains(x) by {
                        let j2 = choose|j2: int|
                            0 <= j2 < j + 1 && self.running@[j2] && (#[trigger] self.parallel@[j2].resource_access).w_bits().contains(x);
                        if j2 < j {
                            assert(pre_rc.w_bits().contains(x));
                        }
                    }
                    assert forall|x: usize|
                        #[trigger] self.active_archetype_component_access.rw_bits().contains(x) implies exists|j2: int|
                            0 <= j2 < j + 1 && self.running@[j2] && (#[trigger] self.parallel@[j2].archetype_component_access).rw_bits().contains(x) by {
                        if pre_ac.rw_bits().contains(x) {
                            let j2 = choose|j2: int|
                                0 <= j2 < j && self.running@[j2] && (#[trigger] self.parallel@[j2].archetype_component_access).rw_bits().contains(x);
                            assert(0 <= j2 < j + 1 && self.running@[j2] && self.parallel@[j2].archetype_component_access.rw_bits().contains(x));
                        } else {
                            assert(self.parallel@[j as int].archetype_component_access.rw_bits().contains(x));
                        }
                    }
                    assert forall|x: usize|
                        (exists|j2: int|
                            0 <= j2 < j + 1 && self.running@[j2] && (#[trigger] self.parallel@[j2].archetype_component_access).rw_bits().contains(x))
                        implies #[trigger] self.active_archetype_component_access.rw_bits().contains(x) by {
                        let j2 = choose|j2: int|
                            0 <= j2 < j + 1 && self.running@[j2] && (#[trigger] self.parallel@[j2].archetype_component_access).rw_bits().contains(x);
                        if j2 < j {
                            assert(pre_ac.rw_bits().contains(x));
                        }
                    }
                    assert forall|x: usize|
                        #[trigger] self.active_archetype_component_access.w_bits().contains(x) implies exists|j2: int|
                            0 <= j2 < j + 1 && self.running@[j2] && (#[trigger] self.parallel@[j2].archetype_component_access).w_bits().contains(x) by {
                        if pre_ac.w_bits().contains(x) {
                            let j2 = choose|j2: int|
                                0 <= j2 < j && self.running@[j2] && (#[trigger] self.parallel@[j2].archetype_component_access).w_bits().contains(x);
                            assert(0 <= j2 < j + 1 && self.running@[j2] && self.parallel@[j2].archetype_component_access.w_bits().contains(x));
                        } else {
                            assert(self.parallel@[j as int].archetype_component_access.w_bits().contains(x));
                        }
                    }
                    assert forall|x: usize|
                        (exists|j2: int|
                            0 <= j2 < j + 1 && self.running@[j2] && (#[trigger] self.parallel@[j2].archetype_component_access).w_bits().contains(x))
                        implies #[trigger] self.active_archetype_component_access.w_bits().contains(x) by {
                        let j2 = choose|j2: int|
                            0 <= j2 < j + 1 && self.running@[j2] && (#[trigger] self.parallel@[j2].archetype_component_access).w_bits().contains(x);
                        if j2 < j {
                            assert(pre_ac.w_bits().contains(x));
                        }
                    }
                    assert((self.active_resource_access.spec_reads_all()) <==> (exists|j2: int|
                        0 <= j2 < j + 1 && self.running@[j2] && (#[trigger] self.parallel@[j2].resource_access).spec_reads_all())) by {
                        if self.active_resource_access.spec_reads_all() {
                            if pre_rc.spec_reads_all() {
                                let j2 = choose|j2: int|
                                    0 <= j2 < j && self.running@[j2] && (#[trigger] self.parallel@[j2].resource_access).spec_reads_all();
                                assert(0 <= j2 < j + 1 && self.running@[j2] && self.parallel@[j2].resource_access.spec_reads_all());
                            } else {
                                assert(self.parallel@[j as int].resource_access.spec_reads_all());
                            }
                        }
                        if exists|j2: int|
                            0 <= j2 < j + 1 && self.running@[j2] && (#[trigger] self.parallel@[j2].resource_access).spec_reads_all() {
                            let j2 = choose|j2: int|
                                0 <= j2 < j + 1 && self.running@[j2] && (#[trigger] self.parallel@[j2].resource_access).spec_reads_all();
                            if j2 < j {
                                assert(pre_rc.spec_reads_all());
                            }
                        }
                    }
                    assert((self.active_archetype_component_access.spec_reads_all()) <==> (exists|j2: int|
                        0 <= j2 < j + 1 && self.running@[j2] && (#[trigger] self.parallel@[j2].archetype_component_access).spec_reads_all())) by {
                        if self.active_archetype_component_access.spec_reads_all() {
                            if pre_ac.spec_reads_all() {
                                let j2 = choose|j2: int|
                                    0 <= j2 < j && self.running@[j2] && (#[trigger] self.parallel@[j2].archetype_component_access).spec_reads_all();
                                assert(0 <= j2 < j + 1 && self.running@[j2] && self.parallel@[j2].archetype_component_access.spec_reads_all());
                            } else {
                                assert(self.parallel@[j as int].archetype_component_access.spec_reads_all());
                            }
                        }
                        if exists|j2: int|
                            0 <= j2 < j + 1 && self.running@[j2] && (#[trigger] self.parallel@[j2].archetype_component_access).spec_reads_all() {
                            let j2 = choose|j2: int|
                                0 <= j2 < j + 1 && self.running@[j2] && (#[trigger] self.parallel@[j2].archetype_component_access).spec_reads_all();
                            if j2 < j {
                                assert(pre_ac.spec_reads_all());
                            }
                        }
                    }
                }
            } else {
                proof {
                    assert forall|x: usize|
                        #[trigger] self.active_resource_access.rw_bits().contains(x) implies exists|j2: int|
                            0 <= j2 < j + 1 && self.running@[j2] && (#[trigger] self.parallel@[j2].resource_access).rw_bits().contains(x) by {
                        let j2 = choose|j2: int|
                            0 <= j2 < j && self.running@[j2] && (#[trigger] self.parallel@[j2].resource_access).rw_bits().contains(x);
                        assert(0 <= j2 < j + 1 && self.running@[j2] && self.parallel@[j2].resource_access.rw_bits().contains(x));
                    }
                    assert forall|x: usize|
                        #[trigger] self.active_resource_access.w_bits().contains(x) implies exists|j2: int|
                            0 <= j2 < j + 1 && self.running@[j2] && (#[trigger] self.parallel@[j2].resource_access).w_bits().contains(x) by {
                        let j2 = choose|j2: int|
                            0 <= j2 < j && self.running@[j2] && (#[trigger] self.parallel@[j2].resource_access).w_bits().contains(x);
                        assert(0 <= j2 < j + 1 && self.running@[j2] && self.parallel@[j2].resource_access.w_bits().contains(x));
                    }
                    assert forall|x: usize|
                        #[trigger] self.active_archetype_component_access.rw_bits().contains(x) implies exists|j2: int|
                            0 <= j2 < j + 1 && self.running@[j2] && (#[trigger] self.parallel@[j2].archetype_component_access).rw_bits().contains(x) by {
                        let j2 = choose|j2: int|
                            0 <= j2 < j && self.running@[j2] && (#[trigger] self.parallel@[j2].archetype_component_access).rw_bits().contains(x);
                        assert(0 <= j2 < j + 1 && self.running@[j2] && self.parallel@[j2].archetype_component_access.rw_bits().contains(x));
                    }
                    assert forall|x: usize|
                        #[trigger] self.active_archetype_component_access.w_bits().contains(x) implies exists|j2: int|
                            0 <= j2 < j + 1 && self.running@[j2] && (#[trigger] self.parallel@[j2].archetype_component_access).w_bits().contains(x) by {
                        let j2 = choose|j2: int|
                            0 <= j2 < j && self.running@[j2] && (#[trigger] self.parallel@[j2].archetype_component_access).w_bits().contains(x);
                        assert(0 <= j2 < j + 1 && self.running@[j2] && self.parallel@[j2].archetype_component_access.w_bits().contains(x));
                    }
                }
            }
            j += 1;
        }
        proof {
            let fin = self;
            // carry the pass invariants over from the state after the
            // counter update: only the active accesses changed since
            assert(fin.parallel@ == mid.parallel@);
            assert(fin.wf_static()) by {
                assert(forall|j2: int| 0 <= j2 < n ==> #[trigger] fin.spec_deps(j2) == mid.spec_deps(j2));
                assert(forall|j2: int| 0 <= j2 < n ==> #[trigger] fin.spec_dependants(j2) == mid.spec_dependants(j2));
                assert(forall|j2: int| 0 <= j2 < n ==> #[trigger] fin.spec_data(j2) == mid.spec_data(j2));
                assert(fin.spec_dep_graph() =~~= mid.spec_dep_graph());
                assert(mid.wf_static());
            }
            assert(fin.dependants_scratch@.len() == 0);
            assert forall|j2: int|
                0 <= j2 < n implies (#[trigger] fin.spec_queued(j2) <==> (fin.spec_should_run(j2)
                    && !fin.spec_running(j2) && !fin.spec_finished(j2) && fin.spec_deps_finished(
                j2,
            ))) by {
                assert(mid.spec_queued(j2) <==> (mid.spec_should_run(j2) && !mid.spec_running(j2)
                    && !mid.spec_finished(j2) && mid.spec_deps_finished(j2)));
            }
            assert forall|j2: int|
                0 <= j2 < n && #[trigger] fin.spec_waiting(j2) implies fin.spec_deps_now(j2)
                == count_unfinished(fin.spec_deps(j2), fin.spec_finished_vec()) by {
                assert(mid.spec_waiting(j2));
            }
            assert forall|j2: int|
                0 <= j2 < n && #[trigger] fin.spec_queued(j2) implies fin.spec_should_run(j2)
                && !fin.spec_running(j2) && !fin.spec_finished(j2) by {
                assert(mid.spec_queued(j2));
            }
            assert forall|j2: int|
                0 <= j2 < n && #[trigger] fin.spec_running(j2) implies fin.spec_should_run(j2)
                && !fin.spec_finished(j2) by {
                assert(mid.spec_running(j2));
                assert(before_counters.spec_running(j2));
                assert(j2 != index as int);
                assert(old(self).spec_running(j2));
                assert(old(self).spec_should_run(j2) && !old(self).spec_finished(j2));
                assert(fin.spec_should_run(j2) == mid.spec_should_run(j2));
                assert(mid.spec_should_run(j2) == before_counters.spec_should_run(j2));
                assert(before_counters.spec_should_run(j2) == old(self).spec_should_run(j2));
                assert(fin.spec_finished(j2) == mid.spec_finished(j2));
                assert(mid.spec_finished(j2) == before_counters.spec_finished(j2));
                assert(!before_counters.spec_finished(j2));
            }
            assert forall|j2: int|
                0 <= j2 < n && #[trigger] fin.spec_finished(j2) implies fin.spec_should_run(j2) by {
                assert(mid.spec_finished(j2));
                assert(before_counters.spec_finished(j2));
                if j2 == index as int {
                    assert(old(self).spec_running(j2));
                } else {
                    assert(old(self).spec_finished(j2));
                }
                assert(old(self).spec_should_run(j2));
                assert(fin.spec_should_run(j2) == mid.spec_should_run(j2));
                assert(mid.spec_should_run(j2) == before_counters.spec_should_run(j2));
                assert(before_counters.spec_should_run(j2) == old(self).spec_should_run(j2));
            }
            assert forall|j2: int|
                0 <= j2 < n && (fin.spec_running(j2) || fin.spec_finished(j2))
                implies #[trigger] fin.spec_deps_finished(j2) by {
                assert(fin.spec_running(j2) == mid.spec_running(j2));
                assert(fin.spec_finished(j2) == mid.spec_finished(j2));
                assert(mid.spec_running(j2) == before_counters.spec_running(j2));
                assert(mid.spec_finished(j2) == before_counters.spec_finished(j2));
                assert(before_counters.spec_running(j2) || before_counters.spec_finished(j2));
                let pre = before_counters.spec_finished_vec().update(index as int, false);
                assert(deps_done(before_counters.spec_deps(j2), pre));
                let ds = fin.spec_deps(j2);
                assert(ds == mid.spec_deps(j2));
                assert(mid.spec_deps(j2) == before_counters.spec_deps(j2));
                assert forall|k2: int| 0 <= k2 < ds.len() implies (#[trigger] ds[k2])
                    < fin.spec_finished_vec().len() && fin.spec_finished_vec()[ds[k2] as int] by {
                    let d = ds[k2];
                    assert(before_counters.spec_deps(j2)[k2] == d);
                    assert(d < pre.len() && pre[d as int]);
                    assert(d != index);
                    assert(before_counters.spec_finished(d as int));
                    assert(mid.spec_finished(d as int) == before_counters.spec_finished(d as int));
                    assert(fin.spec_finished(d as int));
                    assert(fin.spec_finished_vec().len() == fin.spec_n());
                }
            }
            assert forall|i2: int, j2: int|
                0 <= i2 < n && 0 <= j2 < n && i2 != j2 && #[trigger] fin.spec_running(i2)
                    && #[trigger] fin.spec_running(j2) implies fin.spec_compatible(i2, j2) by {
                assert(fin.spec_running(i2) == mid.spec_running(i2));
                assert(fin.spec_running(j2) == mid.spec_running(j2));
                assert(mid.spec_running(i2) == before_counters.spec_running(i2));
                assert(mid.spec_running(j2) == before_counters.spec_running(j2));
                assert(old(self).spec_running(i2));
                assert(old(self).spec_running(j2));
                assert(old(self).spec_compatible(i2, j2));
                assert(mid.spec_rc(i2) == before_counters.spec_rc(i2));
                assert(mid.spec_rc(j2) == before_counters.spec_rc(j2));
                assert(mid.spec_ac(i2) == before_counters.spec_ac(i2));
                assert(mid.spec_ac(j2) == before_counters.spec_ac(j2));
                assert(fin.spec_rc(i2) == mid.spec_rc(i2));
                assert(fin.spec_rc(j2) == mid.spec_rc(j2));
                assert(fin.spec_ac(i2) == mid.spec_ac(i2));
                assert(fin.spec_ac(j2) == mid.spec_ac(j2));
                assert(before_counters.spec_rc(i2) == old(self).spec_rc(i2));
                assert(before_counters.spec_rc(j2) == old(self).spec_rc(j2));
                assert(before_counters.spec_ac(i2) == old(self).spec_ac(i2));
                assert(before_counters.spec_ac(j2) == old(self).spec_ac(j2));
            }
            assert forall|j2: int| 0 <= j2 < n implies #[trigger] fin.spec_deps(j2) == old(
                self,
            ).spec_deps(j2) by {
                assert(fin.spec_deps(j2) == mid.spec_deps(j2));
                assert(mid.spec_deps(j2) == before_counters.spec_deps(j2));
            }
            assert forall|j2: int| 0 <= j2 < n implies #[trigger] fin.spec_dependants(j2) == old(
                self,
            ).spec_dependants(j2) by {
                assert(fin.spec_dependants(j2) == mid.spec_dependants(j2));
                assert(mid.spec_dependants(j2) == before_counters.spec_dependants(j2));
            }
            assert forall|j2: int| 0 <= j2 < n implies #[trigger] fin.spec_index(j2) == old(
                self,
            ).spec_index(j2) by {
                assert(fin.spec_index(j2) == mid.spec_index(j2));
                assert(mid.spec_index(j2) == before_counters.spec_index(j2));
            }
            assert forall|j2: int| 0 <= j2 < n implies #[trigger] fin.spec_rc(j2) == old(
                self,
            ).spec_rc(j2) by {
                assert(fin.spec_rc(j2) == mid.spec_rc(j2));
                assert(mid.spec_rc(j2) == before_counters.spec_rc(j2));
            }
            assert forall|j2: int| 0 <= j2 < n implies #[trigger] fin.spec_ac(j2) == old(
                self,
            ).spec_ac(j2) by {
                assert(fin.spec_ac(j2) == mid.spec_ac(j2));
                assert(mid.spec_ac(j2) == before_counters.spec_ac(j2));
            }
            assert forall|j2: int| 0 <= j2 < n implies #[trigger] fin.spec_thread_local(j2) == old(
                self,
            ).spec_thread_local(j2) by {
                assert(mid.spec_thread_local(j2) == before_counters.spec_thread_local(j2));
            }
            assert forall|j2: int| 0 <= j2 < n implies #[trigger] fin.spec_data(j2).dependencies_total
                == old(self).spec_data(j2).dependencies_total by {
                assert(fin.spec_data(j2).dependencies_total == mid.spec_data(j2).dependencies_total);
                assert(mid.spec_data(j2).dependencies_total
                    == before_counters.spec_data(j2).dependencies_total);
            }
            assert(fin.spec_same_systems(old(self)));
            assert forall|x: usize| #[trigger] fin.spec_active_rc().rw_bits().contains(x) implies exists|j2: int|
                0 <= j2 < n && fin.spec_running(j2) && (#[trigger] fin.spec_rc(j2)).rw_bits().contains(x) by {
                let j2 = choose|j2: int|
                    0 <= j2 < n && fin.running@[j2] && (#[trigger] fin.parallel@[j2].resource_access).rw_bits().contains(x);
                assert(fin.spec_running(j2) && fin.spec_rc(j2).rw_bits().contains(x));
            }
            assert forall|x: usize| (exists|j2: int|
                0 <= j2 < n && fin.spec_running(j2) && (#[trigger] fin.spec_rc(j2)).rw_bits().contains(x))
                implies #[trigger] fin.spec_active_rc().rw_bits().contains(x) by {
                let j2 = choose|j2: int|
                    0 <= j2 < n && fin.spec_running(j2) && (#[trigger] fin.spec_rc(j2)).rw_bits().contains(x);
                assert(fin.running@[j2] && fin.parallel@[j2].resource_access.rw_bits().contains(x));
            }
            assert forall|x: usize| #[trigger] fin.spec_active_rc().w_bits().contains(x) implies exists|j2: int|
                0 <= j2 < n && fin.spec_running(j2) && (#[trigger] fin.spec_rc(j2)).w_bits().contains(x) by {
                let j2 = choose|j2: int|
                    0 <= j2 < n && fin.running@[j2] && (#[trigger] fin.parallel@[j2].resource_access).w_bits().contains(x);
                assert(fin.spec_running(j2) && fin.spec_rc(j2).w_bits().contains(x));
            }
            assert forall|x: usize| (exists|j2: int|
                0 <= j2 < n && fin.spec_running(j2) && (#[trigger] fin.spec_rc(j2)).w_bits().contains(x))
                implies #[trigger] fin.spec_active_rc().w_bits().contains(x) by {
                let j2 = choose|j2: int|
                    0 <= j2 < n && fin.spec_running(j2) && (#[trigger] fin.spec_rc(j2)).w_bits().contains(x);
                assert(fin.running@[j2] && fin.parallel@[j2].resource_access.w_bits().contains(x));
            }
            assert(fin.spec_active_rc().spec_reads_all() <==> (exists|j2: int|
                0 <= j2 < n && fin.spec_running(j2) && (#[trigger] fin.spec_rc(j2)).spec_reads_all())) by {
                if fin.spec_active_rc().spec_reads_all() {
                    let j2 = choose|j2: int|
                        0 <= j2 < n && fin.running@[j2] && (#[trigger] fin.parallel@[j2].resource_access).spec_reads_all();
                    assert(fin.spec_running(j2) && fin.spec_rc(j2).spec_reads_all());
                }
                if exists|j2: int|
                    0 <= j2 < n && fin.spec_running(j2) && (#[trigger] fin.spec_rc(j2)).spec_reads_all() {
                    let j2 = choose|j2: int|
                        0 <= j2 < n && fin.spec_running(j2) && (#[trigger] fin.spec_rc(j2)).spec_reads_all();
                    assert(fin.running@[j2] && fin.parallel@[j2].resource_access.spec_reads_all());
                }
            }
            assert forall|x: usize| #[trigger] fin.spec_active_ac().rw_bits().contains(x) implies exists|j2: int|
                0 <= j2 < n && fin.spec_running(j2) && (#[trigger] fin.spec_ac(j2)).rw_bits().contains(x) by {
                let j2 = choose|j2: int|
                    0 <= j2 < n && fin.running@[j2] && (#[trigger] fin.parallel@[j2].archetype_component_access).rw_bits().contains(x);
                assert(fin.spec_running(j2) && fin.spec_ac(j2).rw_bits().contains(x));
            }
            assert forall|x: usize| (exists|j2: int|
                0 <= j2 < n && fin.spec_running(j2) && (#[trigger] fin.spec_ac(j2)).rw_bits().contains(x))
                implies #[trigger] fin.spec_active_ac().rw_bits().contains(x) by {
                let j2 = choose|j2: int|
                    0 <= j2 < n && fin.spec_running(j2) && (#[trigger] fin.spec_ac(j2)).rw_bits().contains(x);
                assert(fin.running@[j2] && fin.parallel@[j2].archetype_component_access.rw_bits().contains(x));
            }
            assert forall|x: usize| #[trigger] fin.spec_active_ac().w_bits().contains(x) implies exists|j2: int|
                0 <= j2 < n && fin.spec_running(j2) && (#[trigger] fin.spec_ac(j2)).w_bits().contains(x) by {
                let j2 = choose|j2: int|
                    0 <= j2 < n && fin.running@[j2] && (#[trigger] fin.parallel@[j2].archetype_component_access).w_bits().contains(x);
                assert(fin.spec_running(j2) && fin.spec_ac(j2).w_bits().contains(x));
            }
            assert forall|x: usize| (exists|j2: int|
                0 <= j2 < n && fin.spec_running(j2) && (#[trigger] fin.spec_ac(j2)).w_bits().contains(x))
                implies #[trigger] fin.spec_active_ac().w_bits().contains(x) by {
                let j2 = choose|j2: int|
                    0 <= j2 < n && fin.spec_running(j2) && (#[trigger] fin.spec_ac(j2)).w_bits().contains(x);
                assert(fin.running@[j2] && fin.parallel@[j2].archetype_component_access.w_bits().contains(x));
            }
            assert(fin.spec_active_ac().spec_reads_all() <==> (exists|j2: int|
                0 <= j2 < n && fin.spec_running(j2) && (#[trigger] fin.spec_ac(j2)).spec_reads_all())) by {
                if fin.spec_active_ac().spec_reads_all() {
                    let j2 = choose|j2: int|
                        0 <= j2 < n && fin.running@[j2] && (#[trigger] fin.parallel@[j2].archetype_component_access).spec_reads_all();
                    assert(fin.spec_running(j2) && fin.spec_ac(j2).spec_reads_all());
                }
                if exists|j2: int|
                    0 <= j2 < n && fin.spec_running(j2) && (#[trigger] fin.spec_ac(j2)).spec_reads_all() {
                    let j2 = choose|j2: int|
                        0 <= j2 < n && fin.spec_running(j2) && (#[trigger] fin.spec_ac(j2)).spec_reads_all();
                    assert(fin.running@[j2] && fin.parallel@[j2].archetype_component_access.spec_reads_all());
                }
            }
            assert(fin.wf_active());
            assert(fin.wf());
            // relate the final pass state to the caller's view
            assert forall|j2: int| 0 <= j2 < n implies #[trigger] fin.spec_should_run(j2) == old(
                self,
            ).spec_should_run(j2) by {
                assert(fin.spec_should_run(j2) == mid.spec_should_run(j2));
                assert(mid.spec_should_run(j2) == before_counters.spec_should_run(j2));
            }
            assert forall|j2: int|
                0 <= j2 < n implies (#[trigger] fin.spec_running(j2) == (old(self).spec_running(j2)
                    && j2 != index)) by {
                assert(fin.spec_running(j2) == mid.spec_running(j2));
                assert(mid.spec_running(j2) == before_counters.spec_running(j2));
            }
            assert forall|j2: int|
                0 <= j2 < n implies (#[trigger] fin.spec_finished(j2) == (old(self).spec_finished(
                    j2,
                ) || j2 == index)) by {
                assert(fin.spec_finished(j2) == mid.spec_finished(j2));
                assert(mid.spec_finished(j2) == before_counters.spec_finished(j2));
            }
        }
    }
}

impl ParallelSystemStageExecutor {
    /// Tries to run one non-conflicting queued thread-local system inline:
    /// the caller runs it on the main thread before touching the executor
    /// again, so it is marked finished at once and its dependants are
    /// released.  The chosen system was compatible with every running one.
    #[verifier::loop_isolation(false)]
    pub fn run_a_thread_local(&mut self) -> (r: Option<usize>)
        requires
            old(self).wf(),
        ensures
            final(self).wf(),
            final(self).spec_n() == old(self).spec_n(),
            final(self).spec_verdicts() == old(self).spec_verdicts(),
            final(self).spec_same_systems(old(self)),
            final(self).spec_generation() == old(self).spec_generation(),
            forall|j: int|
                0 <= j < final(self).spec_n()
                    ==> #[trigger] final(self).spec_should_run(j) == old(self).spec_should_run(j),
            forall|j: int|
                0 <= j < final(self).spec_n()
                    ==> #[trigger] final(self).spec_running(j) == old(self).spec_running(j),
            match r {
                Some(i) => {
                    &&& i < old(self).spec_n()
                    &&& old(self).spec_queued(i as int)
                    &&& old(self).spec_thread_local(i as int)
                    &&& old(self).spec_can_start(i as int)
                    &&& (forall|j: int|
                        0 <= j < old(self).spec_n() && #[trigger] old(self).spec_running(j)
                            ==> old(self).spec_compatible(i as int, j))
                    &&& (forall|j: int|
                        0 <= j < final(self).spec_n() ==> (#[trigger] final(self).spec_finished(j)
                            == (old(self).spec_finished(j) || j == i)))
                },
                None => {
                    &&& final(self).spec_pass_state() == old(self).spec_pass_state()
                    &&& forall|i: int|
                        0 <= i < old(self).spec_n() ==> !(#[trigger] old(self).spec_queued(i)
                            && old(self).spec_thread_local(i) && old(self).spec_can_start(i))
                },
            },
    {
        let ghost n = self.spec_n() as int;
        let count = self.parallel.len();
        let mut i: usize = 0;
        while i < count
            invariant
                0 <= i <= count,
                count == n,
                *self == *old(self),
                forall|j: int|
                    0 <= j < i ==> !(#[trigger] self.spec_queued(j) && self.spec_thread_local(j)
                        && self.spec_can_start(j)),
            decreases count - i,
        {
            if self.queued[i] && self.thread_local[i] && self.can_start_now(i) {
                proof {
                    self.lemma_can_start_vs_running(i as int);
                }
                self.queued.set(i, false);
                self.finished.set(i, true);
                proof {
                    assert(old(self).spec_queued(i as int));
                    assert(!old(self).spec_finished(i as int));
                    assert(old(self).finished@.len() == n);
                    assert(self.finished@.update(i as int, false) =~= old(self).finished@);
                }
                let m = self.parallel[i].dependants.len();
                let mut k: usize = 0;
                while k < m
                    invariant
                        0 <= k <= m,
                        i < n,
                        n == self.parallel@.len(),
                        m == self.parallel@[i as int].dependants@.len(),
                        self.parallel@ == old(self).parallel@,
                        self.queued@ == old(self).queued@.update(i as int, false),
                        self.running@ == old(self).running@,
                        self.finished@ == old(self).finished@.update(i as int, true),
                        self.should_run@ == old(self).should_run@,
                        self.thread_local@ == old(self).thread_local@,
                        self.system_set_should_run@ == old(self).system_set_should_run@,
                        self.last_archetypes_generation == old(self).last_archetypes_generation,
                        self.active_resource_access == old(self).active_resource_access,
                        self.active_archetype_component_access == old(
                            self,
                        ).active_archetype_component_access,
                        self.dependants_scratch@ == self.parallel@[i as int].dependants@.take(
                            k as int,
                        ),
                    decreases m - k,
                {
                    let d = self.parallel[i].dependants[k];
                    self.dependants_scratch.push(d);
                    proof {
                        assert(self.dependants_scratch@ =~= self.parallel@[i as int].dependants@.take(
                            k + 1,
                        ));
                    }
                    k += 1;
                }
                proof {
                    assert(self.parallel@[i as int].dependants@.take(m as int)
                        =~= self.parallel@[i as int].dependants@);
                    assert(self.dependants_scratch@ == self.spec_dependants(i as int));
                    let pre_fin = self.finished@.update(i as int, false);
                    assert(pre_fin =~= old(self).finished@);
                    assert(self.wf_static()) by {
                        assert(forall|j: int| 0 <= j < n ==> #[trigger] self.spec_deps(j) == old(
                            self,
                        ).spec_deps(j));
                        assert(forall|j: int|
                            0 <= j < n ==> #[trigger] self.spec_dependants(j) == old(
                                self,
                            ).spec_dependants(j));
                        assert(forall|j: int| 0 <= j < n ==> #[trigger] self.spec_data(j) == old(
                            self,
                        ).spec_data(j));
                        assert(self.spec_dep_graph() =~~= old(self).spec_dep_graph());
                    }
                    assert forall|j: int|
                        0 <= j < n implies (#[trigger] self.spec_queued(j) <==> (
                    self.spec_should_run(j) && !self.spec_running(j) && !self.spec_finished(j)
                        && deps_done(
                        self.spec_deps(j),
                        self.spec_finished_vec().update(i as int, false),
                    ))) by {
                        assert(self.spec_finished_vec().update(i as int, false) == pre_fin);
                        assert(old(self).spec_queued(j) <==> (old(self).spec_should_run(j) && !old(
                            self,
                        ).spec_running(j) && !old(self).spec_finished(j) && old(
                            self,
                        ).spec_deps_finished(j)));
                        if j == i as int {
                            assert(!self.spec_queued(j));
                            assert(self.spec_finished(j));
                        }
                    }
                    assert forall|j: int|
                        0 <= j < n && #[trigger] self.spec_waiting(j) implies self.spec_deps_now(j)
                        == count_unfinished(
                        self.spec_deps(j),
                        self.spec_finished_vec().update(i as int, false),
                    ) by {
                        assert(self.spec_finished_vec().update(i as int, false) == pre_fin);
                        assert(old(self).spec_waiting(j));
                    }
                    assert forall|j: int|
                        0 <= j < n && (self.spec_running(j) || self.spec_finished(j)) implies
                        #[trigger] deps_done(
                        self.spec_deps(j),
                        self.spec_finished_vec().update(i as int, false),
                    ) by {
                        assert(self.spec_finished_vec().update(i as int, false) == pre_fin);
                        if j == i as int {
                            assert(old(self).spec_queued(j));
                            assert(old(self).spec_deps_finished(j));
                        } else {
                            assert(old(self).spec_running(j) || old(self).spec_finished(j));
                            assert(old(self).spec_deps_finished(j));
                        }
                    }
                    assert forall|j: int|
                        0 <= j < n && #[trigger] self.spec_running(j) implies self.spec_should_run(
                        j,
                    ) && !self.spec_finished(j) by {
                        assert(old(self).spec_running(j));
                        assert(j != i as int);
                    }
                    assert forall|j: int|
                        0 <= j < n && #[trigger] self.spec_finished(j) implies self.spec_should_run(
                        j,
                    ) by {
                        if j == i as int {
                            assert(old(self).spec_queued(j));
                        } else {
                            assert(old(self).spec_finished(j));
                        }
                    }
                    assert(!self.spec_queued(i as int));
                    assert(self.spec_should_run(i as int)) by {
                        assert(old(self).spec_queued(i as int));
                    }
                    assert(!self.spec_running(i as int)) by {
                        assert(old(self).spec_queued(i as int));
                        assert(!old(self).spec_running(i as int));
                    }
                }
                let ghost before_counters = *self;
                self.update_counters_and_queue(Ghost(i as int));
                proof {
                    let fin = self;
                    assert forall|j2: int| 0 <= j2 < n implies #[trigger] fin.spec_deps(j2) == old(
                        self,
                    ).spec_deps(j2) by {
                        assert(fin.spec_deps(j2) == before_counters.spec_deps(j2));
                    }
                    assert forall|j2: int| 0 <= j2 < n implies #[trigger] fin.spec_dependants(j2)
                        == old(self).spec_dependants(j2) by {
                        assert(fin.spec_dependants(j2) == before_counters.spec_dependants(j2));
                    }
                    assert forall|j2: int| 0 <= j2 < n implies #[trigger] fin.spec_index(j2) == old(
                        self,
                    ).spec_index(j2) by {
                        assert(fin.spec_index(j2) == before_counters.spec_index(j2));
                    }
                    assert forall|j2: int| 0 <= j2 < n implies #[trigger] fin.spec_rc(j2) == old(
                        self,
                    ).spec_rc(j2) by {
                        assert(fin.spec_rc(j2) == before_counters.spec_rc(j2));
                    }
                    assert forall|j2: int| 0 <= j2 < n implies #[trigger] fin.spec_ac(j2) == old(
                        self,
                    ).spec_ac(j2) by {
                        assert(fin.spec_ac(j2) == before_counters.spec_ac(j2));
                    }
                    assert forall|j2: int| 0 <= j2 < n implies #[trigger] fin.spec_thread_local(j2)
                        == old(self).spec_thread_local(j2) by {
                        assert(fin.spec_thread_local(j2) == before_counters.spec_thread_local(j2));
                    }
                    assert forall|j2: int| 0 <= j2 < n implies
                        #[trigger] fin.spec_data(j2).dependencies_total == old(self).spec_data(
                        j2,
                    ).dependencies_total by {
                        assert(fin.spec_data(j2).dependencies_total
                            == before_counters.spec_data(j2).dependencies_total);
                    }
                    assert(fin.spec_same_systems(old(self)));
                    assert forall|j2: int| 0 <= j2 < n implies #[trigger] fin.spec_should_run(j2)
                        == old(self).spec_should_run(j2) by {
                        assert(fin.spec_should_run(j2) == before_counters.spec_should_run(j2));
                    }
                    assert forall|j2: int| 0 <= j2 < n implies #[trigger] fin.spec_running(j2)
                        == old(self).spec_running(j2) by {
                        assert(fin.spec_running(j2) == before_counters.spec_running(j2));
                    }
                    assert forall|j2: int|
                        0 <= j2 < n implies (#[trigger] fin.spec_finished(j2) == (old(
                        self,
                    ).spec_finished(j2) || j2 == i as int)) by {
                        assert(fin.spec_finished(j2) == before_counters.spec_finished(j2));
                    }
                    assert(fin.spec_active_rc() == old(self).spec_active_rc());
                    assert(fin.spec_active_ac() == old(self).spec_active_ac());
                    assert forall|i2: int, j2: int|
                        0 <= i2 < n && 0 <= j2 < n && i2 != j2 && #[trigger] fin.spec_running(i2)
                            && #[trigger] fin.spec_running(j2) implies fin.spec_compatible(
                        i2,
                        j2,
                    ) by {
                        assert(old(self).spec_running(i2));
                        assert(old(self).spec_running(j2));
                        assert(old(self).spec_compatible(i2, j2));
                    }
            assert forall|x: usize| #[trigger] fin.spec_active_rc().rw_bits().contains(x) implies exists|j2: int|
                0 <= j2 < n && fin.spec_running(j2) && (#[trigger] fin.spec_rc(j2)).rw_bits().contains(x) by {
                assert(old(self).spec_active_rc().rw_bits().contains(x));
                let j2 = choose|j2: int|
                    0 <= j2 < n && old(self).spec_running(j2) && (#[trigger] old(self).spec_rc(j2)).rw_bits().contains(x);
                assert(fin.spec_running(j2) == old(self).spec_running(j2));
                assert(fin.spec_rc(j2) == old(self).spec_rc(j2));
                assert(fin.spec_running(j2) && fin.spec_rc(j2).rw_bits().contains(x));
            }
            assert forall|x: usize| (exists|j2: int|
                0 <= j2 < n && fin.spec_running(j2) && (#[trigger] fin.spec_rc(j2)).rw_bits().contains(x))
                implies #[trigger] fin.spec_active_rc().rw_bits().contains(x) by {
                let j2 = choose|j2: int|
                    0 <= j2 < n && fin.spec_running(j2) && (#[trigger] fin.spec_rc(j2)).rw_bits().contains(x);
                assert(old(self).spec_running(j2) && old(self).spec_rc(j2).rw_bits().contains(x));
                assert(old(self).spec_active_rc().rw_bits().contains(x));
            }
            assert forall|x: usize| #[trigger] fin.spec_active_rc().w_bits().contains(x) implies exists|j2: int|
                0 <= j2 < n && fin.spec_running(j2) && (#[trigger] fin.spec_rc(j2)).w_bits().contains(x) by {
                assert(old(self).spec_active_rc().w_bits().contains(x));
                let j2 = choose|j2: int|
                    0 <= j2 < n && old(self).spec_running(j2) && (#[trigger] old(self).spec_rc(j2)).w_bits().contains(x);
                assert(fin.spec_running(j2) == old(self).spec_running(j2));
                assert(fin.spec_rc(j2) == old(self).spec_rc(j2));
                assert(fin.spec_running(j2) && fin.spec_rc(j2).w_bits().contains(x));
            }
            assert forall|x: usize| (exists|j2: int|
                0 <= j2 < n && fin.spec_running(j2) && (#[trigger] fin.spec_rc(j2)).w_bits().contains(x))
                implies #[trigger] fin.spec_active_rc().w_bits().contains(x) by {
                let j2 = choose|j2: int|
                    0 <= j2 < n && fin.spec_running(j2) && (#[trigger] fin.spec_rc(j2)).w_bits().contains(x);
                assert(old(self).spec_running(j2) && old(self).spec_rc(j2).w_bits().contains(x));
                assert(old(self).spec_active_rc().w_bits().contains(x));
            }
            assert(fin.spec_active_rc().spec_reads_all() <==> (exists|j2: int|
                0 <= j2 < n && fin.spec_running(j2) && (#[trigger] fin.spec_rc(j2)).spec_reads_all())) by {
                if fin.spec_active_rc().spec_reads_all() {
                    let j2 = choose|j2: int|
                        0 <= j2 < n && old(self).spec_running(j2) && (#[trigger] old(self).spec_rc(j2)).spec_reads_all();
                    assert(fin.spec_running(j2) && fin.spec_rc(j2).spec_reads_all());
                }
                if exists|j2: int|
                    0 <= j2 < n && fin.spec_running(j2) && (#[trigger] fin.spec_rc(j2)).spec_reads_all() {
                    let j2 = choose|j2: int|
                        0 <= j2 < n && fin.spec_running(j2) && (#[trigger] fin.spec_rc(j2)).spec_reads_all();
                    assert(old(self).spec_running(j2) && old(self).spec_rc(j2).spec_reads_all());
                }
            }
            assert forall|x: usize| #[trigger] fin.spec_active_ac().rw_bits().contains(x) implies exists|j2: int|
                0 <= j2 < n && fin.spec_running(j2) && (#[trigger] fin.spec_ac(j2)).rw_bits().contains(x) by {
                assert(old(self).spec_active_ac().rw_bits().contains(x));
                let j2 = choose|j2: int|
                    0 <= j2 < n && old(self).spec_running(j2) && (#[trigger] old(self).spec_ac(j2)).rw_bits().contains(x);
                assert(fin.spec_running(j2) == old(self).spec_running(j2));
                assert(fin.spec_ac(j2) == old(self).spec_ac(j2));
                assert(fin.spec_running(j2) && fin.spec_ac(j2).rw_bits().contains(x));
            }
            assert forall|x: usize| (exists|j2: int|
                0 <= j2 < n && fin.spec_running(j2) && (#[trigger] fin.spec_ac(j2)).rw_bits().contains(x))
                implies #[trigger] fin.spec_active_ac().rw_bits().contains(x) by {
                let j2 = choose|j2: int|
                    0 <= j2 < n && fin.spec_running(j2) && (#[trigger] fin.spec_ac(j2)).rw_bits().contains(x);
                assert(old(self).spec_running(j2) && old(self).spec_ac(j2).rw_bits().contains(x));
                assert(old(self).spec_active_ac().rw_bits().contains(x));
            }
            assert forall|x: usize| #[trigger] fin.spec_active_ac().w_bits().contains(x) implies exists|j2: int|
                0 <= j2 < n && fin.spec_running(j2) && (#[trigger] fin.spec_ac(j2)).w_bits().contains(x) by {
                assert(old(self).spec_active_ac().w_bits().contains(x));
                let j2 = choose|j2: int|
                    0 <= j2 < n && old(self).spec_running(j2) && (#[trigger] old(self).spec_ac(j2)).w_bits().contains(x);
                assert(fin.spec_running(j2) == old(self).spec_running(j2));
                assert(fin.spec_ac(j2) == old(self).spec_ac(j2));
                assert(fin.spec_running(j2) && fin.spec_ac(j2).w_bits().contains(x));
            }
            assert forall|x: usize| (exists|j2: int|
                0 <= j2 < n && fin.spec_running(j2) && (#[trigger] fin.spec_ac(j2)).w_bits().contains(x))
                implies #[trigger] fin.spec_active_ac().w_bits().contains(x) by {
                let j2 = choose|j2: int|
                    0 <= j2 < n && fin.spec_running(j2) && (#[trigger] fin.spec_ac(j2)).w_bits().contains(x);
                assert(old(self).spec_running(j2) && old(self).spec_ac(j2).w_bits().contains(x));
                assert(old(self).spec_active_ac().w_bits().contains(x));
            }
            assert(fin.spec_active_ac().spec_reads_all() <==> (exists|j2: int|
                0 <= j2 < n && fin.spec_running(j2) && (#[trigger] fin.spec_ac(j2)).spec_reads_all())) by {
                if fin.spec_active_ac().spec_reads_all() {
                    let j2 = choose|j2: int|
                        0 <= j2 < n && old(self).spec_running(j2) && (#[trigger] old(self).spec_ac(j2)).spec_reads_all();
                    assert(fin.spec_running(j2) && fin.spec_ac(j2).spec_reads_all());
                }
                if exists|j2: int|
                    0 <= j2 < n && fin.spec_running(j2) && (#[trigger] fin.spec_ac(j2)).spec_reads_all() {
                    let j2 = choose|j2: int|
                        0 <= j2 < n && fin.spec_running(j2) && (#[trigger] fin.spec_ac(j2)).spec_reads_all();
                    assert(old(self).spec_running(j2) && old(self).spec_ac(j2).spec_reads_all());
                }
            }

                    assert(fin.wf_active());
                    assert forall|j2: int|
                        0 <= j2 < n && #[trigger] fin.spec_queued(j2) implies fin.spec_should_run(
                        j2,
                    ) && !fin.spec_running(j2) && !fin.spec_finished(j2) by {
                        assert(fin.spec_queued(j2) <==> (fin.spec_should_run(j2)
                            && !fin.spec_running(j2) && !fin.spec_finished(j2)
                            && fin.spec_deps_finished(j2)));
                    }
                    assert forall|j2: int|
                        0 <= j2 < n && #[trigger] fin.spec_running(j2) implies fin.spec_should_run(
                        j2,
                    ) && !fin.spec_finished(j2) by {
                        assert(old(self).spec_running(j2));
                        assert(j2 != i as int);
                        assert(!old(self).spec_finished(j2));
                    }
                    assert forall|j2: int|
                        0 <= j2 < n && #[trigger] fin.spec_finished(j2) implies fin.spec_should_run(
                        j2,
                    ) by {
                        if j2 == i as int {
                            assert(old(self).spec_queued(j2));
                        } else {
                            assert(old(self).spec_finished(j2));
                        }
                    }
                    assert forall|j2: int|
                        0 <= j2 < n && (fin.spec_running(j2) || fin.spec_finished(j2))
                        implies #[trigger] fin.spec_deps_finished(j2) by {
                        assert(fin.spec_running(j2) == before_counters.spec_running(j2));
                        assert(fin.spec_finished(j2) == before_counters.spec_finished(j2));
                        let pre = before_counters.spec_finished_vec().update(i as int, false);
                        assert(deps_done(before_counters.spec_deps(j2), pre));
                        let ds = fin.spec_deps(j2);
                        assert(ds == before_counters.spec_deps(j2));
                        assert forall|k2: int| 0 <= k2 < ds.len() implies (#[trigger] ds[k2])
                            < fin.spec_finished_vec().len() && fin.spec_finished_vec()[ds[k2] as int] by {
                            let d = ds[k2];
                            assert(before_counters.spec_deps(j2)[k2] == d);
                            assert(d < pre.len() && pre[d as int]);
                            assert(d != i);
                            assert(before_counters.spec_finished(d as int));
                            assert(fin.spec_finished(d as int) == before_counters.spec_finished(
                                d as int,
                            ));
                            assert(fin.spec_finished_vec().len() == fin.spec_n());
                        }
                    }
                    assert(fin.wf());
                }
                return Some(i);
            }
            proof {
                assert(!(self.spec_queued(i as int) && self.spec_thread_local(i as int)
                    && self.spec_can_start(i as int)));
            }
            i += 1;
        }
        None
    }
}

/// The number of parallel systems over all sets.
pub open spec fn total_parallel(sets: Seq<SystemSet>) -> nat
    decreases sets.len(),
{
    if sets.len() == 0 {
        0
    } else {
        total_parallel(sets.drop_last()) + sets.last().spec_parallel().len()
    }
}

/// The parallel descriptor at flat (set-major) position `i`.
pub open spec fn flat_parallel(sets: Seq<SystemSet>, i: int) -> crate::descriptor::ParallelSystemDescriptor
    decreases sets.len(),
{
    if sets.len() == 0 {
        arbitrary()
    } else if i < total_parallel(sets.drop_last()) {
        flat_parallel(sets.drop_last(), i)
    } else {
        sets.last().spec_parallel()[i - total_parallel(sets.drop_last())]
    }
}

/// The stage position behind flat (set-major) position `i`.
pub open spec fn flat_position(sets: Seq<SystemSet>, i: int) -> SystemIndex
    decreases sets.len(),
{
    if sets.len() == 0 {
        arbitrary()
    } else if i < total_parallel(sets.drop_last()) {
        flat_position(sets.drop_last(), i)
    } else {
        SystemIndex {
            set: (sets.len() - 1) as usize,
            system: (i - total_parallel(sets.drop_last())) as usize,
        }
    }
}

impl ParallelSystemStageExecutor {
    /// Discards and rebuilds the parallel scheduling data for a stage:
    /// flattens the sets' parallel systems in set-major order, takes over
    /// the validated dependency lists, inverts them into dependants, and
    /// condenses every access against the universes of distinct items the
    /// systems touch.  Returns the gathered resource and
    /// archetype-component universes.
    #[verifier::loop_isolation(false)]
    pub fn rebuild_scheduling_data(
        &mut self,
        sets: &Vec<SystemSet>,
        deps: &Vec<Vec<usize>>,
        archetypes: &Archetypes,
    ) -> (r: (Vec<u64>, Vec<ArchetypeComponent>))
        requires
            forall|s: int| 0 <= s < sets@.len() ==> (#[trigger] sets@[s]).wf(),
            deps@.len() == total_parallel(sets@),
            crate::sorting::graph_wf(crate::sorting::graph_of(deps@)),
            forall|u: int| 0 <= u < deps@.len() ==> (#[trigger] deps@[u]@).no_duplicates(),
            !crate::sorting::has_cycle(crate::sorting::graph_of(deps@)),
        ensures
            final(self).wf_static(),
            final(self).spec_n() == deps@.len(),
            final(self).spec_verdicts() == old(self).spec_verdicts(),
            final(self).spec_generation() == archetypes.generation,
            r.0@.no_duplicates(),
            r.1@.no_duplicates(),
            forall|i: int|
                0 <= i < deps@.len() ==> #[trigger] final(self).spec_deps(i) == deps@[i]@,
            forall|i: int|
                0 <= i < deps@.len() ==> #[trigger] final(self).spec_index(i) == flat_position(
                    sets@,
                    i,
                ),
            forall|i: int|
                0 <= i < deps@.len() ==> #[trigger] final(self).spec_thread_local(i)
                    == flat_parallel(sets@, i).system.thread_local,
            // the universes cover every item a non-unrestricted system reads
            // or writes
            forall|i: int|
                0 <= i < deps@.len() && !flat_parallel(
                    sets@,
                    i,
                ).system.spec_resource_access().spec_reads_all() ==> (#[trigger] flat_parallel(
                    sets@,
                    i,
                ).system.spec_resource_access().rw_set()) <= r.0@.to_set(),
            forall|i: int|
                0 <= i < deps@.len() && !flat_parallel(
                    sets@,
                    i,
                ).system.spec_ac_access().spec_reads_all() ==> (#[trigger] flat_parallel(
                    sets@,
                    i,
                ).system.spec_ac_access().rw_set()) <= r.1@.to_set(),
            // every condensed access is the projection of its system's
            // access onto the returned universes
            forall|i: int|
                0 <= i < deps@.len() ==> {
                    let meta = #[trigger] flat_parallel(sets@, i).system;
                    &&& final(self).spec_rc(i).spec_reads_all()
                        == meta.spec_resource_access().spec_reads_all()
                    &&& final(self).spec_rc(i).rw_bits() == condensed_rw_indices(
                        meta.spec_resource_access().spec_reads_all(),
                        r.0@,
                        meta.spec_resource_access().rw_set(),
                    )
                    &&& final(self).spec_rc(i).w_bits() == condensed_indices(
                        r.0@,
                        meta.spec_resource_access().w_set(),
                    )
                    &&& final(self).spec_ac(i).spec_reads_all()
                        == meta.spec_ac_access().spec_reads_all()
                    &&& final(self).spec_ac(i).rw_bits() == condensed_rw_indices(
                        meta.spec_ac_access().spec_reads_all(),
                        r.1@,
                        meta.spec_ac_access().rw_set(),
                    )
                    &&& final(self).spec_ac(i).w_bits() == condensed_indices(
                        r.1@,
                        meta.spec_ac_access().w_set(),
                    )
                },
    {
        let ghost n = deps@.len() as int;
        self.last_archetypes_generation = archetypes.generation;
        // gather the universes of distinct accessed items
        let mut all_resource_types: Vec<u64> = Vec::new();
        let mut all_archetype_components: Vec<ArchetypeComponent> = Vec::new();
        let n_sets = sets.len();
        let ghost mut flat: int = 0;
        let mut s: usize = 0;
        while s < n_sets
            invariant
                0 <= s <= n_sets,
                n_sets == sets@.len(),
                flat == total_parallel(sets@.take(s as int)),
                flat <= total_parallel(sets@),
                all_resource_types@.no_duplicates(),
                all_archetype_components@.no_duplicates(),
                forall|i: int|
                    0 <= i < flat && !flat_parallel(
                        sets@,
                        i,
                    ).system.spec_resource_access().spec_reads_all() ==> (#[trigger] flat_parallel(
                        sets@,
                        i,
                    ).system.spec_resource_access().rw_set()) <= all_resource_types@.to_set(),
                forall|i: int|
                    0 <= i < flat && !flat_parallel(
                        sets@,
                        i,
                    ).system.spec_ac_access().spec_reads_all() ==> (#[trigger] flat_parallel(
                        sets@,
                        i,
                    ).system.spec_ac_access().rw_set()) <= all_archetype_components@.to_set(),
            decreases n_sets - s,
        {
            proof {
                lemma_total_parallel_take_succ(sets@, s as int);
                assert(sets@[s as int].wf());
            }
            let set = &sets[s];
            let m = set.parallel_systems_len();
            let mut k: usize = 0;
            while k < m
                invariant
                    0 <= k <= m,
                    s < n_sets,
                    n_sets == sets@.len(),
                    m == sets@[s as int].spec_parallel().len(),
                    sets@[s as int].wf(),
                    flat == total_parallel(sets@.take(s as int)),
                    all_resource_types@.no_duplicates(),
                    all_archetype_components@.no_duplicates(),
                    forall|i: int|
                        0 <= i < flat + k && !flat_parallel(
                            sets@,
                            i,
                        ).system.spec_resource_access().spec_reads_all() ==> (
                        #[trigger] flat_parallel(sets@, i).system.spec_resource_access().rw_set())
                            <= all_resource_types@.to_set(),
                    forall|i: int|
                        0 <= i < flat + k && !flat_parallel(
                            sets@,
                            i,
                        ).system.spec_ac_access().spec_reads_all() ==> (#[trigger] flat_parallel(
                            sets@,
                            i,
                        ).system.spec_ac_access().rw_set())
                            <= all_archetype_components@.to_set(),
                decreases m - k,
            {
                proof {
                    lemma_flat_parallel_at(sets@, s as int, k as int);
                    assert(sets@[s as int].spec_parallel()[k as int].system.wf());
                }
                let meta = &set.parallel_systems()[k].system;
                let ghost pre_rc = all_resource_types@;
                match meta.resource_access().all_distinct_types() {
                    Some(items) => {
                        extend_universe(&mut all_resource_types, &items);
                        proof {
                            assert(items@.to_set() == meta.spec_resource_access().rw_set());
                        }
                    },
                    None => {},
                }
                let ghost pre_ac = all_archetype_components@;
                match meta.archetype_component_access().all_distinct_types() {
                    Some(items) => {
                        extend_universe(&mut all_archetype_components, &items);
                        proof {
                            assert(items@.to_set() == meta.spec_ac_access().rw_set());
                        }
                    },
                    None => {},
                }
                proof {
                    assert(pre_rc.to_set() <= all_resource_types@.to_set());
                    assert(pre_ac.to_set() <= all_archetype_components@.to_set());
                    assert forall|i: int|
                        0 <= i < flat + k + 1 && !flat_parallel(
                            sets@,
                            i,
                        ).system.spec_resource_access().spec_reads_all() implies (
                    #[trigger] flat_parallel(sets@, i).system.spec_resource_access().rw_set())
                        <= all_resource_types@.to_set() by {
                        if i < flat + k {
                            assert(flat_parallel(sets@, i).system.spec_resource_access().rw_set()
                                <= pre_rc.to_set());
                        } else {
                            assert(flat_parallel(sets@, i)
                                == sets@[s as int].spec_parallel()[k as int]);
                        }
                    }
                    assert forall|i: int|
                        0 <= i < flat + k + 1 && !flat_parallel(
                            sets@,
                            i,
                        ).system.spec_ac_access().spec_reads_all() implies (
                    #[trigger] flat_parallel(sets@, i).system.spec_ac_access().rw_set())
                        <= all_archetype_components@.to_set() by {
                        if i < flat + k {
                            assert(flat_parallel(sets@, i).system.spec_ac_access().rw_set()
                                <= pre_ac.to_set());
                        } else {
                            assert(flat_parallel(sets@, i)
                                == sets@[s as int].spec_parallel()[k as int]);
                        }
                    }
                }
                k += 1;
            }
            proof {
                flat = flat + m as int;
                assert(flat == total_parallel(sets@.take(s + 1)));
                lemma_total_parallel_take_le(sets@, s + 1);
            }
            s += 1;
        }
        proof {
            assert(sets@.take(n_sets as int) =~= sets@);
            assert(flat == total_parallel(sets@));
        }
        // build the scheduling data in set-major order
        self.parallel = Vec::new();
        self.should_run = Vec::new();
        self.thread_local = Vec::new();
        self.queued = Vec::new();
        self.running = Vec::new();
        self.finished = Vec::new();
        self.dependants_scratch = Vec::new();
        self.active_resource_access = CondensedTypeAccess::empty();
        self.active_archetype_component_access = CondensedTypeAccess::empty();
        let mut s: usize = 0;
        let ghost mut flat2: int = 0;
        while s < n_sets
            invariant
                0 <= s <= n_sets,
                n_sets == sets@.len(),
                flat2 == total_parallel(sets@.take(s as int)),
                flat2 == self.parallel@.len(),
                flat2 <= total_parallel(sets@),
                n == total_parallel(sets@),
                deps@.len() == n,
                self.system_set_should_run@ == old(self).system_set_should_run@,
                self.last_archetypes_generation == archetypes.generation,
                self.should_run@.len() == self.parallel@.len(),
                self.thread_local@.len() == self.parallel@.len(),
                self.queued@.len() == self.parallel@.len(),
                self.running@.len() == self.parallel@.len(),
                self.finished@.len() == self.parallel@.len(),
                self.dependants_scratch@.len() == 0,
                forall|i: int|
                    0 <= i < flat2 ==> #[trigger] self.parallel@[i].dependencies@ == deps@[i]@,
                forall|i: int|
                    0 <= i < flat2 ==> #[trigger] self.parallel@[i].dependants@
                        =~= Seq::<usize>::empty(),
                forall|i: int|
                    0 <= i < flat2 ==> #[trigger] self.parallel@[i].dependencies_total
                        == deps@[i]@.len(),
                forall|i: int|
                    0 <= i < flat2 ==> #[trigger] self.parallel@[i].index == flat_position(
                        sets@,
                        i,
                    ),
                forall|i: int|
                    0 <= i < flat2 ==> #[trigger] self.thread_local@[i] == flat_parallel(
                        sets@,
                        i,
                    ).system.thread_local,
                forall|i: int|
                    0 <= i < flat2 ==> {
                        let meta = #[trigger] flat_parallel(sets@, i).system;
                        &&& self.parallel@[i].resource_access.spec_reads_all()
                            == meta.spec_resource_access().spec_reads_all()
                        &&& self.parallel@[i].resource_access.rw_bits() == condensed_rw_indices(
                            meta.spec_resource_access().spec_reads_all(),
                            all_resource_types@,
                            meta.spec_resource_access().rw_set(),
                        )
                        &&& self.parallel@[i].resource_access.w_bits() == condensed_indices(
                            all_resource_types@,
                            meta.spec_resource_access().w_set(),
                        )
                        &&& self.parallel@[i].archetype_component_access.spec_reads_all()
                            == meta.spec_ac_access().spec_reads_all()
                        &&& self.parallel@[i].archetype_component_access.rw_bits()
                            == condensed_rw_indices(
                            meta.spec_ac_access().spec_reads_all(),
                            all_archetype_components@,
                            meta.spec_ac_access().rw_set(),
                        )
                        &&& self.parallel@[i].archetype_component_access.w_bits()
                            == condensed_indices(
                            all_archetype_components@,
                            meta.spec_ac_access().w_set(),
                        )
                    },
            decreases n_sets - s,
        {
            proof {
                lemma_total_parallel_take_succ(sets@, s as int);
                assert(sets@[s as int].wf());
                lemma_total_parallel_take_le(sets@, s + 1);
            }
            let set = &sets[s];
            let m = set.parallel_systems_len();
            let mut k: usize = 0;
            while k < m
                invariant
                    0 <= k <= m,
                    s < n_sets,
                    n_sets == sets@.len(),
                    m == sets@[s as int].spec_parallel().len(),
                    sets@[s as int].wf(),
                    flat2 == total_parallel(sets@.take(s as int)),
                    flat2 + m <= total_parallel(sets@),
                    flat2 + k == self.parallel@.len(),
                    n == total_parallel(sets@),
                    deps@.len() == n,
                    self.system_set_should_run@ == old(self).system_set_should_run@,
                    self.last_archetypes_generation == archetypes.generation,
                    self.should_run@.len() == self.parallel@.len(),
                    self.thread_local@.len() == self.parallel@.len(),
                    self.queued@.len() == self.parallel@.len(),
                    self.running@.len() == self.parallel@.len(),
                    self.finished@.len() == self.parallel@.len(),
                    self.dependants_scratch@.len() == 0,
                    forall|i: int|
                        0 <= i < flat2 + k ==> #[trigger] self.parallel@[i].dependencies@
                            == deps@[i]@,
                    forall|i: int|
                        0 <= i < flat2 + k ==> #[trigger] self.parallel@[i].dependants@
                            =~= Seq::<usize>::empty(),
                    forall|i: int|
                        0 <= i < flat2 + k ==> #[trigger] self.parallel@[i].dependencies_total
                            == deps@[i]@.len(),
                    forall|i: int|
                        0 <= i < flat2 + k ==> #[trigger] self.parallel@[i].index == flat_position(
                            sets@,
                            i,
                        ),
                    forall|i: int|
                        0 <= i < flat2 + k ==> #[trigger] self.thread_local@[i] == flat_parallel(
                            sets@,
                            i,
                        ).system.thread_local,
                    forall|i: int|
                        0 <= i < flat2 + k ==> {
                            let meta = #[trigger] flat_parallel(sets@, i).system;
                            &&& self.parallel@[i].resource_access.spec_reads_all()
                                == meta.spec_resource_access().spec_reads_all()
                            &&& self.parallel@[i].resource_access.rw_bits() == condensed_rw_indices(
                                meta.spec_resource_access().spec_reads_all(),
                                all_resource_types@,
                                meta.spec_resource_access().rw_set(),
                            )
                            &&& self.parallel@[i].resource_access.w_bits() == condensed_indices(
                                all_resource_types@,
                                meta.spec_resource_access().w_set(),
                            )
                            &&& self.parallel@[i].archetype_component_access.spec_reads_all()
                                == meta.spec_ac_access().spec_reads_all()
                            &&& self.parallel@[i].archetype_component_access.rw_bits()
                                == condensed_rw_indices(
                                meta.spec_ac_access().spec_reads_all(),
                                all_archetype_components@,
                                meta.spec_ac_access().rw_set(),
                            )
                            &&& self.parallel@[i].archetype_component_access.w_bits()
                                == condensed_indices(
                                all_archetype_components@,
                                meta.spec_ac_access().w_set(),
                            )
                        },
                decreases m - k,
            {
                proof {
                    lemma_flat_parallel_at(sets@, s as int, k as int);
                    assert(sets@[s as int].spec_parallel()[k as int].system.wf());
                }
                let descriptor = &set.parallel_systems()[k];
                let meta = &descriptor.system;
                let index = SystemIndex { set: s, system: k };
                let flat_now = self.parallel.len();
                let total = deps[flat_now].len();
                let mut dependencies: Vec<usize> = Vec::new();
                copy_indices(&deps[flat_now], &mut dependencies);
                let rc = meta.resource_access().condense(&all_resource_types);
                let ac = meta.archetype_component_access().condense(&all_archetype_components);
                let data = ParallelSystemSchedulingData {
                    index,
                    dependencies,
                    dependants: Vec::new(),
                    dependencies_total: total,
                    dependencies_now: 0,
                    archetype_component_access: ac,
                    resource_access: rc,
                };
                self.parallel.push(data);
                self.should_run.push(false);
                self.thread_local.push(meta.thread_local);
                self.queued.push(false);
                self.running.push(false);
                self.finished.push(false);
                k += 1;
            }
            proof {
                flat2 = flat2 + m as int;
                assert(flat2 == total_parallel(sets@.take(s + 1)));
            }
            s += 1;
        }
        proof {
            assert(sets@.take(n_sets as int) =~= sets@);
            assert(self.parallel@.len() == n);
        }
        // invert the dependency lists into dependants
        let ghost built = self.parallel@;
        let ghost built_tl = self.thread_local@;
        proof {
            assert(forall|i: int|
                0 <= i < built.len() ==> #[trigger] built_tl[i] == flat_parallel(
                    sets@,
                    i,
                ).system.thread_local);
        }
        let total_count = self.parallel.len();
        let mut u: usize = 0;
        while u < total_count
            invariant
                0 <= u <= total_count,
                total_count == self.parallel@.len(),
                total_count == deps@.len(),
                self.system_set_should_run@ == old(self).system_set_should_run@,
                self.last_archetypes_generation == archetypes.generation,
                self.should_run@.len() == total_count,
                self.thread_local@ == built_tl,
                self.thread_local@.len() == total_count,
                self.queued@.len() == total_count,
                self.running@.len() == total_count,
                self.finished@.len() == total_count,
                self.dependants_scratch@.len() == 0,
                forall|i: int|
                    0 <= i < total_count ==> data_skeleton_except_dependants(
                        #[trigger] self.parallel@[i],
                        built[i],
                    ),
                forall|v: int, u0: int|
                    0 <= v < total_count && 0 <= u0 < total_count ==> ((
                    #[trigger] self.parallel@[v].dependants@.contains(u0 as usize)) <==> (u0 < u
                        && deps@[u0]@.contains(v as usize))),
                forall|v: int|
                    0 <= v < total_count ==> (#[trigger] self.parallel@[v].dependants@).no_duplicates(),
                forall|v: int, k2: int|
                    0 <= v < total_count && 0 <= k2 < self.parallel@[v].dependants@.len()
                        ==> #[trigger] self.parallel@[v].dependants@[k2] < total_count,
            decreases total_count - u,
        {
            let row_len = self.parallel[u].dependencies.len();
            let mut k: usize = 0;
            while k < row_len
                invariant
                    0 <= k <= row_len,
                    u < total_count,
                    total_count == self.parallel@.len(),
                    total_count == deps@.len(),
                    row_len == deps@[u as int]@.len(),
                    self.parallel@[u as int].dependencies@ == deps@[u as int]@,
                    self.system_set_should_run@ == old(self).system_set_should_run@,
                    self.last_archetypes_generation == archetypes.generation,
                    self.should_run@.len() == total_count,
                    self.thread_local@ == built_tl,
                    self.thread_local@.len() == total_count,
                    self.queued@.len() == total_count,
                    self.running@.len() == total_count,
                    self.finished@.len() == total_count,
                    self.dependants_scratch@.len() == 0,
                    forall|i: int|
                        0 <= i < total_count ==> data_skeleton_except_dependants(
                            #[trigger] self.parallel@[i],
                            built[i],
                        ),
                    forall|v: int, u0: int|
                        0 <= v < total_count && 0 <= u0 < total_count ==> ((
                        #[trigger] self.parallel@[v].dependants@.contains(u0 as usize)) <==> ((u0
                            < u && deps@[u0]@.contains(v as usize)) || (u0 == u && deps@[
                        u as int]@.take(k as int).contains(v as usize)))),
                    forall|v: int|
                        0 <= v < total_count ==> (#[trigger] self.parallel@[v].dependants@).no_duplicates(),
                    forall|v: int, k2: int|
                        0 <= v < total_count && 0 <= k2 < self.parallel@[v].dependants@.len()
                            ==> #[trigger] self.parallel@[v].dependants@[k2] < total_count,
                decreases row_len - k,
            {
                let v = self.parallel[u].dependencies[k];
                proof {
                    assert(deps@[u as int]@[k as int] == v);
                    assert(crate::sorting::graph_of(deps@)[u as int][k as int] == v);
                    assert(v < total_count);
                    // v has not received u yet: deps are duplicate-free
                    assert(!deps@[u as int]@.take(k as int).contains(v)) by {
                        if deps@[u as int]@.take(k as int).contains(v) {
                            let k2 = choose|k2: int|
                                0 <= k2 < k && #[trigger] deps@[u as int]@.take(k as int)[k2] == v;
                            assert(deps@[u as int]@[k2] == v);
                            assert(deps@[u as int]@.no_duplicates());
                        }
                    }
                    assert((u as int) as usize == u);
                    assert(!self.parallel@[v as int].dependants@.contains(((u as int) as usize)));
                    assert(!self.parallel@[v as int].dependants@.contains(u));
                }
                let ghost pre_par = self.parallel@;
                self.parallel[v].dependants.push(u);
                proof {
                    assert(forall|i: int|
                        0 <= i < total_count && i != v ==> self.parallel@[i] == #[trigger] pre_par[i]);
                    assert(self.parallel@[v as int].dependants@
                        == pre_par[v as int].dependants@.push(u));
                    assert(data_skeleton_except_dependants(
                        self.parallel@[v as int],
                        built[v as int],
                    ));
                    assert(self.parallel@[v as int].dependants@.no_duplicates()) by {
                        lemma_push_no_duplicates(pre_par[v as int].dependants@, u);
                    }
                    assert(deps@[u as int]@.take(k + 1).drop_last() =~= deps@[u as int]@.take(
                        k as int,
                    ));
                    assert(deps@[u as int]@.take(k + 1).last() == v);
                    assert((u as int) as usize == u);
                    assert forall|v2: int, u0: int|
                        0 <= v2 < total_count && 0 <= u0 < total_count implies ((
                    #[trigger] self.parallel@[v2].dependants@.contains(u0 as usize)) <==> ((u0 < u
                        && deps@[u0]@.contains(v2 as usize)) || (u0 == u && deps@[
                    u as int]@.take(k + 1).contains(v2 as usize)))) by {
                        let entry_contains = pre_par[v2].dependants@.contains(u0 as usize);
                        assert(entry_contains <==> ((u0 < u && deps@[u0]@.contains(v2 as usize)) || (
                        u0 == u && deps@[u as int]@.take(k as int).contains(v2 as usize))));
                        if v2 != v {
                            assert(self.parallel@[v2] == pre_par[v2]);
                            assert(deps@[u as int]@.take(k + 1).contains(v2 as usize) <==> deps@[
                            u as int]@.take(k as int).contains(v2 as usize)) by {
                                if deps@[u as int]@.take(k + 1).contains(v2 as usize) {
                                    let k2 = choose|k2: int|
                                        0 <= k2 < k + 1 && #[trigger] deps@[u as int]@.take(k + 1)[k2]
                                            == v2 as usize;
                                    assert(k2 < k) by {
                                        if k2 == k {
                                            assert(v2 as usize == v);
                                        }
                                    }
                                    assert(deps@[u as int]@.take(k as int)[k2] == v2 as usize);
                                }
                                if deps@[u as int]@.take(k as int).contains(v2 as usize) {
                                    let k2 = choose|k2: int|
                                        0 <= k2 < k && #[trigger] deps@[u as int]@.take(k as int)[k2]
                                            == v2 as usize;
                                    assert(deps@[u as int]@.take(k + 1)[k2] == v2 as usize);
                                }
                            }
                        } else {
                            assert(self.parallel@[v2].dependants@ == pre_par[v2].dependants@.push(
                                u,
                            ));
                            assert(deps@[u as int]@.take(k + 1)[k as int] == v as usize);
                            assert(deps@[u as int]@.take(k + 1).contains(v as usize)) by {
                                assert(deps@[u as int]@.take(k + 1)[k as int] == v as usize);
                            }
                            if self.parallel@[v2].dependants@.contains(u0 as usize) {
                                let k2 = choose|k2: int|
                                    0 <= k2 < self.parallel@[v2].dependants@.len()
                                        && #[trigger] self.parallel@[v2].dependants@[k2]
                                        == u0 as usize;
                                if k2 < pre_par[v2].dependants@.len() {
                                    assert(pre_par[v2].dependants@[k2] == u0 as usize);
                                    assert(entry_contains);
                                } else {
                                    assert(u0 as usize == u);
                                    assert(u0 == u);
                                }
                            }
                            if u0 < u && deps@[u0]@.contains(v2 as usize) {
                                assert(entry_contains);
                                let k2 = choose|k2: int|
                                    0 <= k2 < pre_par[v2].dependants@.len()
                                        && #[trigger] pre_par[v2].dependants@[k2] == u0 as usize;
                                assert(self.parallel@[v2].dependants@[k2] == u0 as usize);
                            }
                            if u0 == u && deps@[u as int]@.take(k + 1).contains(v2 as usize) {
                                assert(self.parallel@[v2].dependants@[self.parallel@[
                                v2].dependants@.len() - 1] == u);
                                assert(self.parallel@[v2].dependants@.contains(u0 as usize)) by {
                                    assert(self.parallel@[v2].dependants@[self.parallel@[
                                    v2].dependants@.len() - 1] == u0 as usize);
                                }
                            }
                        }
                    }
                }
                k += 1;
            }
            proof {
                assert(deps@[u as int]@.take(row_len as int) =~= deps@[u as int]@);
                assert forall|v2: int, u0: int|
                    0 <= v2 < total_count && 0 <= u0 < total_count implies ((
                #[trigger] self.parallel@[v2].dependants@.contains(u0 as usize)) <==> (u0 < u + 1
                    && deps@[u0]@.contains(v2 as usize))) by {
                }
            }
            u += 1;
        }
        proof {
            let fin = self;
            assert forall|i: int| 0 <= i < total_count implies #[trigger] fin.spec_deps(i)
                == deps@[i]@ by {
                assert(data_skeleton_except_dependants(
                    fin.parallel@[i],
                    built[i],
                ));
            }
            assert forall|u0: int, v: int|
                0 <= u0 < total_count && 0 <= v < total_count implies ((
            #[trigger] fin.spec_dependants(u0).contains(v as usize)) <==> fin.spec_deps(
                v,
            ).contains(u0 as usize)) by {
                assert(fin.parallel@[u0].dependants@.contains(v as usize) <==> (v < total_count
                    && deps@[v]@.contains(u0 as usize)));
            }
            assert(fin.spec_dep_graph() =~~= crate::sorting::graph_of(deps@)) by {
                assert(fin.spec_dep_graph().len() == crate::sorting::graph_of(deps@).len());
                assert forall|i: int|
                    0 <= i < total_count implies #[trigger] fin.spec_dep_graph()[i]
                    == crate::sorting::graph_of(deps@)[i] by {
                    assert(fin.spec_dep_graph()[i] == fin.spec_deps(i));
                }
            }
            assert(!crate::sorting::has_cycle(fin.spec_dep_graph()));
            assert forall|i: int, k2: int|
                0 <= i < total_count && 0 <= k2 < fin.spec_deps(i).len()
                implies #[trigger] fin.spec_deps(i)[k2] < total_count by {
                assert(crate::sorting::graph_of(deps@)[i][k2] < deps@.len());
            }
            assert forall|i: int| 0 <= i < total_count implies (
            #[trigger] fin.spec_deps(i)).no_duplicates() by {
                assert(deps@[i]@.no_duplicates());
            }
            assert(fin.wf_static());
        }
        (all_resource_types, all_archetype_components)
    }
}

/// Everything of a scheduling datum except its dependants list.
pub open spec fn data_skeleton_except_dependants(
    a: ParallelSystemSchedulingData,
    b: ParallelSystemSchedulingData,
) -> bool {
    &&& a.index == b.index
    &&& a.dependencies@ == b.dependencies@
    &&& a.dependencies_total == b.dependencies_total
    &&& a.archetype_component_access.spec_reads_all() == b.archetype_component_access.spec_reads_all()
    &&& a.archetype_component_access.rw_bits() == b.archetype_component_access.rw_bits()
    &&& a.archetype_component_access.w_bits() == b.archetype_component_access.w_bits()
    &&& a.resource_access.spec_reads_all() == b.resource_access.spec_reads_all()
    &&& a.resource_access.rw_bits() == b.resource_access.rw_bits()
    &&& a.resource_access.w_bits() == b.resource_access.w_bits()
}

/// Merges the items into the universe, keeping it duplicate-free.
fn extend_universe<T: crate::access::PlainEq + Copy>(universe: &mut Vec<T>, items: &Vec<T>)
    requires
        old(universe)@.no_duplicates(),
    ensures
        final(universe)@.no_duplicates(),
        final(universe)@.to_set() =~= old(universe)@.to_set().union(items@.to_set()),
{
    let m = items.len();
    let mut k: usize = 0;
    while k < m
        invariant
            0 <= k <= m,
            m == items@.len(),
            universe@.no_duplicates(),
            universe@.to_set() =~= old(universe)@.to_set().union(items@.take(k as int).to_set()),
        decreases m - k,
    {
        crate::access::push_unique(universe, items[k]);
        proof {
            crate::access::lemma_to_set_take_succ(items@, k as int);
        }
        k += 1;
    }
    proof {
        assert(items@.take(m as int) =~= items@);
    }
}

/// Copies a list of indices.
fn copy_indices(src: &Vec<usize>, dst: &mut Vec<usize>)
    requires
        old(dst)@.len() == 0,
    ensures
        final(dst)@ == src@,
{
    let m = src.len();
    let mut k: usize = 0;
    while k < m
        invariant
            0 <= k <= m,
            m == src@.len(),
            dst@ =~= src@.take(k as int),
        decreases m - k,
    {
        dst.push(src[k]);
        proof {
            assert(dst@ =~= src@.take(k + 1));
        }
        k += 1;
    }
    proof {
        assert(src@.take(m as int) =~= src@);
    }
}

/// Pushing a fresh element keeps a sequence duplicate-free.
proof fn lemma_push_no_duplicates(s: Seq<usize>, x: usize)
    requires
        s.no_duplicates(),
        !s.contains(x),
    ensures
        s.push(x).no_duplicates(),
{
    let t = s.push(x);
    assert forall|i: int, j: int| 0 <= i < t.len() && 0 <= j < t.len() && i != j implies t[i]
        != t[j] by {
        if i < s.len() && j < s.len() {
            assert(t[i] == s[i] && t[j] == s[j]);
        } else if i == s.len() {
            assert(t[j] == s[j] && t[i] == x);
        } else {
            assert(t[i] == s[i] && t[j] == x);
        }
    }
}

/// One more set adds its parallel systems to the running total.
pub proof fn lemma_total_parallel_take_succ(sets: Seq<SystemSet>, s: int)
    requires
        0 <= s < sets.len(),
    ensures
        total_parallel(sets.take(s + 1)) == total_parallel(sets.take(s)) + sets[s].spec_parallel().len(),
{
    assert(sets.take(s + 1).drop_last() =~= sets.take(s));
    assert(sets.take(s + 1).last() == sets[s]);
}

/// A prefix never holds more parallel systems than the whole.
pub proof fn lemma_total_parallel_take_le(sets: Seq<SystemSet>, t: int)
    requires
        0 <= t <= sets.len(),
    ensures
        total_parallel(sets.take(t)) <= total_parallel(sets),
    decreases sets.len() - t,
{
    if t == sets.len() {
        assert(sets.take(t) =~= sets);
    } else {
        assert(sets.drop_last().take(t) =~= sets.take(t));
        lemma_total_parallel_take_le(sets.drop_last(), t);
    }
}

/// The flat position of system `k` of set `s`, and the descriptor there.
pub proof fn lemma_flat_parallel_at(sets: Seq<SystemSet>, s: int, k: int)
    requires
        0 <= s < sets.len(),
        0 <= k < sets[s].spec_parallel().len(),
    ensures
        total_parallel(sets.take(s)) + k < total_parallel(sets),
        flat_parallel(sets, total_parallel(sets.take(s)) + k) == sets[s].spec_parallel()[k],
        flat_position(sets, total_parallel(sets.take(s)) + k) == (SystemIndex {
            set: s as usize,
            system: k as usize,
        }),
    decreases sets.len(),
{
    lemma_total_parallel_take_succ(sets, s);
    lemma_total_parallel_take_le(sets, s + 1);
    if s == sets.len() - 1 {
        assert(sets.take(s) =~= sets.drop_last());
    } else {
        assert(sets.drop_last().take(s) =~= sets.take(s));
        assert(sets.drop_last()[s] == sets[s]);
        lemma_flat_parallel_at(sets.drop_last(), s, k);
        assert(sets.drop_last().take(s + 1) =~= sets.take(s + 1));
        lemma_total_parallel_take_le(sets.drop_last(), s + 1);
        assert(total_parallel(sets.take(s)) + k < total_parallel(sets.drop_last()));
    }
}

impl ParallelSystemStageExecutor {
    /// The number of parallel systems under scheduling.
    pub fn len(&self) -> (r: usize)
        ensures
            r == self.spec_n(),
    {
        self.parallel.len()
    }

    /// Whether system `i` should run this pass.
    pub fn is_should_run(&self, i: usize) -> (r: bool)
        requires
            self.wf_static(),
            i < self.spec_n(),
        ensures
            r == self.spec_should_run(i as int),
    {
        self.should_run[i]
    }

    /// Whether system `i` is queued.
    pub fn is_queued(&self, i: usize) -> (r: bool)
        requires
            self.wf_static(),
            i < self.spec_n(),
        ensures
            r == self.spec_queued(i as int),
    {
        self.queued[i]
    }

    /// Whether system `i` is running.
    pub fn is_running(&self, i: usize) -> (r: bool)
        requires
            self.wf_static(),
            i < self.spec_n(),
        ensures
            r == self.spec_running(i as int),
    {
        self.running[i]
    }

    /// Whether system `i` finished this pass.
    pub fn is_finished(&self, i: usize) -> (r: bool)
        requires
            self.wf_static(),
            i < self.spec_n(),
        ensures
            r == self.spec_finished(i as int),
    {
        self.finished[i]
    }

    /// Whether system `i` must run on the main thread.
    pub fn is_thread_local(&self, i: usize) -> (r: bool)
        requires
            self.wf_static(),
            i < self.spec_n(),
        ensures
            r == self.spec_thread_local(i as int),
    {
        self.thread_local[i]
    }

    /// The stage position of flat system `i`.
    pub fn position_of(&self, i: usize) -> (r: SystemIndex)
        requires
            i < self.spec_n(),
        ensures
            r == self.spec_index(i as int),
    {
        self.parallel[i].index
    }

    /// Whether flat system `i` waits for flat system `v`.
    pub fn depends_on(&self, i: usize, v: usize) -> (r: bool)
        requires
            i < self.spec_n(),
        ensures
            r == self.spec_deps(i as int).contains(v),
    {
        crate::access::slice_contains(&self.parallel[i].dependencies, &v)
    }
}

/// Data of a parallel descriptor that access re-analysis never changes:
/// everything except the archetype-component access.
pub open spec fn descriptor_frame_eq(
    a: crate::descriptor::ParallelSystemDescriptor,
    b: crate::descriptor::ParallelSystemDescriptor,
) -> bool {
    &&& a.label == b.label
    &&& a.before@ == b.before@
    &&& a.after@ == b.after@
    &&& a.system.id == b.system.id
    &&& a.system.thread_local == b.system.thread_local
    &&& a.system.spec_query() == b.system.spec_query()
    &&& a.system.spec_resource_access() == b.system.spec_resource_access()
}

/// Re-runs access analysis on every parallel system whose archetype-
/// component access is not unrestricted, after the world's archetypes
/// changed.  The caller then rebuilds the scheduling data so that the
/// condensed bitsets match the new accesses.
#[verifier::loop_isolation(false)]
pub fn update_parallel_access(sets: &mut Vec<SystemSet>, archetypes: &Archetypes)
    requires
        forall|s: int| 0 <= s < old(sets)@.len() ==> (#[trigger] old(sets)@[s]).wf(),
        archetypes.list@.len() <= u32::MAX,
    ensures
        final(sets)@.len() == old(sets)@.len(),
        forall|s: int| 0 <= s < final(sets)@.len() ==> (#[trigger] final(sets)@[s]).wf(),
        forall|s: int|
            0 <= s < final(sets)@.len() ==> (#[trigger] final(sets)@[s]).spec_sequential() == old(
                sets,
            )@[s].spec_sequential() && final(sets)@[s].spec_dirty() == old(sets)@[s].spec_dirty()
                && final(sets)@[s].spec_criteria() == old(sets)@[s].spec_criteria()
                && final(sets)@[s].spec_parallel().len() == old(sets)@[s].spec_parallel().len(),
        forall|s: int, k: int|
            0 <= s < final(sets)@.len() && 0 <= k < final(sets)@[s].spec_parallel().len()
                ==> descriptor_frame_eq(
                #[trigger] final(sets)@[s].spec_parallel()[k],
                old(sets)@[s].spec_parallel()[k],
            ),
        forall|s: int, k: int|
            0 <= s < final(sets)@.len() && 0 <= k < final(sets)@[s].spec_parallel().len() ==> {
                let pre = old(sets)@[s].spec_parallel()[k].system;
                let post = (#[trigger] final(sets)@[s].spec_parallel()[k]).system;
                if pre.spec_ac_access().spec_reads_all() {
                    post.spec_ac_access() == pre.spec_ac_access()
                } else {
                    !post.spec_ac_access().spec_reads_all() && post.spec_ac_access().rw_set()
                        =~= crate::query::world_gathered_rw(pre.spec_query(), archetypes.list@)
                        && post.spec_ac_access().w_set() =~= crate::query::world_gathered_w(
                        pre.spec_query(),
                        archetypes.list@,
                    )
                }
            },
{
    let n_sets = sets.len();
    let mut s: usize = 0;
    while s < n_sets
        invariant
            0 <= s <= n_sets,
            n_sets == sets@.len(),
            n_sets == old(sets)@.len(),
            forall|t: int| s <= t < n_sets ==> #[trigger] sets@[t] == old(sets)@[t],
            forall|t: int| 0 <= t < s ==> (#[trigger] sets@[t]).wf(),
            forall|t: int|
                0 <= t < s ==> (#[trigger] sets@[t]).spec_sequential() == old(
                    sets,
                )@[t].spec_sequential() && sets@[t].spec_dirty() == old(sets)@[t].spec_dirty()
                    && sets@[t].spec_criteria() == old(sets)@[t].spec_criteria()
                    && sets@[t].spec_parallel().len() == old(sets)@[t].spec_parallel().len(),
            forall|t: int, k: int|
                0 <= t < s && 0 <= k < sets@[t].spec_parallel().len() ==> descriptor_frame_eq(
                    #[trigger] sets@[t].spec_parallel()[k],
                    old(sets)@[t].spec_parallel()[k],
                ),
            forall|t: int, k: int|
                0 <= t < s && 0 <= k < sets@[t].spec_parallel().len() ==> {
                    let pre = old(sets)@[t].spec_parallel()[k].system;
                    let post = (#[trigger] sets@[t].spec_parallel()[k]).system;
                    if pre.spec_ac_access().spec_reads_all() {
                        post.spec_ac_access() == pre.spec_ac_access()
                    } else {
                        !post.spec_ac_access().spec_reads_all() && post.spec_ac_access().rw_set()
                            =~= crate::query::world_gathered_rw(pre.spec_query(), archetypes.list@)
                            && post.spec_ac_access().w_set() =~= crate::query::world_gathered_w(
                            pre.spec_query(),
                            archetypes.list@,
                        )
                    }
                },
        decreases n_sets - s,
    {
        proof {
            assert(old(sets)@[s as int].wf());
        }
        let ghost pre_sets = sets@;
        let set = &mut sets[s];
        proof {
            assert(*set == old(sets)@[s as int]);
            set.lemma_field_views();
            old(sets)@[s as int].lemma_field_views();
        }
        let m = set.parallel_systems.len();
        let mut k: usize = 0;
        while k < m
            invariant
                0 <= k <= m,
                s < n_sets,
                m == set.parallel_systems@.len(),
                m == old(sets)@[s as int].spec_parallel().len(),
                set.sequential_systems@ == old(sets)@[s as int].spec_sequential(),
                set.is_dirty == old(sets)@[s as int].spec_dirty(),
                set.run_criteria == old(sets)@[s as int].spec_criteria(),
                forall|k2: int|
                    k <= k2 < m ==> #[trigger] set.parallel_systems@[k2] == old(
                        sets,
                    )@[s as int].spec_parallel()[k2],
                forall|k2: int|
                    0 <= k2 < k ==> descriptor_frame_eq(
                        #[trigger] set.parallel_systems@[k2],
                        old(sets)@[s as int].spec_parallel()[k2],
                    ),
                forall|k2: int| 0 <= k2 < m ==> (#[trigger] set.parallel_systems@[k2]).system.wf(),
                forall|k2: int|
                    0 <= k2 < k ==> {
                        let pre = old(sets)@[s as int].spec_parallel()[k2].system;
                        let post = (#[trigger] set.parallel_systems@[k2]).system;
                        if pre.spec_ac_access().spec_reads_all() {
                            post.spec_ac_access() == pre.spec_ac_access()
                        } else {
                            !post.spec_ac_access().spec_reads_all()
                                && post.spec_ac_access().rw_set()
                                =~= crate::query::world_gathered_rw(
                                pre.spec_query(),
                                archetypes.list@,
                            ) && post.spec_ac_access().w_set()
                                =~= crate::query::world_gathered_w(
                                pre.spec_query(),
                                archetypes.list@,
                            )
                        }
                    },
            decreases m - k,
        {
            proof {
                assert(old(sets)@[s as int].spec_parallel()[k as int].system.wf());
            }
            let ghost pre_par = set.parallel_systems@;
            let needs_update = !set.parallel_systems[k].system.archetype_component_access()
                .reads_all();
            if needs_update {
                let descriptor = &mut set.parallel_systems[k];
                descriptor.system.update_access(archetypes);
                proof {
                    assert(forall|k2: int|
                        0 <= k2 < m && k2 != k ==> set.parallel_systems@[k2] == #[trigger] pre_par[
                        k2]);
                }
            }
            k += 1;
        }
        proof {
            sets@[s as int].lemma_field_views();
        }
        s += 1;
    }
}

} // verus!
