//! Topological sorting of dependency graphs, with cycle detection.
//!
//! A graph is given as one dependency list per node: node `u` may start only
//! after every node in `deps[u]`.  Sorting either returns a valid topological
//! order of all nodes, or reports the nodes that are stuck on a cycle.

use vstd::prelude::*;

verus! {

/// The mathematical graph behind a vector of dependency lists.
pub open spec fn graph_of(deps: Seq<Vec<usize>>) -> Seq<Seq<usize>> {
    deps.map_values(|v: Vec<usize>| v@)
}

/// Every dependency names a node of the graph.
pub open spec fn graph_wf(g: Seq<Seq<usize>>) -> bool {
    forall|u: int, j: int| 0 <= u < g.len() && 0 <= j < g[u].len() ==> #[trigger] g[u][j]
        < g.len()
}

/// There is a dependency edge from `u` to `v`: `u` waits for `v`.
pub open spec fn dep_edge(g: Seq<Seq<usize>>, u: usize, v: usize) -> bool {
    u < g.len() && g[u as int].contains(v)
}

/// `p` walks along dependency edges and closes back on its first node.
pub open spec fn is_cycle(g: Seq<Seq<usize>>, p: Seq<usize>) -> bool {
    &&& p.len() > 0
    &&& forall|i: int| 0 <= i < p.len() - 1 ==> #[trigger] dep_edge(g, p[i], p[i + 1])
    &&& dep_edge(g, p[p.len() - 1], p[0])
}

/// The graph has some dependency cycle.
pub open spec fn has_cycle(g: Seq<Seq<usize>>) -> bool {
    exists|p: Seq<usize>| is_cycle(g, p)
}

/// The dependency `j` of the node at position `i` of `xs` is listed at an
/// earlier position.
pub open spec fn dep_listed_before(g: Seq<Seq<usize>>, xs: Seq<usize>, i: int, j: int) -> bool {
    exists|k: int| 0 <= k < i && xs[k] == g[xs[i] as int][j]
}

/// `xs` lists every node exactly once, each after all its dependencies.
pub open spec fn is_topological_order(g: Seq<Seq<usize>>, xs: Seq<usize>) -> bool {
    &&& xs.len() == g.len()
    &&& xs.no_duplicates()
    &&& forall|i: int| 0 <= i < xs.len() ==> xs[i] < g.len()
    &&& forall|i: int, j: int|
        0 <= i < xs.len() && 0 <= j < g[xs[i] as int].len() ==> #[trigger] dep_listed_before(
            g,
            xs,
            i,
            j,
        )
}

/// `rem` holds every node that lies on any dependency cycle of `g`.
pub open spec fn holds_all_cycle_nodes(g: Seq<Seq<usize>>, rem: Seq<usize>) -> bool {
    forall|p: Seq<usize>, i: int|
        #[trigger] is_cycle(g, p) && 0 <= i < p.len() ==> rem.contains(#[trigger] p[i])
}

/// The outcome of sorting: an order over all nodes, or the nodes that are
/// stuck because each of them waits on another one of them.
pub enum SortingResult {
    Sorted(Vec<usize>),
    FoundCycle(Vec<usize>),
}

/// No prefix of a dependency-respecting partial order can list a node of a
/// cycle: around the cycle, each node needs its successor listed earlier.
proof fn lemma_cycle_nodes_unlisted_upto(
    g: Seq<Seq<usize>>,
    xs: Seq<usize>,
    p: Seq<usize>,
    k: int,
)
    requires
        forall|i: int| 0 <= i < xs.len() ==> xs[i] < g.len(),
        forall|i: int, j: int|
            0 <= i < xs.len() && 0 <= j < g[xs[i] as int].len() ==> #[trigger] dep_listed_before(
                g,
                xs,
                i,
                j,
            ),
        is_cycle(g, p),
        0 <= k <= xs.len(),
    ensures
        forall|k2: int, i: int|
            0 <= k2 < k && 0 <= i < p.len() ==> #[trigger] xs[k2] != #[trigger] p[i],
    decreases k,
{
    if k > 0 {
        lemma_cycle_nodes_unlisted_upto(g, xs, p, k - 1);
        assert forall|i: int| 0 <= i < p.len() implies xs[k - 1] != #[trigger] p[i] by {
            if xs[k - 1] == p[i] {
                let nxt = if i == p.len() - 1 {
                    0
                } else {
                    i + 1
                };
                assert(dep_edge(g, p[i], p[nxt]));
                assert(g[p[i] as int].contains(p[nxt]));
                let j = choose|j: int|
                    0 <= j < g[p[i] as int].len() && g[p[i] as int][j] == p[nxt];
                assert(dep_listed_before(g, xs, k - 1, j));
                let k2 = choose|k2: int| 0 <= k2 < k - 1 && #[trigger] xs[k2] == g[xs[k - 1] as int][j];
                assert(xs[k2] == p[nxt]);
            }
        }
    }
}

/// A dependency-respecting order over some of the nodes lists no node of
/// any cycle.
proof fn lemma_cycle_nodes_unlisted(g: Seq<Seq<usize>>, xs: Seq<usize>, p: Seq<usize>)
    requires
        forall|i: int| 0 <= i < xs.len() ==> xs[i] < g.len(),
        forall|i: int, j: int|
            0 <= i < xs.len() && 0 <= j < g[xs[i] as int].len() ==> #[trigger] dep_listed_before(
                g,
                xs,
                i,
                j,
            ),
        is_cycle(g, p),
    ensures
        forall|i: int| 0 <= i < p.len() ==> !xs.contains(#[trigger] p[i]),
{
    lemma_cycle_nodes_unlisted_upto(g, xs, p, xs.len() as int);
    assert forall|i: int| 0 <= i < p.len() implies !xs.contains(#[trigger] p[i]) by {
        if xs.contains(p[i]) {
            let k2 = choose|k2: int| 0 <= k2 < xs.len() && xs[k2] == p[i];
        }
    }
}

/// Removing one position keeps a sequence duplicate-free.
proof fn lemma_remove_no_duplicates(s: Seq<usize>, k: int)
    requires
        s.no_duplicates(),
        0 <= k < s.len(),
    ensures
        s.remove(k).no_duplicates(),
        forall|i: int| 0 <= i < s.remove(k).len() ==> s.contains(#[trigger] s.remove(k)[i]),
{
    let t = s.remove(k);
    assert forall|i: int, j: int| 0 <= i < t.len() && 0 <= j < t.len() && i != j implies t[i]
        != t[j] by {
        let i0 = if i < k {
            i
        } else {
            i + 1
        };
        let j0 = if j < k {
            j
        } else {
            j + 1
        };
        assert(t[i] == s[i0]);
        assert(t[j] == s[j0]);
    }
    assert forall|i: int| 0 <= i < t.len() implies s.contains(#[trigger] t[i]) by {
        let i0 = if i < k {
            i
        } else {
            i + 1
        };
        assert(t[i] == s[i0]);
    }
}

/// A duplicate-free sequence of numbers below `n` has at most `n` entries.
proof fn lemma_distinct_bounded_len(p: Seq<usize>, n: nat)
    requires
        p.no_duplicates(),
        forall|i: int| 0 <= i < p.len() ==> p[i] < n,
    ensures
        p.len() <= n,
    decreases n,
{
    if n == 0 {
        if p.len() > 0 {
            assert(p[0] < 0);
        }
    } else {
        if exists|k: int| 0 <= k < p.len() && p[k] == n - 1 {
            let k = choose|k: int| 0 <= k < p.len() && p[k] == n - 1;
            let q = p.remove(k);
            lemma_remove_no_duplicates(p, k);
            assert forall|i: int| 0 <= i < q.len() implies q[i] < n - 1 by {
                let i0 = if i < k {
                    i
                } else {
                    i + 1
                };
                assert(q[i] == p[i0]);
                if q[i] == n - 1 {
                    assert(p[i0] == p[k]);
                }
            }
            lemma_distinct_bounded_len(q, (n - 1) as nat);
        } else {
            assert forall|i: int| 0 <= i < p.len() implies p[i] < n - 1 by {
                assert(p[i] != n - 1);
            }
            lemma_distinct_bounded_len(p, (n - 1) as nat);
        }
    }
}

/// A duplicate-free sequence of `n` numbers below `n` holds each of them.
proof fn lemma_bounded_complete_contains(xs: Seq<usize>, n: nat, u: usize)
    requires
        xs.no_duplicates(),
        xs.len() == n,
        forall|i: int| 0 <= i < xs.len() ==> xs[i] < n,
        u < n,
    ensures
        xs.contains(u),
    decreases n,
{
    if !(exists|k: int| 0 <= k < xs.len() && xs[k] == n - 1) {
        assert forall|i: int| 0 <= i < xs.len() implies xs[i] < n - 1 by {
            assert(xs[i] != n - 1);
        }
        lemma_distinct_bounded_len(xs, (n - 1) as nat);
        assert(false);
    }
    let k = choose|k: int| 0 <= k < xs.len() && xs[k] == n - 1;
    if u == n - 1 {
        assert(xs.contains(u)) by {
            assert(xs[k] == u);
        }
    } else {
        let q = xs.remove(k);
        lemma_remove_no_duplicates(xs, k);
        assert forall|i: int| 0 <= i < q.len() implies q[i] < n - 1 by {
            let i0 = if i < k {
                i
            } else {
                i + 1
            };
            assert(q[i] == xs[i0]);
            if q[i] == n - 1 {
                assert(xs[i0] == xs[k]);
            }
        }
        lemma_bounded_complete_contains(q, (n - 1) as nat, u);
        let i = choose|i: int| 0 <= i < q.len() && q[i] == u;
        let i0 = if i < k {
            i
        } else {
            i + 1
        };
        assert(xs[i0] == u);
    }
}

/// Position `i` of `q` holds a value no larger than any entry of `q`.
pub open spec fn min_at(q: Seq<int>, i: int) -> bool {
    forall|j: int| 0 <= j < q.len() ==> q[i] <= #[trigger] q[j]
}

/// A nonempty sequence of integers has a position of minimal value.
proof fn lemma_seq_has_min(q: Seq<int>)
    requires
        q.len() > 0,
    ensures
        exists|i: int| 0 <= i < q.len() && #[trigger] min_at(q, i),
    decreases q.len(),
{
    if q.len() == 1 {
        assert(min_at(q, 0));
    } else {
        let rest = q.drop_last();
        lemma_seq_has_min(rest);
        let i = choose|i: int| 0 <= i < rest.len() && #[trigger] min_at(rest, i);
        if q[q.len() - 1] < q[i] {
            assert(min_at(q, q.len() - 1)) by {
                assert forall|j: int| 0 <= j < q.len() implies q[q.len() - 1] <= #[trigger] q[j] by {
                    if j < q.len() - 1 {
                        assert(rest[j] == q[j]);
                        assert(rest[i] <= rest[j]);
                    }
                }
            }
        } else {
            assert(min_at(q, i)) by {
                assert forall|j: int| 0 <= j < q.len() implies q[i] <= #[trigger] q[j] by {
                    if j < q.len() - 1 {
                        assert(rest[j] == q[j]);
                        assert(rest[i] <= rest[j]);
                    }
                }
            }
        }
    }
}

/// Nodes of `stuck` each wait on another node of `stuck`.
pub open spec fn all_stuck(g: Seq<Seq<usize>>, stuck: Set<usize>) -> bool {
    forall|u: usize| #[trigger] stuck.contains(u) ==> u < g.len() && exists|j: int|
        0 <= j < g[u as int].len() && stuck.contains(g[u as int][j])
}

/// Walking dependency edges inside a stuck set must eventually revisit a
/// node, closing a cycle.
proof fn lemma_walk_finds_cycle(g: Seq<Seq<usize>>, stuck: Set<usize>, p: Seq<usize>)
    requires
        all_stuck(g, stuck),
        p.len() > 0,
        p.no_duplicates(),
        forall|i: int| 0 <= i < p.len() ==> stuck.contains(#[trigger] p[i]),
        forall|i: int| 0 <= i < p.len() - 1 ==> #[trigger] dep_edge(g, p[i], p[i + 1]),
    ensures
        has_cycle(g),
    decreases g.len() + 1 - p.len(),
{
    assert forall|i: int| 0 <= i < p.len() implies p[i] < g.len() by {
        assert(stuck.contains(p[i]));
    }
    lemma_distinct_bounded_len(p, g.len());
    let last = p[p.len() - 1];
    assert(stuck.contains(last));
    let j = choose|j: int| 0 <= j < g[last as int].len() && stuck.contains(g[last as int][j]);
    let v = g[last as int][j];
    assert(dep_edge(g, last, v)) by {
        assert(g[last as int].contains(v)) by {
            assert(g[last as int][j] == v);
        }
    }
    if p.contains(v) {
        let a = choose|a: int| 0 <= a < p.len() && p[a] == v;
        let cyc = p.subrange(a, p.len() as int);
        assert(cyc.len() > 0);
        assert forall|i: int| 0 <= i < cyc.len() - 1 implies #[trigger] dep_edge(g, cyc[i], cyc[i + 1]) by {
            assert(cyc[i] == p[a + i]);
            assert(cyc[i + 1] == p[a + i + 1]);
        }
        assert(cyc[cyc.len() - 1] == last);
        assert(cyc[0] == v);
        assert(is_cycle(g, cyc));
    } else {
        let p2 = p.push(v);
        assert(p2.no_duplicates()) by {
            assert forall|i: int, k: int|
                0 <= i < p2.len() && 0 <= k < p2.len() && i != k implies p2[i] != p2[k] by {
                if i < p.len() && k < p.len() {
                    assert(p2[i] == p[i] && p2[k] == p[k]);
                } else if i == p.len() {
                    assert(p2[k] == p[k] && p2[i] == v);
                    assert(!p.contains(v));
                } else {
                    assert(p2[i] == p[i] && p2[k] == v);
                    assert(!p.contains(v));
                }
            }
        }
        assert forall|i: int| 0 <= i < p2.len() implies stuck.contains(#[trigger] p2[i]) by {
            if i < p.len() {
                assert(p2[i] == p[i]);
            } else {
                assert(p2[i] == v);
            }
        }
        assert forall|i: int| 0 <= i < p2.len() - 1 implies #[trigger] dep_edge(g, p2[i], p2[i + 1]) by {
            if i < p.len() - 1 {
                assert(p2[i] == p[i] && p2[i + 1] == p[i + 1]);
            } else {
                assert(p2[i] == last && p2[i + 1] == v);
            }
        }
        lemma_walk_finds_cycle(g, stuck, p2);
    }
}

/// A nonempty set of nodes that each wait on another node of the set
/// witnesses a cycle.
pub proof fn lemma_stuck_implies_cycle(g: Seq<Seq<usize>>, stuck: Set<usize>, u0: usize)
    requires
        all_stuck(g, stuck),
        stuck.contains(u0),
    ensures
        has_cycle(g),
{
    let p = seq![u0];
    assert(p[0] == u0);
    lemma_walk_finds_cycle(g, stuck, p);
}

/// A graph with a valid topological order has no cycle: around any cycle the
/// position in the order would strictly decrease.
pub proof fn lemma_topological_order_acyclic(g: Seq<Seq<usize>>, xs: Seq<usize>)
    requires
        is_topological_order(g, xs),
    ensures
        !has_cycle(g),
{
    if has_cycle(g) {
        let p = choose|p: Seq<usize>| is_cycle(g, p);
        assert forall|i: int| 0 <= i < p.len() implies p[i] < g.len() by {
            if i < p.len() - 1 {
                assert(dep_edge(g, p[i], p[i + 1]));
            } else {
                assert(dep_edge(g, p[p.len() - 1], p[0]));
            }
        }
        assert forall|i: int| 0 <= i < p.len() implies xs.contains(#[trigger] p[i]) by {
            lemma_bounded_complete_contains(xs, g.len(), p[i]);
        }
        let positions = Seq::new(p.len(), |i: int| choose|k: int| 0 <= k < xs.len() && xs[k] == p[i]);
        assert forall|i: int| 0 <= i < p.len() implies 0 <= positions[i] < xs.len() && xs[positions[i]]
            == p[i] by {
            assert(xs.contains(p[i]));
            let k0 = choose|k: int| 0 <= k < xs.len() && xs[k] == p[i];
            assert(positions[i] == k0);
        }
        lemma_seq_has_min(positions);
        let i = choose|i: int| 0 <= i < positions.len() && #[trigger] min_at(positions, i);
        let succ = if i == p.len() - 1 {
            0
        } else {
            i + 1
        };
        assert(dep_edge(g, p[i], p[succ]));
        let ki = positions[i];
        let ks = positions[succ];
        assert(xs[ki] == p[i]);
        assert(xs[ks] == p[succ]);
        let j = choose|j: int| 0 <= j < g[p[i] as int].len() && g[p[i] as int][j] == p[succ];
        assert(g[xs[ki] as int].len() > j);
        assert(dep_listed_before(g, xs, ki, j));
        let k2 = choose|k: int| 0 <= k < ki && xs[k] == g[xs[ki] as int][j];
        assert(xs[k2] == p[succ]);
        assert(k2 == ks) by {
            if k2 != ks {
                assert(xs[k2] == xs[ks]);
            }
        }
        assert(ks < ki);
        assert(min_at(positions, i));
        assert(positions[i] <= positions[succ]);
        assert(false);
    }
}

/// Finds a node that has not been emitted and whose dependencies all have.
fn find_ready(deps: &Vec<Vec<usize>>, emitted: &Vec<bool>) -> (r: Option<usize>)
    requires
        emitted@.len() == deps@.len(),
        graph_wf(graph_of(deps@)),
    ensures
        match r {
            Some(u) => u < deps@.len() && !emitted@[u as int] && forall|j: int|
                0 <= j < deps@[u as int]@.len() ==> emitted@[#[trigger] deps@[u as int]@[j] as int],
            None => forall|u: int|
                0 <= u < deps@.len() && !emitted@[u] ==> exists|j: int|
                    0 <= j < deps@[u]@.len() && !emitted@[#[trigger] deps@[u]@[j] as int],
        },
{
    let n = deps.len();
    let mut u: usize = 0;
    while u < n
        invariant
            0 <= u <= n,
            n == deps@.len(),
            emitted@.len() == n,
            graph_wf(graph_of(deps@)),
            forall|w: int|
                0 <= w < u && !emitted@[w] ==> exists|j: int|
                    0 <= j < deps@[w]@.len() && !emitted@[#[trigger] deps@[w]@[j] as int],
        decreases n - u,
    {
        if !emitted[u] {
            let row = &deps[u];
            let m = row.len();
            let mut all_done = true;
            let mut j: usize = 0;
            while j < m
                invariant
                    0 <= j <= m,
                    m == row@.len(),
                    row@ == deps@[u as int]@,
                    emitted@.len() == n,
                    graph_wf(graph_of(deps@)),
                    u < n,
                    n == deps@.len(),
                    all_done <==> (forall|k: int|
                        0 <= k < j ==> emitted@[#[trigger] row@[k] as int]),
                decreases m - j,
            {
                let d = row[j];
                proof {
                    assert(graph_of(deps@)[u as int] == deps@[u as int]@);
                    assert(graph_of(deps@)[u as int][j as int] < deps@.len());
                }
                if !emitted[d] {
                    all_done = false;
                    proof {
                        assert(!emitted@[row@[j as int] as int]);
                    }
                }
                j += 1;
            }
            if all_done {
                return Some(u);
            }
            proof {
                let k = choose|k: int| 0 <= k < m && !emitted@[row@[k] as int];
                assert(0 <= k < deps@[u as int]@.len() && !emitted@[deps@[u as int]@[k] as int]);
            }
        }
        u += 1;
    }
    None
}

/// Validates a dependency graph: either a topological order over all nodes
/// (so the graph has no cycle), or the set of nodes stuck on a cycle.
pub fn topological_sorting(deps: &Vec<Vec<usize>>) -> (r: SortingResult)
    requires
        graph_wf(graph_of(deps@)),
    ensures
        match r {
            SortingResult::Sorted(xs) => is_topological_order(graph_of(deps@), xs@) && !has_cycle(
                graph_of(deps@),
            ),
            SortingResult::FoundCycle(rem) => {
                &&& has_cycle(graph_of(deps@))
                &&& rem@.len() > 0
                &&& forall|i: int| 0 <= i < rem@.len() ==> #[trigger] rem@[i] < deps@.len()
                &&& holds_all_cycle_nodes(graph_of(deps@), rem@)
            },
        },
{
    let ghost g = graph_of(deps@);
    let n = deps.len();
    let mut emitted: Vec<bool> = Vec::new();
    let mut i: usize = 0;
    while i < n
        invariant
            0 <= i <= n,
            emitted@.len() == i,
            forall|k: int| 0 <= k < i ==> !emitted@[k],
        decreases n - i,
    {
        emitted.push(false);
        i += 1;
    }
    let mut sorted: Vec<usize> = Vec::new();
    let mut progress = true;
    while progress
        invariant
            n == deps@.len(),
            g == graph_of(deps@),
            graph_wf(g),
            emitted@.len() == n,
            sorted@.len() <= n,
            sorted@.no_duplicates(),
            forall|k: int| 0 <= k < sorted@.len() ==> sorted@[k] < n,
            forall|u: int| 0 <= u < n ==> (emitted@[u] <==> sorted@.contains(u as usize)),
            !progress ==> forall|u: int|
                0 <= u < n && !emitted@[u] ==> exists|j: int|
                    0 <= j < deps@[u]@.len() && !emitted@[#[trigger] deps@[u]@[j] as int],
            forall|i: int, j: int|
                0 <= i < sorted@.len() && 0 <= j < g[sorted@[i] as int].len()
                    ==> #[trigger] dep_listed_before(g, sorted@, i, j),
        decreases (n - sorted@.len()) + if progress {
            1int
        } else {
            0int
        },
    {
        match find_ready(deps, &emitted) {
            Some(u) => {
                proof {
                    assert(!sorted@.contains(u));
                    assert(g[u as int] == deps@[u as int]@);
                }
                let ghost old_sorted = sorted@;
                let ghost old_emitted = emitted@;
                sorted.push(u);
                emitted.set(u, true);
                proof {
                    assert(sorted@ == old_sorted.push(u));
                    assert forall|w: int| 0 <= w < n implies (emitted@[w] <==> sorted@.contains(
                        w as usize,
                    )) by {
                        if w == u as int {
                            assert(sorted@[sorted@.len() - 1] == u);
                        } else {
                            if sorted@.contains(w as usize) {
                                let k = choose|k: int|
                                    0 <= k < sorted@.len() && sorted@[k] == w as usize;
                                assert(k < old_sorted.len());
                                assert(old_sorted[k] == w as usize);
                            }
                            if old_sorted.contains(w as usize) {
                                let k = choose|k: int|
                                    0 <= k < old_sorted.len() && old_sorted[k] == w as usize;
                                assert(sorted@[k] == w as usize);
                            }
                        }
                    }
                    assert(sorted@.no_duplicates()) by {
                        assert forall|a: int, b: int|
                            0 <= a < sorted@.len() && 0 <= b < sorted@.len() && a != b
                            implies sorted@[a] != sorted@[b] by {
                            if a < old_sorted.len() && b < old_sorted.len() {
                                assert(sorted@[a] == old_sorted[a]);
                                assert(sorted@[b] == old_sorted[b]);
                            } else if a == old_sorted.len() {
                                assert(!old_sorted.contains(u));
                                assert(sorted@[b] == old_sorted[b]);
                            } else {
                                assert(!old_sorted.contains(u));
                                assert(sorted@[a] == old_sorted[a]);
                            }
                        }
                    }
                    assert forall|i: int, j: int|
                        0 <= i < sorted@.len() && 0 <= j < g[sorted@[i] as int].len()
                        implies #[trigger] dep_listed_before(g, sorted@, i, j) by {
                        if i < old_sorted.len() {
                            assert(sorted@[i] == old_sorted[i]);
                            assert(dep_listed_before(g, old_sorted, i, j));
                            let k = choose|k: int|
                                0 <= k < i && old_sorted[k] == g[old_sorted[i] as int][j];
                            assert(sorted@[k] == g[sorted@[i] as int][j]);
                        } else {
                            assert(sorted@[i] == u);
                            let d = g[u as int][j];
                            assert(d == deps@[u as int]@[j]);
                            assert(old_emitted[d as int]);
                            assert(d < n);
                            assert(old_sorted.contains(d));
                            let k = choose|k: int| 0 <= k < old_sorted.len() && old_sorted[k] == d;
                            assert(sorted@[k] == d);
                        }
                    }
                    lemma_distinct_bounded_len(sorted@, n as nat);
                }
            },
            None => {
                progress = false;
            },
        }
    }
    if sorted.len() == n {
        proof {
            assert(is_topological_order(g, sorted@));
            lemma_topological_order_acyclic(g, sorted@);
        }
        SortingResult::Sorted(sorted)
    } else {
        let mut rem: Vec<usize> = Vec::new();
        let mut u: usize = 0;
        while u < n
            invariant
                0 <= u <= n,
                n == deps@.len(),
                emitted@.len() == n,
                forall|i: int| 0 <= i < rem@.len() ==> #[trigger] rem@[i] < n,
                forall|i: int| 0 <= i < rem@.len() ==> !emitted@[#[trigger] rem@[i] as int],
                forall|w: int| 0 <= w < u && !emitted@[w] ==> rem@.contains(w as usize),
            decreases n - u,
        {
            if !emitted[u] {
                let ghost old_rem = rem@;
                rem.push(u);
                proof {
                    assert(rem@[rem@.len() - 1] == u);
                    assert forall|w: int| 0 <= w < u + 1 && !emitted@[w] implies rem@.contains(
                        w as usize,
                    ) by {
                        if w < u {
                            assert(old_rem.contains(w as usize));
                            let k = choose|k: int| 0 <= k < old_rem.len() && old_rem[k] == w as usize;
                            assert(rem@[k] == w as usize);
                        }
                    }
                }
            }
            u += 1;
        }
        proof {
            let stuck = Set::new(|w: usize| w < n && !emitted@[w as int]);
            assert(sorted@.len() < n);
            lemma_bounded_missing(sorted@, n as nat);
            let w0 = choose|w: usize| w < n && !sorted@.contains(w);
            assert(!emitted@[w0 as int]);
            assert(stuck.contains(w0));
            assert(all_stuck(g, stuck)) by {
                assert forall|w: usize| #[trigger] stuck.contains(w) implies w < g.len()
                    && exists|j: int| 0 <= j < g[w as int].len() && stuck.contains(
                    g[w as int][j],
                ) by {
                    assert(!emitted@[w as int]);
                    let row = deps@[w as int]@;
                    let j = choose|j: int| 0 <= j < row.len() && !emitted@[#[trigger] row[j] as int];
                    assert(g[w as int] == deps@[w as int]@);
                    assert(g[w as int][j] < g.len());
                    assert(stuck.contains(g[w as int][j]));
                }
            }
            lemma_stuck_implies_cycle(g, stuck, w0);
            assert(rem@.contains(w0));
            assert(rem@.len() > 0);
            // every node of any cycle was never emitted, so it was
            // collected into the leftover set
            assert forall|p: Seq<usize>, i: int|
                #[trigger] is_cycle(g, p) && 0 <= i < p.len() implies rem@.contains(
                #[trigger] p[i],
            ) by {
                lemma_cycle_nodes_unlisted(g, sorted@, p);
                assert(!sorted@.contains(p[i]));
                assert(p[i] < n) by {
                    if i < p.len() - 1 {
                        assert(dep_edge(g, p[i], p[i + 1]));
                    } else {
                        assert(dep_edge(g, p[p.len() - 1], p[0]));
                    }
                }
                assert(!emitted@[p[i] as int]);
            }
        }
        SortingResult::FoundCycle(rem)
    }
}

/// A sequence shorter than `n` misses some number below `n`.
proof fn lemma_bounded_missing(xs: Seq<usize>, n: nat)
    requires
        n <= usize::MAX,
        xs.len() < n,
    ensures
        exists|w: usize| w < n && !xs.contains(w),
    decreases n,
{
    if !xs.contains((n - 1) as usize) {
        let w0 = (n - 1) as usize;
        assert(w0 < n && !xs.contains(w0));
    } else {
        let k = choose|k: int| 0 <= k < xs.len() && xs[k] == (n - 1) as usize;
        let q = xs.remove(k);
        lemma_bounded_missing(q, (n - 1) as nat);
        let w = choose|w: usize| w < n - 1 && !q.contains(w);
        assert(!xs.contains(w)) by {
            if xs.contains(w) {
                let a = choose|a: int| 0 <= a < xs.len() && xs[a] == w;
                assert(a != k);
                if a < k {
                    assert(q[a] == w);
                } else {
                    assert(q[a - 1] == w);
                }
            }
        }
        assert(w < n && !xs.contains(w));
    }
}

} // verus!
