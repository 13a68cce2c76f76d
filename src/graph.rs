use vstd::prelude::*;
use crate::node::{T, TNode, TError, TContext, dependency_in};

verus! {

/// Where an entry stands in its lifecycle.
#[derive(Clone, Copy, Debug, PartialEq, Eq, Structural)]
pub enum EntryState {
    /// Exists but holds no result: never ran, or was cleared.
    NotStarted,
    /// A request for it is in flight.
    Running,
    /// Holds the result of its most recent successful run.
    Completed,
    /// Holds a previous result that must be revalidated before use.
    Dirty,
}

/// The record that the graph keeps for one node.
pub struct Entry {
    pub node: TNode,
    pub state: EntryState,
    /// The last completed result (meaningful when `Completed` or `Dirty`).
    pub value: Vec<T>,
    /// The entries requested by the last successful run, in request order.
    pub deps: Vec<usize>,
    /// What each of `deps` returned during that run.
    pub observed: Vec<Vec<T>>,
}

/// The counts returned by `Graph::invalidate_from_roots`.
#[derive(Clone, Copy, Debug, PartialEq, Eq, Structural)]
pub struct InvalidationResult {
    pub cleared: usize,
    pub dirtied: usize,
}

/// Returned by `Graph::mark_draining` when the flag already has the requested value.
#[derive(Clone, Copy, Debug, PartialEq, Eq, Structural)]
pub struct AlreadyInThatState;

/// The graph: one entry per node, the dependency edges held in each entry, and the
/// draining switch.
pub struct Graph {
    pub entries: Vec<Entry>,
    pub draining: bool,
}

/// The results observed by an entry's last run, as sequences.
pub open spec fn observed_of(e: Entry) -> Seq<Seq<T>> {
    e.observed@.map_values(|v: Vec<T>| v@)
}

/// Two entries hold the same data.
pub open spec fn same_entry(a: Entry, b: Entry) -> bool {
    &&& a.node == b.node
    &&& a.state == b.state
    &&& a.value@ == b.value@
    &&& a.deps@ == b.deps@
    &&& observed_of(a) == observed_of(b)
}

/// Every edge points at an existing entry, each entry has one observed result per edge,
/// and nodes are unique.
pub open spec fn entries_shaped(es: Seq<Entry>) -> bool {
    &&& forall|i: int, k: int|
        0 <= i < es.len() && 0 <= k < es[i].deps@.len() ==> 0 <= #[trigger] es[i].deps@[k] < es.len()
    &&& forall|i: int| 0 <= i < es.len() ==> #[trigger] es[i].deps@.len() == es[i].observed@.len()
    &&& forall|i: int, j: int|
        #![trigger es[i].node, es[j].node]
        0 <= i < es.len() && 0 <= j < es.len() && i != j ==> es[i].node != es[j].node
}

/// A completed entry depends only on completed entries.
pub open spec fn entries_closed(es: Seq<Entry>) -> bool {
    forall|i: int, k: int|
        0 <= i < es.len() && es[i].state == EntryState::Completed && 0 <= k < es[i].deps@.len()
            ==> es[#[trigger] es[i].deps@[k] as int].state == EntryState::Completed
}

/// The graph's invariant: entries are well shaped and closed.
pub open spec fn entries_wf(es: Seq<Entry>) -> bool {
    entries_shaped(es) && entries_closed(es)
}

/// `b` holds the data of `a`, in the same state or, where `a` was completed, dirty.
pub open spec fn kept_or_dirtied(a: Entry, b: Entry) -> bool {
    &&& b.node == a.node
    &&& b.value@ == a.value@
    &&& b.deps@ == a.deps@
    &&& observed_of(b) == observed_of(a)
    &&& (b.state == a.state || (a.state == EntryState::Completed && b.state == EntryState::Dirty))
}

/// `p` is a chain of entry ids in which each entry depends directly on the next.
pub open spec fn is_dep_path(es: Seq<Entry>, p: Seq<usize>) -> bool {
    &&& p.len() >= 1
    &&& forall|k: int| 0 <= k < p.len() ==> #[trigger] p[k] < es.len()
    &&& forall|k: int| 0 <= k < p.len() - 1 ==> es[p[k] as int].deps@.contains(#[trigger] p[k + 1])
}

/// At index `j`, the flag is not set.
pub open spec fn unseen_at(s: Seq<bool>) -> spec_fn(int) -> bool {
    |j: int| !s[j]
}

/// Some chain of edges leads from entry `a` to entry `b` (each entry reaches itself).
pub open spec fn reaches(es: Seq<Entry>, a: int, b: int) -> bool {
    exists|p: Seq<usize>| #[trigger] is_dep_path(es, p) && p[0] == a && p.last() == b
}

proof fn lemma_reaches_self(es: Seq<Entry>, a: usize)
    requires
        a < es.len(),
    ensures
        reaches(es, a as int, a as int),
{
    let p = seq![a];
    assert(is_dep_path(es, p));
}

proof fn lemma_reaches_step(es: Seq<Entry>, a: int, v: usize, k: int)
    requires
        entries_shaped(es),
        reaches(es, a, v as int),
        v < es.len(),
        0 <= k < es[v as int].deps@.len(),
    ensures
        reaches(es, a, es[v as int].deps@[k] as int),
{
    let p = choose|p: Seq<usize>| #[trigger] is_dep_path(es, p) && p[0] == a && p.last() == v;
    let d = es[v as int].deps@[k];
    let q = p.push(d);
    assert(es[v as int].deps@.contains(d));
    assert forall|j: int| 0 <= j < q.len() - 1 implies es[q[j] as int].deps@.contains(#[trigger] q[j + 1]) by {
        if j < p.len() - 1 {
            assert(q[j] == p[j] && q[j + 1] == p[j + 1]);
        } else {
            assert(q[j] == v && q[j + 1] == d);
        }
    }
    assert forall|j: int| 0 <= j < q.len() implies #[trigger] q[j] < es.len() by {
        if j < p.len() {
            assert(q[j] == p[j]);
        }
    }
    assert(is_dep_path(es, q));
}

/// A set of entries that holds `p[0]` and every dependency of each of its members holds
/// every entry on the chain `p`.
proof fn lemma_closed_holds_path(es: Seq<Entry>, seen: Seq<bool>, p: Seq<usize>)
    requires
        seen.len() == es.len(),
        is_dep_path(es, p),
        seen[p[0] as int],
        forall|v: int, k: int|
            0 <= v < es.len() && seen[v] && 0 <= k < es[v].deps@.len() ==> seen[#[trigger] es[v].deps@[k] as int],
    ensures
        seen[p.last() as int],
    decreases p.len(),
{
    if p.len() > 1 {
        let q = p.drop_first();
        assert(es[p[0] as int].deps@.contains(p[1])) by {
            let k0: int = 0;
            assert(es[p[k0] as int].deps@.contains(p[k0 + 1]));
        }
        let k = choose|k: int| 0 <= k < es[p[0] as int].deps@.len() && es[p[0] as int].deps@[k] == p[1];
        assert(seen[es[p[0] as int].deps@[k] as int]);
        assert forall|j: int| 0 <= j < q.len() - 1 implies es[q[j] as int].deps@.contains(#[trigger] q[j + 1]) by {
            assert(q[j] == p[j + 1] && q[j + 1] == p[j + 2]);
        }
        assert(q.last() == p.last());
        lemma_closed_holds_path(es, seen, q);
    }
}

/// Entry `i` reaches, through edges, an entry whose node `pred` matches.
pub open spec fn reaches_matched<F: Fn(TNode) -> bool>(pred: F, es: Seq<Entry>, i: int) -> bool {
    exists|j: int| 0 <= j < es.len() && matched(pred, es[j].node) && #[trigger] reaches(es, i, j)
}

proof fn lemma_reaches_prepend(es: Seq<Entry>, i: usize, k: int, j: int)
    requires
        i < es.len(),
        0 <= k < es[i as int].deps@.len(),
        reaches(es, es[i as int].deps@[k] as int, j),
    ensures
        reaches(es, i as int, j),
{
    let d = es[i as int].deps@[k];
    let p = choose|p: Seq<usize>| #[trigger] is_dep_path(es, p) && p[0] == d && p.last() == j;
    let q = seq![i] + p;
    assert(es[i as int].deps@.contains(d));
    assert(q[0] == i && q[1] == d);
    assert forall|m: int| 0 <= m < q.len() implies #[trigger] q[m] < es.len() by {
        if m > 0 {
            assert(q[m] == p[m - 1]);
        }
    }
    assert forall|m: int| 0 <= m < q.len() - 1 implies es[q[m] as int].deps@.contains(#[trigger] q[m + 1]) by {
        if m > 0 {
            let a = m - 1;
            assert(q[m] == p[a] && q[m + 1] == p[a + 1]);
            assert(es[p[a] as int].deps@.contains(p[a + 1]));
        } else {
            assert(q[m] == i && q[m + 1] == d);
        }
    }
    assert(is_dep_path(es, q));
    assert(q.last() == p.last());
}

/// Along a chain of `orig` that ends at an entry matched by `pred`, no entry of `fin` is
/// completed, when `fin` is closed, clears matched entries and keeps the edges of the rest.
proof fn lemma_not_completed_along<F: Fn(TNode) -> bool>(
    pred: F,
    orig: Seq<Entry>,
    fin: Seq<Entry>,
    p: Seq<usize>,
)
    requires
        fin.len() == orig.len(),
        entries_closed(fin),
        is_dep_path(orig, p),
        matched(pred, orig[p.last() as int].node),
        forall|k: int| 0 <= k < orig.len() && matched(pred, orig[k].node) ==> #[trigger] fin[k].state
            == EntryState::NotStarted,
        forall|k: int| 0 <= k < orig.len() && !matched(pred, orig[k].node) ==> #[trigger] fin[k].deps@
            == orig[k].deps@,
    ensures
        fin[p[0] as int].state != EntryState::Completed,
    decreases p.len(),
{
    if p.len() > 1 {
        let t = p.drop_first();
        assert forall|m: int| 0 <= m < t.len() - 1 implies orig[t[m] as int].deps@.contains(#[trigger] t[m + 1]) by {
            assert(t[m] == p[m + 1] && t[m + 1] == p[m + 2]);
        }
        assert(t.last() == p.last());
        lemma_not_completed_along(pred, orig, fin, t);
        let i = p[0] as int;
        if !matched(pred, orig[i].node) && fin[i].state == EntryState::Completed {
            let m0: int = 0;
            assert(orig[p[m0] as int].deps@.contains(p[m0 + 1]));
            assert(fin[i].deps@ == orig[i].deps@);
            let k = choose|k: int| 0 <= k < fin[i].deps@.len() && fin[i].deps@[k] == p[1];
            assert(fin[fin[i].deps@[k] as int].state == EntryState::Completed);
        }
    }
}

/// What a successful `mark_draining(flag)` does: the flag takes the value `flag` and the
/// entries stay as they are.
pub open spec fn drain_step(a: Graph, b: Graph, flag: bool) -> bool {
    b.entries@ == a.entries@ && b.draining == flag
}

/// An entry that depends, directly or through other entries, on an entry that is not
/// completed is not completed either. So after `invalidate_from_roots`, every entry that
/// depends on a cleared entry is dirty or cleared.
pub proof fn lemma_dependents_not_completed(es: Seq<Entry>, p: Seq<usize>)
    requires
        entries_wf(es),
        is_dep_path(es, p),
        es[p.last() as int].state != EntryState::Completed,
    ensures
        es[p[0] as int].state != EntryState::Completed,
    decreases p.len(),
{
    if p.len() > 1 {
        let q = p.drop_first();
        assert forall|k: int| 0 <= k < q.len() - 1 implies es[q[k] as int].deps@.contains(
            #[trigger] q[k + 1],
        ) by {
            assert(q[k] == p[k + 1]);
            assert(q[k + 1] == p[k + 2]);
        }
        assert(q.last() == p.last());
        lemma_dependents_not_completed(es, q);
        assert(es[p[0] as int].deps@.contains(p[1]));
        let k = choose|k: int| 0 <= k < es[p[0] as int].deps@.len() && es[p[0] as int].deps@[k] == p[1];
        if es[p[0] as int].state == EntryState::Completed {
            assert(es[es[p[0] as int].deps@[k] as int].state == EntryState::Completed);
        }
    }
}

/// Marking the graph draining and then not draining leaves it as it was: a drain
/// persists nothing in the entries, so later requests see the graph of before the drain.
pub proof fn lemma_drain_round_trip(g0: Graph, g1: Graph, g2: Graph)
    requires
        !g0.draining,
        drain_step(g0, g1, true),
        drain_step(g1, g2, false),
    ensures
        g2.entries@ == g0.entries@,
        g2.draining == g0.draining,
{
}

/// No request is in flight.
pub open spec fn entries_idle(es: Seq<Entry>) -> bool {
    forall|i: int| 0 <= i < es.len() ==> #[trigger] es[i].state != EntryState::Running
}

/// `new` keeps every entry of `old` in place with its node; completed and running entries
/// other than `x` keep all their data, and only the running entries of `old` other than `x`
/// are running in `new`.
pub open spec fn entries_grow_but(old: Seq<Entry>, new: Seq<Entry>, x: int) -> bool {
    &&& old.len() <= new.len()
    &&& forall|i: int| 0 <= i < old.len() ==> #[trigger] new[i].node == old[i].node
    &&& forall|i: int|
        0 <= i < old.len() && i != x && (old[i].state == EntryState::Completed || old[i].state
            == EntryState::Running) ==> same_entry(#[trigger] new[i], old[i])
    &&& forall|i: int|
        0 <= i < new.len() ==> (#[trigger] new[i].state == EntryState::Running <==> (i
            < old.len() && i != x && old[i].state == EntryState::Running))
}

/// `entries_grow_but` with no entry excepted.
pub open spec fn entries_grow(old: Seq<Entry>, new: Seq<Entry>) -> bool {
    entries_grow_but(old, new, -1)
}

/// The log of `new` extends that of `old`, with the same id and edges.
pub open spec fn context_grows(old: TContext, new: TContext) -> bool {
    &&& new.id == old.id
    &&& new.edges@ == old.edges@
    &&& old.runs@.len() <= new.runs@.len()
    &&& forall|i: int| 0 <= i < old.runs@.len() ==> #[trigger] new.runs@[i] == old.runs@[i]
}

/// What a run of `node` in a context with this `id` and these `edges` gives, when the
/// entries are `es`: its own token alone when it has no dependency, else the completed
/// result of its dependency followed by its own token.
pub open spec fn run_result(
    es: Seq<Entry>,
    node: TNode,
    id: usize,
    edges: Seq<(TNode, Option<TNode>)>,
    v: Seq<T>,
) -> bool {
    match dependency_in(edges, node) {
        None => v == seq![T(node.0, id)],
        Some(d) => index_of(es, d) matches Some(j) && es[j].state == EntryState::Completed
            && v == es[j].value@.push(T(node.0, id)),
    }
}

/// The edges of entry `i` are exactly the requests of a run of its node in a context with
/// these `edges`: one edge to the entry of its dependency, or none.
pub open spec fn edges_are_requests(es: Seq<Entry>, i: int, edges: Seq<(TNode, Option<TNode>)>) -> bool {
    match dependency_in(edges, es[i].node) {
        None => es[i].deps@.len() == 0,
        Some(d) => index_of(es, d) matches Some(j) && es[i].deps@ == seq![j as usize],
    }
}

proof fn lemma_index_of(es: Seq<Entry>, i: int)
    requires
        entries_shaped(es),
        0 <= i < es.len(),
    ensures
        index_of(es, es[i].node) == Some(i),
{
    let j = choose|j: int| 0 <= j < es.len() && es[j].node == es[i].node;
    assert(es[j].node == es[i].node);
}

/// The entry of `n` exists and is in state `st`.
pub open spec fn node_in_state(es: Seq<Entry>, n: TNode, st: EntryState) -> bool {
    index_of(es, n) matches Some(j) && es[j].state == st
}

/// `n` has no entry, or its entry has not started.
pub open spec fn fresh(es: Seq<Entry>, n: TNode) -> bool {
    index_of(es, n) is None || node_in_state(es, n, EntryState::NotStarted)
}

/// Each node of `p` requests the next one under `edges`.
pub open spec fn walk(edges: Seq<(TNode, Option<TNode>)>, p: Seq<TNode>) -> bool {
    &&& p.len() >= 1
    &&& forall|k: int| 0 <= k < p.len() - 1 ==> #[trigger] dependency_in(edges, p[k]) == Some(p[k + 1])
}

/// `p` is the chain of requests that a request for `p[0]` makes, and it ends: its nodes
/// are distinct, none is running, none but the last is completed, and the last is
/// completed or requests nothing.
pub open spec fn chain_ends_by(es: Seq<Entry>, edges: Seq<(TNode, Option<TNode>)>, p: Seq<TNode>) -> bool {
    &&& walk(edges, p)
    &&& p.no_duplicates()
    &&& forall|k: int| 0 <= k < p.len() ==> !node_in_state(es, #[trigger] p[k], EntryState::Running)
    &&& forall|k: int| 0 <= k < p.len() - 1 ==> !node_in_state(es, #[trigger] p[k], EntryState::Completed)
    &&& (node_in_state(es, p.last(), EntryState::Completed) || dependency_in(edges, p.last()) is None)
}

/// The chain of requests from `node` ends within `fuel` nested requests.
pub open spec fn chain_ends(es: Seq<Entry>, edges: Seq<(TNode, Option<TNode>)>, node: TNode, fuel: nat) -> bool {
    exists|p: Seq<TNode>| #[trigger] chain_ends_by(es, edges, p) && p[0] == node && p.len() <= fuel + 1
}

/// `p` is the chain of requests that a request for `p[0]` makes, through entries that have
/// not started, and it closes a cycle: its last node is running or occurs earlier.
pub open spec fn chain_cycles_by(es: Seq<Entry>, edges: Seq<(TNode, Option<TNode>)>, p: Seq<TNode>) -> bool {
    &&& walk(edges, p)
    &&& p.drop_last().no_duplicates()
    &&& forall|k: int| 0 <= k < p.len() - 1 ==> fresh(es, #[trigger] p[k])
    &&& (node_in_state(es, p.last(), EntryState::Running) || p.drop_last().contains(p.last()))
}

/// `chain_ends_by`, through entries that have not started (the last may be completed).
pub open spec fn chain_fresh_by(es: Seq<Entry>, edges: Seq<(TNode, Option<TNode>)>, p: Seq<TNode>) -> bool {
    &&& chain_ends_by(es, edges, p)
    &&& forall|k: int| 0 <= k < p.len() - 1 ==> fresh(es, #[trigger] p[k])
    &&& (fresh(es, p.last()) || node_in_state(es, p.last(), EntryState::Completed))
}

/// The result of a request along the chain `p` in a context with this `id`: the stored
/// result of a completed last node, or its own token, followed by the tokens of the other
/// nodes from the bottom of the chain up.
pub open spec fn chain_value(es: Seq<Entry>, p: Seq<TNode>, id: usize) -> Seq<T>
    decreases p.len(),
{
    if p.len() <= 1 {
        if node_in_state(es, p[0], EntryState::Completed) {
            es[index_of(es, p[0]).unwrap()].value@
        } else {
            seq![T(p[0].0, id)]
        }
    } else {
        chain_value(es, p.drop_first(), id).push(T(p[0].0, id))
    }
}

/// The nodes that run along the chain `p`, in order: all of them but a completed last one.
pub open spec fn chain_runs(es: Seq<Entry>, p: Seq<TNode>) -> Seq<TNode> {
    if node_in_state(es, p.last(), EntryState::Completed) {
        p.drop_last()
    } else {
        p
    }
}

/// Entries that keep their positions and nodes keep their indices.
proof fn lemma_index_stable(es: Seq<Entry>, es2: Seq<Entry>, n: TNode)
    requires
        entries_shaped(es),
        entries_shaped(es2),
        es.len() <= es2.len(),
        forall|i: int| 0 <= i < es.len() ==> #[trigger] es2[i].node == es[i].node,
    ensures
        forall|j: int| index_of(es, n) == Some(j) ==> index_of(es2, n) == Some(j),
        forall|j: int| index_of(es2, n) == Some(j) && j < es.len() ==> index_of(es, n) == Some(j),
        index_of(es2, n) is None ==> index_of(es, n) is None,
{
    if let Some(j) = index_of(es, n) {
        assert(es[j].node == n);
        assert(es2[j].node == n);
        lemma_index_of(es2, j);
    }
    if let Some(j) = index_of(es2, n) {
        if j < es.len() {
            assert(es[j].node == n);
            lemma_index_of(es, j);
        }
    }
}

/// A chain that ends keeps a prefix that ends while the entries grow.
proof fn lemma_chain_grow(es: Seq<Entry>, es2: Seq<Entry>, edges: Seq<(TNode, Option<TNode>)>, p: Seq<TNode>)
    requires
        entries_shaped(es),
        entries_shaped(es2),
        entries_grow(es, es2),
        chain_ends_by(es, edges, p),
    ensures
        exists|q: Seq<TNode>|
            #[trigger] chain_ends_by(es2, edges, q) && 1 <= q.len() <= p.len() && q =~= p.take(q.len() as int),
    decreases p.len(),
{
    assert forall|k: int| 0 <= k < p.len() implies !node_in_state(es2, #[trigger] p[k], EntryState::Running)
        && (node_in_state(es, p[k], EntryState::Completed) ==> node_in_state(es2, p[k], EntryState::Completed)) by {
        lemma_index_stable(es, es2, p[k]);
        assert(!node_in_state(es, p[k], EntryState::Running));
        if let Some(j) = index_of(es2, p[k]) {
            if es2[j].state == EntryState::Running {
                assert(j < es.len() && es[j].state == EntryState::Running);
            }
        }
        if let Some(j) = index_of(es, p[k]) {
            if es[j].state == EntryState::Completed {
                assert(same_entry(es2[j], es[j]));
            }
        }
    }
    if node_in_state(es2, p[0], EntryState::Completed) || p.len() == 1 {
        let q = p.take(1);
        assert(q[0] == p[0]);
        assert(chain_ends_by(es2, edges, q));
    } else {
        let t = p.drop_first();
        assert forall|k: int| 0 <= k < t.len() - 1 implies #[trigger] dependency_in(edges, t[k]) == Some(t[k + 1]) by {
            assert(dependency_in(edges, p[k + 1]) == Some(p[k + 2]));
        }
        assert(t.last() == p.last());
        assert forall|k: int| 0 <= k < t.len() - 1 implies !node_in_state(es, #[trigger] t[k], EntryState::Completed) by {
            assert(t[k] == p[k + 1]);
        }
        assert forall|k: int| 0 <= k < t.len() implies !node_in_state(es, #[trigger] t[k], EntryState::Running) by {
            assert(t[k] == p[k + 1]);
        }
        assert(chain_ends_by(es, edges, t));
        lemma_chain_grow(es, es2, edges, t);
        let q2 = choose|q: Seq<TNode>|
            #[trigger] chain_ends_by(es2, edges, q) && 1 <= q.len() <= t.len() && q =~= t.take(q.len() as int);
        let q = seq![p[0]] + q2;
        assert(q =~= p.take(q.len() as int));
        assert(dependency_in(edges, p[0]) == Some(p[1]));
        assert forall|k: int| 0 <= k < q.len() - 1 implies #[trigger] dependency_in(edges, q[k]) == Some(q[k + 1]) by {
            assert(q[k] == p[k] && q[k + 1] == p[k + 1]);
        }
        assert forall|k: int| 0 <= k < q.len() implies !node_in_state(es2, #[trigger] q[k], EntryState::Running) by {
            assert(q[k] == p[k]);
        }
        assert forall|k: int| 0 <= k < q.len() - 1 implies !node_in_state(es2, #[trigger] q[k], EntryState::Completed) by {
            if k > 0 {
                assert(q[k] == q2[k - 1]);
            }
        }
        assert(q.last() == q2.last());
        assert(q.no_duplicates()) by {
            assert forall|a: int, b: int| 0 <= a < q.len() && 0 <= b < q.len() && a != b implies q[a] != q[b] by {
                assert(q[a] == p[a] && q[b] == p[b]);
            }
        }
        assert(chain_ends_by(es2, edges, q));
    }
}

proof fn lemma_chain_ends_grow(
    es: Seq<Entry>,
    es2: Seq<Entry>,
    edges: Seq<(TNode, Option<TNode>)>,
    n: TNode,
    fuel: nat,
)
    requires
        entries_shaped(es),
        entries_shaped(es2),
        entries_grow(es, es2),
        chain_ends(es, edges, n, fuel),
    ensures
        chain_ends(es2, edges, n, fuel),
{
    let p = choose|p: Seq<TNode>| #[trigger] chain_ends_by(es, edges, p) && p[0] == n && p.len() <= fuel + 1;
    lemma_chain_grow(es, es2, edges, p);
    let q = choose|q: Seq<TNode>|
        #[trigger] chain_ends_by(es2, edges, q) && 1 <= q.len() <= p.len() && q =~= p.take(q.len() as int);
    assert(q[0] == p[0]);
}

/// Entry `idx` replaced by one with the same node: other nodes keep their states.
proof fn lemma_update_states(es: Seq<Entry>, es2: Seq<Entry>, idx: int, n: TNode, st: EntryState)
    requires
        entries_shaped(es),
        entries_shaped(es2),
        0 <= idx < es.len(),
        es2.len() == es.len(),
        forall|i: int| 0 <= i < es.len() && i != idx ==> #[trigger] es2[i] == es[i],
        es2[idx].node == es[idx].node,
        n != es[idx].node,
    ensures
        node_in_state(es2, n, st) == node_in_state(es, n, st),
        index_of(es2, n) == index_of(es, n),
{
    assert forall|i: int| 0 <= i < es.len() implies #[trigger] es2[i].node == es[i].node by {
        if i != idx {
            assert(es2[i] == es[i]);
        }
    }
    lemma_index_stable(es, es2, n);
    if let Some(j) = index_of(es2, n) {
        assert(es2[j].node == n);
        assert(j != idx);
        assert(es2[j] == es[j]);
    }
}

/// When the chain from the node of entry `idx` ends, so does the chain from its dependency
/// once the entry is replaced (made running).
proof fn lemma_chain_step(
    es: Seq<Entry>,
    es2: Seq<Entry>,
    edges: Seq<(TNode, Option<TNode>)>,
    idx: int,
    fuel: nat,
)
    requires
        entries_shaped(es),
        entries_shaped(es2),
        0 <= idx < es.len(),
        es2.len() == es.len(),
        forall|i: int| 0 <= i < es.len() && i != idx ==> #[trigger] es2[i] == es[i],
        es2[idx].node == es[idx].node,
        es[idx].state != EntryState::Completed,
        chain_ends(es, edges, es[idx].node, fuel),
    ensures
        match dependency_in(edges, es[idx].node) {
            None => true,
            Some(d) => fuel > 0 && chain_ends(es2, edges, d, (fuel - 1) as nat),
        },
{
    let n = es[idx].node;
    lemma_index_of(es, idx);
    let p = choose|p: Seq<TNode>| #[trigger] chain_ends_by(es, edges, p) && p[0] == n && p.len() <= fuel + 1;
    if p.len() > 1 {
        assert(dependency_in(edges, p[0]) == Some(p[1]));
        let t = p.drop_first();
        assert forall|k: int| 0 <= k < t.len() implies #[trigger] t[k] != n by {
            assert(t[k] == p[k + 1]);
        }
        assert forall|k: int| 0 <= k < t.len() - 1 implies #[trigger] dependency_in(edges, t[k]) == Some(t[k + 1]) by {
            assert(dependency_in(edges, p[k + 1]) == Some(p[k + 2]));
        }
        assert forall|k: int| 0 <= k < t.len() implies !node_in_state(es2, #[trigger] t[k], EntryState::Running) by {
            assert(t[k] == p[k + 1]);
            lemma_update_states(es, es2, idx, t[k], EntryState::Running);
        }
        assert forall|k: int| 0 <= k < t.len() - 1 implies !node_in_state(es2, #[trigger] t[k], EntryState::Completed) by {
            assert(t[k] == p[k + 1]);
            lemma_update_states(es, es2, idx, t[k], EntryState::Completed);
        }
        assert(t.last() == p.last());
        lemma_update_states(es, es2, idx, t.last(), EntryState::Completed);
        assert(chain_ends_by(es2, edges, t));
        assert(t[0] == p[1]);
    } else {
        assert(!node_in_state(es, n, EntryState::Completed));
    }
}

/// What `add_node` does to the entries: nothing, or one new entry that has not started.
pub open spec fn adds_fresh(es: Seq<Entry>, es2: Seq<Entry>) -> bool {
    es2 == es || (es2.len() == es.len() + 1 && es2.drop_last() == es && es2.last().state
        == EntryState::NotStarted)
}

proof fn lemma_add_states(es: Seq<Entry>, es2: Seq<Entry>, n: TNode)
    requires
        entries_shaped(es),
        entries_shaped(es2),
        adds_fresh(es, es2),
    ensures
        fresh(es, n) ==> fresh(es2, n),
        node_in_state(es, n, EntryState::Running) == node_in_state(es2, n, EntryState::Running),
        node_in_state(es, n, EntryState::Completed) == node_in_state(es2, n, EntryState::Completed),
        index_of(es, n) is Some ==> index_of(es2, n) == index_of(es, n),
        node_in_state(es, n, EntryState::Completed) ==> es2[index_of(es2, n).unwrap()] == es[index_of(
            es,
            n,
        ).unwrap()],
{
    if es2 != es {
        assert forall|i: int| 0 <= i < es.len() implies #[trigger] es2[i] == es[i] by {
            assert(es2.drop_last()[i] == es2[i]);
        }
        lemma_index_stable(es, es2, n);
        if let Some(j) = index_of(es2, n) {
            if j < es.len() {
                assert(es2[j] == es[j]);
            }
        }
        if let Some(j) = index_of(es, n) {
            assert(es2[j] == es[j]);
        }
    }
}

proof fn lemma_cycles_add(es: Seq<Entry>, es2: Seq<Entry>, edges: Seq<(TNode, Option<TNode>)>, p: Seq<TNode>)
    requires
        entries_shaped(es),
        entries_shaped(es2),
        adds_fresh(es, es2),
        chain_cycles_by(es, edges, p),
    ensures
        chain_cycles_by(es2, edges, p),
{
    assert forall|k: int| 0 <= k < p.len() - 1 implies fresh(es2, #[trigger] p[k]) by {
        lemma_add_states(es, es2, p[k]);
    }
    lemma_add_states(es, es2, p.last());
}

/// When the chain from the node of entry `idx`, which has not started, closes a cycle, so
/// does the chain from its dependency once the entry is made running.
proof fn lemma_cycle_step(
    es: Seq<Entry>,
    es2: Seq<Entry>,
    edges: Seq<(TNode, Option<TNode>)>,
    idx: int,
    p: Seq<TNode>,
)
    requires
        entries_shaped(es),
        entries_shaped(es2),
        0 <= idx < es.len(),
        es2.len() == es.len(),
        forall|i: int| 0 <= i < es.len() && i != idx ==> #[trigger] es2[i] == es[i],
        es2[idx].node == es[idx].node,
        es2[idx].state == EntryState::Running,
        es[idx].state == EntryState::NotStarted,
        chain_cycles_by(es, edges, p),
        p[0] == es[idx].node,
    ensures
        p.len() > 1,
        dependency_in(edges, p[0]) == Some(p[1]),
        chain_cycles_by(es2, edges, p.drop_first()),
{
    let n = es[idx].node;
    lemma_index_of(es, idx);
    lemma_index_of(es2, idx);
    let t = p.drop_first();
    assert(p.len() > 1);
    assert(dependency_in(edges, p[0]) == Some(p[1]));
    let dl = p.drop_last();
    assert forall|k: int| 0 <= k < t.len() - 1 implies #[trigger] t[k] != n by {
        assert(dl[k + 1] == t[k] && dl[0] == n);
    }
    assert forall|k: int| 0 <= k < t.len() - 1 implies #[trigger] dependency_in(edges, t[k]) == Some(t[k + 1]) by {
        assert(dependency_in(edges, p[k + 1]) == Some(p[k + 2]));
    }
    assert forall|k: int| 0 <= k < t.len() - 1 implies fresh(es2, #[trigger] t[k]) by {
        assert(t[k] == p[k + 1]);
        lemma_update_states(es, es2, idx, t[k], EntryState::NotStarted);
    }
    assert(t.drop_last() =~= dl.drop_first());
    assert(t.last() == p.last());
    if p.last() == n {
        assert(node_in_state(es2, t.last(), EntryState::Running));
    } else {
        lemma_update_states(es, es2, idx, p.last(), EntryState::Running);
        if dl.contains(p.last()) {
            let j = choose|j: int| 0 <= j < dl.len() && dl[j] == p.last();
            assert(j != 0);
            assert(t.drop_last()[j - 1] == p.last());
        }
    }
}

/// Two entry lists agree on which nodes of `p` are completed and on their results.
pub open spec fn same_completed(es: Seq<Entry>, es2: Seq<Entry>, p: Seq<TNode>) -> bool {
    forall|k: int|
        0 <= k < p.len() ==> (node_in_state(es, #[trigger] p[k], EntryState::Completed) == node_in_state(
            es2,
            p[k],
            EntryState::Completed,
        )) && (node_in_state(es, p[k], EntryState::Completed) ==> es2[index_of(es2, p[k]).unwrap()].value@
            == es[index_of(es, p[k]).unwrap()].value@)
}

proof fn lemma_chain_value_same(es: Seq<Entry>, es2: Seq<Entry>, p: Seq<TNode>, id: usize)
    requires
        p.len() >= 1,
        same_completed(es, es2, p),
    ensures
        chain_value(es, p, id) == chain_value(es2, p, id),
        chain_runs(es, p) == chain_runs(es2, p),
    decreases p.len(),
{
    assert(p.last() == p[p.len() - 1]);
    if p.len() > 1 {
        let t = p.drop_first();
        assert forall|k: int| 0 <= k < t.len() implies (node_in_state(es, #[trigger] t[k], EntryState::Completed)
            == node_in_state(es2, t[k], EntryState::Completed)) && (node_in_state(es, t[k], EntryState::Completed)
            ==> es2[index_of(es2, t[k]).unwrap()].value@ == es[index_of(es, t[k]).unwrap()].value@) by {
            assert(t[k] == p[k + 1]);
        }
        lemma_chain_value_same(es, es2, t, id);
    } else {
        assert(p[0] == p[0]);
    }
}

proof fn lemma_fresh_add(es: Seq<Entry>, es2: Seq<Entry>, edges: Seq<(TNode, Option<TNode>)>, p: Seq<TNode>)
    requires
        entries_shaped(es),
        entries_shaped(es2),
        adds_fresh(es, es2),
        chain_fresh_by(es, edges, p),
    ensures
        chain_fresh_by(es2, edges, p),
        same_completed(es, es2, p),
{
    assert forall|k: int| 0 <= k < p.len() implies (node_in_state(es, #[trigger] p[k], EntryState::Completed)
        == node_in_state(es2, p[k], EntryState::Completed)) && (node_in_state(es, p[k], EntryState::Completed)
        ==> es2[index_of(es2, p[k]).unwrap()].value@ == es[index_of(es, p[k]).unwrap()].value@)
        && (fresh(es, p[k]) ==> fresh(es2, p[k]))
        && (node_in_state(es, p[k], EntryState::Running) == node_in_state(es2, p[k], EntryState::Running)) by {
        lemma_add_states(es, es2, p[k]);
    }
    assert(p.last() == p[p.len() - 1]);
}

/// Entry `idx` replaced by one with the same node: a chain that avoids its node keeps its
/// completed results.
proof fn lemma_update_same_completed(es: Seq<Entry>, es2: Seq<Entry>, idx: int, p: Seq<TNode>)
    requires
        entries_shaped(es),
        entries_shaped(es2),
        0 <= idx < es.len(),
        es2.len() == es.len(),
        forall|i: int| 0 <= i < es.len() && i != idx ==> #[trigger] es2[i] == es[i],
        es2[idx].node == es[idx].node,
        forall|k: int| 0 <= k < p.len() ==> #[trigger] p[k] != es[idx].node,
    ensures
        same_completed(es, es2, p),
        forall|k: int|
            0 <= k < p.len() ==> (fresh(es, #[trigger] p[k]) == fresh(es2, p[k])) && (node_in_state(
                es,
                p[k],
                EntryState::Running,
            ) == node_in_state(es2, p[k], EntryState::Running)),
{
    assert forall|k: int| 0 <= k < p.len() implies (node_in_state(es, #[trigger] p[k], EntryState::Completed)
        == node_in_state(es2, p[k], EntryState::Completed)) && (node_in_state(es, p[k], EntryState::Completed)
        ==> es2[index_of(es2, p[k]).unwrap()].value@ == es[index_of(es, p[k]).unwrap()].value@)
        && (fresh(es, p[k]) == fresh(es2, p[k])) && (node_in_state(es, p[k], EntryState::Running)
        == node_in_state(es2, p[k], EntryState::Running)) by {
        lemma_update_states(es, es2, idx, p[k], EntryState::Completed);
        lemma_update_states(es, es2, idx, p[k], EntryState::Running);
        lemma_update_states(es, es2, idx, p[k], EntryState::NotStarted);
        if let Some(j) = index_of(es, p[k]) {
            assert(es[j].node == p[k]);
            assert(j != idx);
        }
    }
}

/// A fresh chain from the node of entry `idx`, which has not started, continues as a fresh
/// chain from its dependency once the entry is made running, with the same results.
proof fn lemma_fresh_step(
    es: Seq<Entry>,
    es2: Seq<Entry>,
    edges: Seq<(TNode, Option<TNode>)>,
    idx: int,
    p: Seq<TNode>,
    id: usize,
)
    requires
        entries_shaped(es),
        entries_shaped(es2),
        0 <= idx < es.len(),
        es2.len() == es.len(),
        forall|i: int| 0 <= i < es.len() && i != idx ==> #[trigger] es2[i] == es[i],
        es2[idx].node == es[idx].node,
        es[idx].state == EntryState::NotStarted,
        chain_fresh_by(es, edges, p),
        p[0] == es[idx].node,
        p.len() > 1,
    ensures
        dependency_in(edges, p[0]) == Some(p[1]),
        chain_fresh_by(es2, edges, p.drop_first()),
        chain_value(es2, p.drop_first(), id) == chain_value(es, p.drop_first(), id),
        chain_runs(es2, p.drop_first()) == chain_runs(es, p.drop_first()),
        p.drop_first()[0] == p[1],
{
    let n = es[idx].node;
    let t = p.drop_first();
    assert(dependency_in(edges, p[0]) == Some(p[1]));
    assert forall|k: int| 0 <= k < t.len() implies #[trigger] t[k] != n by {
        assert(t[k] == p[k + 1]);
    }
    lemma_update_same_completed(es, es2, idx, t);
    lemma_chain_value_same(es, es2, t, id);
    assert forall|k: int| 0 <= k < t.len() - 1 implies #[trigger] dependency_in(edges, t[k]) == Some(t[k + 1]) by {
        assert(dependency_in(edges, p[k + 1]) == Some(p[k + 2]));
    }
    assert forall|k: int| 0 <= k < t.len() implies !node_in_state(es, #[trigger] t[k], EntryState::Running) by {
        assert(t[k] == p[k + 1]);
    }
    assert forall|k: int| 0 <= k < t.len() - 1 implies !node_in_state(es, #[trigger] t[k], EntryState::Completed)
        && fresh(es, t[k]) by {
        assert(t[k] == p[k + 1]);
    }
    assert(t.last() == p.last());
    assert(t.last() == t[t.len() - 1]);
    assert forall|k: int| 0 <= k < t.len() - 1 implies !node_in_state(es2, #[trigger] t[k], EntryState::Completed)
        && fresh(es2, t[k]) by {
        assert(node_in_state(es, t[k], EntryState::Completed) == node_in_state(es2, t[k], EntryState::Completed));
    }
    assert(chain_fresh_by(es2, edges, t));
}

/// The index of the entry of `node`, if there is one.
pub open spec fn index_of(es: Seq<Entry>, node: TNode) -> Option<int> {
    if exists|i: int| 0 <= i < es.len() && es[i].node == node {
        Some(choose|i: int| 0 <= i < es.len() && es[i].node == node)
    } else {
        None
    }
}

/// The number of indices in `0..n` at which `f` holds.
pub open spec fn count_where(n: int, f: spec_fn(int) -> bool) -> nat
    decreases n,
{
    if n <= 0 {
        0
    } else {
        count_where(n - 1, f) + if f(n - 1) {
            1nat
        } else {
            0nat
        }
    }
}

/// Whether `pred` holds of `n`: the predicate handed to `invalidate_from_roots` answers
/// `true` for it.
pub open spec fn matched<F: Fn(TNode) -> bool>(pred: F, n: TNode) -> bool {
    pred.ensures((n,), true)
}

/// At index `k`, the entry is completed.
pub open spec fn completed_at(es: Seq<Entry>) -> spec_fn(int) -> bool {
    |k: int| es[k].state == EntryState::Completed
}

/// At index `k`, the entry was completed in `orig` and is dirty in `es`.
pub open spec fn dirtied_at(orig: Seq<Entry>, es: Seq<Entry>) -> spec_fn(int) -> bool {
    |k: int| orig[k].state == EntryState::Completed && es[k].state == EntryState::Dirty
}

/// At index `k`, the node of `orig` is matched by `pred`.
pub open spec fn matched_at<F: Fn(TNode) -> bool>(pred: F, orig: Seq<Entry>) -> spec_fn(int) -> bool {
    |k: int| matched(pred, orig[k].node)
}

proof fn lemma_count_bounded(n: int, f: spec_fn(int) -> bool)
    requires
        n >= 0,
    ensures
        count_where(n, f) <= n,
    decreases n,
{
    if n > 0 {
        lemma_count_bounded(n - 1, f);
    }
}

/// Two predicates that differ only at `j < n`, where the second holds and the first does
/// not, count one apart.
proof fn lemma_count_flip(n: int, f: spec_fn(int) -> bool, g: spec_fn(int) -> bool, j: int)
    requires
        0 <= j < n,
        !f(j),
        g(j),
        forall|i: int| 0 <= i < n && i != j ==> #[trigger] f(i) == g(i),
    ensures
        count_where(n, g) == count_where(n, f) + 1,
    decreases n,
{
    if n - 1 != j {
        lemma_count_flip(n - 1, f, g, j);
    } else {
        lemma_count_same(n - 1, f, g);
    }
}

proof fn lemma_count_zero(n: int)
    ensures
        count_where(n, |k: int| false) == 0,
    decreases n,
{
    if n > 0 {
        lemma_count_zero(n - 1);
    }
}

proof fn lemma_count_same(n: int, f: spec_fn(int) -> bool, g: spec_fn(int) -> bool)
    requires
        forall|i: int| 0 <= i < n ==> #[trigger] f(i) == g(i),
    ensures
        count_where(n, g) == count_where(n, f),
    decreases n,
{
    if n > 0 {
        lemma_count_same(n - 1, f, g);
    }
}

/// A copy of a token list.
pub fn copy_tokens(v: &Vec<T>) -> (r: Vec<T>)
    ensures
        r@ == v@,
{
    let mut r: Vec<T> = Vec::new();
    let mut i: usize = 0;
    while i < v.len()
        invariant
            i <= v@.len(),
            r@ == v@.take(i as int),
        decreases v@.len() - i,
    {
        r.push(v[i]);
        i = i + 1;
        proof {
            assert(r@ =~= v@.take(i as int));
        }
    }
    proof {
        assert(r@ =~= v@);
    }
    r
}

/// A copy of a list of entry ids.
pub fn copy_ids(v: &Vec<usize>) -> (r: Vec<usize>)
    ensures
        r@ == v@,
{
    let mut r: Vec<usize> = Vec::new();
    let mut i: usize = 0;
    while i < v.len()
        invariant
            i <= v@.len(),
            r@ == v@.take(i as int),
        decreases v@.len() - i,
    {
        r.push(v[i]);
        i = i + 1;
        proof {
            assert(r@ =~= v@.take(i as int));
        }
    }
    proof {
        assert(r@ =~= v@);
    }
    r
}

/// A copy of a list of token lists.
pub fn copy_results(v: &Vec<Vec<T>>) -> (r: Vec<Vec<T>>)
    ensures
        r@.len() == v@.len(),
        r@.map_values(|x: Vec<T>| x@) == v@.map_values(|x: Vec<T>| x@),
{
    let mut r: Vec<Vec<T>> = Vec::new();
    let mut i: usize = 0;
    while i < v.len()
        invariant
            i <= v@.len(),
            r@.len() == i,
            forall|k: int| 0 <= k < i ==> #[trigger] r@[k]@ == v@[k]@,
        decreases v@.len() - i,
    {
        r.push(copy_tokens(&v[i]));
        i = i + 1;
    }
    proof {
        assert(r@.map_values(|x: Vec<T>| x@) =~= v@.map_values(|x: Vec<T>| x@));
    }
    r
}

/// Whether two token lists are equal.
pub fn same_tokens(a: &Vec<T>, b: &Vec<T>) -> (r: bool)
    ensures
        r == (a@ == b@),
{
    if a.len() != b.len() {
        return false;
    }
    let mut i: usize = 0;
    while i < a.len()
        invariant
            a@.len() == b@.len(),
            i <= a@.len(),
            forall|k: int| 0 <= k < i ==> a@[k] == b@[k],
        decreases a@.len() - i,
    {
        if a[i] != b[i] {
            return false;
        }
        i = i + 1;
    }
    proof {
        assert(a@ =~= b@);
    }
    true
}

impl Graph {
    pub open spec fn wf(&self) -> bool {
        entries_wf(self.entries@)
    }

    pub fn new() -> (r: Graph)
        ensures
            r.wf(),
            r.entries@.len() == 0,
            !r.draining,
    {
        Graph { entries: Vec::new(), draining: false }
    }

    /// The index of the entry of `node`, if any.
    pub fn find(&self, node: TNode) -> (r: Option<usize>)
        requires
            self.wf(),
        ensures
            r matches Some(i) ==> i < self.entries@.len() && self.entries@[i as int].node == node,
            r is None ==> forall|i: int|
                0 <= i < self.entries@.len() ==> #[trigger] self.entries@[i].node != node,
            r matches Some(i) ==> index_of(self.entries@, node) == Some(i as int),
            r is None ==> index_of(self.entries@, node) is None,
    {
        let mut i: usize = 0;
        while i < self.entries.len()
            invariant
                self.wf(),
                i <= self.entries@.len(),
                forall|k: int| 0 <= k < i ==> #[trigger] self.entries@[k].node != node,
            decreases self.entries@.len() - i,
        {
            if self.entries[i].node == node {
                proof {
                    let j = choose|j: int| 0 <= j < self.entries@.len() && self.entries@[j].node == node;
                    assert(self.entries@[i as int].node == node);
                    assert(self.entries@[j].node == node);
                    assert(j == i);
                }
                return Some(i);
            }
            i = i + 1;
        }
        None
    }

    /// The index of the entry of `node`, adding a `NotStarted` entry when there is none.
    pub fn add_node(&mut self, node: TNode) -> (r: usize)
        requires
            old(self).wf(),
        ensures
            final(self).wf(),
            final(self).draining == old(self).draining,
            r < final(self).entries@.len(),
            final(self).entries@[r as int].node == node,
            index_of(old(self).entries@, node) matches Some(i) ==> r == i && final(self).entries@
                == old(self).entries@,
            index_of(old(self).entries@, node) is None ==> r == old(self).entries@.len()
                && final(self).entries@.len() == old(self).entries@.len() + 1
                && final(self).entries@.drop_last() == old(self).entries@
                && final(self).entries@[r as int].state == EntryState::NotStarted
                && final(self).entries@[r as int].deps@.len() == 0,
    {
        match self.find(node) {
            Some(i) => i,
            None => {
                let e = Entry {
                    node,
                    state: EntryState::NotStarted,
                    value: Vec::new(),
                    deps: Vec::new(),
                    observed: Vec::new(),
                };
                let r = self.entries.len();
                self.entries.push(e);
                proof {
                    assert(self.entries@.drop_last() =~= old(self).entries@);
                }
                r
            }
        }
    }

    /// Adds an edge from entry `src` to entry `dst`, with an empty observed result. The
    /// edge is refused, with `Cyclic`, when `dst` already reaches `src` (the edge would
    /// close a cycle), and also when `src` is completed (its edges are those of its last
    /// run).
    pub fn add_edge(&mut self, src: usize, dst: usize) -> (r: Result<(), TError>)
        requires
            old(self).wf(),
            src < old(self).entries@.len(),
            dst < old(self).entries@.len(),
        ensures
            final(self).wf(),
            final(self).draining == old(self).draining,
            final(self).entries@.len() == old(self).entries@.len(),
            r is Err <==> (reaches(old(self).entries@, dst as int, src as int) || old(self).entries@[src as int].state
                == EntryState::Completed),
            r is Err ==> final(self).entries@ == old(self).entries@,
            r is Ok ==> final(self).entries@[src as int].deps@ == old(self).entries@[src as int].deps@.push(dst)
                && final(self).entries@[src as int].node == old(self).entries@[src as int].node
                && final(self).entries@[src as int].state == old(self).entries@[src as int].state
                && forall|i: int|
                0 <= i < old(self).entries@.len() && i != src ==> #[trigger] final(self).entries@[i]
                    == old(self).entries@[i],
    {
        if self.entries[src].state == EntryState::Completed || self.reachable(dst, src) {
            return Err(TError::cyclic());
        }
        let mut deps = copy_ids(&self.entries[src].deps);
        deps.push(dst);
        let mut observed = copy_results(&self.entries[src].observed);
        observed.push(Vec::new());
        let e = Entry {
            node: self.entries[src].node,
            state: self.entries[src].state,
            value: copy_tokens(&self.entries[src].value),
            deps,
            observed,
        };
        proof {
            assert forall|k: int| 0 <= k < e.deps@.len() implies #[trigger] e.deps@[k]
                < old(self).entries@.len() by {
                if k < e.deps@.len() - 1 {
                    assert(e.deps@[k] == old(self).entries@[src as int].deps@[k]);
                }
            }
        }
        self.replace_entry(src, e);
        proof {
            assert(self.entries@[src as int].deps@ =~= old(self).entries@[src as int].deps@.push(dst));
        }
        Ok(())
    }

    /// Whether a chain of edges leads from entry `from` to entry `to`.
    pub fn reachable(&self, from: usize, to: usize) -> (r: bool)
        requires
            entries_shaped(self.entries@),
            from < self.entries@.len(),
            to < self.entries@.len(),
        ensures
            r == reaches(self.entries@, from as int, to as int),
    {
        let ghost es = self.entries@;
        proof {
            lemma_reaches_self(es, from);
        }
        if from == to {
            return true;
        }
        let n = self.entries.len();
        let mut seen: Vec<bool> = Vec::new();
        let mut i: usize = 0;
        while i < n
            invariant
                i <= n,
                seen@.len() == i,
                forall|j: int| 0 <= j < i ==> !#[trigger] seen@[j],
            decreases n - i,
        {
            seen.push(false);
            i = i + 1;
        }
        seen.set(from, true);
        let mut stack: Vec<usize> = Vec::new();
        stack.push(from);
        proof {
            assert(stack@[0] == from);
            assert forall|v: int| 0 <= v < n && #[trigger] seen@[v] implies v == from by {}
        }
        while stack.len() > 0
            invariant
                es == self.entries@,
                entries_shaped(es),
                n == es.len(),
                from < n,
                to < n,
                seen@.len() == n,
                seen@[from as int],
                !seen@[to as int],
                forall|j: int| 0 <= j < stack@.len() ==> #[trigger] stack@[j] < n && seen@[stack@[j] as int],
                forall|v: int| 0 <= v < n && #[trigger] seen@[v] ==> reaches(es, from as int, v),
                forall|v: int, k: int|
                    0 <= v < n && seen@[v] && !stack@.contains(v as usize) && 0 <= k < es[v].deps@.len()
                        ==> seen@[#[trigger] es[v].deps@[k] as int],
            decreases count_where(n as int, unseen_at(seen@)), stack@.len(),
        {
            let ghost pre = stack@;
            let v = stack.pop().unwrap();
            let ghost start_seen = seen@;
            let ghost start_stack = stack@;
            proof {
                assert(pre == stack@.push(v));
                assert forall|u: int| 0 <= u < n && u != v && #[trigger] pre.contains(u as usize) implies stack@.contains(
                    u as usize,
                ) by {
                    let a = choose|a: int| 0 <= a < pre.len() && pre[a] == u as usize;
                    assert(a < stack@.len());
                    assert(stack@[a] == u as usize);
                }
            }
            let m = self.entries[v].deps.len();
            let mut k: usize = 0;
            while k < m
                invariant
                    es == self.entries@,
                    entries_shaped(es),
                    n == es.len(),
                    from < n,
                    to < n,
                    v < n,
                    seen@[v as int],
                    m == es[v as int].deps@.len(),
                    k <= m,
                    seen@.len() == n,
                    seen@[from as int],
                    !seen@[to as int],
                    forall|j: int| 0 <= j < stack@.len() ==> #[trigger] stack@[j] < n && seen@[stack@[j] as int],
                    forall|u: int| 0 <= u < n && #[trigger] seen@[u] ==> reaches(es, from as int, u),
                    forall|u: int, j: int|
                        0 <= u < n && seen@[u] && u != v && !stack@.contains(u as usize) && 0 <= j
                            < es[u].deps@.len() ==> seen@[#[trigger] es[u].deps@[j] as int],
                    forall|j: int| 0 <= j < k ==> seen@[#[trigger] es[v as int].deps@[j] as int],
                    forall|j: int| 0 <= j < start_stack.len() ==> stack@.contains(#[trigger] start_stack[j]),
                    count_where(n as int, unseen_at(seen@)) < count_where(n as int, unseen_at(start_seen))
                        || (seen@ == start_seen && stack@ == start_stack),
                decreases m - k,
            {
                let d = self.entries[v].deps[k];
                proof {
                    lemma_reaches_step(es, from as int, v, k as int);
                }
                if !seen[d] {
                    if d == to {
                        return true;
                    }
                    let ghost before = seen@;
                    let ghost stack_before = stack@;
                    seen.set(d, true);
                    stack.push(d);
                    proof {
                        assert(stack@[stack@.len() - 1] == d);
                        assert(stack@.contains(d));
                        assert forall|j: int| 0 <= j < n && j != d implies #[trigger] unseen_at(seen@)(j)
                            == unseen_at(before)(j) by {}
                        lemma_count_flip(n as int, unseen_at(seen@), unseen_at(before), d as int);
                        assert forall|j: int| 0 <= j < start_stack.len() implies stack@.contains(
                            #[trigger] start_stack[j],
                        ) by {
                            let a = choose|a: int| 0 <= a < stack_before.len() && stack_before[a] == start_stack[j];
                            assert(stack@[a] == start_stack[j]);
                        }
                        assert forall|u: int, j: int|
                            0 <= u < n && seen@[u] && u != v && !stack@.contains(u as usize) && 0 <= j
                                < es[u].deps@.len() implies seen@[#[trigger] es[u].deps@[j] as int] by {
                            assert(u != d);
                            assert(before[u]);
                            if stack_before.contains(u as usize) {
                                let a = choose|a: int| 0 <= a < stack_before.len() && stack_before[a] == u as usize;
                                assert(stack@[a] == u as usize);
                            }
                        }
                        assert(stack@[stack@.len() - 1] == d);
                    }
                }
                k = k + 1;
            }
            proof {
                assert forall|u: int, j: int|
                    0 <= u < n && seen@[u] && !stack@.contains(u as usize) && 0 <= j < es[u].deps@.len()
                        implies seen@[#[trigger] es[u].deps@[j] as int] by {
                    if u == v {
                    }
                }
                if seen@ == start_seen && stack@ == start_stack {
                    assert(stack@.len() < stack@.len() + 1);
                }
            }
        }
        proof {
            assert forall|p: Seq<usize>| #[trigger] is_dep_path(es, p) && p[0] == from implies p.last() != to by {
                assert forall|u: int, j: int|
                    0 <= u < es.len() && seen@[u] && 0 <= j < es[u].deps@.len() implies seen@[
                    #[trigger] es[u].deps@[j] as int] by {
                    assert(!stack@.contains(u as usize));
                }
                lemma_closed_holds_path(es, seen@, p);
            }
        }
        false
    }

    /// Sets the draining switch. While it is set every request fails with `Invalidated`,
    /// and nothing of that failure is stored. Fails when the switch already has that value.
    pub fn mark_draining(&mut self, draining: bool) -> (r: Result<(), AlreadyInThatState>)
        ensures
            final(self).entries@ == old(self).entries@,
            old(self).draining == draining ==> r == Err::<(), AlreadyInThatState>(AlreadyInThatState)
                && final(self).draining == old(self).draining,
            old(self).draining != draining ==> r == Ok::<(), AlreadyInThatState>(())
                && drain_step(*old(self), *final(self), draining),
    {
        if self.draining == draining {
            return Err(AlreadyInThatState);
        }
        self.draining = draining;
        Ok(())
    }

    /// Requests `node` from outside any running entry, adding its entry when there is none.
    /// The guarantees are those of `get` on the node's entry: success when the chain of
    /// requests from the node ends, `Cyclic` when it closes a cycle, and the exact result
    /// and log along entries that have not started.
    ///
    /// While draining this fails with `Invalidated`. A completed entry gives its stored
    /// result without running anything. Otherwise the result is that of `get` on the
    /// node's entry, which is then completed with it on success.
    pub fn create(&mut self, node: TNode, ctx: &mut TContext) -> (r: Result<Vec<T>, TError>)
        requires
            old(self).wf(),
            entries_idle(old(self).entries@),
        ensures
            final(self).wf(),
            entries_idle(final(self).entries@),
            final(self).draining == old(self).draining,
            entries_grow(old(self).entries@, final(self).entries@),
            context_grows(*old(ctx), *final(ctx)),
            old(self).draining ==> r == Err::<Vec<T>, TError>(TError::Invalidated)
                && final(ctx).runs@ == old(ctx).runs@,
            forall|i: int|
                !old(self).draining && index_of(old(self).entries@, node) == Some(i)
                    && old(self).entries@[i].state == EntryState::Completed
                    ==> (r matches Ok(v) && v@ == old(self).entries@[i].value@)
                    && final(self).entries@ == old(self).entries@
                    && final(ctx).runs@ == old(ctx).runs@,
            r matches Ok(v) ==> (index_of(final(self).entries@, node) matches Some(i)
                && final(self).entries@[i].state == EntryState::Completed
                && final(self).entries@[i].value@ == v@),
            !old(self).draining && chain_ends(old(self).entries@, old(ctx).edges@, node, usize::MAX as nat)
                ==> r is Ok,
            !old(self).draining && r is Err ==> r == Err::<Vec<T>, TError>(TError::Cyclic),
            forall|p: Seq<TNode>|
                !old(self).draining && #[trigger] chain_cycles_by(old(self).entries@, old(ctx).edges@, p)
                    && p[0] == node ==> r == Err::<Vec<T>, TError>(TError::Cyclic),
            forall|p: Seq<TNode>|
                !old(self).draining && #[trigger] chain_fresh_by(old(self).entries@, old(ctx).edges@, p)
                    && p[0] == node && p.len() <= usize::MAX as int + 1 ==> (r matches Ok(v) && v@
                    == chain_value(old(self).entries@, p, old(ctx).id)) && final(ctx).runs@ == old(ctx).runs@
                    + chain_runs(old(self).entries@, p),
            !old(self).draining && (index_of(old(self).entries@, node) is None || (index_of(
                old(self).entries@,
                node,
            ) matches Some(i) && old(self).entries@[i].state == EntryState::NotStarted))
                ==> final(ctx).runs@.len() > old(ctx).runs@.len()
                && final(ctx).runs@[old(ctx).runs@.len() as int] == node
                && (r matches Ok(v) ==> run_result(
                final(self).entries@,
                node,
                old(ctx).id,
                old(ctx).edges@,
                v@,
            ) && (index_of(final(self).entries@, node) matches Some(i) && edges_are_requests(
                final(self).entries@,
                i,
                old(ctx).edges@,
            ))),
            forall|i: int|
                !old(self).draining && index_of(old(self).entries@, node) == Some(i)
                    && old(self).entries@[i].state == EntryState::Dirty
                    ==> (r matches Ok(v) ==> v@ == old(self).entries@[i].value@ || run_result(
                    final(self).entries@,
                    node,
                    old(ctx).id,
                    old(ctx).edges@,
                    v@,
                )),
    {
        let idx = self.add_node(node);
        let ghost mid = self.entries@;
        proof {
            assert(adds_fresh(old(self).entries@, mid));
            assert(entries_grow(old(self).entries@, mid)) by {
                if mid.len() > old(self).entries@.len() {
                    assert forall|i: int| 0 <= i < old(self).entries@.len() implies #[trigger] mid[i]
                        == old(self).entries@[i] by {
                        assert(mid.drop_last()[i] == mid[i]);
                    }
                }
            }
            if chain_ends(old(self).entries@, ctx.edges@, node, usize::MAX as nat) {
                lemma_chain_ends_grow(old(self).entries@, mid, ctx.edges@, node, usize::MAX as nat);
            }
            assert forall|p: Seq<TNode>| #[trigger] chain_cycles_by(old(self).entries@, ctx.edges@, p)
                implies chain_cycles_by(mid, ctx.edges@, p) by {
                lemma_cycles_add(old(self).entries@, mid, ctx.edges@, p);
            }
            assert forall|p: Seq<TNode>| #[trigger] chain_fresh_by(old(self).entries@, ctx.edges@, p)
                implies chain_fresh_by(mid, ctx.edges@, p) && chain_value(old(self).entries@, p, ctx.id)
                == chain_value(mid, p, ctx.id) && chain_runs(old(self).entries@, p) == chain_runs(mid, p) by {
                lemma_fresh_add(old(self).entries@, mid, ctx.edges@, p);
                lemma_chain_value_same(old(self).entries@, mid, p, ctx.id);
            }
        }
        // Each nested request holds a distinct running entry, so no chain of requests
        // that memory can hold comes near this bound.
        let r = self.get(idx, ctx, usize::MAX);
        proof {
            assert(index_of(self.entries@, node) == Some(idx as int)) by {
                assert(self.entries@[idx as int].node == node);
                let j = choose|j: int| 0 <= j < self.entries@.len() && self.entries@[j].node == node;
                assert(self.entries@[j].node == self.entries@[idx as int].node);
            }
            assert forall|i: int| 0 <= i < self.entries@.len() implies #[trigger] self.entries@[i].state
                != EntryState::Running by {
                if i < old(self).entries@.len() {
                    assert(mid[i] == old(self).entries@[i]);
                }
            }
        }
        r
    }

    /// A copy of entry `i` in state `s`.
    fn entry_with_state(&self, i: usize, s: EntryState) -> (r: Entry)
        requires
            i < self.entries@.len(),
        ensures
            r.node == self.entries@[i as int].node,
            r.state == s,
            r.value@ == self.entries@[i as int].value@,
            r.deps@ == self.entries@[i as int].deps@,
            r.observed@.len() == self.entries@[i as int].observed@.len(),
            observed_of(r) == observed_of(self.entries@[i as int]),
    {
        Entry {
            node: self.entries[i].node,
            state: s,
            value: copy_tokens(&self.entries[i].value),
            deps: copy_ids(&self.entries[i].deps),
            observed: copy_results(&self.entries[i].observed),
        }
    }

    /// Whether some dependency of entry `i` is not completed.
    fn has_incomplete_dep(&self, i: usize) -> (r: bool)
        requires
            entries_shaped(self.entries@),
            i < self.entries@.len(),
        ensures
            r == exists|k: int|
                0 <= k < self.entries@[i as int].deps@.len() && self.entries@[
                    #[trigger] self.entries@[i as int].deps@[k] as int].state != EntryState::Completed,
    {
        let n = self.entries[i].deps.len();
        let mut k: usize = 0;
        while k < n
            invariant
                entries_shaped(self.entries@),
                i < self.entries@.len(),
                n == self.entries@[i as int].deps@.len(),
                k <= n,
                forall|j: int|
                    0 <= j < k ==> self.entries@[#[trigger] self.entries@[i as int].deps@[j] as int].state
                        == EntryState::Completed,
            decreases n - k,
        {
            let d = self.entries[i].deps[k];
            if self.entries[d].state != EntryState::Completed {
                return true;
            }
            k = k + 1;
        }
        false
    }

    /// Clears every entry whose node `pred` matches and marks dirty every completed entry
    /// that depends, directly or through other entries, on an entry that is not completed.
    ///
    /// A cleared entry is `NotStarted` with no result and no edges. A dirtied entry keeps
    /// its result and edges for cleaning. Returns how many entries matched and how many
    /// completed entries became dirty.
    pub fn invalidate_from_roots<F: Fn(TNode) -> bool>(&mut self, pred: F) -> (r: InvalidationResult)
        requires
            old(self).wf(),
            entries_idle(old(self).entries@),
            forall|n: TNode| #[trigger] pred.requires((n,)),
            forall|n: TNode, a: bool, b: bool|
                #[trigger] pred.ensures((n,), a) && #[trigger] pred.ensures((n,), b) ==> a == b,
        ensures
            final(self).wf(),
            entries_idle(final(self).entries@),
            final(self).draining == old(self).draining,
            final(self).entries@.len() == old(self).entries@.len(),
            forall|i: int|
                0 <= i < old(self).entries@.len() ==> #[trigger] final(self).entries@[i].node
                    == old(self).entries@[i].node,
            forall|i: int|
                0 <= i < old(self).entries@.len() && matched(pred, old(self).entries@[i].node)
                    ==> #[trigger] final(self).entries@[i].state == EntryState::NotStarted
                    && final(self).entries@[i].deps@.len() == 0,
            forall|i: int|
                0 <= i < old(self).entries@.len() && !matched(pred, old(self).entries@[i].node)
                    ==> kept_or_dirtied(old(self).entries@[i], #[trigger] final(self).entries@[i]),
            forall|i: int|
                0 <= i < old(self).entries@.len() && !matched(pred, old(self).entries@[i].node) ==> (
                #[trigger] final(self).entries@[i].state == EntryState::Dirty && old(self).entries@[i].state
                    == EntryState::Completed <==> old(self).entries@[i].state == EntryState::Completed
                    && reaches_matched(pred, old(self).entries@, i)),
            r.cleared == count_where(old(self).entries@.len() as int, matched_at(pred, old(self).entries@)),
            r.dirtied == count_where(
                old(self).entries@.len() as int,
                dirtied_at(old(self).entries@, final(self).entries@),
            ),
    {
        let ghost orig = self.entries@;
        let n = self.entries.len();
        let mut cleared: usize = 0;
        let mut i: usize = 0;
        while i < n
            invariant
                n == orig.len(),
                orig == old(self).entries@,
                self.draining == old(self).draining,
                entries_wf(orig),
                entries_idle(orig),
                forall|n: TNode| #[trigger] pred.requires((n,)),
                forall|n: TNode, a: bool, b: bool|
                    #[trigger] pred.ensures((n,), a) && #[trigger] pred.ensures((n,), b) ==> a == b,
                entries_shaped(self.entries@),
                entries_idle(self.entries@),
                self.entries@.len() == n,
                i <= n,
                forall|k: int| 0 <= k < n ==> #[trigger] self.entries@[k].node == orig[k].node,
                forall|k: int|
                    i <= k < n ==> same_entry(#[trigger] self.entries@[k], orig[k]),
                forall|k: int|
                    0 <= k < i && matched(pred, orig[k].node) ==> #[trigger] self.entries@[k].state
                        == EntryState::NotStarted && self.entries@[k].deps@.len() == 0,
                forall|k: int|
                    0 <= k < i && !matched(pred, orig[k].node) ==> same_entry(
                        #[trigger] self.entries@[k],
                        orig[k],
                    ),
                cleared == count_where(i as int, matched_at(pred, orig)),
            decreases n - i,
        {
            let node = self.entries[i].node;
            let hit = pred(node);
            proof {
                lemma_count_bounded(i as int, matched_at(pred, orig));
                if !hit && matched(pred, node) {
                    assert(pred.ensures((node,), true));
                }
            }
            if hit {
                let e = Entry {
                    node,
                    state: EntryState::NotStarted,
                    value: Vec::new(),
                    deps: Vec::new(),
                    observed: Vec::new(),
                };
                let ghost before = self.entries@;
                self.entries.set(i, e);
                proof {
                    let es = self.entries@;
                    assert forall|a: int, b: int|
                        #![trigger es[a].node, es[b].node]
                        0 <= a < es.len() && 0 <= b < es.len() && a != b implies es[a].node
                        != es[b].node by {
                        assert(before[a].node == es[a].node);
                        assert(before[b].node == es[b].node);
                    }
                }
                cleared = cleared + 1;
            }
            i = i + 1;
        }
        let ghost after_clear = self.entries@;
        let mut dirtied: usize = 0;
        proof {
            assert forall|k: int| 0 <= k < n implies !#[trigger] dirtied_at(orig, after_clear)(k) by {
                if !matched(pred, orig[k].node) {
                    assert(same_entry(after_clear[k], orig[k]));
                }
            }
            lemma_count_same(n as int, dirtied_at(orig, after_clear), |k: int| false);
            assert(count_where(n as int, |k: int| false) == 0) by {
                lemma_count_zero(n as int);
            }
        }
        let mut changed = true;
        while changed
            invariant
                n == orig.len(),
                orig == old(self).entries@,
                self.draining == old(self).draining,
                entries_shaped(self.entries@),
                entries_idle(self.entries@),
                self.entries@.len() == n,
                forall|k: int| 0 <= k < n ==> #[trigger] self.entries@[k].node == orig[k].node,
                forall|k: int|
                    0 <= k < n && matched(pred, orig[k].node) ==> #[trigger] self.entries@[k].state
                        == EntryState::NotStarted && self.entries@[k].deps@.len() == 0,
                forall|k: int|
                    0 <= k < n && !matched(pred, orig[k].node) ==> kept_or_dirtied(
                        orig[k],
                        #[trigger] self.entries@[k],
                    ),
                dirtied == count_where(n as int, dirtied_at(orig, self.entries@)),
                !changed ==> entries_closed(self.entries@),
                entries_wf(orig),
                forall|k: int|
                    0 <= k < n && !matched(pred, orig[k].node) && orig[k].state == EntryState::Completed
                        && #[trigger] self.entries@[k].state == EntryState::Dirty ==> reaches_matched(pred, orig, k),
            decreases count_where(n as int, completed_at(self.entries@)) + if changed {
                1nat
            } else {
                0nat
            },
        {
            let ghost pass_start = self.entries@;
            proof {
                lemma_count_bounded(n as int, dirtied_at(orig, self.entries@));
            }
            changed = false;
            let mut i: usize = 0;
            while i < n
                invariant
                    n == orig.len(),
                    orig == old(self).entries@,
                    self.draining == old(self).draining,
                    entries_shaped(self.entries@),
                    entries_idle(self.entries@),
                    self.entries@.len() == n,
                    pass_start.len() == n,
                    i <= n,
                    forall|k: int| 0 <= k < n ==> #[trigger] self.entries@[k].node == orig[k].node,
                    forall|k: int|
                        0 <= k < n && matched(pred, orig[k].node) ==> #[trigger] self.entries@[k].state
                            == EntryState::NotStarted && self.entries@[k].deps@.len() == 0,
                    forall|k: int|
                        0 <= k < n && !matched(pred, orig[k].node) ==> kept_or_dirtied(
                            orig[k],
                            #[trigger] self.entries@[k],
                        ),
                    dirtied == count_where(n as int, dirtied_at(orig, self.entries@)),
                    dirtied <= n,
                    entries_wf(orig),
                    forall|k: int|
                        0 <= k < n && !matched(pred, orig[k].node) && orig[k].state == EntryState::Completed
                            && #[trigger] self.entries@[k].state == EntryState::Dirty ==> reaches_matched(pred, orig, k),
                    !changed ==> self.entries@ == pass_start,
                    !changed ==> forall|a: int, k: int|
                        0 <= a < i && self.entries@[a].state == EntryState::Completed && 0 <= k
                            < self.entries@[a].deps@.len() ==> self.entries@[
                            #[trigger] self.entries@[a].deps@[k] as int].state == EntryState::Completed,
                    changed ==> count_where(n as int, completed_at(self.entries@)) < count_where(
                        n as int,
                        completed_at(pass_start),
                    ),
                    count_where(n as int, completed_at(self.entries@)) <= count_where(
                        n as int,
                        completed_at(pass_start),
                    ),
                decreases n - i,
            {
                if self.entries[i].state == EntryState::Completed && self.has_incomplete_dep(i) {
                    proof {
                        let cur = self.entries@;
                        let ii = i as int;
                        assert(!matched(pred, orig[ii].node));
                        assert(kept_or_dirtied(orig[ii], cur[ii]));
                        let kk = choose|kk: int|
                            0 <= kk < cur[ii].deps@.len() && cur[#[trigger] cur[ii].deps@[kk] as int].state
                                != EntryState::Completed;
                        let d = orig[ii].deps@[kk] as int;
                        assert(cur[ii].deps@[kk] as int == d);
                        assert(orig[d].state == EntryState::Completed);
                        if matched(pred, orig[d].node) {
                            let p = seq![d as usize];
                            assert(is_dep_path(orig, p));
                            assert(reaches(orig, d, d));
                            lemma_reaches_prepend(orig, i, kk, d);
                        } else {
                            assert(kept_or_dirtied(orig[d], cur[d]));
                            assert(reaches_matched(pred, orig, d));
                            let j = choose|j: int| 0 <= j < orig.len() && matched(pred, orig[j].node) && #[trigger] reaches(orig, d, j);
                            lemma_reaches_prepend(orig, i, kk, j);
                        }
                        assert(reaches_matched(pred, orig, ii));
                    }
                    let e = self.entry_with_state(i, EntryState::Dirty);
                    let ghost before = self.entries@;
                    self.entries.set(i, e);
                    proof {
                        let es = self.entries@;
                        assert(es == before.update(i as int, e));
                        assert forall|a: int, b: int|
                            #![trigger es[a].node, es[b].node]
                            0 <= a < es.len() && 0 <= b < es.len() && a != b implies es[a].node
                            != es[b].node by {
                            assert(before[a].node == es[a].node);
                            assert(before[b].node == es[b].node);
                        }
                        assert forall|a: int| 0 <= a < n implies #[trigger] es[a].deps@.len()
                            == es[a].observed@.len() by {
                            assert(before[a].deps@.len() == before[a].observed@.len());
                        }
                        assert(orig[i as int].state == EntryState::Completed) by {
                            if matched(pred, orig[i as int].node) {
                            }
                        }
                        assert forall|k: int| 0 <= k < n && k != i implies #[trigger] dirtied_at(orig, before)(k)
                            == dirtied_at(orig, es)(k) by {
                            if 0 <= k < n {
                                assert(es[k] == before[k]);
                            }
                        }
                        assert forall|k: int| 0 <= k < n && k != i implies #[trigger] completed_at(es)(k)
                            == completed_at(before)(k) by {
                            if 0 <= k < n {
                                assert(es[k] == before[k]);
                            }
                        }
                        lemma_count_flip(n as int, dirtied_at(orig, before), dirtied_at(orig, es), i as int);
                        lemma_count_flip(n as int, completed_at(es), completed_at(before), i as int);
                        lemma_count_bounded(n as int, dirtied_at(orig, es));
                    }
                    dirtied = dirtied + 1;
                    changed = true;
                }
                i = i + 1;
            }
        }
        proof {
            assert forall|i: int|
                0 <= i < n && !matched(pred, orig[i].node) && orig[i].state == EntryState::Completed
                    && reaches_matched(pred, orig, i) implies #[trigger] self.entries@[i].state
                == EntryState::Dirty by {
                let j = choose|j: int| 0 <= j < orig.len() && matched(pred, orig[j].node) && #[trigger] reaches(orig, i, j);
                let p = choose|p: Seq<usize>| #[trigger] is_dep_path(orig, p) && p[0] == i && p.last() == j;
                assert forall|k: int| 0 <= k < orig.len() && !matched(pred, orig[k].node) implies #[trigger] self.entries@[k].deps@
                    == orig[k].deps@ by {
                    assert(kept_or_dirtied(orig[k], self.entries@[k]));
                }
                lemma_not_completed_along(pred, orig, self.entries@, p);
                assert(kept_or_dirtied(orig[i], self.entries@[i]));
            }
        }
        InvalidationResult { cleared, dirtied }
    }

    /// Puts `e` in place of entry `idx`, which is not completed. A completed `e` may only
    /// depend on completed entries.
    fn replace_entry(&mut self, idx: usize, e: Entry)
        requires
            old(self).wf(),
            idx < old(self).entries@.len(),
            old(self).entries@[idx as int].state != EntryState::Completed,
            e.node == old(self).entries@[idx as int].node,
            e.deps@.len() == e.observed@.len(),
            forall|k: int|
                0 <= k < e.deps@.len() ==> #[trigger] e.deps@[k] < old(self).entries@.len(),
            e.state == EntryState::Completed ==> forall|k: int|
                0 <= k < e.deps@.len() ==> old(self).entries@[#[trigger] e.deps@[k] as int].state
                    == EntryState::Completed,
        ensures
            final(self).wf(),
            final(self).draining == old(self).draining,
            final(self).entries@ == old(self).entries@.update(idx as int, e),
    {
        self.entries.set(idx, e);
        proof {
            let es = self.entries@;
            let os = old(self).entries@;
            assert forall|i: int, k: int|
                0 <= i < es.len() && es[i].state == EntryState::Completed && 0 <= k
                    < es[i].deps@.len() implies es[#[trigger] es[i].deps@[k] as int].state
                == EntryState::Completed by {
                if i != idx {
                    assert(os[i].state == EntryState::Completed);
                    assert(os[os[i].deps@[k] as int].state == EntryState::Completed);
                }
            }
            assert forall|i: int, j: int|
                #![trigger es[i].node, es[j].node]
                0 <= i < es.len() && 0 <= j < es.len() && i != j implies es[i].node
                != es[j].node by {
                assert(os[i].node == es[i].node);
                assert(os[j].node == es[j].node);
            }
        }
    }

    /// Serves a request for entry `idx` with a chain of at most `depth` further nested
    /// requests; a node that would need a longer chain fails with `Cyclic`.
    ///
    /// While draining, fails with `Invalidated` and changes nothing. A completed entry
    /// returns its stored result without running anything. A running entry is already on
    /// the chain of requests that led here, so asking for it again closes a cycle: that
    /// fails with `Cyclic` and changes nothing. A dirty entry is cleaned: when each of its
    /// dependencies still gives what it gave before, the entry completes again with its
    /// stored result; otherwise, and for an entry that has not started, the node runs.
    /// A failure is never stored: the entry is left `NotStarted`.
    ///
    /// Outside draining, the request succeeds whenever the chain of requests from the node
    /// ends within `depth` nested requests, and the only other failure is `Cyclic`, which
    /// it is whenever that chain, through entries that have not started, comes back to a
    /// running entry or to itself. Through entries that have not started, the result is
    /// the chain's tokens from the bottom up and the log gains the chain's nodes in order.
    pub fn get(&mut self, idx: usize, ctx: &mut TContext, depth: usize) -> (r: Result<Vec<T>, TError>)
        requires
            old(self).wf(),
            idx < old(self).entries@.len(),
        ensures
            final(self).wf(),
            final(self).draining == old(self).draining,
            entries_grow(old(self).entries@, final(self).entries@),
            context_grows(*old(ctx), *final(ctx)),
            old(self).draining ==> r == Err::<Vec<T>, TError>(TError::Invalidated)
                && final(self).entries@ == old(self).entries@
                && final(ctx).runs@ == old(ctx).runs@,
            !old(self).draining && old(self).entries@[idx as int].state == EntryState::Running
                ==> r == Err::<Vec<T>, TError>(TError::Cyclic)
                && final(self).entries@ == old(self).entries@
                && final(ctx).runs@ == old(ctx).runs@,
            !old(self).draining && old(self).entries@[idx as int].state == EntryState::Completed
                ==> (r matches Ok(v) && v@ == old(self).entries@[idx as int].value@)
                && final(self).entries@ == old(self).entries@
                && final(ctx).runs@ == old(ctx).runs@,
            r matches Ok(v) ==> final(self).entries@[idx as int].state == EntryState::Completed
                && final(self).entries@[idx as int].value@ == v@,
            !old(self).draining && chain_ends(
                old(self).entries@,
                old(ctx).edges@,
                old(self).entries@[idx as int].node,
                depth as nat,
            ) ==> r is Ok,
            !old(self).draining && r is Err ==> r == Err::<Vec<T>, TError>(TError::Cyclic),
            forall|p: Seq<TNode>|
                !old(self).draining && #[trigger] chain_cycles_by(old(self).entries@, old(ctx).edges@, p)
                    && p[0] == old(self).entries@[idx as int].node ==> r == Err::<Vec<T>, TError>(
                    TError::Cyclic,
                ),
            forall|p: Seq<TNode>|
                !old(self).draining && #[trigger] chain_fresh_by(old(self).entries@, old(ctx).edges@, p)
                    && p[0] == old(self).entries@[idx as int].node && p.len() <= depth + 1 ==> (r matches Ok(v)
                    && v@ == chain_value(old(self).entries@, p, old(ctx).id)) && final(ctx).runs@
                    == old(ctx).runs@ + chain_runs(old(self).entries@, p),
            !old(self).draining && old(self).entries@[idx as int].state == EntryState::NotStarted
                ==> final(ctx).runs@.len() > old(ctx).runs@.len()
                && final(ctx).runs@[old(ctx).runs@.len() as int] == old(self).entries@[idx as int].node
                && (r matches Ok(v) ==> run_result(
                final(self).entries@,
                old(self).entries@[idx as int].node,
                old(ctx).id,
                old(ctx).edges@,
                v@,
            ) && edges_are_requests(final(self).entries@, idx as int, old(ctx).edges@)),
            !old(self).draining && old(self).entries@[idx as int].state == EntryState::Dirty
                ==> (r matches Ok(v) ==> (v@ == old(self).entries@[idx as int].value@
                && final(self).entries@[idx as int].deps@ == old(self).entries@[idx as int].deps@
                && forall|k: int|
                0 <= k < old(self).entries@[idx as int].deps@.len()
                    ==> final(self).entries@[#[trigger] old(self).entries@[idx as int].deps@[k] as int].state
                    == EntryState::Completed && final(self).entries@[old(self).entries@[idx as int].deps@[k] as int].value@
                    == observed_of(old(self).entries@[idx as int])[k]) || (edges_are_requests(
                final(self).entries@,
                idx as int,
                old(ctx).edges@,
            ) && run_result(
                final(self).entries@,
                old(self).entries@[idx as int].node,
                old(ctx).id,
                old(ctx).edges@,
                v@,
            ))),
            r is Err && old(self).entries@[idx as int].state != EntryState::Completed
                && old(self).entries@[idx as int].state != EntryState::Running
                && !old(self).draining
                ==> final(self).entries@[idx as int].state == EntryState::NotStarted,
        decreases depth, 1usize,
    {
        if self.draining {
            return Err(TError::invalidated());
        }
        let state = self.entries[idx].state;
        proof {
            lemma_index_of(self.entries@, idx as int);
        }
        match state {
            EntryState::Completed => {
                proof {
                    assert forall|p: Seq<TNode>|
                        #[trigger] chain_fresh_by(self.entries@, ctx.edges@, p) && p[0] == self.entries@[idx as int].node
                            implies p.len() == 1 && chain_value(self.entries@, p, ctx.id) == self.entries@[idx as int].value@
                            && ctx.runs@ + chain_runs(self.entries@, p) == ctx.runs@ by {
                        if p.len() > 1 {
                            assert(fresh(self.entries@, p[0]));
                        }
                        assert(p.last() == p[0]);
                        assert(index_of(self.entries@, p[0]) == Some(idx as int));
                        assert(node_in_state(self.entries@, p[0], EntryState::Completed));
                        assert(chain_value(self.entries@, p, ctx.id) == self.entries@[idx as int].value@);
                        assert(chain_runs(self.entries@, p) =~= Seq::<TNode>::empty());
                        assert(ctx.runs@ + chain_runs(self.entries@, p) =~= ctx.runs@);
                    }
                }
                let res = copy_tokens(&self.entries[idx].value);
                proof {
                    assert forall|p: Seq<TNode>|
                        #[trigger] chain_fresh_by(old(self).entries@, old(ctx).edges@, p) && p[0] == old(
                            self,
                        ).entries@[idx as int].node implies res@ == chain_value(old(self).entries@, p, old(ctx).id)
                            && ctx.runs@ == old(ctx).runs@ + chain_runs(old(self).entries@, p) by {
                        assert(chain_fresh_by(self.entries@, ctx.edges@, p));
                    }
                }
                Ok(res)
            },
            EntryState::Running => {
                proof {
                    assert forall|p: Seq<TNode>|
                        #[trigger] chain_fresh_by(self.entries@, ctx.edges@, p) && p[0] == self.entries@[idx as int].node
                            implies false by {
                        assert(!node_in_state(self.entries@, p[0], EntryState::Running));
                    }
                }
                Err(TError::cyclic())
            },
            EntryState::NotStarted => {
                let node = self.entries[idx].node;
                self.replace_entry(
                    idx,
                    Entry {
                        node,
                        state: EntryState::Running,
                        value: Vec::new(),
                        deps: Vec::new(),
                        observed: Vec::new(),
                    },
                );
                proof {
                    if chain_ends(old(self).entries@, ctx.edges@, node, depth as nat) {
                        lemma_chain_step(old(self).entries@, self.entries@, ctx.edges@, idx as int, depth as nat);
                    }
                    assert forall|p: Seq<TNode>|
                        #[trigger] chain_cycles_by(old(self).entries@, ctx.edges@, p) && p[0] == node
                            implies chain_cycles_by(self.entries@, ctx.edges@, p.drop_first())
                            && dependency_in(ctx.edges@, node) == Some(p.drop_first()[0]) by {
                        lemma_cycle_step(old(self).entries@, self.entries@, ctx.edges@, idx as int, p);
                    }
                }
                let ghost running = self.entries@;
                let r = self.run_entry(idx, ctx, depth);
                proof {
                    assert forall|p: Seq<TNode>|
                        #[trigger] chain_fresh_by(old(self).entries@, old(ctx).edges@, p) && p[0] == node
                            && p.len() <= depth + 1 implies (r matches Ok(v) && v@ == chain_value(
                            old(self).entries@,
                            p,
                            old(ctx).id,
                        )) && ctx.runs@ == old(ctx).runs@ + chain_runs(old(self).entries@, p) by {
                        if p.len() > 1 {
                            lemma_fresh_step(old(self).entries@, running, old(ctx).edges@, idx as int, p, old(ctx).id);
                            let t = p.drop_first();
                            assert(t.last() == p.last());
                            assert(chain_runs(old(self).entries@, p) =~= seq![node] + chain_runs(old(self).entries@, t));
                            assert(old(ctx).runs@.push(node) + chain_runs(old(self).entries@, t)
                                =~= old(ctx).runs@ + (seq![node] + chain_runs(old(self).entries@, t)));
                        } else {
                            assert(p.last() == p[0]);
                            assert(index_of(old(self).entries@, node) == Some(idx as int));
                            assert(!node_in_state(old(self).entries@, p[0], EntryState::Completed));
                            assert(old(ctx).runs@ + chain_runs(old(self).entries@, p) =~= old(ctx).runs@.push(node));
                        }
                    }
                }
                r
            },
            EntryState::Dirty => {
                proof {
                    assert forall|p: Seq<TNode>|
                        #[trigger] chain_fresh_by(self.entries@, ctx.edges@, p) && p[0] == self.entries@[idx as int].node
                            implies false by {
                        assert(p.last() == p[p.len() - 1]);
                        if p.len() > 1 {
                            assert(fresh(self.entries@, p[0]));
                        }
                    }
                }
                let e = Entry {
                    node: self.entries[idx].node,
                    state: EntryState::Running,
                    value: copy_tokens(&self.entries[idx].value),
                    deps: copy_ids(&self.entries[idx].deps),
                    observed: copy_results(&self.entries[idx].observed),
                };
                self.replace_entry(idx, e);
                let ghost running = self.entries@;
                proof {
                    if chain_ends(old(self).entries@, ctx.edges@, running[idx as int].node, depth as nat) {
                        lemma_chain_step(old(self).entries@, running, ctx.edges@, idx as int, depth as nat);
                    }
                }
                if self.clean_entry(idx, ctx, depth) {
                    let e = Entry {
                        node: self.entries[idx].node,
                        state: EntryState::Completed,
                        value: copy_tokens(&self.entries[idx].value),
                        deps: copy_ids(&self.entries[idx].deps),
                        observed: copy_results(&self.entries[idx].observed),
                    };
                    self.replace_entry(idx, e);
                    Ok(copy_tokens(&self.entries[idx].value))
                } else {
                    proof {
                        if let Some(d) = dependency_in(ctx.edges@, running[idx as int].node) {
                            if depth > 0 && chain_ends(running, ctx.edges@, d, (depth - 1) as nat) {
                                lemma_chain_ends_grow(running, self.entries@, ctx.edges@, d, (depth - 1) as nat);
                            }
                        }
                    }
                    self.run_entry(idx, ctx, depth)
                }
            },
        }
    }

    /// Runs the node of entry `idx`, which is running and has no recorded dependencies:
    /// logs the run, requests the dependency that the context gives for the node, and
    /// completes with that dependency's tokens followed by the node's own token.
    fn run_entry(&mut self, idx: usize, ctx: &mut TContext, depth: usize) -> (r: Result<Vec<T>, TError>)
        requires
            old(self).wf(),
            !old(self).draining,
            idx < old(self).entries@.len(),
            old(self).entries@[idx as int].state == EntryState::Running,
        ensures
            final(self).wf(),
            final(self).draining == old(self).draining,
            entries_grow_but(old(self).entries@, final(self).entries@, idx as int),
            context_grows(*old(ctx), *final(ctx)),
            r matches Ok(v) ==> final(self).entries@[idx as int].state == EntryState::Completed
                && final(self).entries@[idx as int].value@ == v@,
            r matches Ok(v) ==> run_result(
                final(self).entries@,
                old(self).entries@[idx as int].node,
                old(ctx).id,
                old(ctx).edges@,
                v@,
            ),
            final(ctx).runs@.len() > old(ctx).runs@.len(),
            final(ctx).runs@[old(ctx).runs@.len() as int] == old(self).entries@[idx as int].node,
            r is Ok ==> edges_are_requests(final(self).entries@, idx as int, old(ctx).edges@),
            r is Err ==> final(self).entries@[idx as int].state == EntryState::NotStarted,
            r is Err ==> r == Err::<Vec<T>, TError>(TError::Cyclic),
            match dependency_in(old(ctx).edges@, old(self).entries@[idx as int].node) {
                None => true,
                Some(d) => depth > 0 && chain_ends(old(self).entries@, old(ctx).edges@, d, (depth - 1) as nat),
            } ==> r is Ok,
            forall|p: Seq<TNode>|
                #[trigger] chain_cycles_by(old(self).entries@, old(ctx).edges@, p) && dependency_in(
                    old(ctx).edges@,
                    old(self).entries@[idx as int].node,
                ) == Some(p[0]) ==> r == Err::<Vec<T>, TError>(TError::Cyclic),
            dependency_in(old(ctx).edges@, old(self).entries@[idx as int].node) is None ==> (r matches Ok(v)
                && v@ == seq![T(old(self).entries@[idx as int].node.0, old(ctx).id)]) && final(ctx).runs@
                == old(ctx).runs@.push(old(self).entries@[idx as int].node),
            forall|p: Seq<TNode>|
                #[trigger] chain_fresh_by(old(self).entries@, old(ctx).edges@, p) && dependency_in(
                    old(ctx).edges@,
                    old(self).entries@[idx as int].node,
                ) == Some(p[0]) && p.len() <= depth ==> (r matches Ok(v) && v@ == chain_value(
                    old(self).entries@,
                    p,
                    old(ctx).id,
                ).push(T(old(self).entries@[idx as int].node.0, old(ctx).id))) && final(ctx).runs@ == old(
                    ctx,
                ).runs@.push(old(self).entries@[idx as int].node) + chain_runs(old(self).entries@, p),
        decreases depth, 0usize,
    {
        let node = self.entries[idx].node;
        ctx.ran(node);
        let token = T(node.0, ctx.id());
        match ctx.dependency_of(node) {
            None => {
                let mut v: Vec<T> = Vec::new();
                v.push(token);
                let value = copy_tokens(&v);
                self.replace_entry(
                    idx,
                    Entry {
                        node,
                        state: EntryState::Completed,
                        value,
                        deps: Vec::new(),
                        observed: Vec::new(),
                    },
                );
                Ok(v)
            },
            Some(dep) => {
                if depth == 0 {
                    self.fail_entry(idx);
                    return Err(TError::cyclic());
                }
                let ghost before_add = self.entries@;
                let d = self.add_node(dep);
                proof {
                    assert(adds_fresh(before_add, self.entries@));
                    assert forall|p: Seq<TNode>| #[trigger] chain_cycles_by(before_add, ctx.edges@, p)
                        implies chain_cycles_by(self.entries@, ctx.edges@, p) by {
                        lemma_cycles_add(before_add, self.entries@, ctx.edges@, p);
                    }
                    assert forall|p: Seq<TNode>| #[trigger] chain_fresh_by(before_add, ctx.edges@, p)
                        implies chain_fresh_by(self.entries@, ctx.edges@, p) && chain_value(before_add, p, ctx.id)
                        == chain_value(self.entries@, p, ctx.id) && chain_runs(before_add, p) == chain_runs(
                        self.entries@,
                        p,
                    ) by {
                        lemma_fresh_add(before_add, self.entries@, ctx.edges@, p);
                        lemma_chain_value_same(before_add, self.entries@, p, ctx.id);
                    }
                    assert(entries_grow(before_add, self.entries@)) by {
                        if self.entries@.len() > before_add.len() {
                            assert forall|i: int| 0 <= i < before_add.len() implies #[trigger] self.entries@[i]
                                == before_add[i] by {
                                assert(self.entries@.drop_last()[i] == self.entries@[i]);
                            }
                        }
                    }
                    if chain_ends(before_add, ctx.edges@, dep, (depth - 1) as nat) {
                        lemma_chain_ends_grow(before_add, self.entries@, ctx.edges@, dep, (depth - 1) as nat);
                    }
                }
                match self.get(d, ctx, depth - 1) {
                    Ok(v) => {
                        let seen = copy_tokens(&v);
                        let mut value = v;
                        value.push(token);
                        let mut deps: Vec<usize> = Vec::new();
                        deps.push(d);
                        let mut observed: Vec<Vec<T>> = Vec::new();
                        observed.push(seen);
                        let ghost before = self.entries@;
                        self.replace_entry(
                            idx,
                            Entry { node, state: EntryState::Completed, value, deps, observed },
                        );
                        proof {
                            assert(self.entries@[d as int] == before[d as int]);
                            lemma_index_of(self.entries@, d as int);
                            assert(self.entries@[idx as int].deps@ =~= seq![d]);
                        }
                        Ok(copy_tokens(&self.entries[idx].value))
                    },
                    Err(e) => {
                        self.fail_entry(idx);
                        Err(e)
                    },
                }
            },
        }
    }

    /// Leaves entry `idx`, which is not completed, as `NotStarted` with no dependencies.
    fn fail_entry(&mut self, idx: usize)
        requires
            old(self).wf(),
            idx < old(self).entries@.len(),
            old(self).entries@[idx as int].state != EntryState::Completed,
        ensures
            final(self).wf(),
            final(self).draining == old(self).draining,
            final(self).entries@.len() == old(self).entries@.len(),
            final(self).entries@[idx as int].state == EntryState::NotStarted,
            final(self).entries@[idx as int].node == old(self).entries@[idx as int].node,
            forall|i: int|
                0 <= i < old(self).entries@.len() && i != idx ==> #[trigger] final(self).entries@[i]
                    == old(self).entries@[i],
    {
        let node = self.entries[idx].node;
        self.replace_entry(
            idx,
            Entry {
                node,
                state: EntryState::NotStarted,
                value: Vec::new(),
                deps: Vec::new(),
                observed: Vec::new(),
            },
        );
    }

    /// Revalidates entry `idx`, which is running with the data of a dirty entry: requests
    /// each recorded dependency in order and returns whether every one succeeded with the
    /// result observed before. Stops at the first that did not.
    fn clean_entry(&mut self, idx: usize, ctx: &mut TContext, depth: usize) -> (r: bool)
        requires
            old(self).wf(),
            !old(self).draining,
            idx < old(self).entries@.len(),
            old(self).entries@[idx as int].state == EntryState::Running,
        ensures
            final(self).wf(),
            final(self).draining == old(self).draining,
            entries_grow(old(self).entries@, final(self).entries@),
            context_grows(*old(ctx), *final(ctx)),
            r ==> forall|k: int|
                0 <= k < final(self).entries@[idx as int].deps@.len()
                    ==> final(self).entries@[#[trigger] final(self).entries@[idx as int].deps@[k] as int].state
                    == EntryState::Completed && final(self).entries@[final(self).entries@[idx as int].deps@[k] as int].value@
                    == observed_of(final(self).entries@[idx as int])[k],
        decreases depth, 0usize,
    {
        let n = self.entries[idx].deps.len();
        let ghost start = self.entries@;
        let ghost ctx0 = *ctx;
        let mut k: usize = 0;
        while k < n
            invariant
                self.wf(),
                !self.draining,
                self.draining == old(self).draining,
                start == old(self).entries@,
                entries_wf(start),
                ctx0 == *old(ctx),
                idx < start.len(),
                start[idx as int].state == EntryState::Running,
                entries_grow(start, self.entries@),
                context_grows(ctx0, *ctx),
                n == start[idx as int].deps@.len(),
                k <= n,
                forall|j: int|
                    0 <= j < k ==> self.entries@[#[trigger] start[idx as int].deps@[j] as int].state
                        == EntryState::Completed && self.entries@[start[idx as int].deps@[j] as int].value@
                        == observed_of(start[idx as int])[j],
            decreases n - k,
        {
            if depth == 0 {
                return false;
            }
            assert(same_entry(self.entries@[idx as int], start[idx as int]));
            let d = self.entries[idx].deps[k];
            match self.get(d, ctx, depth - 1) {
                Ok(v) => {
                    proof {
                        assert(same_entry(self.entries@[idx as int], start[idx as int]));
                        assert(observed_of(self.entries@[idx as int])[k as int]
                            == self.entries@[idx as int].observed@[k as int]@);
                    }
                    if !same_tokens(&v, &self.entries[idx].observed[k]) {
                        return false;
                    }
                    proof {
                        assert(observed_of(start[idx as int])[k as int] == start[idx as int].observed@[k as int]@);
                    }
                },
                Err(_) => {
                    return false;
                },
            }
            k = k + 1;
        }
        proof {
            assert(same_entry(self.entries@[idx as int], start[idx as int]));
        }
        true
    }
}

} // verus!
