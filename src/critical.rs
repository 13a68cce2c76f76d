use vstd::prelude::*;
use crate::node::TNode;
use crate::graph::{Entry, Graph, entries_shaped};

verus! {

/// The largest duration that a single entry may have.
pub const MAX_DURATION: u64 = 0xFFFF_FFFF;

/// The longest weighted chain that starts at entry `i` and follows edges for at most
/// `fuel` steps: the entry's own duration plus the best of its dependencies.
pub open spec fn finish(es: Seq<Entry>, dur: Seq<u64>, i: int, fuel: nat) -> int
    decreases fuel, 1nat, 0nat,
{
    dur[i] + if fuel == 0 {
        0
    } else {
        best_dep(es, dur, i, es[i].deps@.len(), fuel)
    }
}

/// The largest `finish` among the first `k` dependencies of entry `i`, with one step of
/// `fuel` spent (0 when there are none).
pub open spec fn best_dep(es: Seq<Entry>, dur: Seq<u64>, i: int, k: nat, fuel: nat) -> int
    decreases fuel, 0nat, k,
{
    if k == 0 || fuel == 0 {
        0
    } else {
        let a = best_dep(es, dur, i, (k - 1) as nat, fuel);
        let b = finish(es, dur, es[i].deps@[k - 1] as int, (fuel - 1) as nat);
        if b > a {
            b
        } else {
            a
        }
    }
}

/// The sum of the durations of the entries on `p`.
pub open spec fn path_weight(dur: Seq<u64>, p: Seq<usize>) -> int
    decreases p.len(),
{
    if p.len() == 0 {
        0
    } else {
        dur[p[0] as int] + path_weight(dur, p.drop_first())
    }
}

/// `p` is empty or a chain of entry ids, starting at `i`, in which each entry depends
/// directly on the next.
pub open spec fn chain_from(es: Seq<Entry>, p: Seq<usize>, i: int) -> bool {
    &&& p.len() > 0 ==> p[0] == i
    &&& forall|k: int| 0 <= k < p.len() ==> #[trigger] p[k] < es.len()
    &&& forall|k: int| 0 <= k < p.len() - 1 ==> es[p[k] as int].deps@.contains(#[trigger] p[k + 1])
}

/// The best `finish` among the roots in `roots[..k]` that have an entry, with `fuel`
/// steps, or `None` when none of them has one.
pub open spec fn best_root(es: Seq<Entry>, dur: Seq<u64>, roots: Seq<TNode>, k: nat, fuel: nat) -> Option<int>
    decreases k,
{
    if k == 0 {
        None
    } else {
        let prev = best_root(es, dur, roots, (k - 1) as nat, fuel);
        if exists|i: int| 0 <= i < es.len() && es[i].node == roots[k - 1] {
            let i = choose|i: int| 0 <= i < es.len() && es[i].node == roots[k - 1];
            let f = finish(es, dur, i, fuel);
            match prev {
                Some(b) => if f > b {
                    Some(f)
                } else {
                    Some(b)
                },
                None => Some(f),
            }
        } else {
            prev
        }
    }
}

proof fn lemma_finish_bound(es: Seq<Entry>, dur: Seq<u64>, i: int, fuel: nat)
    requires
        entries_shaped(es),
        dur.len() == es.len(),
        0 <= i < es.len(),
        forall|j: int| 0 <= j < dur.len() ==> #[trigger] dur[j] <= MAX_DURATION,
    ensures
        0 <= finish(es, dur, i, fuel) <= (fuel + 1) * MAX_DURATION,
    decreases fuel, 1nat, 0nat,
{
    if fuel > 0 {
        lemma_best_bound(es, dur, i, es[i].deps@.len(), fuel);
    }
    assert((fuel + 1) * MAX_DURATION == fuel * MAX_DURATION + MAX_DURATION) by (nonlinear_arith);
    assert(fuel * MAX_DURATION >= 0) by (nonlinear_arith);
}

proof fn lemma_best_bound(es: Seq<Entry>, dur: Seq<u64>, i: int, k: nat, fuel: nat)
    requires
        entries_shaped(es),
        dur.len() == es.len(),
        0 <= i < es.len(),
        k <= es[i].deps@.len(),
        forall|j: int| 0 <= j < dur.len() ==> #[trigger] dur[j] <= MAX_DURATION,
    ensures
        0 <= best_dep(es, dur, i, k, fuel) <= fuel * MAX_DURATION,
    decreases fuel, 0nat, k,
{
    if k > 0 && fuel > 0 {
        lemma_best_bound(es, dur, i, (k - 1) as nat, fuel);
        lemma_finish_bound(es, dur, es[i].deps@[k - 1] as int, (fuel - 1) as nat);
        assert(((fuel - 1) + 1) * MAX_DURATION == fuel * MAX_DURATION);
    }
    assert(fuel * MAX_DURATION >= 0) by (nonlinear_arith);
}

impl Graph {
    /// The critical path below `roots`: the heaviest chain of entries, under `durations`
    /// (one per entry, by entry id), that starts at the entry of a root and follows edges.
    ///
    /// Returns its total duration and its nodes from the root down. Roots without an entry
    /// are passed over; among chains of equal weight the first root, and below it the first
    /// edge, wins. A chain visits at most as many entries as the graph has, which in a graph
    /// without cycles bounds every chain.
    pub fn critical_path(&self, roots: &Vec<TNode>, durations: &Vec<u64>) -> (r: (u64, Vec<TNode>))
        requires
            self.wf(),
            durations@.len() == self.entries@.len(),
            self.entries@.len() < 0xFFFF_FFFF,
            forall|j: int| 0 <= j < durations@.len() ==> #[trigger] durations@[j] <= MAX_DURATION,
        ensures
            best_root(self.entries@, durations@, roots@, roots@.len(), self.entries@.len()) is None
                ==> r.0 == 0 && r.1@.len() == 0,
            best_root(self.entries@, durations@, roots@, roots@.len(), self.entries@.len()) matches Some(b)
                ==> r.0 == b && exists|p: Seq<usize>|
                #![trigger p.len()]
                p.len() > 0 && chain_from(self.entries@, p, p[0] as int) && path_weight(durations@, p)
                    == b && roots@.contains(self.entries@[p[0] as int].node) && r.1@.len() == p.len()
                    && forall|k: int| 0 <= k < p.len() ==> #[trigger] r.1@[k] == self.entries@[p[k] as int].node,
    {
        let ghost es = self.entries@;
        let n = self.entries.len();
        let mut found = false;
        let mut total: u64 = 0;
        let mut best_path: Vec<usize> = Vec::new();
        let mut k: usize = 0;
        while k < roots.len()
            invariant
                es == self.entries@,
                self.wf(),
                n == es.len(),
                n < 0xFFFF_FFFF,
                durations@.len() == n,
                forall|j: int| 0 <= j < durations@.len() ==> #[trigger] durations@[j] <= MAX_DURATION,
                k <= roots@.len(),
                best_root(es, durations@, roots@, k as nat, n as nat) == if found {
                    Some(total as int)
                } else {
                    None
                },
                !found ==> total == 0 && best_path@.len() == 0,
                found ==> best_path@.len() > 0 && chain_from(es, best_path@, best_path@[0] as int)
                    && path_weight(durations@, best_path@) == total
                    && roots@.contains(es[best_path@[0] as int].node),
            decreases roots@.len() - k,
        {
            match self.find(roots[k]) {
                Some(i) => {
                    let (f, p) = self.longest(durations, i, n);
                    if !found || f > total {
                        found = true;
                        total = f;
                        best_path = p;
                    }
                    proof {
                        assert(es[i as int].node == roots@[k as int]);
                    }
                },
                None => {},
            }
            k = k + 1;
        }
        let mut nodes: Vec<TNode> = Vec::new();
        let mut j: usize = 0;
        while j < best_path.len()
            invariant
                es == self.entries@,
                found ==> chain_from(es, best_path@, best_path@[0] as int),
                !found ==> best_path@.len() == 0,
                j <= best_path@.len(),
                nodes@.len() == j,
                forall|a: int| 0 <= a < j ==> #[trigger] nodes@[a] == es[best_path@[a] as int].node,
            decreases best_path@.len() - j,
        {
            nodes.push(self.entries[best_path[j]].node);
            j = j + 1;
        }
        proof {
            if found {
                let p = best_path@;
                assert(p.len() > 0);
            }
        }
        (total, nodes)
    }

    /// The longest chain from entry `i` within `fuel` steps, and that chain.
    fn longest(&self, dur: &Vec<u64>, i: usize, fuel: usize) -> (r: (u64, Vec<usize>))
        requires
            entries_shaped(self.entries@),
            dur@.len() == self.entries@.len(),
            i < self.entries@.len(),
            fuel < 0xFFFF_FFFF,
            forall|j: int| 0 <= j < dur@.len() ==> #[trigger] dur@[j] <= MAX_DURATION,
        ensures
            r.0 == finish(self.entries@, dur@, i as int, fuel as nat),
            r.1@.len() > 0,
            chain_from(self.entries@, r.1@, i as int),
            path_weight(dur@, r.1@) == r.0,
        decreases fuel,
    {
        let ghost es = self.entries@;
        let mut best: u64 = 0;
        let mut best_path: Vec<usize> = Vec::new();
        if fuel > 0 {
            let n = self.entries[i].deps.len();
            let mut k: usize = 0;
            while k < n
                invariant
                    es == self.entries@,
                    entries_shaped(es),
                    dur@.len() == es.len(),
                    i < es.len(),
                    0 < fuel < 0xFFFF_FFFF,
                    forall|j: int| 0 <= j < dur@.len() ==> #[trigger] dur@[j] <= MAX_DURATION,
                    n == es[i as int].deps@.len(),
                    k <= n,
                    best == best_dep(es, dur@, i as int, k as nat, fuel as nat),
                    best_path@.len() > 0 ==> es[i as int].deps@.contains(best_path@[0]),
                    best_path@.len() > 0 ==> chain_from(es, best_path@, best_path@[0] as int),
                    path_weight(dur@, best_path@) == best,
                decreases n - k,
            {
                let d = self.entries[i].deps[k];
                let (f, p) = self.longest(dur, d, fuel - 1);
                if f > best {
                    best = f;
                    best_path = p;
                    proof {
                        assert(es[i as int].deps@[k as int] == d);
                    }
                }
                k = k + 1;
            }
            proof {
                lemma_best_bound(es, dur@, i as int, n as nat, fuel as nat);
                assert(fuel * MAX_DURATION <= 0xFFFF_FFFE * MAX_DURATION) by (nonlinear_arith)
                    requires fuel < 0xFFFF_FFFF;
            }
        }
        let mut path: Vec<usize> = Vec::new();
        path.push(i);
        let mut k: usize = 0;
        while k < best_path.len()
            invariant
                path@.len() == k + 1,
                path@[0] == i,
                k <= best_path@.len(),
                forall|j: int| 0 <= j < k ==> #[trigger] path@[j + 1] == best_path@[j],
            decreases best_path@.len() - k,
        {
            path.push(best_path[k]);
            k = k + 1;
        }
        proof {
            assert(path@.drop_first() =~= best_path@);
            assert(path_weight(dur@, path@) == dur@[i as int] + path_weight(dur@, best_path@));
            assert forall|j: int| 0 <= j < path@.len() implies #[trigger] path@[j] < es.len() by {
                if j > 0 {
                    assert(path@[j] == best_path@[j - 1]);
                }
            }
            assert forall|j: int| 0 <= j < path@.len() - 1 implies es[path@[j] as int].deps@.contains(
                #[trigger] path@[j + 1],
            ) by {
                assert(path@[j + 1] == best_path@[j]);
                if j > 0 {
                    assert(path@[j] == best_path@[j - 1]);
                }
            }
        }
        (dur[i] + best, path)
    }
}

} // verus!
