use vstd::prelude::*;
use vstd::seq_lib::seq_to_set_is_finite;

verus! {

/// A token: the id of the node that produced it and the id of the context it ran in.
#[derive(Clone, Copy, Debug, PartialEq, Eq, Structural)]
pub struct T(pub usize, pub usize);

/// A node that builds a list of tokens by requesting another node and appending its own token.
#[derive(Clone, Copy, Debug, PartialEq, Eq, Hash, Structural)]
pub struct TNode(pub usize);

/// Engine-originated failures.
#[derive(Clone, Copy, Debug, PartialEq, Eq, Structural)]
pub enum TError {
    Cyclic,
    Invalidated,
}

/// Why an output list was rejected by `TNode::validate`.
#[derive(Clone, Copy, Debug, PartialEq, Eq, Structural)]
pub enum ValidationError {
    NodeIdsUnordered,
    ContextIdsUnordered,
}

/// Node ids are exactly 0, 1, 2, ... from left to right.
pub open spec fn node_ids_ascending(s: Seq<T>) -> bool {
    forall|i: int| 0 <= i < s.len() ==> #[trigger] s[i].0 == i
}

/// Context ids never decrease from left to right.
pub open spec fn context_ids_ordered(s: Seq<T>) -> bool {
    forall|i: int, j: int| 0 <= i <= j < s.len() ==> s[i].1 <= s[j].1
}

/// The context ids of a token list.
pub open spec fn context_ids(s: Seq<T>) -> Seq<usize> {
    s.map_values(|t: T| t.1)
}

/// The number of distinct context ids in a token list.
pub open spec fn distinct_contexts(s: Seq<T>) -> nat {
    context_ids(s).to_set().len()
}

impl TError {
    pub fn invalidated() -> (r: TError)
        ensures
            r == TError::Invalidated,
    {
        TError::Invalidated
    }

    pub fn cyclic() -> (r: TError)
        ensures
            r == TError::Cyclic,
    {
        TError::Cyclic
    }
}

impl TNode {
    /// Whether results of this node may be reused until invalidated.
    pub fn cacheable(&self) -> (r: bool)
        ensures
            r,
    {
        true
    }

    /// Checks an output list: node ids must run 0, 1, 2, ... and context ids must never
    /// decrease. On success returns the number of distinct context ids.
    pub fn validate(output: &Vec<T>) -> (r: Result<usize, ValidationError>)
        ensures
            !node_ids_ascending(output@) ==> r == Err::<usize, ValidationError>(
                ValidationError::NodeIdsUnordered,
            ),
            node_ids_ascending(output@) && !context_ids_ordered(output@) ==> r == Err::<
                usize,
                ValidationError,
            >(ValidationError::ContextIdsUnordered),
            node_ids_ascending(output@) && context_ids_ordered(output@) ==> r == Ok::<
                usize,
                ValidationError,
            >(distinct_contexts(output@) as usize),
    {
        let n = output.len();
        let mut i: usize = 0;
        while i < n
            invariant
                n == output@.len(),
                i <= n,
                forall|k: int| 0 <= k < i ==> #[trigger] output@[k].0 == k,
            decreases n - i,
        {
            if output[i].0 != i {
                return Err(ValidationError::NodeIdsUnordered);
            }
            i = i + 1;
        }
        let ghost ids = context_ids(output@);
        proof {
            assert(ids.take(0).to_set() =~= Set::<usize>::empty());
        }
        let mut count: usize = 0;
        let mut previous: usize = 0;
        let mut j: usize = 0;
        while j < n
            invariant
                n == output@.len(),
                ids == context_ids(output@),
                ids.len() == n,
                j <= n,
                node_ids_ascending(output@),
                forall|a: int, b: int| 0 <= a <= b < j ==> output@[a].1 <= output@[b].1,
                forall|a: int| 0 <= a < j ==> output@[a].1 <= previous,
                j > 0 ==> previous == output@[j - 1].1,
                j == 0 ==> previous == 0,
                ids.take(j as int).to_set().len() == count,
                count <= j,
            decreases n - j,
        {
            let c = output[j].1;
            if previous > c {
                proof {
                    assert(!context_ids_ordered(output@)) by {
                        assert(output@[j - 1].1 > output@[j as int].1);
                    }
                }
                return Err(ValidationError::ContextIdsUnordered);
            }
            proof {
                let pre = ids.take(j as int);
                let post = ids.take(j + 1);
                assert(post == pre.push(c));
                lemma_push_to_set(pre, c);
                if j > 0 && previous == c {
                    assert(pre[j - 1] == c);
                    assert(pre.to_set().contains(c));
                    assert(post.to_set() =~= pre.to_set());
                } else {
                    assert forall|a: int| 0 <= a < pre.len() implies pre[a] != c by {
                        assert(pre[a] == output@[a].1);
                    }
                    assert(!pre.to_set().contains(c)) by {
                        if pre.to_set().contains(c) {
                            let a = choose|a: int| 0 <= a < pre.len() && pre[a] == c;
                        }
                    }
                }
            }
            if j == 0 || previous != c {
                count = count + 1;
            }
            previous = c;
            j = j + 1;
        }
        proof {
            assert(ids.take(n as int) =~= ids);
        }
        Ok(count)
    }
}

proof fn lemma_push_to_set(s: Seq<usize>, x: usize)
    ensures
        s.push(x).to_set() == s.to_set().insert(x),
        s.to_set().contains(x) ==> s.push(x).to_set().len() == s.to_set().len(),
        !s.to_set().contains(x) ==> s.push(x).to_set().len() == s.to_set().len() + 1,
{
    let p = s.push(x);
    assert forall|y: usize| p.to_set().contains(y) <==> s.to_set().insert(x).contains(y) by {
        if p.to_set().contains(y) {
            let k = choose|k: int| 0 <= k < p.len() && p[k] == y;
            if k < s.len() {
                assert(s[k] == y);
            }
        }
        if s.to_set().contains(y) {
            let k = choose|k: int| 0 <= k < s.len() && s[k] == y;
            assert(p[k] == y);
        }
        if y == x {
            assert(p[s.len() as int] == x);
        }
    }
    assert(p.to_set() =~= s.to_set().insert(x));
    seq_to_set_is_finite(s);
}

/// A context that drives what each node depends on and keeps a log of the nodes that ran.
///
/// `edges` maps a node to an optional dependency: a node listed with `None` has no
/// dependency, a node listed with `Some(d)` depends on `d`, and an unlisted node `TNode(n)`
/// depends on `TNode(n - 1)` when `n > 0`. The first listing of a node wins.
pub struct TContext {
    pub id: usize,
    pub edges: Vec<(TNode, Option<TNode>)>,
    pub runs: Vec<TNode>,
}

/// The listing of `node` in `edges`, if any (the first one).
pub open spec fn listed(edges: Seq<(TNode, Option<TNode>)>, node: TNode) -> Option<Option<TNode>>
    decreases edges.len(),
{
    if edges.len() == 0 {
        None
    } else if edges[0].0 == node {
        Some(edges[0].1)
    } else {
        listed(edges.drop_first(), node)
    }
}

/// The dependency that `node` declares under the given edges.
pub open spec fn dependency_in(edges: Seq<(TNode, Option<TNode>)>, node: TNode) -> Option<TNode> {
    match listed(edges, node) {
        Some(d) => d,
        None => if node.0 > 0 {
            Some(TNode((node.0 - 1) as usize))
        } else {
            None
        },
    }
}

impl TContext {
    pub fn new(id: usize) -> (r: TContext)
        ensures
            r.id == id,
            r.edges@.len() == 0,
            r.runs@.len() == 0,
    {
        TContext { id, edges: Vec::new(), runs: Vec::new() }
    }

    pub fn new_with_dependencies(id: usize, edges: Vec<(TNode, Option<TNode>)>) -> (r: TContext)
        ensures
            r.id == id,
            r.edges@ == edges@,
            r.runs@.len() == 0,
    {
        TContext { id, edges, runs: Vec::new() }
    }

    pub fn id(&self) -> (r: usize)
        ensures
            r == self.id,
    {
        self.id
    }

    /// Records that `node` ran in this context.
    pub fn ran(&mut self, node: TNode)
        ensures
            final(self).runs@ == old(self).runs@.push(node),
            final(self).id == old(self).id,
            final(self).edges@ == old(self).edges@,
    {
        self.runs.push(node);
    }

    /// The nodes that ran in this context, in order.
    pub fn runs(&self) -> (r: Vec<TNode>)
        ensures
            r@ == self.runs@,
    {
        let mut r: Vec<TNode> = Vec::new();
        let mut i: usize = 0;
        while i < self.runs.len()
            invariant
                i <= self.runs@.len(),
                r@ == self.runs@.take(i as int),
            decreases self.runs@.len() - i,
        {
            r.push(self.runs[i]);
            i = i + 1;
            proof {
                assert(r@ =~= self.runs@.take(i as int));
            }
        }
        proof {
            assert(r@ =~= self.runs@);
        }
        r
    }

    /// The node that `node` requests when it runs in this context, if any.
    pub fn dependency_of(&self, node: TNode) -> (r: Option<TNode>)
        ensures
            r == dependency_in(self.edges@, node),
    {
        proof {
            assert(self.edges@.skip(0) =~= self.edges@);
        }
        let mut i: usize = 0;
        while i < self.edges.len()
            invariant
                i <= self.edges@.len(),
                listed(self.edges@, node) == listed(self.edges@.skip(i as int), node),
            decreases self.edges@.len() - i,
        {
            proof {
                let rest = self.edges@.skip(i as int);
                assert(rest.drop_first() =~= self.edges@.skip(i + 1));
                assert(rest[0] == self.edges@[i as int]);
            }
            if self.edges[i].0 == node {
                return self.edges[i].1;
            }
            i = i + 1;
        }
        if node.0 > 0 {
            Some(TNode(node.0 - 1))
        } else {
            None
        }
    }
}

} // verus!
