use graph::critical::MAX_DURATION;
use graph::graph::{AlreadyInThatState, EntryState, Graph, InvalidationResult};
use graph::node::{TContext, TError, TNode, ValidationError, T};

#[test]
fn create() {
    let mut graph = Graph::new();
    let mut context = TContext::new(0);
    assert_eq!(
        graph.create(TNode(2), &mut context),
        Ok(vec![T(0, 0), T(1, 0), T(2, 0)])
    );
}

#[test]
fn invalidate_and_clean() {
    let mut graph = Graph::new();
    let mut context = TContext::new(0);

    // Create three nodes.
    assert_eq!(
        graph.create(TNode(2), &mut context),
        Ok(vec![T(0, 0), T(1, 0), T(2, 0)])
    );
    assert_eq!(context.runs(), vec![TNode(2), TNode(1), TNode(0)]);

    // Clear the middle node, which dirties the upper node.
    assert_eq!(
        graph.invalidate_from_roots(|TNode(n)| n == 1),
        InvalidationResult {
            cleared: 1,
            dirtied: 1
        }
    );

    // The cleared node re-runs, and the upper node is cleaned without re-running.
    assert_eq!(
        graph.create(TNode(2), &mut context),
        Ok(vec![T(0, 0), T(1, 0), T(2, 0)])
    );
    assert_eq!(
        context.runs(),
        vec![TNode(2), TNode(1), TNode(0), TNode(1)]
    );
}

#[test]
fn invalidate_and_rerun() {
    let mut graph = Graph::new();
    let mut context0 = TContext::new(0);

    assert_eq!(
        graph.create(TNode(2), &mut context0),
        Ok(vec![T(0, 0), T(1, 0), T(2, 0)])
    );
    assert_eq!(context0.runs(), vec![TNode(2), TNode(1), TNode(0)]);

    assert_eq!(
        graph.invalidate_from_roots(|TNode(n)| n == 1),
        InvalidationResult {
            cleared: 1,
            dirtied: 1
        }
    );

    // A new context changes the middle node's value, so the upper node reruns too.
    let mut context1 = TContext::new(1);
    assert_eq!(
        graph.create(TNode(2), &mut context1),
        Ok(vec![T(0, 0), T(1, 1), T(2, 1)])
    );
    assert_eq!(context1.runs(), vec![TNode(1), TNode(2)]);
}

#[test]
fn invalidate_with_changed_dependencies() {
    let mut graph = Graph::new();
    let mut context = TContext::new(0);

    assert_eq!(
        graph.create(TNode(2), &mut context),
        Ok(vec![T(0, 0), T(1, 0), T(2, 0)])
    );

    assert_eq!(
        graph.invalidate_from_roots(|TNode(n)| n == 1),
        InvalidationResult {
            cleared: 1,
            dirtied: 1
        }
    );

    // A context that truncates execution at the middle node.
    let mut context = TContext::new_with_dependencies(0, vec![(TNode(1), None)]);
    assert_eq!(
        graph.create(TNode(2), &mut context),
        Ok(vec![T(1, 0), T(2, 0)])
    );

    // Clearing the bottom node no longer affects the middle and upper nodes.
    assert_eq!(
        graph.invalidate_from_roots(|TNode(n)| n == 0),
        InvalidationResult {
            cleared: 1,
            dirtied: 0,
        }
    );
}

#[test]
fn drain_and_resume() {
    let mut graph = Graph::new();
    let mut context = TContext::new(0);

    graph
        .mark_draining(true)
        .expect("Should not already be draining.");

    // A request while draining is interrupted.
    assert_eq!(
        graph.create(TNode(2), &mut context),
        Err(TError::Invalidated),
    );

    // After draining ends the failure has not been stored.
    graph
        .mark_draining(false)
        .expect("Should already be draining.");
    assert_eq!(
        graph.create(TNode(2), &mut context),
        Ok(vec![T(0, 0), T(1, 0), T(2, 0)])
    );
}

#[test]
fn cyclic_failure() {
    let mut graph = Graph::new();
    let top = TNode(2);
    // The bottom node requests the top one.
    let mut context = TContext::new_with_dependencies(0, vec![(TNode(0), Some(top))]);

    assert_eq!(graph.create(TNode(2), &mut context), Err(TError::Cyclic));
}

#[test]
fn cyclic_dirtying() {
    let mut graph = Graph::new();
    let initial_top = TNode(2);
    let initial_bot = TNode(0);

    let mut context_down = TContext::new(0);
    assert_eq!(
        graph.create(initial_top, &mut context_down),
        Ok(vec![T(0, 0), T(1, 0), T(2, 0)])
    );

    // Clear the bottom node, then clean it with a context that reverses the path.
    graph.invalidate_from_roots(|n| n == initial_bot);
    let mut context_up = TContext::new_with_dependencies(
        1,
        vec![(TNode(1), None), (TNode(0), Some(TNode(1)))],
    );

    let res = graph.create(initial_bot, &mut context_up);
    assert_eq!(res, Ok(vec![T(1, 1), T(0, 1)]));

    let res = graph.create(initial_top, &mut context_up);
    assert_eq!(res, Ok(vec![T(1, 1), T(2, 1)]));
}

fn critical_graph() -> (Graph, Vec<u64>, Vec<&'static str>) {
    let nodes = [
        ("download jvm", 10),
        ("download a", 1),
        ("download b", 2),
        ("download c", 3),
        ("compile a", 3),
        ("compile b", 20),
        ("compile c", 5),
    ];
    let deps = [
        ("download jvm", "compile a"),
        ("download jvm", "compile b"),
        ("download jvm", "compile c"),
        ("download a", "compile a"),
        ("download b", "compile b"),
        ("download c", "compile c"),
        ("compile a", "compile c"),
        ("compile b", "compile c"),
    ];
    let position = |label: &str| nodes.iter().position(|(k, _)| *k == label).unwrap();
    let mut graph = Graph::new();
    let mut durations = Vec::new();
    for (i, (_, d)) in nodes.iter().enumerate() {
        assert_eq!(graph.add_node(TNode(i)), i);
        durations.push(*d);
    }
    for (src, dst) in &deps {
        let src = graph.find(TNode(position(src))).unwrap();
        let dst = graph.find(TNode(position(dst))).unwrap();
        assert_eq!(graph.add_edge(src, dst), Ok(()));
    }
    let labels = nodes.iter().map(|(k, _)| *k).collect();
    (graph, durations, labels)
}

#[test]
fn critical_path() {
    let (graph, durations, labels) = critical_graph();
    let tnode = |label: &str| TNode(labels.iter().position(|k| *k == label).unwrap());
    let label_of = |n: &TNode| labels[n.0];
    {
        // The roots are all the sources, so they cover the entire graph.
        let roots = ["download jvm", "download a", "download b", "download c"]
            .iter()
            .map(|n| tnode(n))
            .collect::<Vec<_>>();
        let (total, path) = graph.critical_path(&roots, &durations);
        assert_eq!(total, 35);
        let path = path.iter().map(label_of).collect::<Vec<_>>();
        assert_eq!(path, vec!["download jvm", "compile b", "compile c"]);
    }
    {
        // The roots leave "download jvm" and "download a" out.
        let roots = ["download b", "download c"]
            .iter()
            .map(|n| tnode(n))
            .collect::<Vec<_>>();
        let (total, path) = graph.critical_path(&roots, &durations);
        assert_eq!(total, 27);
        let path = path.iter().map(label_of).collect::<Vec<_>>();
        assert_eq!(path, vec!["download b", "compile b", "compile c"]);
    }
}

#[test]
fn critical_path_without_roots_is_empty() {
    let (graph, durations, _) = critical_graph();
    assert_eq!(graph.critical_path(&vec![], &durations), (0, vec![]));
    assert_eq!(graph.critical_path(&vec![TNode(99)], &durations), (0, vec![]));
}

#[test]
fn critical_path_single_leaf() {
    let (graph, durations, _) = critical_graph();
    assert!(durations.iter().all(|d| *d <= MAX_DURATION));
    assert_eq!(
        graph.critical_path(&vec![TNode(6)], &durations),
        (5, vec![TNode(6)])
    );
}

#[test]
fn add_edge_refusals() {
    let mut graph = Graph::new();
    let a = graph.add_node(TNode(0));
    assert_eq!(graph.add_edge(a, a), Err(TError::Cyclic));
    let mut context = TContext::new(0);
    assert_eq!(graph.create(TNode(0), &mut context), Ok(vec![T(0, 0)]));
    let b = graph.add_node(TNode(5));
    assert_eq!(graph.add_edge(a, b), Err(TError::Cyclic));
    assert_eq!(graph.entries[a].deps.len(), 0);
}

#[test]
fn add_edge_refuses_cycles() {
    let mut graph = Graph::new();
    let a = graph.add_node(TNode(0));
    let b = graph.add_node(TNode(1));
    let c = graph.add_node(TNode(2));
    assert_eq!(graph.add_edge(a, b), Ok(()));
    assert_eq!(graph.add_edge(b, c), Ok(()));
    assert_eq!(graph.add_edge(c, a), Err(TError::Cyclic));
    assert_eq!(graph.add_edge(a, c), Ok(()));
    assert!(graph.reachable(a, c));
    assert!(!graph.reachable(c, a));
    assert!(graph.reachable(b, b));
    assert_eq!(graph.entries[c].deps.len(), 0);
}

#[test]
fn add_node_is_idempotent() {
    let mut graph = Graph::new();
    assert_eq!(graph.add_node(TNode(3)), 0);
    assert_eq!(graph.add_node(TNode(4)), 1);
    assert_eq!(graph.add_node(TNode(3)), 0);
    assert_eq!(graph.entries.len(), 2);
    assert_eq!(graph.find(TNode(4)), Some(1));
    assert_eq!(graph.find(TNode(7)), None);
}

#[test]
fn completed_result_is_reused_without_running() {
    let mut graph = Graph::new();
    let mut context = TContext::new(0);
    let first = graph.create(TNode(3), &mut context);
    assert_eq!(context.runs().len(), 4);
    let mut other = TContext::new(7);
    assert_eq!(graph.create(TNode(3), &mut other), first);
    assert_eq!(graph.create(TNode(2), &mut other), Ok(vec![T(0, 0), T(1, 0), T(2, 0)]));
    assert_eq!(other.runs(), vec![]);
}

#[test]
fn invalidation_states() {
    let mut graph = Graph::new();
    let mut context = TContext::new(0);
    graph.create(TNode(3), &mut context).unwrap();
    let result = graph.invalidate_from_roots(|TNode(n)| n == 0);
    assert_eq!(result, InvalidationResult { cleared: 1, dirtied: 3 });
    let state = |g: &Graph, n: usize| g.entries[g.find(TNode(n)).unwrap()].state;
    assert_eq!(state(&graph, 0), EntryState::NotStarted);
    assert_eq!(state(&graph, 1), EntryState::Dirty);
    assert_eq!(state(&graph, 2), EntryState::Dirty);
    assert_eq!(state(&graph, 3), EntryState::Dirty);
    // Dirty entries are not dirtied again.
    let again = graph.invalidate_from_roots(|TNode(n)| n == 0);
    assert_eq!(again, InvalidationResult { cleared: 1, dirtied: 0 });
    // Matching nothing changes nothing.
    assert_eq!(
        graph.invalidate_from_roots(|_| false),
        InvalidationResult { cleared: 0, dirtied: 0 }
    );
}

#[test]
fn drain_twice_is_refused() {
    let mut graph = Graph::new();
    assert_eq!(graph.mark_draining(false), Err(AlreadyInThatState));
    assert_eq!(graph.mark_draining(true), Ok(()));
    assert_eq!(graph.mark_draining(true), Err(AlreadyInThatState));
    assert_eq!(graph.mark_draining(false), Ok(()));
}

#[test]
fn drain_round_trip_keeps_results() {
    let mut graph = Graph::new();
    let mut context = TContext::new(0);
    graph.create(TNode(2), &mut context).unwrap();
    graph.mark_draining(true).unwrap();
    graph.mark_draining(false).unwrap();
    let mut later = TContext::new(4);
    assert_eq!(
        graph.create(TNode(2), &mut later),
        Ok(vec![T(0, 0), T(1, 0), T(2, 0)])
    );
    assert_eq!(later.runs(), vec![]);
}

#[test]
fn completed_entry_edges_are_its_requests() {
    let mut graph = Graph::new();
    let mut context = TContext::new_with_dependencies(0, vec![(TNode(5), Some(TNode(1)))]);
    assert_eq!(
        graph.create(TNode(5), &mut context),
        Ok(vec![T(0, 0), T(1, 0), T(5, 0)])
    );
    let five = graph.find(TNode(5)).unwrap();
    let one = graph.find(TNode(1)).unwrap();
    assert_eq!(graph.entries[five].deps, vec![one]);
    let zero = graph.find(TNode(0)).unwrap();
    assert_eq!(graph.entries[zero].deps, Vec::<usize>::new());
}

#[test]
fn validate_counts_contexts() {
    assert_eq!(TNode::validate(&vec![T(0, 0), T(1, 1), T(2, 2), T(3, 3)]), Ok(4));
    assert_eq!(TNode::validate(&vec![T(0, 0), T(1, 0), T(2, 1), T(3, 1)]), Ok(2));
    assert_eq!(TNode::validate(&vec![]), Ok(0));
}

#[test]
fn validate_rejects() {
    assert_eq!(
        TNode::validate(&vec![T(0, 0), T(1, 1), T(2, 1), T(3, 0)]),
        Err(ValidationError::ContextIdsUnordered)
    );
    assert_eq!(
        TNode::validate(&vec![T(0, 0), T(1, 0), T(2, 0), T(1, 0)]),
        Err(ValidationError::NodeIdsUnordered)
    );
    assert_eq!(
        TNode::validate(&vec![T(1, 0)]),
        Err(ValidationError::NodeIdsUnordered)
    );
}

#[test]
fn dependency_rules() {
    let context = TContext::new_with_dependencies(
        3,
        vec![(TNode(4), None), (TNode(6), Some(TNode(9))), (TNode(6), None)],
    );
    assert_eq!(context.dependency_of(TNode(4)), None);
    assert_eq!(context.dependency_of(TNode(6)), Some(TNode(9)));
    assert_eq!(context.dependency_of(TNode(2)), Some(TNode(1)));
    assert_eq!(context.dependency_of(TNode(0)), None);
    assert_eq!(context.id(), 3);
}

#[test]
fn errors_and_cacheable() {
    assert_eq!(TError::invalidated(), TError::Invalidated);
    assert_eq!(TError::cyclic(), TError::Cyclic);
    assert!(TNode(1).cacheable());
}
