use simple_graph::{Graph, NodeIdx, Successors};

/// Drains a successor cursor into an owned vector of payload copies.
fn collect_successors<T: Copy>(mut it: Successors<'_, T>) -> Vec<T> {
    let mut out: Vec<T> = Vec::new();
    while let Some(d) = it.next() {
        out.push(*d);
    }
    out
}

#[test]
fn smoke() {
    // N0 ---E0---> N1 ---E1---> N2
    // |                         ^
    // E2                        |
    // |                         |
    // v                         |
    // N3 ----------E3-----------+

    let mut graph = Graph::new();

    let n0 = graph.add_node('A');
    let n1 = graph.add_node('B');
    let n2 = graph.add_node('C');
    let n3 = graph.add_node('D');

    graph.add_edge(n0, n1); // e0
    graph.add_edge(n1, n2); // e1
    graph.add_edge(n0, n3); // e2
    graph.add_edge(n3, n2); // e3

    let successors: Vec<_> = collect_successors(graph.successors(n0));
    assert_eq!(successors, vec!['D', 'B'])
}

#[test]
fn node_indices_are_unique() {
    let mut graph: Graph<u32> = Graph::new();
    let mut indices: Vec<NodeIdx> = Vec::new();
    for payload in 0..8u32 {
        indices.push(graph.add_node(payload));
        // Interleave edge insertions: they must not disturb index issuing.
        if payload == 3 {
            graph.add_edge(indices[0], indices[2]);
        }
    }
    for i in 0..indices.len() {
        for j in 0..indices.len() {
            if i != j {
                assert_ne!(indices[i], indices[j]);
            }
        }
    }
}

#[test]
fn new_edge_target_is_yielded_first() {
    let mut graph = Graph::new();
    let a = graph.add_node("a");
    let b = graph.add_node("b");
    let c = graph.add_node("c");
    graph.add_edge(a, c);
    graph.add_edge(a, b);
    let succ = collect_successors(graph.successors(a));
    assert!(succ.contains(&"b"));
    assert_eq!(succ[0], "b");
}

#[test]
fn no_outgoing_edges_yields_empty() {
    let mut graph = Graph::new();
    let a = graph.add_node(1u8);
    let b = graph.add_node(2u8);
    graph.add_edge(b, a); // an incoming edge does not count as outgoing
    let mut it = graph.successors(a);
    assert!(it.next().is_none());
    assert_eq!(collect_successors(graph.successors(a)), Vec::<u8>::new());
}

#[test]
fn successors_come_in_reverse_insertion_order() {
    let mut graph = Graph::new();
    let a = graph.add_node('a');
    let b = graph.add_node('b');
    let c = graph.add_node('c');
    graph.add_edge(a, b);
    graph.add_edge(a, c);
    assert_eq!(collect_successors(graph.successors(a)), vec!['c', 'b']);
}

#[test]
fn self_loop_is_preserved() {
    let mut graph = Graph::new();
    let a = graph.add_node('a');
    graph.add_edge(a, a);
    assert_eq!(collect_successors(graph.successors(a)), vec!['a']);
}

#[test]
fn multi_edges_are_preserved() {
    let mut graph = Graph::new();
    let a = graph.add_node('a');
    let b = graph.add_node('b');
    graph.add_edge(a, b);
    graph.add_edge(a, b);
    assert_eq!(collect_successors(graph.successors(a)), vec!['b', 'b']);
}

#[test]
fn diamond_graph_scenario() {
    let mut graph = Graph::new();
    let a = graph.add_node('A');
    let b = graph.add_node('B');
    let c = graph.add_node('C');
    let d = graph.add_node('D');
    graph.add_edge(a, b);
    graph.add_edge(b, c);
    graph.add_edge(a, d);
    graph.add_edge(d, c);
    assert_eq!(collect_successors(graph.successors(a)), vec!['D', 'B']);
    assert_eq!(collect_successors(graph.successors(b)), vec!['C']);
    assert_eq!(collect_successors(graph.successors(d)), vec!['C']);
    assert_eq!(collect_successors(graph.successors(c)), Vec::<char>::new());
}

#[test]
fn iteration_without_mutation_is_repeatable() {
    let mut graph = Graph::new();
    let a = graph.add_node(10u64);
    let b = graph.add_node(20u64);
    let c = graph.add_node(30u64);
    graph.add_edge(a, b);
    graph.add_edge(a, a);
    graph.add_edge(a, c);
    let first = collect_successors(graph.successors(a));
    let second = collect_successors(graph.successors(a));
    assert_eq!(first, vec![30, 10, 20]);
    assert_eq!(first, second);
}

#[test]
fn cursor_stays_exhausted() {
    let mut graph = Graph::new();
    let a = graph.add_node('a');
    let b = graph.add_node('b');
    graph.add_edge(a, b);
    let mut it = graph.successors(a);
    assert_eq!(it.next(), Some(&'b'));
    assert_eq!(it.next(), None);
    assert_eq!(it.next(), None);
}

#[test]
fn cycles_are_representable() {
    let mut graph = Graph::new();
    let a = graph.add_node('a');
    let b = graph.add_node('b');
    graph.add_edge(a, b);
    graph.add_edge(b, a);
    assert_eq!(collect_successors(graph.successors(a)), vec!['b']);
    assert_eq!(collect_successors(graph.successors(b)), vec!['a']);
}

#[test]
fn node_index_is_copyable_and_comparable() {
    let mut graph = Graph::new();
    let a = graph.add_node(0u8);
    let a_copy = a;
    assert_eq!(a, a_copy);
    let b = graph.add_node(1u8);
    assert_ne!(a, b);
    graph.add_edge(a_copy, b); // a copy of an index names the same node
    assert_eq!(collect_successors(graph.successors(a)), vec![1u8]);
}
