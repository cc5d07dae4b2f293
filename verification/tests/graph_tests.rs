//! Tests of the directed-graph dominance engine.

use solana_program_analyzer::graph::{Dominators, ExtNode, PostDominators, WithExitNodes};

fn diamond() -> solana_program_analyzer::graph::DirectedGraph {
    // a
    // / \
    // b   c
    // \ /
    //  d
    let mut graph = solana_program_analyzer::graph::DirectedGraph::new();
    let (a, b, c, d) = (0usize, 1usize, 2usize, 3usize);
    graph.add_node(a);
    graph.add_node(b);
    graph.add_node(c);
    graph.add_node(d);
    graph.add_edge(a, b);
    graph.add_edge(a, c);
    graph.add_edge(b, d);
    graph.add_edge(c, d);
    graph
}

#[test]
fn test_dominators_diamond_immediate() {
    let graph = diamond();
    let (a, b, c, d) = (0usize, 1usize, 2usize, 3usize);
    let dominators = Dominators::compute(&graph, a);

    // neither branch alone dominates the join point
    assert_eq!(dominators.immediate_dominator(d), Some(a));
    assert_eq!(dominators.immediate_dominator(b), Some(a));
    assert_eq!(dominators.immediate_dominator(c), Some(a));
    assert_eq!(dominators.immediate_dominator(a), None);

    let d_doms = dominators.dominators_of(d);
    assert_eq!(d_doms.len(), 2);
    assert!(d_doms.contains(&a));
    assert!(d_doms.contains(&d));
}

#[test]
fn test_dominance_partial_order() {
    let graph = diamond();
    let (a, b, c, d) = (0usize, 1usize, 2usize, 3usize);
    let dominators = Dominators::compute(&graph, a);

    // the entry dominates every reachable node
    for n in [a, b, c, d] {
        assert!(dominators.dominates(a, n));
    }
    // reflexive
    for n in [a, b, c, d] {
        assert!(dominators.dominates(n, n));
    }
    // irreflexive when strict
    for n in [a, b, c, d] {
        assert!(!dominators.strictly_dominates(n, n));
    }
    // branches do not dominate each other or the join point
    assert!(!dominators.dominates(b, c));
    assert!(!dominators.dominates(b, d));
    assert!(!dominators.dominates(c, d));
    assert!(!dominators.dominates(b, a));

    let tree = dominators.dominator_tree();
    let mut children_of_a = tree.get(&a).unwrap().clone();
    children_of_a.sort();
    assert_eq!(children_of_a, vec![b, c, d]);
    assert_eq!(dominators.entry(), a);
    let dominated = dominators.dominated_by(a);
    assert_eq!(dominated.len(), 4);
}

#[test]
fn test_dominators_linear_chain() {
    // a -> b -> c
    let mut graph = solana_program_analyzer::graph::DirectedGraph::new();
    let (a, b, c) = (0usize, 1usize, 2usize);
    graph.add_node(a);
    graph.add_node(b);
    graph.add_node(c);
    graph.add_edge(a, b);
    graph.add_edge(b, c);

    let dominators = Dominators::compute(&graph, a);
    assert!(dominators.dominates(a, b));
    assert!(dominators.dominates(a, c));
    assert!(dominators.dominates(b, c));
    assert_eq!(dominators.immediate_dominator(b), Some(a));
    assert_eq!(dominators.immediate_dominator(c), Some(b));
    assert_eq!(dominators.dominators_of(c), vec![c, b, a]);
}

#[test]
fn test_postdom_linear_chain() {
    // a -> b -> c, with c the sole exit
    let mut graph = solana_program_analyzer::graph::DirectedGraph::new();
    let (a, b, c) = (0usize, 1usize, 2usize);
    graph.add_node(a);
    graph.add_node(b);
    graph.add_node(c);
    graph.add_edge(a, b);
    graph.add_edge(b, c);

    let postdominators = PostDominators::compute(&graph);
    assert_eq!(postdominators.immediate_post_dominator(a), ExtNode::Real(Some(b)));
    assert_eq!(postdominators.immediate_post_dominator(b), ExtNode::Real(Some(c)));
    assert_eq!(postdominators.immediate_post_dominator(c), ExtNode::Real(Some(c)));
    assert_eq!(postdominators.post_dominators_of(a), vec![a, b, c]);
    assert_eq!(postdominators.post_dominators_of(b), vec![b, c]);
    assert_eq!(postdominators.post_dominators_of(c), vec![c]);
}

#[test]
fn test_postdom_multiple_exit_ambiguity() {
    // a -> b, a -> c, with b and c both exits
    let mut graph = solana_program_analyzer::graph::DirectedGraph::new();
    let (a, b, c) = (0usize, 1usize, 2usize);
    graph.add_node(a);
    graph.add_node(b);
    graph.add_node(c);
    graph.add_edge(a, b);
    graph.add_edge(a, c);

    let postdominators = PostDominators::compute(&graph);
    assert_eq!(postdominators.immediate_post_dominator(a), ExtNode::Fake);
    assert_eq!(postdominators.immediate_post_dominator(b), ExtNode::Real(Some(b)));
    assert_eq!(postdominators.immediate_post_dominator(c), ExtNode::Real(Some(c)));
    assert!(!postdominators.is_post_dominated_by(a, b));
    assert!(!postdominators.is_post_dominated_by(a, c));
    assert!(postdominators.is_post_dominated_by(b, b));
    assert!(postdominators.is_post_dominated_by(c, c));

    let exits = postdominators.exit_nodes();
    assert_eq!(exits.len(), 2);
    assert!(exits.contains(&b));
    assert!(exits.contains(&c));
}

#[test]
fn test_postdom_complex_graph() {
    // More complex CFG:
    //     a
    //    / \
    //   b   c
    //   |\ /|
    //   | X |
    //   |/ \|
    //   d   e
    //    \ /
    //     f
    let mut graph = solana_program_analyzer::graph::DirectedGraph::new();
    let (a, b, c, d, e, f) = (0usize, 1usize, 2usize, 3usize, 4usize, 5usize);

    graph.add_node(a);
    graph.add_node(b);
    graph.add_node(c);
    graph.add_node(d);
    graph.add_node(e);
    graph.add_node(f);

    graph.add_edge(a, b);
    graph.add_edge(a, c);
    graph.add_edge(b, d);
    graph.add_edge(b, e);
    graph.add_edge(c, d);
    graph.add_edge(c, e);
    graph.add_edge(d, f);
    graph.add_edge(e, f);

    let postdominators = PostDominators::compute(&graph);

    // f post-dominates everything
    assert!(postdominators.is_post_dominated_by(a, f));
    assert!(postdominators.is_post_dominated_by(b, f));
    assert!(postdominators.is_post_dominated_by(c, f));
    assert!(postdominators.is_post_dominated_by(d, f));
    assert!(postdominators.is_post_dominated_by(e, f));
    assert!(postdominators.is_post_dominated_by(f, f));

    // Check that intermediate nodes don't post-dominate each other inappropriately
    assert!(!postdominators.is_post_dominated_by(b, c));
    assert!(!postdominators.is_post_dominated_by(c, b));
    assert!(!postdominators.is_post_dominated_by(d, e));
    assert!(!postdominators.is_post_dominated_by(e, d));

    // Check immediate post-dominators
    assert_eq!(postdominators.immediate_post_dominator(a), ExtNode::Real(Some(f)));
    assert_eq!(postdominators.immediate_post_dominator(b), ExtNode::Real(Some(f)));
    assert_eq!(postdominators.immediate_post_dominator(c), ExtNode::Real(Some(f)));
    assert_eq!(postdominators.immediate_post_dominator(d), ExtNode::Real(Some(f)));
    assert_eq!(postdominators.immediate_post_dominator(e), ExtNode::Real(Some(f)));
    assert_eq!(postdominators.immediate_post_dominator(f), ExtNode::Real(Some(f)));
}

#[test]
fn test_postdom_unreachable_nodes() {
    // Graph with unreachable node:
    // a -> b -> c
    // d (isolated)
    let mut graph = solana_program_analyzer::graph::DirectedGraph::new();
    let (a, b, c, d) = (0usize, 1usize, 2usize, 3usize);

    graph.add_node(a);
    graph.add_node(b);
    graph.add_node(c);
    graph.add_node(d);

    graph.add_edge(a, b);
    graph.add_edge(b, c);

    let postdominators = PostDominators::compute(&graph);

    // d should be its own post-dominator (isolated exit)
    assert!(postdominators.is_post_dominated_by(d, d));
    assert_eq!(postdominators.immediate_post_dominator(d), ExtNode::Real(Some(d)));

    // d doesn't post-dominate anything else
    assert!(!postdominators.is_post_dominated_by(a, d));
    assert!(!postdominators.is_post_dominated_by(b, d));
    assert!(!postdominators.is_post_dominated_by(c, d));

    // Check that the main chain still works
    assert!(postdominators.is_post_dominated_by(a, c));
    assert!(postdominators.is_post_dominated_by(b, c));
}

#[test]
fn test_postdom_iterator() {
    // a -> b -> c -> d
    let mut graph = solana_program_analyzer::graph::DirectedGraph::new();
    let (a, b, c, d) = (0usize, 1usize, 2usize, 3usize);

    graph.add_node(a);
    graph.add_node(b);
    graph.add_node(c);
    graph.add_node(d);

    graph.add_edge(a, b);
    graph.add_edge(b, c);
    graph.add_edge(c, d);

    let postdominators = PostDominators::compute(&graph);

    // Test iterator for node a
    let mut it = postdominators.post_dominators_iter(a);
    let mut a_postdoms: Vec<usize> = Vec::new();
    while let Some(x) = it.next() {
        a_postdoms.push(x);
    }
    assert_eq!(a_postdoms, vec![a, b, c, d]);

    // Test iterator for node c
    let mut it = postdominators.post_dominators_iter(c);
    let mut c_postdoms: Vec<usize> = Vec::new();
    while let Some(x) = it.next() {
        c_postdoms.push(x);
    }
    assert_eq!(c_postdoms, vec![c, d]);

    // Test iterator for exit node d
    let mut it = postdominators.post_dominators_iter(d);
    let mut d_postdoms: Vec<usize> = Vec::new();
    while let Some(x) = it.next() {
        d_postdoms.push(x);
    }
    assert_eq!(d_postdoms, vec![d]);
}

#[test]
fn test_nearest_common_post_dominator() {
    // Create a more complex CFG:
    //     a
    //   /   \
    //  b     c
    //  |    / \
    //  d   e   f
    //   \ | /
    //     g
    let mut graph = solana_program_analyzer::graph::DirectedGraph::new();
    let (a, b, c, d, e, f, g) = (0usize, 1usize, 2usize, 3usize, 4usize, 5usize, 6usize);

    graph.add_node(a);
    graph.add_node(b);
    graph.add_node(c);
    graph.add_node(d);
    graph.add_node(e);
    graph.add_node(f);
    graph.add_node(g);

    graph.add_edge(a, b);
    graph.add_edge(a, c);
    graph.add_edge(b, d);
    graph.add_edge(c, e);
    graph.add_edge(c, f);
    graph.add_edge(d, g);
    graph.add_edge(e, g);
    graph.add_edge(f, g);

    let postdominators = PostDominators::compute(&graph);

    // Test nearest common post-dominator
    assert_eq!(postdominators.nearest_common_post_dominator(b, c), Some(g));
    assert_eq!(postdominators.nearest_common_post_dominator(d, e), Some(g));
    assert_eq!(postdominators.nearest_common_post_dominator(e, f), Some(g));
    assert_eq!(postdominators.nearest_common_post_dominator(a, g), Some(g));

    // Same node should return itself
    assert_eq!(postdominators.nearest_common_post_dominator(a, a), Some(a));
    assert_eq!(postdominators.nearest_common_post_dominator(g, g), Some(g));
}

#[test]
fn test_exit_nodes_trait() {
    let graph = diamond();
    let exits = graph.exit_nodes();
    assert_eq!(exits, vec![3usize]);

    let postdominators = PostDominators::compute(&graph);
    assert!(postdominators.is_reachable(0));
    assert!(!ExtNode::Real(Some(3usize)).is_none());
    assert!(ExtNode::Real(None).is_none());
}
