//! Tests of the abstract graph interface over a function body's
//! block graph.

use solana_program_analyzer::cfg::ControlFlowGraphAnalysis;
use solana_program_analyzer::directed_graph::{compute_dominators, compute_predecessors};
use solana_program_analyzer::ir::{BasicBlock, Body, Terminator, TerminatorKind};
use std::collections::{HashMap, HashSet};

type NodeId = usize;

/// Builds a body whose block `i` jumps to the listed targets.
fn body_of(successors: Vec<Vec<usize>>) -> Body {
    let blocks = successors
        .into_iter()
        .map(|targets| BasicBlock {
            statements: Vec::new(),
            terminator: Terminator { kind: TerminatorKind::SwitchInt { targets } },
        })
        .collect();
    Body { blocks, local_decls: Vec::new() }
}

#[test]
fn test_predecessors_one() {
    let body = body_of(vec![vec![]]);
    let graph = ControlFlowGraphAnalysis::new(&body);
    let mut result = compute_predecessors(&graph);

    // Sort for consistent comparison
    result.values_mut().for_each(|v| v.sort());

    let expected: HashMap<NodeId, Vec<NodeId>> = HashMap::from([(0, vec![])]);
    assert_eq!(result, expected);
}

#[test]
fn test_predecessors_simple() {
    let body = body_of(vec![vec![1], vec![2], vec![]]);
    let graph = ControlFlowGraphAnalysis::new(&body);

    let mut result = compute_predecessors(&graph);
    result.values_mut().for_each(|v| v.sort());

    let expected: HashMap<NodeId, Vec<NodeId>> = HashMap::from([
        (0, vec![]),
        (1, vec![0]),
        (2, vec![1]),
    ]);
    assert_eq!(result, expected);
}

#[test]
fn test_predecessors_loop() {
    let body = body_of(vec![vec![1], vec![0]]);
    let graph = ControlFlowGraphAnalysis::new(&body);

    let mut result = compute_predecessors(&graph);
    result.values_mut().for_each(|v| v.sort());

    let expected: HashMap<NodeId, Vec<NodeId>> = HashMap::from([(0, vec![1]), (1, vec![0])]);
    assert_eq!(result, expected);
}

#[test]
fn test_predecessors_diamond() {
    let body = body_of(vec![vec![1, 2], vec![3], vec![3], vec![]]);
    let graph = ControlFlowGraphAnalysis::new(&body);

    let mut result = compute_predecessors(&graph);
    result.values_mut().for_each(|v| v.sort());

    let expected: HashMap<NodeId, Vec<NodeId>> = HashMap::from([
        (0, vec![]),
        (1, vec![0]),
        (2, vec![0]),
        (3, vec![1, 2]),
    ]);
    assert_eq!(result, expected);
}

// A helper to create a HashSet from a slice for cleaner test code
fn to_hashset(slice: &[NodeId]) -> HashSet<NodeId> {
    slice.iter().cloned().collect()
}

#[test]
fn test_dominators_simple() {
    // Graph: 0 -> 1 -> 2
    let body = body_of(vec![vec![1], vec![2], vec![]]);
    let graph = ControlFlowGraphAnalysis::new(&body);

    let predecessors = compute_predecessors(&graph);
    let result = compute_dominators(&graph, &predecessors);

    let expected: HashMap<NodeId, HashSet<NodeId>> = HashMap::from([
        (0, to_hashset(&[0])),
        (1, to_hashset(&[0, 1])),
        (2, to_hashset(&[0, 1, 2])),
    ]);

    assert_eq!(result, expected);
}

#[test]
fn test_dominators_diamond() {
    // Graph:
    //   0
    //  / \
    // 1   2
    //  \ /
    //   3
    let body = body_of(vec![vec![1, 2], vec![3], vec![3], vec![]]);
    let graph = ControlFlowGraphAnalysis::new(&body);

    let predecessors = compute_predecessors(&graph);
    let result = compute_dominators(&graph, &predecessors);

    let expected: HashMap<NodeId, HashSet<NodeId>> = HashMap::from([
        (0, to_hashset(&[0])),
        (1, to_hashset(&[0, 1])),
        (2, to_hashset(&[0, 2])),
        (3, to_hashset(&[0, 3])),  // Neither 1 nor 2 dominates 3
    ]);

    assert_eq!(result, expected);
}

#[test]
fn test_dominators_with_loop() {
    // Graph: 0 -> 1 <-> 2 -> 3
    let body = body_of(vec![vec![1], vec![2], vec![1, 3], vec![]]);
    let graph = ControlFlowGraphAnalysis::new(&body);

    let predecessors = compute_predecessors(&graph);
    let result = compute_dominators(&graph, &predecessors);

    let expected: HashMap<NodeId, HashSet<NodeId>> = HashMap::from([
        (0, to_hashset(&[0])),
        (1, to_hashset(&[0, 1])),  // To get to 1 or 2, you must pass 0 and 1
        (2, to_hashset(&[0, 1, 2])),
        (3, to_hashset(&[0, 1, 2, 3])),
    ]);

    assert_eq!(result, expected);
}

#[test]
fn test_block_preds_and_postdoms() {
    // 0 -> 1 -> 2 and 0 -> 2: block 2 is the sole exit
    let body = body_of(vec![vec![1, 2], vec![2], vec![]]);
    let preds = solana_program_analyzer::cfg::compute_preds(&body);
    let mut p1 = preds.get(&1).unwrap().clone();
    p1.sort();
    assert_eq!(p1, vec![0]);
    let mut p2 = preds.get(&2).unwrap().clone();
    p2.sort();
    assert_eq!(p2, vec![0, 1]);
    assert!(!preds.contains_key(&0));

    let doms = solana_program_analyzer::cfg::compute_dominators(&body, &preds);
    assert_eq!(doms.get(&2).unwrap(), &to_hashset(&[0, 2]));

    let postdoms = solana_program_analyzer::cfg::compute_postdominators(&body);
    assert_eq!(postdoms.get(&0).unwrap(), &to_hashset(&[0, 2]));
    assert_eq!(postdoms.get(&1).unwrap(), &to_hashset(&[1, 2]));
    assert_eq!(postdoms.get(&2).unwrap(), &to_hashset(&[2]));
}
