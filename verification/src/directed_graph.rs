//! An abstract directed-graph interface and whole-map dominator-set
//! computation over it.
//!
//! [`compute_dominators`] returns, for every node, the full set of its
//! dominators, solving the classic intersection equations
//! `dom(n) = {n} + meet of dom(p)` over the predecessors `p` of `n` by
//! fixed-point iteration.  The solver works on dense bit-rows indexed
//! by node position and is shared with the block-graph analyses.

use vstd::prelude::*;

verus! {

/// A directed graph with a distinguished start node, abstract over
/// its representation.
pub trait DirectedGraph {
    /// The nodes, each exactly once.
    spec fn nodes_spec(&self) -> Seq<usize>;

    /// The successors of `n`.
    spec fn successors_spec(&self, n: usize) -> Seq<usize>;

    /// The start node.
    spec fn start_spec(&self) -> usize;

    /// What the graph asks of itself before it is walked.
    spec fn graph_wf(&self) -> bool;

    fn nodes(&self) -> (r: Vec<usize>)
        requires
            self.graph_wf(),
        ensures
            r@ == self.nodes_spec(),
    ;

    fn successors_of(&self, n: usize) -> (r: Vec<usize>)
        requires
            self.graph_wf(),
        ensures
            r@ == self.successors_spec(n),
    ;

    fn start_node(&self) -> (r: usize)
        requires
            self.graph_wf(),
        ensures
            r == self.start_spec(),
    ;
}

/// One `node` entry per occurrence of `x` in the successor list `s`.
pub open spec fn edge_occurrences(s: Seq<usize>, x: usize, node: usize) -> Seq<usize>
    decreases s.len(),
{
    if s.len() == 0 {
        Seq::empty()
    } else {
        edge_occurrences(s.drop_last(), x, node) + if s.last() == x {
            seq![node]
        } else {
            Seq::empty()
        }
    }
}

/// The predecessors of `x` contributed by the first `k` nodes: node
/// `n` appears once for every occurrence of `x` among its successors.
pub open spec fn preds_prefix<G: DirectedGraph>(g: &G, x: usize, k: int) -> Seq<usize>
    decreases k,
{
    if k <= 0 {
        Seq::empty()
    } else {
        preds_prefix(g, x, k - 1) + edge_occurrences(
            g.successors_spec(g.nodes_spec()[k - 1]),
            x,
            g.nodes_spec()[k - 1],
        )
    }
}

/// The predecessor list recorded for `x`.
pub open spec fn preds_of<G: DirectedGraph>(g: &G, x: usize) -> Seq<usize> {
    preds_prefix(g, x, g.nodes_spec().len() as int)
}

/// `x` is the target of at least one edge.
pub open spec fn is_edge_target<G: DirectedGraph>(g: &G, x: usize) -> bool {
    exists|n: usize| g.nodes_spec().contains(n) && g.successors_spec(n).contains(x)
}

/// Computes the predecessors of every node in the graph.
///
/// The map holds one entry per node, and one per edge target; the
/// entry of `x` lists every node that has `x` among its successors,
/// in node order, once per such edge.
pub fn compute_predecessors<G: DirectedGraph>(graph: &G) -> (m: std::collections::HashMap<
    usize,
    Vec<usize>,
>)
    requires
        graph.graph_wf(),
    ensures
        forall|x: usize| #[trigger]
            m@.contains_key(x) <==> graph.nodes_spec().contains(x) || is_edge_target(graph, x),
        forall|x: usize| #[trigger] m@.contains_key(x) ==> m@[x]@ == preds_of(graph, x),
{
    broadcast use vstd::std_specs::hash::group_hash_axioms;

    let mut m: std::collections::HashMap<usize, Vec<usize>> = std::collections::HashMap::new();
    let nodes = graph.nodes();
    let mut i: usize = 0;
    while i < nodes.len()
        invariant
            graph.graph_wf(),
            nodes@ == graph.nodes_spec(),
            i <= nodes@.len(),
            forall|x: usize| #[trigger]
                m@.contains_key(x) <==> nodes@.subrange(0, i as int).contains(x),
            forall|x: usize| #[trigger] m@.contains_key(x) ==> m@[x]@ == Seq::<usize>::empty(),
        decreases nodes@.len() - i,
    {
        let ghost sub = nodes@.subrange(0, i as int);
        let ghost sub1 = nodes@.subrange(0, i as int + 1);
        proof {
            assert(sub1 =~= sub.push(nodes@[i as int]));
        }
        let node = nodes[i];
        if !m.contains_key(&node) {
            m.insert(node, Vec::new());
        }
        proof {
            assert forall|x: usize| #[trigger] m@.contains_key(x) <==> sub1.contains(x) by {
                crate::graph::lemma_push_contains(sub, node, x);
            }
        }
        i = i + 1;
    }
    proof {
        assert(nodes@.subrange(0, nodes@.len() as int) =~= nodes@);
    }
    // second pass: walk each node's successor list and record the edges
    let mut i: usize = 0;
    while i < nodes.len()
        invariant
            graph.graph_wf(),
            nodes@ == graph.nodes_spec(),
            i <= nodes@.len(),
            forall|x: usize| #[trigger]
                m@.contains_key(x) <==> nodes@.contains(x) || exists|k: int|
                    0 <= k < i && g_succ_contains(graph, nodes@[k], x),
            forall|x: usize| #[trigger]
                m@.contains_key(x) ==> m@[x]@ == preds_prefix(graph, x, i as int),
        decreases nodes@.len() - i,
    {
        let node = nodes[i];
        let succs = graph.successors_of(node);
        let mut j: usize = 0;
        while j < succs.len()
            invariant
                graph.graph_wf(),
                nodes@ == graph.nodes_spec(),
                i < nodes@.len(),
                node == nodes@[i as int],
                succs@ == graph.successors_spec(node),
                j <= succs@.len(),
                forall|x: usize| #[trigger]
                    m@.contains_key(x) <==> nodes@.contains(x) || (exists|k: int|
                        0 <= k < i && g_succ_contains(graph, nodes@[k], x)) || succs@.subrange(
                        0,
                        j as int,
                    ).contains(x),
                forall|x: usize| #[trigger]
                    m@.contains_key(x) ==> m@[x]@ == preds_prefix(graph, x, i as int)
                        + edge_occurrences(succs@.subrange(0, j as int), x, node),
            decreases succs@.len() - j,
        {
            let t = succs[j];
            let cur: Vec<usize> = match m.get(&t) {
                Some(v) => v.clone(),
                None => Vec::new(),
            };
            let mut cur = cur;
            cur.push(node);
            let ghost pre_m = m@;
            m.insert(t, cur);
            proof {
                let subj = succs@.subrange(0, j as int);
                let subj1 = succs@.subrange(0, j as int + 1);
                assert(subj1 =~= subj.push(t));
                assert(subj1.drop_last() =~= subj);
                assert(subj1.last() == t);
                assert forall|x: usize| #[trigger]
                    m@.contains_key(x) <==> nodes@.contains(x) || (exists|k: int|
                        0 <= k < i && g_succ_contains(graph, nodes@[k], x)) || subj1.contains(
                    x) by {
                    crate::graph::lemma_push_contains(subj, t, x);
                }
                assert forall|x: usize| #[trigger]
                    m@.contains_key(x) implies m@[x]@ == preds_prefix(graph, x, i as int)
                    + edge_occurrences(subj1, x, node) by {
                    if x == t {
                        assert(edge_occurrences(subj1, x, node) == edge_occurrences(subj, x, node)
                            + seq![node]);
                        if pre_m.contains_key(t) {
                            assert(m@[x]@ =~= pre_m[t]@.push(node));
                            assert(pre_m[t]@ == preds_prefix(graph, x, i as int)
                                + edge_occurrences(subj, x, node));
                            assert((preds_prefix(graph, x, i as int) + edge_occurrences(
                                subj,
                                x,
                                node,
                            )).push(node) =~= preds_prefix(graph, x, i as int) + (edge_occurrences(
                                subj,
                                x,
                                node,
                            ) + seq![node]));
                        } else {
                            assert(!nodes@.contains(t));
                            assert(!subj.contains(t));
                            assert(m@[x]@ =~= Seq::<usize>::empty().push(node));
                            lemma_preds_prefix_absent(graph, x, i as int);
                            lemma_edge_occurrences_absent(subj, x, node);
                            assert(preds_prefix(graph, x, i as int) + (edge_occurrences(
                                subj,
                                x,
                                node,
                            ) + seq![node]) =~= Seq::<usize>::empty().push(node));
                        }
                    } else {
                        assert(edge_occurrences(subj1, x, node) == edge_occurrences(subj, x, node)
                            + Seq::<usize>::empty());
                        assert(edge_occurrences(subj, x, node) + Seq::<usize>::empty()
                            =~= edge_occurrences(subj, x, node));
                        assert(m@[x]@ == pre_m[x]@);
                    }
                }
            }
            j = j + 1;
        }
        proof {
            assert(succs@.subrange(0, succs@.len() as int) =~= succs@);
            assert forall|x: usize| #[trigger]
                m@.contains_key(x) implies m@[x]@ == preds_prefix(graph, x, i as int + 1) by {
                assert(preds_prefix(graph, x, i as int + 1) == preds_prefix(graph, x, i as int)
                    + edge_occurrences(
                    graph.successors_spec(nodes@[i as int]),
                    x,
                    nodes@[i as int],
                ));
            }
            assert forall|x: usize| #[trigger]
                m@.contains_key(x) <==> nodes@.contains(x) || (exists|k: int|
                    0 <= k < i + 1 && g_succ_contains(graph, nodes@[k], x)) by {
                if m@.contains_key(x) {
                    if !nodes@.contains(x) && !(exists|k: int|
                        0 <= k < i && g_succ_contains(graph, nodes@[k], x)) {
                        assert(succs@.contains(x));
                        assert(g_succ_contains(graph, nodes@[i as int], x));
                    }
                } else {
                    if exists|k: int| 0 <= k < i + 1 && g_succ_contains(graph, nodes@[k], x) {
                        let k = choose|k: int|
                            0 <= k < i + 1 && g_succ_contains(graph, nodes@[k], x);
                        if k < i {
                        } else {
                            assert(succs@.subrange(0, succs@.len() as int) =~= succs@);
                        }
                    }
                }
            }
        }
        i = i + 1;
    }
    proof {
        assert forall|x: usize| #[trigger]
            m@.contains_key(x) <==> graph.nodes_spec().contains(x) || is_edge_target(
            graph,
            x,
        ) by {
            if m@.contains_key(x) && !graph.nodes_spec().contains(x) {
                let k = choose|k: int|
                    0 <= k < nodes@.len() && g_succ_contains(graph, nodes@[k], x);
                assert(graph.nodes_spec().contains(nodes@[k]));
            }
            if is_edge_target(graph, x) {
                let n = choose|n: usize|
                    graph.nodes_spec().contains(n) && graph.successors_spec(n).contains(x);
                let k = choose|k: int|
                    0 <= k < graph.nodes_spec().len() && graph.nodes_spec()[k] == n;
                assert(g_succ_contains(graph, nodes@[k], x));
            }
        }
    }
    m
}

/// `x` occurs among the successors of `n`.
pub open spec fn g_succ_contains<G: DirectedGraph>(g: &G, n: usize, x: usize) -> bool {
    g.successors_spec(n).contains(x)
}

/// A list without `x` contributes no predecessor entries.
proof fn lemma_edge_occurrences_absent(s: Seq<usize>, x: usize, node: usize)
    requires
        !s.contains(x),
    ensures
        edge_occurrences(s, x, node) == Seq::<usize>::empty(),
    decreases s.len(),
{
    if s.len() > 0 {
        assert(!s.drop_last().contains(x)) by {
            if s.drop_last().contains(x) {
                let i = choose|i: int| 0 <= i < s.drop_last().len() && s.drop_last()[i] == x;
                assert(s[i] == x);
            }
        }
        lemma_edge_occurrences_absent(s.drop_last(), x, node);
        assert(s.last() != x) by {
            if s.last() == x {
                assert(s[s.len() - 1] == x);
            }
        }
        assert(edge_occurrences(s, x, node) =~= Seq::<usize>::empty());
    }
}

/// A node with no registered occurrence has an empty predecessor
/// prefix.
proof fn lemma_preds_prefix_absent<G: DirectedGraph>(g: &G, x: usize, k: int)
    requires
        forall|j: int|
            0 <= j < k ==> !g.successors_spec(#[trigger] g.nodes_spec()[j]).contains(x),
        k <= g.nodes_spec().len(),
    ensures
        preds_prefix(g, x, k) == Seq::<usize>::empty(),
    decreases k,
{
    if k > 0 {
        lemma_preds_prefix_absent(g, x, k - 1);
        lemma_edge_occurrences_absent(
            g.successors_spec(g.nodes_spec()[k - 1]),
            x,
            g.nodes_spec()[k - 1],
        );
        assert(preds_prefix(g, x, k) =~= Seq::<usize>::empty());
    }
}

/// The meet over the dependency rows at bit `b`: every dependency row
/// holds `b`; an empty dependency list yields `empty_all`.
pub open spec fn dep_meet(rows: Seq<Vec<bool>>, deps: Seq<usize>, empty_all: bool, b: int) -> bool {
    if deps.len() == 0 {
        empty_all
    } else {
        forall|j: int| 0 <= j < deps.len() ==> rows[#[trigger] deps[j] as int]@[b]
    }
}

/// One intersection equation, pointwise: bit `b` of row `i` is set
/// exactly when `b == i` or every dependency row holds it.
pub open spec fn f_val(rows: Seq<Vec<bool>>, deps: Seq<usize>, empty_all: bool, i: int, b: int) -> bool {
    b == i || dep_meet(rows, deps, empty_all, b)
}

/// Number of set bits in a row.
spec fn count_row(r: Seq<bool>) -> int
    decreases r.len(),
{
    if r.len() == 0 {
        0
    } else {
        count_row(r.drop_last()) + if r.last() {
            1int
        } else {
            0int
        }
    }
}

/// Number of set bits in all rows.
spec fn count_all(rows: Seq<Vec<bool>>) -> int
    decreases rows.len(),
{
    if rows.len() == 0 {
        0
    } else {
        count_all(rows.drop_last()) + count_row(rows.last()@)
    }
}

proof fn lemma_count_row_le(a: Seq<bool>, b: Seq<bool>)
    requires
        a.len() == b.len(),
        forall|k: int| 0 <= k < a.len() && #[trigger] a[k] ==> b[k],
    ensures
        0 <= count_row(a) <= count_row(b),
        (exists|k: int| 0 <= k < a.len() && !a[k] && b[k]) ==> count_row(a) < count_row(b),
    decreases a.len(),
{
    if a.len() > 0 {
        assert(forall|k: int|
            0 <= k < a.drop_last().len() && #[trigger] a.drop_last()[k] ==> b.drop_last()[k]);
        lemma_count_row_le(a.drop_last(), b.drop_last());
        if exists|k: int| 0 <= k < a.len() && !a[k] && b[k] {
            let k = choose|k: int| 0 <= k < a.len() && !a[k] && b[k];
            if k < a.len() - 1 {
                assert(!a.drop_last()[k] && b.drop_last()[k]);
            }
        }
    }
}

proof fn lemma_count_all_update(rows: Seq<Vec<bool>>, i: int, v: Vec<bool>)
    requires
        0 <= i < rows.len(),
    ensures
        count_all(rows.update(i, v)) == count_all(rows) - count_row(rows[i]@) + count_row(v@),
    decreases rows.len(),
{
    if i == rows.len() - 1 {
        assert(rows.update(i, v).drop_last() =~= rows.drop_last());
        assert(rows.update(i, v).last() == v);
    } else {
        assert(rows.update(i, v).drop_last() =~= rows.drop_last().update(i, v));
        assert(rows.update(i, v).last() == rows.last());
        lemma_count_all_update(rows.drop_last(), i, v);
        assert(rows.drop_last()[i] == rows[i]);
    }
}

proof fn lemma_count_all_nonneg(rows: Seq<Vec<bool>>)
    ensures
        count_all(rows) >= 0,
    decreases rows.len(),
{
    if rows.len() > 0 {
        lemma_count_all_nonneg(rows.drop_last());
        lemma_count_row_le(rows.last()@, rows.last()@);
    }
}

/// The meet over dependency rows of a candidate solution.
pub open spec fn dep_meet2(rows: Seq<Seq<bool>>, deps: Seq<usize>, empty_all: bool, b: int) -> bool {
    if deps.len() == 0 {
        empty_all
    } else {
        forall|j: int| 0 <= j < deps.len() ==> rows[#[trigger] deps[j] as int][b]
    }
}

/// One intersection equation over a candidate solution.
pub open spec fn f_val2(
    rows: Seq<Seq<bool>>,
    deps: Seq<usize>,
    empty_all: bool,
    i: int,
    b: int,
) -> bool {
    b == i || dep_meet2(rows, deps, empty_all, b)
}

/// A candidate solution of the equations, bounded by the start rows:
/// fixed rows keep their start value, free rows satisfy their
/// equation, and nothing exceeds the start.
pub open spec fn is_solution(
    sol: Seq<Seq<bool>>,
    init: Seq<Vec<bool>>,
    free: Seq<bool>,
    deps: Seq<Vec<usize>>,
    empty_all: bool,
    n: int,
) -> bool {
    &&& sol.len() == n
    &&& (forall|i: int| 0 <= i < n ==> (#[trigger] sol[i]).len() == n)
    &&& (forall|i: int| 0 <= i < n && !free[i] ==> (#[trigger] sol[i]) == init[i]@)
    &&& (forall|i: int, b: int|
        0 <= i < n && 0 <= b < n && free[i] ==> ((#[trigger] sol[i][b]) == f_val2(
            sol,
            deps[i]@,
            empty_all,
            i,
            b,
        )))
    &&& (forall|i: int, b: int| 0 <= i < n && 0 <= b < n && (#[trigger] sol[i][b]) ==> init[i]@[b])
}

/// Solves the intersection equations
/// `row(i) = {i} + meet of row(d)` over `d` in `deps(i)` for the rows marked free,
/// starting from `init` and shrinking until every equation holds; rows
/// not marked free keep their initial value.  The result is the
/// greatest such solution: it contains every candidate bounded by the
/// start rows.
pub(crate) fn solve_fixpoint(
    n: usize,
    init: Vec<Vec<bool>>,
    free: &Vec<bool>,
    deps: &Vec<Vec<usize>>,
    empty_all: bool,
) -> (r: Vec<Vec<bool>>)
    requires
        init@.len() == n,
        free@.len() == n,
        deps@.len() == n,
        forall|i: int| 0 <= i < n ==> (#[trigger] init@[i]@).len() == n,
        forall|i: int, j: int|
            0 <= i < n && 0 <= j < deps@[i]@.len() ==> (#[trigger] deps@[i]@[j]) < n,
        forall|i: int, b: int|
            0 <= i < n && 0 <= b < n && free@[i as int] && f_val(init@, deps@[i]@, empty_all, i, b)
                ==> (#[trigger] init@[i]@[b]),
    ensures
        r@.len() == n,
        forall|i: int| 0 <= i < n ==> (#[trigger] r@[i]@).len() == n,
        forall|i: int| 0 <= i < n && !free@[i] ==> (#[trigger] r@[i]@) == init@[i]@,
        forall|i: int, b: int| 0 <= i < n && 0 <= b < n && (#[trigger] r@[i]@[b]) ==> init@[i]@[b],
        forall|i: int, b: int|
            0 <= i < n && 0 <= b < n && free@[i] ==> ((#[trigger] r@[i]@[b]) == f_val(
                r@,
                deps@[i]@,
                empty_all,
                i,
                b,
            )),
        forall|sol: Seq<Seq<bool>>| #[trigger]
            is_solution(sol, init@, free@, deps@, empty_all, n as int) ==> (forall|i: int, b: int|
                0 <= i < n && 0 <= b < n && sol[i][b] ==> r@[i]@[b]),
{
    let ghost init_v = init@;
    let mut rows = init;
    loop
        invariant_except_break
            rows@.len() == n,
            free@.len() == n,
            deps@.len() == n,
            init_v.len() == n,
            forall|i: int| 0 <= i < n ==> (#[trigger] init_v[i]@).len() == n,
            forall|i: int, j: int|
                0 <= i < n && 0 <= j < deps@[i]@.len() ==> (#[trigger] deps@[i]@[j]) < n,
            forall|i: int| 0 <= i < n ==> (#[trigger] rows@[i]@).len() == n,
            forall|i: int| 0 <= i < n && !free@[i] ==> (#[trigger] rows@[i]@) == init_v[i]@,
            forall|i: int, b: int|
                0 <= i < n && 0 <= b < n && (#[trigger] rows@[i]@[b]) ==> init_v[i]@[b],
            forall|i: int, b: int|
                0 <= i < n && 0 <= b < n && free@[i] && f_val(rows@, deps@[i]@, empty_all, i, b)
                    ==> (#[trigger] rows@[i]@[b]),
            forall|sol: Seq<Seq<bool>>| #[trigger]
                is_solution(sol, init_v, free@, deps@, empty_all, n as int) ==> (forall|
                    i: int,
                    b: int,
                |
                    0 <= i < n && 0 <= b < n && sol[i][b] ==> rows@[i]@[b]),
        ensures
            rows@.len() == n,
            forall|i: int| 0 <= i < n ==> (#[trigger] rows@[i]@).len() == n,
            forall|i: int| 0 <= i < n && !free@[i] ==> (#[trigger] rows@[i]@) == init_v[i]@,
            forall|i: int, b: int|
                0 <= i < n && 0 <= b < n && (#[trigger] rows@[i]@[b]) ==> init_v[i]@[b],
            forall|i: int, b: int|
                0 <= i < n && 0 <= b < n && free@[i] ==> ((#[trigger] rows@[i]@[b]) == f_val(
                    rows@,
                    deps@[i]@,
                    empty_all,
                    i,
                    b,
                )),
            forall|sol: Seq<Seq<bool>>| #[trigger]
                is_solution(sol, init_v, free@, deps@, empty_all, n as int) ==> (forall|
                    i: int,
                    b: int,
                |
                    0 <= i < n && 0 <= b < n && sol[i][b] ==> rows@[i]@[b]),
        decreases count_all(rows@),
    {
        let ghost snap = rows@;
        let mut changed = false;
        let mut i: usize = 0;
        while i < n
            invariant
                i <= n,
                rows@.len() == n,
                free@.len() == n,
                deps@.len() == n,
                init_v.len() == n,
                forall|k: int| 0 <= k < n ==> (#[trigger] init_v[k]@).len() == n,
                forall|k: int, j: int|
                    0 <= k < n && 0 <= j < deps@[k]@.len() ==> (#[trigger] deps@[k]@[j]) < n,
                forall|k: int| 0 <= k < n ==> (#[trigger] rows@[k]@).len() == n,
                forall|k: int| 0 <= k < n && !free@[k] ==> (#[trigger] rows@[k]@) == init_v[k]@,
                forall|k: int, b: int|
                    0 <= k < n && 0 <= b < n && (#[trigger] rows@[k]@[b]) ==> init_v[k]@[b],
                forall|k: int, b: int|
                    0 <= k < n && 0 <= b < n && free@[k] && f_val(rows@, deps@[k]@, empty_all, k, b)
                        ==> (#[trigger] rows@[k]@[b]),
                snap.len() == n,
                forall|k: int| 0 <= k < n ==> (#[trigger] snap[k]@).len() == n,
                count_all(rows@) <= count_all(snap),
                changed ==> count_all(rows@) < count_all(snap),
                !changed ==> rows@ == snap,
                !changed ==> forall|k: int, b: int|
                    0 <= k < i && 0 <= b < n && free@[k] ==> ((#[trigger] rows@[k]@[b]) == f_val(
                        rows@,
                        deps@[k]@,
                        empty_all,
                        k,
                        b,
                    )),
                forall|sol: Seq<Seq<bool>>| #[trigger]
                    is_solution(sol, init_v, free@, deps@, empty_all, n as int) ==> (forall|
                        i2: int,
                        b2: int,
                    |
                        0 <= i2 < n && 0 <= b2 < n && sol[i2][b2] ==> rows@[i2]@[b2]),
            decreases n - i,
        {
            if free[i] {
                // evaluate the equation of row i against the current rows
                let mut newrow: Vec<bool> = Vec::new();
                let mut b: usize = 0;
                while b < n
                    invariant
                        b <= n,
                        i < n,
                        rows@.len() == n,
                        deps@.len() == n,
                        forall|k: int| 0 <= k < n ==> (#[trigger] rows@[k]@).len() == n,
                        forall|k: int, j: int|
                            0 <= k < n && 0 <= j < deps@[k]@.len() ==> (#[trigger] deps@[k]@[j])
                                < n,
                        newrow@.len() == b,
                        forall|q: int|
                            0 <= q < b ==> (#[trigger] newrow@[q]) == f_val(
                                rows@,
                                deps@[i as int]@,
                                empty_all,
                                i as int,
                                q,
                            ),
                    decreases n - b,
                {
                    let mut v: bool = b == i;
                    if !v {
                        let dl = &deps[i];
                        if dl.len() == 0 {
                            v = empty_all;
                        } else {
                            let mut all = true;
                            let mut j: usize = 0;
                            while j < dl.len()
                                invariant
                                    j <= dl@.len(),
                                    i < n,
                                    b < n,
                                    dl@ == deps@[i as int]@,
                                    rows@.len() == n,
                                    forall|k: int| 0 <= k < n ==> (#[trigger] rows@[k]@).len() == n,
                                    forall|k: int, jj: int|
                                        0 <= k < n && 0 <= jj < deps@[k]@.len() ==> (
                                        #[trigger] deps@[k]@[jj]) < n,
                                    all == (forall|q: int|
                                        0 <= q < j ==> rows@[#[trigger] dl@[q] as int]@[b as int]),
                                decreases dl@.len() - j,
                            {
                                let d = dl[j];
                                let ghost pre_all = all;
                                if !rows[d][b] {
                                    all = false;
                                }
                                proof {
                                    if all {
                                        assert forall|q: int| 0 <= q < j + 1 implies rows@[
                                            #[trigger] dl@[q] as int]@[b as int] by {
                                            if q < j {
                                            } else {
                                                assert(dl@[q] == d);
                                            }
                                        }
                                    }
                                }
                                j = j + 1;
                            }
                            v = all;
                            proof {
                                if all {
                                    assert(dep_meet(rows@, deps@[i as int]@, empty_all, b as int));
                                } else {
                                    assert(!dep_meet(rows@, deps@[i as int]@, empty_all, b as int));
                                }
                            }
                        }
                    }
                    newrow.push(v);
                    b = b + 1;
                }
                // compare with the current row
                let mut same = true;
                let mut k: usize = 0;
                while k < n
                    invariant
                        k <= n,
                        i < n,
                        rows@.len() == n,
                        newrow@.len() == n,
                        forall|q: int| 0 <= q < n ==> (#[trigger] rows@[q]@).len() == n,
                        same == (forall|q: int|
                            0 <= q < k ==> (#[trigger] newrow@[q]) == rows@[i as int]@[q]),
                    decreases n - k,
                {
                    let a1 = newrow[k];
                    let a2 = rows[i][k];
                    let ghost pre_same = same;
                    if a1 != a2 {
                        same = false;
                    }
                    proof {
                        if same {
                            assert forall|q: int| 0 <= q < k + 1 implies (#[trigger] newrow@[q])
                                == rows@[i as int]@[q] by {}
                        }
                    }
                    k = k + 1;
                }
                if !same {
                    let ghost pre_rows = rows@;
                    let ghost newv = newrow@;
                    proof {
                        // the new row shrinks the old one
                        assert forall|q: int|
                            0 <= q < n && #[trigger] newv[q] implies pre_rows[i as int]@[q] by {
                            assert(newv[q] == f_val(pre_rows, deps@[i as int]@, empty_all, i as int, q));
                        }
                    }
                    rows[i] = newrow;
                    changed = true;
                    proof {
                        assert(rows@ =~= pre_rows.update(i as int, rows@[i as int]));
                        assert(rows@[i as int]@ == newv);
                        lemma_count_all_update(pre_rows, i as int, rows@[i as int]);
                        lemma_count_row_le(newv, pre_rows[i as int]@);
                        assert(exists|q: int| 0 <= q < n && !newv[q] && pre_rows[i as int]@[q]) by {
                            let q = choose|q: int| 0 <= q < n && newv[q] != pre_rows[i as int]@[q];
                            assert(!newv[q] && pre_rows[i as int]@[q]);
                        }
                        lemma_count_all_nonneg(rows@);
                        // any bounded solution stays below the shrunken row
                        assert forall|sol: Seq<Seq<bool>>| #[trigger]
                            is_solution(sol, init_v, free@, deps@, empty_all, n as int) implies (
                        forall|i2: int, b2: int|
                            0 <= i2 < n && 0 <= b2 < n && sol[i2][b2] ==> rows@[i2]@[b2]) by {
                            assert forall|i2: int, b2: int|
                                0 <= i2 < n && 0 <= b2 < n && sol[i2][b2] implies rows@[i2]@[
                                b2] by {
                                assert(pre_rows[i2]@[b2]);
                                if i2 == i as int {
                                    assert(sol[i2][b2] == f_val2(
                                        sol,
                                        deps@[i2]@,
                                        empty_all,
                                        i2,
                                        b2,
                                    ));
                                    assert(f_val(pre_rows, deps@[i2]@, empty_all, i2, b2)) by {
                                        if b2 != i2 && deps@[i2]@.len() > 0 {
                                            assert forall|j2: int|
                                                0 <= j2 < deps@[i2]@.len() implies pre_rows[
                                                #[trigger] deps@[i2]@[j2] as int]@[b2] by {
                                                assert(sol[deps@[i2]@[j2] as int][b2]);
                                            }
                                        }
                                    }
                                    assert(rows@[i2]@[b2] == newv[b2]);
                                }
                            }
                        }
                        // monotonicity: every meet can only lose bits
                        assert forall|k2: int, b2: int|
                            0 <= k2 < n && 0 <= b2 < n && free@[k2] && f_val(
                                rows@,
                                deps@[k2]@,
                                empty_all,
                                k2,
                                b2,
                            ) implies (#[trigger] rows@[k2]@[b2]) by {
                            assert(f_val(pre_rows, deps@[k2]@, empty_all, k2, b2)) by {
                                if b2 != k2 && deps@[k2]@.len() > 0 {
                                    assert forall|j: int|
                                        0 <= j < deps@[k2]@.len() implies pre_rows[
                                        #[trigger] deps@[k2]@[j] as int]@[b2] by {
                                        let d = deps@[k2]@[j] as int;
                                        assert(rows@[d]@[b2]);
                                        if d == i as int {
                                            assert(newv[b2]);
                                        }
                                    }
                                }
                            }
                            assert(pre_rows[k2]@[b2]);
                            if k2 == i as int {
                                assert(newv[b2] == f_val(
                                    pre_rows,
                                    deps@[k2]@,
                                    empty_all,
                                    k2,
                                    b2,
                                ));
                                assert(f_val(pre_rows, deps@[k2]@, empty_all, k2, b2));
                            }
                        }
                    }
                } else {
                    proof {
                        if !changed {
                            assert forall|b2: int| 0 <= b2 < n implies (#[trigger] rows@[
                                i as int]@[b2]) == f_val(
                                rows@,
                                deps@[i as int]@,
                                empty_all,
                                i as int,
                                b2,
                            ) by {
                                assert(newrow@[b2] == rows@[i as int]@[b2]);
                                assert(newrow@[b2] == f_val(
                                    rows@,
                                    deps@[i as int]@,
                                    empty_all,
                                    i as int,
                                    b2,
                                ));
                            }
                        }
                    }
                }
            }
            i = i + 1;
        }
        if !changed {
            break ;
        }
        proof {
            lemma_count_all_nonneg(rows@);
        }
    }
    rows
}

/// Some predecessor in `ps` is a known node of the graph.
pub open spec fn known_pred_exists<G: DirectedGraph>(g: &G, ps: Seq<usize>) -> bool {
    exists|j: int| 0 <= j < ps.len() && g.nodes_spec().contains(ps[j])
}

/// `d` lies in the dominator set of every known predecessor in `ps`.
pub open spec fn in_all_known_preds<G: DirectedGraph>(
    g: &G,
    doms: Map<usize, std::collections::HashSet<usize>>,
    ps: Seq<usize>,
    d: usize,
) -> bool {
    forall|j: int|
        0 <= j < ps.len() && g.nodes_spec().contains(#[trigger] ps[j]) ==> doms[ps[j]]@.contains(d)
}

/// The returned map solves the dominator-set equations: the start node
/// is dominated by itself alone; a node without a predecessor entry by
/// every node; and any other node by itself and whatever dominates all
/// of its known predecessors.
pub open spec fn dominator_sets_ok<G: DirectedGraph>(
    g: &G,
    preds: Map<usize, Vec<usize>>,
    doms: Map<usize, std::collections::HashSet<usize>>,
) -> bool {
    &&& (forall|x: usize| #[trigger] doms.contains_key(x) <==> g.nodes_spec().contains(x))
    &&& (g.nodes_spec().contains(g.start_spec()) ==> forall|d: usize|
        #[trigger] doms[g.start_spec()]@.contains(d) <==> d == g.start_spec())
    &&& (forall|x: usize, d: usize|
        g.nodes_spec().contains(x) && x != g.start_spec() && !preds.contains_key(x) ==> ((
        #[trigger] doms[x]@.contains(d)) <==> g.nodes_spec().contains(d)))
    &&& (forall|x: usize, d: usize|
        g.nodes_spec().contains(x) && x != g.start_spec() && preds.contains_key(x) ==> ((
        #[trigger] doms[x]@.contains(d)) <==> (d == x || (known_pred_exists(g, preds[x]@)
            && g.nodes_spec().contains(d) && in_all_known_preds(g, doms, preds[x]@, d)))))
}

/// The positions in `nodes` of the entries of `ps` that are known
/// nodes, in order.
pub open spec fn known_indices(nodes: Seq<usize>, ps: Seq<usize>) -> Seq<usize>
    decreases ps.len(),
{
    if ps.len() == 0 {
        Seq::empty()
    } else {
        known_indices(nodes, ps.drop_last()) + if nodes.contains(ps.last()) {
            seq![nodes.index_of(ps.last()) as usize]
        } else {
            Seq::empty()
        }
    }
}

proof fn lemma_known_indices_sound(nodes: Seq<usize>, ps: Seq<usize>, j: int)
    requires
        nodes.no_duplicates(),
        nodes.len() <= usize::MAX,
        0 <= j < known_indices(nodes, ps).len(),
    ensures
        exists|q: int|
            0 <= q < ps.len() && nodes.contains(#[trigger] ps[q]) && known_indices(nodes, ps)[j]
                as int == nodes.index_of(ps[q]),
        (known_indices(nodes, ps)[j] as int) < nodes.len(),
    decreases ps.len(),
{
    let ki = known_indices(nodes, ps);
    if ps.len() > 0 {
        let rest = known_indices(nodes, ps.drop_last());
        if j < rest.len() {
            lemma_known_indices_sound(nodes, ps.drop_last(), j);
            let q = choose|q: int|
                0 <= q < ps.drop_last().len() && nodes.contains(#[trigger] ps.drop_last()[q])
                    && rest[j] as int == nodes.index_of(ps.drop_last()[q]);
            assert(ps[q] == ps.drop_last()[q]);
            assert(ki[j] == rest[j]);
            assert(0 <= q < ps.len() && nodes.contains(ps[q]) && ki[j] as int == nodes.index_of(
                ps[q],
            ));
        } else {
            if !nodes.contains(ps.last()) {
                assert(ki =~= rest);
                assert(false);
            }
            assert(nodes.contains(ps.last()));
            assert(j == rest.len());
            let io = nodes.index_of(ps.last());
            assert(nodes[io] == ps.last());
            assert(0 <= io < nodes.len());
            assert(ki[j] == io as usize);
            assert(ki[j] as int == nodes.index_of(ps.last()));
            let q = ps.len() - 1;
            assert(0 <= q < ps.len() && nodes.contains(ps[q]) && ki[j] as int == nodes.index_of(
                ps[q],
            ));
            assert(nodes[nodes.index_of(ps.last())] == ps.last());
        }
    }
}

proof fn lemma_known_indices_complete(nodes: Seq<usize>, ps: Seq<usize>, q: int)
    requires
        nodes.no_duplicates(),
        nodes.len() <= usize::MAX,
        0 <= q < ps.len(),
        nodes.contains(ps[q]),
    ensures
        known_indices(nodes, ps).contains(nodes.index_of(ps[q]) as usize),
    decreases ps.len(),
{
    let ki = known_indices(nodes, ps);
    if q == ps.len() - 1 {
        assert(ps.last() == ps[q]);
        assert(ki[ki.len() - 1] == nodes.index_of(ps[q]) as usize);
    } else {
        assert(ps.drop_last()[q] == ps[q]);
        lemma_known_indices_complete(nodes, ps.drop_last(), q);
        let rest = known_indices(nodes, ps.drop_last());
        let j = choose|j: int| 0 <= j < rest.len() && rest[j] == nodes.index_of(ps[q]) as usize;
        assert(ki[j] == rest[j]);
    }
}

proof fn lemma_known_indices_nonempty(nodes: Seq<usize>, ps: Seq<usize>)
    requires
        known_indices(nodes, ps).len() > 0,
    ensures
        exists|q: int| 0 <= q < ps.len() && nodes.contains(#[trigger] ps[q]),
    decreases ps.len(),
{
    if ps.len() > 0 {
        if nodes.contains(ps.last()) {
            assert(0 <= ps.len() - 1 < ps.len() && nodes.contains(ps[ps.len() - 1]));
        } else {
            lemma_known_indices_nonempty(nodes, ps.drop_last());
            let q = choose|q: int|
                0 <= q < ps.drop_last().len() && nodes.contains(#[trigger] ps.drop_last()[q]);
            assert(ps[q] == ps.drop_last()[q]);
            assert(nodes.contains(ps[q]));
        }
    }
}

/// Computes the set of dominators of every node by fixed-point
/// iteration over the intersection equations.  The result is the
/// greatest solution of those equations: it contains every other
/// solution pointwise, which pins the all-paths dominator sets.
pub fn compute_dominators<G: DirectedGraph>(
    graph: &G,
    predecessors: &std::collections::HashMap<usize, Vec<usize>>,
) -> (m: std::collections::HashMap<usize, std::collections::HashSet<usize>>)
    requires
        graph.graph_wf(),
        graph.nodes_spec().no_duplicates(),
    ensures
        dominator_sets_ok(graph, predecessors@, m@),
        forall|m2: Map<usize, std::collections::HashSet<usize>>| #[trigger]
            dominator_sets_ok(graph, predecessors@, m2) ==> (forall|x: usize, dd: usize|
                m2.contains_key(x) && #[trigger] m2[x]@.contains(dd) ==> m@[x]@.contains(dd)),
{
    broadcast use vstd::std_specs::hash::group_hash_axioms;

    let nodes = graph.nodes();
    let n = nodes.len();
    let start = graph.start_node();
    let mut init: Vec<Vec<bool>> = Vec::new();
    let mut free: Vec<bool> = Vec::new();
    let mut deps: Vec<Vec<usize>> = Vec::new();
    let mut i: usize = 0;
    while i < n
        invariant
            graph.graph_wf(),
            graph.nodes_spec().no_duplicates(),
            nodes@ == graph.nodes_spec(),
            n == nodes@.len(),
            start == graph.start_spec(),
            i <= n,
            init@.len() == i,
            free@.len() == i,
            deps@.len() == i,
            forall|k: int| 0 <= k < i ==> (#[trigger] init@[k]@).len() == n,
            forall|k: int, j: int|
                0 <= k < i && 0 <= j < deps@[k]@.len() ==> (#[trigger] deps@[k]@[j]) < n,
            forall|k: int|
                0 <= k < i && nodes@[k] == start ==> !free@[k] && (forall|b: int|
                    0 <= b < n ==> ((#[trigger] init@[k]@[b]) <==> b == k)),
            forall|k: int|
                0 <= k < i && nodes@[k] != start && !predecessors@.contains_key(nodes@[k]) ==> !(
                #[trigger] free@[k]) && (forall|b: int| 0 <= b < n ==> (#[trigger] init@[k]@[b])),
            forall|k: int|
                0 <= k < i && nodes@[k] != start && predecessors@.contains_key(nodes@[k]) ==> (
                #[trigger] free@[k]) && (forall|b: int| 0 <= b < n ==> (#[trigger] init@[k]@[b])),
            forall|k: int|
                0 <= k < i && #[trigger] free@[k] ==> deps@[k]@ == known_indices(
                    nodes@,
                    predecessors@[nodes@[k]]@,
                ),
        decreases n - i,
    {
        let ghost pre_init = init@;
        let ghost pre_free = free@;
        let ghost pre_deps = deps@;
        let x = nodes[i];
        proof {
            assert(nodes@.contains(x)) by {
                assert(nodes@[i as int] == x);
            }
            crate::graph::lemma_index_of_unique(nodes@, x, i as int);
        }
        if x == start {
            let mut row: Vec<bool> = Vec::new();
            let mut b: usize = 0;
            while b < n
                invariant
                    b <= n,
                    i < n,
                    row@.len() == b,
                    forall|q: int| 0 <= q < b ==> ((#[trigger] row@[q]) <==> q == i),
                decreases n - b,
            {
                row.push(b == i);
                b = b + 1;
            }
            init.push(row);
            free.push(false);
            deps.push(Vec::new());
        } else {
            let mut row: Vec<bool> = Vec::new();
            let mut b: usize = 0;
            while b < n
                invariant
                    b <= n,
                    row@.len() == b,
                    forall|q: int| 0 <= q < b ==> (#[trigger] row@[q]),
                decreases n - b,
            {
                row.push(true);
                b = b + 1;
            }
            init.push(row);
            match predecessors.get(&x) {
                Some(plist) => {
                    proof {
                        assert(predecessors@.contains_key(x) && plist@ == predecessors@[x]@);
                    }
                    free.push(true);
                    let mut dl: Vec<usize> = Vec::new();
                    let mut q: usize = 0;
                    while q < plist.len()
                        invariant
                            graph.graph_wf(),
                            graph.nodes_spec().no_duplicates(),
                            nodes@ == graph.nodes_spec(),
                            n == nodes@.len(),
                            q <= plist@.len(),
                            dl@ == known_indices(nodes@, plist@.subrange(0, q as int)),
                        decreases plist@.len() - q,
                    {
                        let p = plist[q];
                        let ghost sub = plist@.subrange(0, q as int);
                        let ghost sub1 = plist@.subrange(0, q as int + 1);
                        proof {
                            assert(sub1.drop_last() =~= sub);
                            assert(sub1.last() == p);
                        }
                        match crate::graph::find_index(&nodes, p) {
                            Some(pi) => {
                                proof {
                                    crate::graph::lemma_index_of_unique(nodes@, p, pi as int);
                                    assert(nodes@.contains(p)) by {
                                        assert(nodes@[pi as int] == p);
                                    }
                                }
                                dl.push(pi);
                                proof {
                                    assert(known_indices(nodes@, sub1) == known_indices(
                                        nodes@,
                                        sub,
                                    ) + seq![nodes@.index_of(p) as usize]);
                                    assert(dl@ =~= known_indices(nodes@, sub) + seq![
                                        nodes@.index_of(p) as usize]);
                                }
                            },
                            None => {
                                proof {
                                    assert(known_indices(nodes@, sub1) == known_indices(
                                        nodes@,
                                        sub,
                                    ) + Seq::<usize>::empty());
                                    assert(known_indices(nodes@, sub)
                                        + Seq::<usize>::empty() =~= known_indices(nodes@, sub));
                                }
                            },
                        }
                        q = q + 1;
                    }
                    proof {
                        assert(plist@.subrange(0, plist@.len() as int) =~= plist@);
                    }
                    deps.push(dl);
                    proof {
                        assert forall|k: int, j: int|
                            0 <= k < i + 1 && 0 <= j < deps@[k]@.len() implies (
                        #[trigger] deps@[k]@[j]) < n by {
                            if k == i as int {
                                lemma_known_indices_sound(nodes@, plist@, j);
                            }
                        }
                    }
                },
                None => {
                    proof {
                        assert(!predecessors@.contains_key(x));
                    }
                    free.push(false);
                    deps.push(Vec::new());
                },
            }
        }
        proof {
            assert(init@.len() == i + 1 && free@.len() == i + 1 && deps@.len() == i + 1);
            assert(forall|k: int|
                0 <= k < i ==> (#[trigger] init@[k]) == pre_init[k] && free@[k] == pre_free[k]
                    && deps@[k] == pre_deps[k]);
            assert forall|k: int|
                0 <= k < i + 1 && nodes@[k] != start && !predecessors@.contains_key(
                    nodes@[k],
                ) implies !(#[trigger] free@[k]) && (forall|b: int|
                0 <= b < n ==> (#[trigger] init@[k]@[b])) by {
                if k == i as int {
                    assert(nodes@[k] == x);
                }
            }
            assert forall|k: int|
                0 <= k < i + 1 && nodes@[k] != start && predecessors@.contains_key(
                    nodes@[k],
                ) implies (#[trigger] free@[k]) && (forall|b: int|
                0 <= b < n ==> (#[trigger] init@[k]@[b])) by {
                if k == i as int {
                    assert(nodes@[k] == x);
                }
            }
        }
        i = i + 1;
    }
    let rows = solve_fixpoint(n, init, &free, &deps, false);
    let ghost rows_v = rows@;
    let ghost free_v = free@;
    let ghost deps_v = deps@;
    let mut m: std::collections::HashMap<usize, std::collections::HashSet<usize>> =
        std::collections::HashMap::new();
    let mut i: usize = 0;
    while i < n
        invariant
            graph.graph_wf(),
            graph.nodes_spec().no_duplicates(),
            nodes@ == graph.nodes_spec(),
            n == nodes@.len(),
            i <= n,
            rows@ == rows_v,
            rows@.len() == n,
            forall|k: int| 0 <= k < n ==> (#[trigger] rows@[k]@).len() == n,
            forall|x: usize| #[trigger]
                m@.contains_key(x) <==> nodes@.subrange(0, i as int).contains(x),
            forall|k: int, d: usize|
                0 <= k < i ==> ((#[trigger] m@[nodes@[k]]@.contains(d)) <==> (nodes@.contains(d)
                    && rows@[k]@[nodes@.index_of(d)])),
        decreases n - i,
    {
        let x = nodes[i];
        proof {
            assert(nodes@.contains(x)) by {
                assert(nodes@[i as int] == x);
            }
            crate::graph::lemma_index_of_unique(nodes@, x, i as int);
        }
        let mut hs: std::collections::HashSet<usize> = std::collections::HashSet::new();
        let mut b: usize = 0;
        while b < n
            invariant
                graph.graph_wf(),
                graph.nodes_spec().no_duplicates(),
                nodes@ == graph.nodes_spec(),
                n == nodes@.len(),
                i < n,
                b <= n,
                rows@ == rows_v,
                rows@.len() == n,
                forall|k: int| 0 <= k < n ==> (#[trigger] rows@[k]@).len() == n,
                forall|d: usize| #[trigger]
                    hs@.contains(d) <==> exists|bb: int|
                        0 <= bb < b && nodes@[bb] == d && rows@[i as int]@[bb],
            decreases n - b,
        {
            if rows[i][b] {
                hs.insert(nodes[b]);
                proof {
                    assert forall|d: usize| #[trigger]
                        hs@.contains(d) <==> exists|bb: int|
                            0 <= bb < b + 1 && nodes@[bb] == d && rows@[i as int]@[bb] by {
                        if d == nodes@[b as int] {
                            assert(0 <= b < b + 1 && nodes@[b as int] == d && rows@[i as int]@[
                                b as int]);
                        } else {
                            if exists|bb: int|
                                0 <= bb < b + 1 && nodes@[bb] == d && rows@[i as int]@[bb] {
                                let bb = choose|bb: int|
                                    0 <= bb < b + 1 && nodes@[bb] == d && rows@[i as int]@[bb];
                                assert(bb < b);
                                assert(0 <= bb < b && nodes@[bb] == d && rows@[i as int]@[bb]);
                            }
                        }
                    }
                }
            } else {
                proof {
                    assert forall|d: usize| #[trigger]
                        hs@.contains(d) <==> exists|bb: int|
                            0 <= bb < b + 1 && nodes@[bb] == d && rows@[i as int]@[bb] by {
                        if !hs@.contains(d) {
                            if exists|bb: int|
                                0 <= bb < b + 1 && nodes@[bb] == d && rows@[i as int]@[bb] {
                                let bb = choose|bb: int|
                                    0 <= bb < b + 1 && nodes@[bb] == d && rows@[i as int]@[bb];
                                assert(bb < b);
                                assert(0 <= bb < b && nodes@[bb] == d && rows@[i as int]@[bb]);
                            }
                        }
                    }
                }
            }
            b = b + 1;
        }
        let ghost sub = nodes@.subrange(0, i as int);
        let ghost sub1 = nodes@.subrange(0, i as int + 1);
        proof {
            assert(sub1 =~= sub.push(x));
        }
        let ghost pre_m = m@;
        m.insert(x, hs);
        proof {
            assert forall|y: usize| #[trigger] m@.contains_key(y) <==> sub1.contains(y) by {
                crate::graph::lemma_push_contains(sub, x, y);
            }
            assert forall|k: int, d: usize|
                0 <= k < i + 1 implies ((#[trigger] m@[nodes@[k]]@.contains(d)) <==> (
            nodes@.contains(d) && rows@[k]@[nodes@.index_of(d)])) by {
                if k == i as int {
                    assert(m@[nodes@[k]] == hs);
                    if hs@.contains(d) {
                        let bb = choose|bb: int|
                            0 <= bb < n && nodes@[bb] == d && rows@[i as int]@[bb];
                        assert(nodes@.contains(d)) by {
                            assert(nodes@[bb] == d);
                        }
                        crate::graph::lemma_index_of_unique(nodes@, d, bb);
                    }
                    if nodes@.contains(d) && rows@[k]@[nodes@.index_of(d)] {
                        let bb = nodes@.index_of(d);
                        assert(nodes@[bb] == d);
                        assert(0 <= bb < n && nodes@[bb] == d && rows@[i as int]@[bb]);
                    }
                } else {
                    assert(nodes@[k] != nodes@[i as int]);
                    assert(m@[nodes@[k]] == pre_m[nodes@[k]]);
                }
            }
        }
        i = i + 1;
    }
    proof {
        assert(nodes@.subrange(0, n as int) =~= nodes@);
        lemma_dominator_sets_ok(graph, predecessors@, m@, nodes@, rows_v, free_v, deps_v, start);
        let nn = n as int;
        // the iteration shrinks from full sets, so any other solution
        // of the equations lies inside the result
        assert forall|m2: Map<usize, std::collections::HashSet<usize>>| #[trigger]
            dominator_sets_ok(graph, predecessors@, m2) implies (forall|x: usize, dd: usize|
            m2.contains_key(x) && #[trigger] m2[x]@.contains(dd) ==> m@[x]@.contains(dd)) by {
            let sol = Seq::new(
                nn as nat,
                |i: int|
                    Seq::new(
                        nn as nat,
                        |b: int| m2[nodes@[i]]@.contains(nodes@[b]),
                    ),
            );
            assert(is_solution(sol, init@, free@, deps@, false, nn)) by {
                assert forall|i: int| 0 <= i < nn && !free@[i] implies (#[trigger] sol[i])
                    == init@[i]@ by {
                    let x = nodes@[i];
                    assert(nodes@.contains(x)) by {
                        assert(nodes@[i] == x);
                    }
                    assert(m2.contains_key(x));
                    if x == start {
                        assert(sol[i] =~= init@[i]@) by {
                            assert forall|b: int| 0 <= b < nn implies sol[i][b] == init@[i]@[b] by {
                                assert(sol[i][b] == m2[start]@.contains(nodes@[b]));
                                assert(m2[start]@.contains(nodes@[b]) <==> nodes@[b] == start);
                                if nodes@[b] == start {
                                    crate::graph::lemma_index_of_unique(nodes@, start, b);
                                    crate::graph::lemma_index_of_unique(nodes@, start, i);
                                }
                                assert((init@[i]@[b]) <==> b == i);
                            }
                        }
                    } else {
                        assert(!predecessors@.contains_key(x));
                        assert(sol[i] =~= init@[i]@) by {
                            assert forall|b: int| 0 <= b < nn implies sol[i][b] == init@[i]@[b] by {
                                assert(m2[x]@.contains(nodes@[b]) <==> graph.nodes_spec().contains(
                                    nodes@[b],
                                ));
                                assert(nodes@.contains(nodes@[b]));
                                assert(init@[i]@[b]);
                            }
                        }
                    }
                }
                assert forall|i: int, b: int|
                    0 <= i < nn && 0 <= b < nn && free@[i] implies ((#[trigger] sol[i][b])
                    == f_val2(sol, deps@[i]@, false, i, b)) by {
                    let x = nodes@[i];
                    let dd = nodes@[b];
                    assert(nodes@.contains(x)) by {
                        assert(nodes@[i] == x);
                    }
                    assert(nodes@.contains(dd)) by {
                        assert(nodes@[b] == dd);
                    }
                    assert(x != start && predecessors@.contains_key(x));
                    assert(deps@[i]@ == known_indices(nodes@, predecessors@[x]@));
                    assert(m2[x]@.contains(dd) <==> (dd == x || (known_pred_exists(
                        graph,
                        predecessors@[x]@,
                    ) && graph.nodes_spec().contains(dd) && in_all_known_preds(
                        graph,
                        m2,
                        predecessors@[x]@,
                        dd,
                    ))));
                    assert((dd == x) <==> (b == i)) by {
                        if dd == x {
                            crate::graph::lemma_index_of_unique(nodes@, x, b);
                            crate::graph::lemma_index_of_unique(nodes@, x, i);
                        }
                    }
                    if deps@[i]@.len() == 0 {
                        // no known predecessor, so the equation leaves
                        // only the node itself
                        assert(!known_pred_exists(graph, predecessors@[x]@)) by {
                            if known_pred_exists(graph, predecessors@[x]@) {
                                let q0 = choose|q: int|
                                    0 <= q < predecessors@[x]@.len() && graph.nodes_spec().contains(
                                        #[trigger] predecessors@[x]@[q],
                                    );
                                lemma_known_indices_complete(nodes@, predecessors@[x]@, q0);
                            }
                        }
                    } else {
                        lemma_known_indices_nonempty(nodes@, predecessors@[x]@);
                        assert(known_pred_exists(graph, predecessors@[x]@));
                        if dep_meet2(sol, deps@[i]@, false, b) {
                            assert forall|j: int|
                                0 <= j < predecessors@[x]@.len() && graph.nodes_spec().contains(
                                    #[trigger] predecessors@[x]@[j],
                                ) implies m2[predecessors@[x]@[j]]@.contains(dd) by {
                                let p = predecessors@[x]@[j];
                                lemma_known_indices_complete(nodes@, predecessors@[x]@, j);
                                let pk = nodes@.index_of(p);
                                assert(nodes@[pk] == p);
                                assert(deps@[i]@.contains(pk as usize));
                                let jj = choose|jj: int|
                                    0 <= jj < deps@[i]@.len() && deps@[i]@[jj] == pk as usize;
                                assert(sol[deps@[i]@[jj] as int][b]);
                                assert(sol[pk][b] == m2[nodes@[pk]]@.contains(nodes@[b]));
                            }
                            assert(in_all_known_preds(graph, m2, predecessors@[x]@, dd));
                        }
                        if b != i && in_all_known_preds(graph, m2, predecessors@[x]@, dd) {
                            assert(dep_meet2(sol, deps@[i]@, false, b)) by {
                                assert forall|j: int|
                                    0 <= j < deps@[i]@.len() implies sol[#[trigger] deps@[i]@[j]
                                    as int][b] by {
                                    lemma_known_indices_sound(nodes@, predecessors@[x]@, j);
                                    let q = choose|q: int|
                                        0 <= q < predecessors@[x]@.len()
                                            && graph.nodes_spec().contains(
                                            #[trigger] predecessors@[x]@[q],
                                        ) && deps@[i]@[j] as int == nodes@.index_of(
                                            predecessors@[x]@[q],
                                        );
                                    let p = predecessors@[x]@[q];
                                    assert(m2[p]@.contains(dd));
                                    let pk = nodes@.index_of(p);
                                    assert(nodes@[pk] == p);
                                    assert(sol[pk][b] == m2[nodes@[pk]]@.contains(nodes@[b]));
                                }
                            }
                        }
                    }
                }
                assert forall|i: int, b: int|
                    0 <= i < nn && 0 <= b < nn && (#[trigger] sol[i][b]) implies init@[i]@[b] by {
                    if free@[i] {
                        assert(init@[i]@[b]);
                    } else {
                        assert(sol[i] == init@[i]@);
                    }
                }
            }
            assert forall|x: usize, dd: usize|
                m2.contains_key(x) && #[trigger] m2[x]@.contains(dd) implies m@[x]@.contains(
                dd) by {
                assert(graph.nodes_spec().contains(x));
                let i = nodes@.index_of(x);
                assert(nodes@[i] == x);
                assert(graph.nodes_spec().contains(dd)) by {
                    if x == start {
                        assert(m2[start]@.contains(dd) <==> dd == start);
                    } else if !predecessors@.contains_key(x) {
                        assert(m2[x]@.contains(dd) <==> graph.nodes_spec().contains(dd));
                    } else {
                        assert(m2[x]@.contains(dd) <==> (dd == x || (known_pred_exists(
                            graph,
                            predecessors@[x]@,
                        ) && graph.nodes_spec().contains(dd) && in_all_known_preds(
                            graph,
                            m2,
                            predecessors@[x]@,
                            dd,
                        ))));
                    }
                }
                let b = nodes@.index_of(dd);
                assert(nodes@[b] == dd);
                assert(sol[i][b]);
                assert(rows@[i]@[b]);
                assert(m@[nodes@[i]]@.contains(dd) <==> (nodes@.contains(dd) && rows@[i]@[
                    nodes@.index_of(dd)]));
            }
        }
    }
    m
}

/// Carries the solver's pointwise guarantees over to the set-level
/// equations of [`dominator_sets_ok`].
proof fn lemma_dominator_sets_ok<G: DirectedGraph>(
    g: &G,
    preds: Map<usize, Vec<usize>>,
    m: Map<usize, std::collections::HashSet<usize>>,
    nodes: Seq<usize>,
    rows: Seq<Vec<bool>>,
    free: Seq<bool>,
    deps: Seq<Vec<usize>>,
    start: usize,
)
    requires
        nodes == g.nodes_spec(),
        nodes.no_duplicates(),
        nodes.len() <= usize::MAX,
        start == g.start_spec(),
        rows.len() == nodes.len(),
        free.len() == nodes.len(),
        deps.len() == nodes.len(),
        forall|k: int| 0 <= k < nodes.len() ==> (#[trigger] rows[k]@).len() == nodes.len(),
        forall|x: usize| #[trigger] m.contains_key(x) <==> nodes.contains(x),
        forall|k: int, d: usize|
            0 <= k < nodes.len() ==> ((#[trigger] m[nodes[k]]@.contains(d)) <==> (nodes.contains(d)
                && rows[k]@[nodes.index_of(d)])),
        forall|k: int|
            0 <= k < nodes.len() && nodes[k] == start ==> !free[k] && (forall|b: int|
                0 <= b < nodes.len() ==> ((#[trigger] rows[k]@[b]) <==> b == k)),
        forall|k: int|
            0 <= k < nodes.len() && nodes[k] != start && !preds.contains_key(nodes[k]) ==> !(
            #[trigger] free[k]) && (forall|b: int|
                0 <= b < nodes.len() ==> (#[trigger] rows[k]@[b])),
        forall|k: int|
            0 <= k < nodes.len() && nodes[k] != start && preds.contains_key(nodes[k]) ==> (
            #[trigger] free[k]),
        forall|k: int|
            0 <= k < nodes.len() && #[trigger] free[k] ==> deps[k]@ == known_indices(
                nodes,
                preds[nodes[k]]@,
            ),
        forall|k: int, b: int|
            0 <= k < nodes.len() && 0 <= b < nodes.len() && free[k] ==> ((#[trigger] rows[k]@[b])
                == f_val(rows, deps[k]@, false, k, b)),
    ensures
        dominator_sets_ok(g, preds, m),
{
    let n = nodes.len() as int;
    if nodes.contains(start) {
        let k = nodes.index_of(start);
        assert(nodes[k] == start);
        assert forall|d: usize| #[trigger] m[start]@.contains(d) <==> d == start by {
            if m[start]@.contains(d) {
                assert(nodes.contains(d) && rows[k]@[nodes.index_of(d)]);
                assert(nodes.index_of(d) == k);
                assert(nodes[nodes.index_of(d)] == d);
            }
            if d == start {
                assert(nodes.contains(d) && rows[k]@[nodes.index_of(d)]);
            }
        }
    }
    assert forall|x: usize, d: usize|
        nodes.contains(x) && x != start && !preds.contains_key(x) implies ((
    #[trigger] m[x]@.contains(d)) <==> nodes.contains(d)) by {
        let k = nodes.index_of(x);
        assert(nodes[k] == x);
        if nodes.contains(d) {
            let bd = nodes.index_of(d);
            assert(nodes[bd] == d);
            assert(rows[k]@[bd]);
        }
    }
    assert forall|x: usize, d: usize|
        nodes.contains(x) && x != start && preds.contains_key(x) implies ((
    #[trigger] m[x]@.contains(d)) <==> (d == x || (known_pred_exists(g, preds[x]@)
        && nodes.contains(d) && in_all_known_preds(g, m, preds[x]@, d)))) by {
        let k = nodes.index_of(x);
        assert(nodes[k] == x);
        assert(free[k]);
        let dk = deps[k]@;
        assert(dk == known_indices(nodes, preds[x]@));
        if m[x]@.contains(d) {
            let bd = nodes.index_of(d);
            assert(nodes.contains(d));
            assert(nodes[bd] == d);
            assert(rows[k]@[bd]);
            assert(f_val(rows, dk, false, k, bd));
            if bd == k {
                assert(d == x);
            } else {
                assert(dep_meet(rows, dk, false, bd));
                assert(dk.len() > 0);
                lemma_known_indices_nonempty(nodes, preds[x]@);
                assert(known_pred_exists(g, preds[x]@));
                assert forall|j: int|
                    0 <= j < preds[x]@.len() && nodes.contains(#[trigger] preds[x]@[j]) implies m[
                    preds[x]@[j]]@.contains(d) by {
                    let p = preds[x]@[j];
                    lemma_known_indices_complete(nodes, preds[x]@, j);
                    let pk = nodes.index_of(p);
                    assert(nodes[pk] == p);
                    assert(dk.contains(pk as usize));
                    let jj = choose|jj: int| 0 <= jj < dk.len() && dk[jj] == pk as usize;
                    assert(rows[dk[jj] as int]@[bd]);
                    assert(0 <= pk < nodes.len());
                    assert(dk[jj] as int == pk);
                    assert(rows[pk]@[bd]);
                    assert(m[nodes[pk]]@.contains(d) <==> (nodes.contains(d) && rows[pk]@[
                        nodes.index_of(d)]));
                }
            }
        }
        if d == x {
            assert(rows[k]@[k]) by {
                assert(f_val(rows, dk, false, k, k) == rows[k]@[k]);
            }
            assert(m[x]@.contains(d)) by {
                assert(nodes.contains(d) && rows[k]@[nodes.index_of(d)]);
            }
        } else if known_pred_exists(g, preds[x]@) && nodes.contains(d) && in_all_known_preds(
            g,
            m,
            preds[x]@,
            d,
        ) {
            let bd = nodes.index_of(d);
            assert(nodes[bd] == d);
            assert(dep_meet(rows, dk, false, bd)) by {
                let q0 = choose|q: int|
                    0 <= q < preds[x]@.len() && nodes.contains(#[trigger] preds[x]@[q]);
                lemma_known_indices_complete(nodes, preds[x]@, q0);
                assert(dk.len() > 0);
                assert forall|j: int| 0 <= j < dk.len() implies rows[#[trigger] dk[j] as int]@[
                    bd] by {
                    lemma_known_indices_sound(nodes, preds[x]@, j);
                    let q = choose|q: int|
                        0 <= q < preds[x]@.len() && nodes.contains(#[trigger] preds[x]@[q]) && dk[j]
                            as int == nodes.index_of(preds[x]@[q]);
                    let p = preds[x]@[q];
                    assert(m[p]@.contains(d));
                    let pk = nodes.index_of(p);
                    assert(nodes[pk] == p);
                    assert(m[nodes[pk]]@.contains(d) <==> (nodes.contains(d) && rows[pk]@[
                        nodes.index_of(d)]));
                }
            }
            assert(f_val(rows, dk, false, k, bd));
            assert(rows[k]@[bd]);
            assert(m[x]@.contains(d));
        }
    }
}

} // verus!
