//! Control-flow-graph analyses over one function body: block-level
//! predecessors, dominator sets, and post-dominator sets.
//!
//! Blocks are identified by their index in the body; block 0 is the
//! entry.  The dominator-set computations reuse the shared
//! intersection-equation solver.

use crate::directed_graph::{dep_meet, f_val, solve_fixpoint, DirectedGraph};
use crate::ir::Body;
use vstd::prelude::*;

verus! {

/// A body's block graph, with its successor lists cached.
pub struct ControlFlowGraphAnalysis<'a> {
    body: &'a Body,
    successors: std::collections::HashMap<usize, Vec<usize>>,
}

impl<'a> DirectedGraph for ControlFlowGraphAnalysis<'a> {
    closed spec fn nodes_spec(&self) -> Seq<usize> {
        Seq::new(self.body.blocks@.len(), |i: int| i as usize)
    }

    closed spec fn successors_spec(&self, n: usize) -> Seq<usize> {
        if (n as int) < self.body.blocks@.len() {
            self.body.blocks@[n as int].terminator.successors_spec()
        } else {
            Seq::empty()
        }
    }

    closed spec fn start_spec(&self) -> usize {
        0
    }

    closed spec fn graph_wf(&self) -> bool {
        &&& (forall|n: usize|
            (n as int) < self.body.blocks@.len() ==> (#[trigger] self.successors@.contains_key(n))
                && self.successors@[n]@ == self.body.blocks@[n as int].terminator.successors_spec())
        &&& (forall|n: usize| #[trigger]
            self.successors@.contains_key(n) ==> (n as int) < self.body.blocks@.len())
    }

    fn nodes(&self) -> (r: Vec<usize>) {
        let mut r: Vec<usize> = Vec::new();
        let mut i: usize = 0;
        while i < self.body.blocks.len()
            invariant
                i <= self.body.blocks@.len(),
                r@.len() == i,
                forall|q: int| 0 <= q < i ==> (#[trigger] r@[q]) == q as usize,
            decreases self.body.blocks@.len() - i,
        {
            r.push(i);
            i = i + 1;
        }
        proof {
            assert(r@ =~= self.nodes_spec());
        }
        r
    }

    fn successors_of(&self, n: usize) -> (r: Vec<usize>) {
        broadcast use vstd::std_specs::hash::group_hash_axioms;

        match self.successors.get(&n) {
            Some(v) => v.clone(),
            None => {
                proof {
                    if (n as int) < self.body.blocks@.len() {
                        assert(self.successors@.contains_key(n));
                    }
                }
                Vec::new()
            },
        }
    }

    fn start_node(&self) -> (r: usize) {
        0
    }
}

impl<'a> ControlFlowGraphAnalysis<'a> {
    /// Builds the block graph of a body, caching each block's
    /// successor list.
    pub fn new(body: &'a Body) -> (r: Self)
        ensures
            r.graph_wf(),
            r.nodes_spec() == Seq::new(body.blocks@.len(), |i: int| i as usize),
            forall|n: usize|
                (n as int) < body.blocks@.len() ==> (#[trigger] r.successors_spec(n))
                    == body.blocks@[n as int].terminator.successors_spec(),
            forall|n: usize|
                (n as int) >= body.blocks@.len() ==> (#[trigger] r.successors_spec(n))
                    == Seq::<usize>::empty(),
            r.start_spec() == 0,
            r.nodes_spec().no_duplicates(),
    {
        broadcast use vstd::std_specs::hash::group_hash_axioms;

        let mut successors: std::collections::HashMap<usize, Vec<usize>> =
            std::collections::HashMap::new();
        let mut i: usize = 0;
        while i < body.blocks.len()
            invariant
                i <= body.blocks@.len(),
                forall|n: usize|
                    (n as int) < i ==> (#[trigger] successors@.contains_key(n)) && successors@[n]@
                        == body.blocks@[n as int].terminator.successors_spec(),
                forall|n: usize| #[trigger] successors@.contains_key(n) ==> (n as int) < i,
            decreases body.blocks@.len() - i,
        {
            let succs = body.blocks[i].terminator.successors();
            successors.insert(i, succs);
            proof {
                assert forall|n2: usize|
                    (n2 as int) < i + 1 implies (#[trigger] successors@.contains_key(n2))
                    && successors@[n2]@ == body.blocks@[n2 as int].terminator.successors_spec() by {
                    if (n2 as int) == i as int {
                        assert(n2 == i);
                    }
                }
            }
            i = i + 1;
        }
        let r = ControlFlowGraphAnalysis { body, successors };
        proof {
            assert(r.nodes_spec().no_duplicates()) by {
                assert(forall|p: int, q: int|
                    0 <= p < q < r.nodes_spec().len() ==> r.nodes_spec()[p] != r.nodes_spec()[q]);
            }
        }
        r
    }

    /// The predecessors of every block that is the target of at least
    /// one edge: block `b` is listed under `s` exactly when `s` is
    /// among `b`'s successors, each predecessor once.
    pub fn predecessors(&self) -> (m: std::collections::HashMap<usize, Vec<usize>>)
        requires
            self.graph_wf(),
        ensures
            forall|s: usize| #[trigger]
                m@.contains_key(s) <==> exists|b: usize|
                    (b as int) < self.body_len() && #[trigger] self.successors_spec(b).contains(s),
            forall|s: usize| #[trigger]
                m@.contains_key(s) ==> m@[s]@.no_duplicates() && (forall|b: usize|
                    #[trigger] m@[s]@.contains(b) <==> ((b as int) < self.body_len()
                        && self.successors_spec(b).contains(s))),
    {
        compute_preds_impl(self)
    }

    /// Number of blocks in the underlying body.
    pub closed spec fn body_len(&self) -> int {
        self.body.blocks@.len() as int
    }
}

/// Computes block predecessors: block `b` is recorded under `s`
/// exactly when `s` is among `b`'s successors; only edge targets get
/// an entry, and each predecessor is listed once.
fn compute_preds_impl<'a>(g: &ControlFlowGraphAnalysis<'a>) -> (m: std::collections::HashMap<
    usize,
    Vec<usize>,
>)
    requires
        g.graph_wf(),
    ensures
        forall|s: usize| #[trigger]
            m@.contains_key(s) <==> exists|b: usize|
                (b as int) < g.body_len() && #[trigger] g.successors_spec(b).contains(s),
        forall|s: usize| #[trigger]
            m@.contains_key(s) ==> m@[s]@.no_duplicates() && (forall|b: usize|
                #[trigger] m@[s]@.contains(b) <==> ((b as int) < g.body_len()
                    && g.successors_spec(b).contains(s))),
{
    broadcast use vstd::std_specs::hash::group_hash_axioms;

    let mut m: std::collections::HashMap<usize, Vec<usize>> = std::collections::HashMap::new();
    let nodes = g.nodes();
    proof {
        assert(nodes@.len() == g.body_len());
        assert(forall|q: int| 0 <= q < nodes@.len() ==> (#[trigger] nodes@[q]) == q as usize);
    }
    let mut b: usize = 0;
    while b < nodes.len()
        invariant
            g.graph_wf(),
            nodes@.len() == g.body_len(),
            forall|q: int| 0 <= q < nodes@.len() ==> (#[trigger] nodes@[q]) == q as usize,
            b <= nodes@.len(),
            forall|s: usize| #[trigger]
                m@.contains_key(s) <==> exists|b2: usize|
                    (b2 as int) < b && #[trigger] g.successors_spec(b2).contains(s),
            forall|s: usize| #[trigger]
                m@.contains_key(s) ==> m@[s]@.no_duplicates() && (forall|b2: usize|
                    #[trigger] m@[s]@.contains(b2) <==> ((b2 as int) < b && g.successors_spec(
                        b2,
                    ).contains(s))),
        decreases nodes@.len() - b,
    {
        let succs = g.successors_of(b);
        let mut j: usize = 0;
        while j < succs.len()
            invariant
                g.graph_wf(),
                nodes@.len() == g.body_len(),
                (b as int) < g.body_len(),
                succs@ == g.successors_spec(b),
                j <= succs@.len(),
                forall|s: usize| #[trigger]
                    m@.contains_key(s) <==> (exists|b2: usize|
                        (b2 as int) < b && #[trigger] g.successors_spec(b2).contains(s))
                        || succs@.subrange(0, j as int).contains(s),
                forall|s: usize| #[trigger]
                    m@.contains_key(s) ==> m@[s]@.no_duplicates() && (forall|b2: usize|
                        #[trigger] m@[s]@.contains(b2) <==> (((b2 as int) < b
                            && g.successors_spec(b2).contains(s)) || (b2 == b && succs@.subrange(
                            0,
                            j as int,
                        ).contains(s)))),
            decreases succs@.len() - j,
        {
            let s = succs[j];
            let ghost subj = succs@.subrange(0, j as int);
            let ghost subj1 = succs@.subrange(0, j as int + 1);
            proof {
                assert(subj1 =~= subj.push(s));
            }
            let cur: Vec<usize> = match m.get(&s) {
                Some(v) => v.clone(),
                None => Vec::new(),
            };
            let mut cur = cur;
            let ghost pre_cur = cur@;
            let ghost pre_m = m@;
            if !crate::graph::vec_contains(&cur, b) {
                cur.push(b);
            }
            m.insert(s, cur);
            proof {
                assert forall|s2: usize| #[trigger]
                    m@.contains_key(s2) <==> (exists|b2: usize|
                        (b2 as int) < b && #[trigger] g.successors_spec(b2).contains(s2))
                        || subj1.contains(s2) by {
                    crate::graph::lemma_push_contains(subj, s, s2);
                }
                assert forall|s2: usize| #[trigger]
                    m@.contains_key(s2) implies m@[s2]@.no_duplicates() && (forall|b2: usize|
                    #[trigger] m@[s2]@.contains(b2) <==> (((b2 as int) < b && g.successors_spec(
                        b2,
                    ).contains(s2)) || (b2 == b && subj1.contains(s2)))) by {
                    crate::graph::lemma_push_contains(subj, s, s2);
                    if s2 == s {
                        assert(m@[s2] == cur);
                        assert forall|b2: usize| #[trigger]
                            m@[s2]@.contains(b2) <==> (((b2 as int) < b && g.successors_spec(
                                b2,
                            ).contains(s2)) || (b2 == b && subj1.contains(s2))) by {
                            if pre_cur.contains(b) {
                                assert(cur@ == pre_cur);
                            } else {
                                assert(cur@ == pre_cur.push(b));
                                crate::graph::lemma_push_contains(pre_cur, b, b2);
                            }
                            if pre_m.contains_key(s) {
                                assert(pre_cur == pre_m[s]@);
                            } else {
                                assert(pre_cur =~= Seq::<usize>::empty());
                                if (b2 as int) < b && g.successors_spec(b2).contains(s2) {
                                    assert(pre_m.contains_key(s2));
                                    assert(false);
                                }
                            }
                            assert(subj1.contains(s));
                        }
                        assert(m@[s2]@.no_duplicates()) by {
                            if !pre_cur.contains(b) {
                                assert(cur@ == pre_cur.push(b));
                                if pre_m.contains_key(s) {
                                    assert(pre_cur.no_duplicates());
                                } else {
                                    assert(pre_cur =~= Seq::<usize>::empty());
                                }
                            } else {
                                assert(cur@ == pre_cur);
                                if pre_m.contains_key(s) {
                                } else {
                                    assert(pre_cur =~= Seq::<usize>::empty());
                                }
                            }
                        }
                    } else {
                        assert(m@[s2] == pre_m[s2]);
                    }
                }
            }
            j = j + 1;
        }
        proof {
            assert(succs@.subrange(0, succs@.len() as int) =~= succs@);
            assert forall|s2: usize| #[trigger]
                m@.contains_key(s2) <==> exists|b2: usize|
                    (b2 as int) < b + 1 && #[trigger] g.successors_spec(b2).contains(s2) by {
                if m@.contains_key(s2) {
                    if succs@.contains(s2) {
                        assert((b as int) < b + 1 && g.successors_spec(b).contains(s2));
                    }
                }
            }
        }
        b = b + 1;
    }
    proof {
        assert(b as int == g.body_len());
    }
    m
}

/// Block predecessors of a body: block `b` is listed under `s`
/// exactly when `s` is among `b`'s successors; only edge targets get
/// an entry.
pub fn compute_preds(body: &Body) -> (m: std::collections::HashMap<usize, Vec<usize>>)
    ensures
        forall|s: usize| #[trigger]
            m@.contains_key(s) <==> exists|b: usize|
                (b as int) < body.blocks@.len() && #[trigger] body.blocks@[b as int].terminator.successors_spec().contains(s),
        forall|s: usize| #[trigger]
            m@.contains_key(s) ==> m@[s]@.no_duplicates() && (forall|b: usize|
                #[trigger] m@[s]@.contains(b) <==> ((b as int) < body.blocks@.len()
                    && body.blocks@[b as int].terminator.successors_spec().contains(s))),
{
    let g = ControlFlowGraphAnalysis::new(body);
    let m = compute_preds_impl(&g);
    proof {
        assert forall|s: usize| #[trigger]
            m@.contains_key(s) <==> exists|b: usize|
                (b as int) < body.blocks@.len()
                    && #[trigger] body.blocks@[b as int].terminator.successors_spec().contains(
                    s,
                ) by {
            if m@.contains_key(s) {
                let b = choose|b: usize|
                    (b as int) < g.body_len() && #[trigger] g.successors_spec(b).contains(s);
                assert(body.blocks@[b as int].terminator.successors_spec().contains(s));
            }
            if exists|b: usize|
                (b as int) < body.blocks@.len()
                    && #[trigger] body.blocks@[b as int].terminator.successors_spec().contains(
                    s,
                ) {
                let b = choose|b: usize|
                    (b as int) < body.blocks@.len()
                        && #[trigger] body.blocks@[b as int].terminator.successors_spec().contains(
                        s,
                    );
                assert(g.successors_spec(b).contains(s));
            }
        }
        assert forall|s: usize| #[trigger]
            m@.contains_key(s) implies m@[s]@.no_duplicates() && (forall|b: usize|
            #[trigger] m@[s]@.contains(b) <==> ((b as int) < body.blocks@.len()
                && body.blocks@[b as int].terminator.successors_spec().contains(s))) by {
            assert forall|b: usize| #[trigger]
                m@[s]@.contains(b) <==> ((b as int) < body.blocks@.len() && body.blocks@[
                b as int].terminator.successors_spec().contains(s)) by {
                if (b as int) < body.blocks@.len() {
                    assert(g.successors_spec(b) == body.blocks@[
                        b as int].terminator.successors_spec());
                }
            }
        }
    }
    m
}

/// The elements of `s` that are below `n`, in order.
pub open spec fn kept_below(s: Seq<usize>, n: int) -> Seq<usize>
    decreases s.len(),
{
    if s.len() == 0 {
        Seq::empty()
    } else {
        kept_below(s.drop_last(), n) + if (s.last() as int) < n {
            seq![s.last()]
        } else {
            Seq::empty()
        }
    }
}

proof fn lemma_kept_below(s: Seq<usize>, n: int)
    ensures
        forall|x: usize| #[trigger]
            kept_below(s, n).contains(x) <==> s.contains(x) && (x as int) < n,
    decreases s.len(),
{
    if s.len() > 0 {
        lemma_kept_below(s.drop_last(), n);
        assert forall|x: usize| #[trigger]
            kept_below(s, n).contains(x) <==> s.contains(x) && (x as int) < n by {
            let rest = kept_below(s.drop_last(), n);
            if (s.last() as int) < n {
                assert(kept_below(s, n) == rest + seq![s.last()]);
                if kept_below(s, n).contains(x) {
                    let q = choose|q: int|
                        0 <= q < kept_below(s, n).len() && kept_below(s, n)[q] == x;
                    if q < rest.len() {
                        assert(rest[q] == x);
                        assert(rest.contains(x));
                        assert(s.drop_last().contains(x));
                        let w = choose|w: int|
                            0 <= w < s.drop_last().len() && s.drop_last()[w] == x;
                        assert(s[w] == x);
                    } else {
                        assert(x == s.last());
                        assert(s[s.len() - 1] == x);
                    }
                }
                if s.contains(x) && (x as int) < n {
                    let w = choose|w: int| 0 <= w < s.len() && s[w] == x;
                    if w < s.len() - 1 {
                        assert(s.drop_last()[w] == x);
                        assert(s.drop_last().contains(x));
                        assert(rest.contains(x));
                        let q = choose|q: int| 0 <= q < rest.len() && rest[q] == x;
                        assert(kept_below(s, n)[q] == x);
                    } else {
                        assert(kept_below(s, n)[kept_below(s, n).len() - 1] == x);
                    }
                }
            } else {
                assert(kept_below(s, n) =~= rest);
                if s.contains(x) && (x as int) < n {
                    let w = choose|w: int| 0 <= w < s.len() && s[w] == x;
                    assert(w < s.len() - 1);
                    assert(s.drop_last()[w] == x);
                    assert(s.drop_last().contains(x));
                }
                if rest.contains(x) {
                    assert(s.drop_last().contains(x));
                    let w = choose|w: int| 0 <= w < s.drop_last().len() && s.drop_last()[w] == x;
                    assert(s[w] == x);
                }
            }
        }
    }
}

/// Builds one all-true row of length `n`.
fn full_row(n: usize) -> (r: Vec<bool>)
    ensures
        r@.len() == n,
        forall|q: int| 0 <= q < n ==> (#[trigger] r@[q]),
{
    let mut row: Vec<bool> = Vec::new();
    let mut b: usize = 0;
    while b < n
        invariant
            b <= n,
            row@.len() == b,
            forall|q: int| 0 <= q < b ==> (#[trigger] row@[q]),
        decreases n - b,
    {
        row.push(true);
        b = b + 1;
    }
    row
}

/// Builds the row `{i}` of length `n`.
fn onehot_row(n: usize, i: usize) -> (r: Vec<bool>)
    ensures
        r@.len() == n,
        forall|q: int| 0 <= q < n ==> ((#[trigger] r@[q]) <==> q == i),
{
    let mut row: Vec<bool> = Vec::new();
    let mut b: usize = 0;
    while b < n
        invariant
            b <= n,
            row@.len() == b,
            forall|q: int| 0 <= q < b ==> ((#[trigger] row@[q]) <==> q == i),
        decreases n - b,
    {
        row.push(b == i);
        b = b + 1;
    }
    row
}

/// Converts solver rows into one set per block index.
fn rows_to_sets(n: usize, rows: &Vec<Vec<bool>>) -> (m: std::collections::HashMap<
    usize,
    std::collections::HashSet<usize>,
>)
    requires
        rows@.len() == n,
        forall|i: int| 0 <= i < n ==> (#[trigger] rows@[i]@).len() == n,
    ensures
        forall|x: usize| #[trigger] m@.contains_key(x) <==> (x as int) < n,
        forall|x: usize, d: usize|
            (x as int) < n ==> ((#[trigger] m@[x]@.contains(d)) <==> ((d as int) < n && rows@[
                x as int]@[d as int])),
{
    broadcast use vstd::std_specs::hash::group_hash_axioms;

    let mut m: std::collections::HashMap<usize, std::collections::HashSet<usize>> =
        std::collections::HashMap::new();
    let mut i: usize = 0;
    while i < n
        invariant
            rows@.len() == n,
            forall|k: int| 0 <= k < n ==> (#[trigger] rows@[k]@).len() == n,
            i <= n,
            forall|x: usize| #[trigger] m@.contains_key(x) <==> (x as int) < i,
            forall|x: usize, d: usize|
                (x as int) < i ==> ((#[trigger] m@[x]@.contains(d)) <==> ((d as int) < n && rows@[
                    x as int]@[d as int])),
        decreases n - i,
    {
        let mut hs: std::collections::HashSet<usize> = std::collections::HashSet::new();
        let mut b: usize = 0;
        while b < n
            invariant
                rows@.len() == n,
                i < n,
                forall|k: int| 0 <= k < n ==> (#[trigger] rows@[k]@).len() == n,
                b <= n,
                forall|d: usize| #[trigger]
                    hs@.contains(d) <==> ((d as int) < b && rows@[i as int]@[d as int]),
            decreases n - b,
        {
            if rows[i][b] {
                hs.insert(b);
            }
            b = b + 1;
        }
        m.insert(i, hs);
        i = i + 1;
    }
    m
}

/// `d` lies in the dominator set of every in-range entry of `ps`.
pub open spec fn in_all_listed(
    ps: Seq<usize>,
    n: int,
    doms: Map<usize, std::collections::HashSet<usize>>,
    d: usize,
) -> bool {
    forall|j: int|
        0 <= j < ps.len() && ((#[trigger] ps[j]) as int) < n ==> doms[ps[j]]@.contains(d)
}

/// The returned map solves the block dominator-set equations: block 0
/// is dominated by itself alone; a block without a predecessor entry
/// by every block; any other block by itself and whatever dominates
/// all of its in-range predecessors.
pub open spec fn block_dominator_sets_ok(
    body: Body,
    preds: Map<usize, Vec<usize>>,
    doms: Map<usize, std::collections::HashSet<usize>>,
) -> bool {
    let n = body.blocks@.len() as int;
    &&& (forall|x: usize| #[trigger] doms.contains_key(x) <==> (x as int) < n)
    &&& (n > 0 ==> (forall|d: usize| #[trigger] doms[0]@.contains(d) <==> d == 0))
    &&& (forall|x: usize, d: usize|
        0 < (x as int) < n && !preds.contains_key(x) ==> ((#[trigger] doms[x]@.contains(d)) <==> (
        d as int) < n))
    &&& (forall|x: usize, d: usize|
        0 < (x as int) < n && preds.contains_key(x) ==> ((#[trigger] doms[x]@.contains(d)) <==> (d
            == x || ((d as int) < n && in_all_listed(preds[x]@, n, doms, d)))))
}

/// Computes the full dominator set of every block of a body by
/// fixed-point iteration over the intersection equations.  The result
/// is the greatest solution of those equations: it contains every
/// other solution pointwise, which pins the all-paths dominator sets.
pub fn compute_dominators(
    body: &Body,
    preds: &std::collections::HashMap<usize, Vec<usize>>,
) -> (m: std::collections::HashMap<usize, std::collections::HashSet<usize>>)
    ensures
        block_dominator_sets_ok(*body, preds@, m@),
        forall|m2: Map<usize, std::collections::HashSet<usize>>| #[trigger]
            block_dominator_sets_ok(*body, preds@, m2) ==> (forall|x: usize, dd: usize|
                m2.contains_key(x) && #[trigger] m2[x]@.contains(dd) ==> m@[x]@.contains(dd)),
{
    broadcast use vstd::std_specs::hash::group_hash_axioms;

    let n = body.blocks.len();
    let mut init: Vec<Vec<bool>> = Vec::new();
    let mut free: Vec<bool> = Vec::new();
    let mut deps: Vec<Vec<usize>> = Vec::new();
    let mut i: usize = 0;
    while i < n
        invariant
            n == body.blocks@.len(),
            i <= n,
            init@.len() == i,
            free@.len() == i,
            deps@.len() == i,
            forall|k: int| 0 <= k < i ==> (#[trigger] init@[k]@).len() == n,
            forall|k: int, j: int|
                0 <= k < i && 0 <= j < deps@[k]@.len() ==> (#[trigger] deps@[k]@[j]) < n,
            forall|k: int|
                0 <= k < i && k == 0 ==> !(#[trigger] free@[k]) && (forall|b: int|
                    0 <= b < n ==> ((#[trigger] init@[k]@[b]) <==> b == k)),
            forall|k: int|
                0 < k < i && !preds@.contains_key(k as usize) ==> !(#[trigger] free@[k]) && (
                forall|b: int| 0 <= b < n ==> (#[trigger] init@[k]@[b])),
            forall|k: int|
                0 < k < i && preds@.contains_key(k as usize) ==> (#[trigger] free@[k]) && (forall|
                    b: int,
                |
                    0 <= b < n ==> (#[trigger] init@[k]@[b])) && deps@[k]@ == kept_below(
                    preds@[k as usize]@,
                    n as int,
                ),
        decreases n - i,
    {
        let ghost pre_init = init@;
        let ghost pre_free = free@;
        let ghost pre_deps = deps@;
        if i == 0 {
            let row = onehot_row(n, 0);
            let ghost rowv = row@;
            init.push(row);
            free.push(false);
            deps.push(Vec::new());
            proof {
                assert(init@[i as int]@ == rowv);
            }
        } else {
            let row = full_row(n);
            let ghost rowv = row@;
            init.push(row);
            proof {
                assert(init@[i as int]@ == rowv);
            }
            match preds.get(&i) {
                Some(plist) => {
                    free.push(true);
                    let mut dl: Vec<usize> = Vec::new();
                    let mut q: usize = 0;
                    while q < plist.len()
                        invariant
                            n == body.blocks@.len(),
                            q <= plist@.len(),
                            dl@ == kept_below(plist@.subrange(0, q as int), n as int),
                            forall|j: int| 0 <= j < dl@.len() ==> (#[trigger] dl@[j]) < n,
                        decreases plist@.len() - q,
                    {
                        let p = plist[q];
                        let ghost sub = plist@.subrange(0, q as int);
                        let ghost sub1 = plist@.subrange(0, q as int + 1);
                        proof {
                            assert(sub1.drop_last() =~= sub);
                            assert(sub1.last() == p);
                        }
                        if p < n {
                            dl.push(p);
                            proof {
                                assert(dl@ =~= kept_below(sub, n as int) + seq![p]);
                            }
                        } else {
                            proof {
                                assert(kept_below(sub1, n as int) =~= kept_below(sub, n as int));
                            }
                        }
                        q = q + 1;
                    }
                    proof {
                        assert(plist@.subrange(0, plist@.len() as int) =~= plist@);
                        assert(plist@ == preds@[i]@);
                        assert(dl@ == kept_below(preds@[i]@, n as int));
                    }
                    let ghost dlv = dl@;
                    deps.push(dl);
                    proof {
                        assert(deps@[i as int]@ == dlv);
                        assert(free@[i as int]);
                        assert(preds@.contains_key(i));
                    }
                },
                None => {
                    free.push(false);
                    deps.push(Vec::new());
                    proof {
                        assert(!preds@.contains_key(i));
                        assert(!free@[i as int]);
                    }
                },
            }
        }
        proof {
            assert(init@.len() == i + 1 && free@.len() == i + 1 && deps@.len() == i + 1);
            assert(forall|k: int|
                0 <= k < i ==> (#[trigger] init@[k]) == pre_init[k] && free@[k] == pre_free[k]
                    && deps@[k] == pre_deps[k]);
            assert forall|k: int|
                0 <= k < i + 1 && k == 0 implies !(#[trigger] free@[k]) && (forall|b: int|
                0 <= b < n ==> ((#[trigger] init@[k]@[b]) <==> b == k)) by {}
            assert forall|k: int|
                0 < k < i + 1 && !preds@.contains_key(k as usize) implies !(#[trigger] free@[k])
                && (forall|b: int| 0 <= b < n ==> (#[trigger] init@[k]@[b])) by {
                if k == i as int {
                    assert(k as usize == i);
                }
            }
            assert forall|k: int|
                0 < k < i + 1 && preds@.contains_key(k as usize) implies (#[trigger] free@[k]) && (
            forall|b: int| 0 <= b < n ==> (#[trigger] init@[k]@[b])) && deps@[k]@ == kept_below(
                preds@[k as usize]@,
                n as int,
            ) by {
                if k == i as int {
                    assert(k as usize == i);
                }
            }
        }
        i = i + 1;
    }
    let rows = solve_fixpoint(n, init, &free, &deps, true);
    let m = rows_to_sets(n, &rows);
    proof {
        let nn = n as int;
        assert forall|x: usize, d: usize|
            0 < (x as int) < nn && preds@.contains_key(x) implies ((#[trigger] m@[x]@.contains(d))
            <==> (d == x || ((d as int) < nn && in_all_listed(preds@[x]@, nn, m@, d)))) by {
            let k = x as int;
            assert(free@[k]);
            assert(deps@[k]@ == kept_below(preds@[x]@, nn));
            lemma_kept_below(preds@[x]@, nn);
            if m@[x]@.contains(d) {
                assert((d as int) < nn && rows@[k]@[d as int]);
                assert(f_val(rows@, deps@[k]@, true, k, d as int));
                if d != x {
                    assert(dep_meet(rows@, deps@[k]@, true, d as int));
                    assert forall|j: int|
                        0 <= j < preds@[x]@.len() && ((#[trigger] preds@[x]@[j]) as int) < nn
                        implies m@[preds@[x]@[j]]@.contains(d) by {
                        let pb = preds@[x]@[j];
                        assert(preds@[x]@.contains(pb)) by {
                            assert(preds@[x]@[j] == pb);
                        }
                        assert(kept_below(preds@[x]@, nn).contains(pb));
                        let jj = choose|jj: int|
                            0 <= jj < deps@[k]@.len() && deps@[k]@[jj] == pb;
                        assert(rows@[deps@[k]@[jj] as int]@[d as int]);
                    }
                }
            }
            if d == x {
                assert(f_val(rows@, deps@[k]@, true, k, k) == rows@[k]@[k]);
                assert(rows@[k]@[k]);
                assert(m@[x]@.contains(d));
            } else if (d as int) < nn && in_all_listed(preds@[x]@, nn, m@, d) {
                assert(dep_meet(rows@, deps@[k]@, true, d as int)) by {
                    assert forall|j: int|
                        0 <= j < deps@[k]@.len() implies rows@[#[trigger] deps@[k]@[j] as int]@[
                        d as int] by {
                        let pb = deps@[k]@[j];
                        assert(kept_below(preds@[x]@, nn).contains(pb)) by {
                            assert(kept_below(preds@[x]@, nn)[j] == pb);
                        }
                        assert(preds@[x]@.contains(pb) && (pb as int) < nn);
                        let w = choose|w: int|
                            0 <= w < preds@[x]@.len() && preds@[x]@[w] == pb;
                        assert(m@[preds@[x]@[w]]@.contains(d));
                        assert(m@[pb]@.contains(d));
                    }
                }
                assert(f_val(rows@, deps@[k]@, true, k, d as int));
                assert(rows@[k]@[d as int]);
                assert(m@[x]@.contains(d));
            }
        }
        assert forall|x: usize, d: usize|
            0 < (x as int) < nn && !preds@.contains_key(x) implies ((#[trigger] m@[x]@.contains(d))
            <==> (d as int) < nn) by {
            let k = x as int;
            assert(!free@[k]);
            assert(rows@[k]@ == init@[k]@);
            if (d as int) < nn {
                assert(init@[k]@[d as int]);
            }
        }
        if nn > 0 {
            assert forall|d: usize| #[trigger] m@[0]@.contains(d) <==> d == 0 by {
                assert(!free@[0]);
                assert(rows@[0]@ == init@[0]@);
                if (d as int) < nn {
                    assert((init@[0]@[d as int]) <==> d as int == 0);
                }
            }
        }
        // the iteration shrinks from full sets, so any other solution
        // of the equations lies inside the result
        assert forall|m2: Map<usize, std::collections::HashSet<usize>>| #[trigger]
            block_dominator_sets_ok(*body, preds@, m2) implies (forall|x: usize, dd: usize|
            m2.contains_key(x) && #[trigger] m2[x]@.contains(dd) ==> m@[x]@.contains(dd)) by {
            let sol = Seq::new(
                nn as nat,
                |i: int| Seq::new(nn as nat, |b: int| m2[i as usize]@.contains(b as usize)),
            );
            assert(crate::directed_graph::is_solution(sol, init@, free@, deps@, true, nn)) by {
                assert forall|i: int| 0 <= i < nn && !free@[i] implies (#[trigger] sol[i])
                    == init@[i]@ by {
                    assert(m2.contains_key(i as usize));
                    if i == 0 {
                        assert(sol[i] =~= init@[i]@) by {
                            assert forall|b: int| 0 <= b < nn implies sol[i][b] == init@[i]@[b] by {
                                assert(sol[i][b] == m2[0]@.contains(b as usize));
                                assert(m2[0]@.contains(b as usize) <==> b as usize == 0);
                            }
                        }
                    } else {
                        assert(!preds@.contains_key(i as usize));
                        assert(sol[i] =~= init@[i]@) by {
                            assert forall|b: int| 0 <= b < nn implies sol[i][b] == init@[i]@[b] by {
                                assert(m2[i as usize]@.contains(b as usize) <==> (b as usize as int)
                                    < nn);
                                assert(init@[i]@[b]);
                            }
                        }
                    }
                }
                assert forall|i: int, b: int|
                    0 <= i < nn && 0 <= b < nn && free@[i] implies ((#[trigger] sol[i][b])
                    == crate::directed_graph::f_val2(sol, deps@[i]@, true, i, b)) by {
                    let x = i as usize;
                    let dd = b as usize;
                    assert(0 < (x as int) < nn && preds@.contains_key(x));
                    assert(deps@[i]@ == kept_below(preds@[x]@, nn));
                    lemma_kept_below(preds@[x]@, nn);
                    assert(m2[x]@.contains(dd) <==> (dd == x || ((dd as int) < nn
                        && in_all_listed(preds@[x]@, nn, m2, dd))));
                    if crate::directed_graph::dep_meet2(sol, deps@[i]@, true, b) {
                        assert forall|j: int|
                            0 <= j < preds@[x]@.len() && ((#[trigger] preds@[x]@[j]) as int) < nn
                            implies m2[preds@[x]@[j]]@.contains(dd) by {
                            let pb = preds@[x]@[j];
                            assert(preds@[x]@.contains(pb)) by {
                                assert(preds@[x]@[j] == pb);
                            }
                            assert(kept_below(preds@[x]@, nn).contains(pb));
                            let jj = choose|jj: int|
                                0 <= jj < deps@[i]@.len() && deps@[i]@[jj] == pb;
                            assert(sol[deps@[i]@[jj] as int][b]);
                            assert(sol[pb as int][b] == m2[pb]@.contains(dd));
                        }
                        assert(in_all_listed(preds@[x]@, nn, m2, dd));
                    }
                    if b != i && (dd as int) < nn && in_all_listed(preds@[x]@, nn, m2, dd) {
                        assert(crate::directed_graph::dep_meet2(sol, deps@[i]@, true, b)) by {
                            assert forall|j: int|
                                0 <= j < deps@[i]@.len() implies sol[#[trigger] deps@[i]@[j]
                                as int][b] by {
                                let pb = deps@[i]@[j];
                                assert(kept_below(preds@[x]@, nn).contains(pb)) by {
                                    assert(kept_below(preds@[x]@, nn)[j] == pb);
                                }
                                assert(preds@[x]@.contains(pb) && (pb as int) < nn);
                                let w = choose|w: int|
                                    0 <= w < preds@[x]@.len() && preds@[x]@[w] == pb;
                                assert(m2[preds@[x]@[w]]@.contains(dd));
                                assert(sol[pb as int][b] == m2[pb]@.contains(dd));
                            }
                        }
                    }
                }
                assert forall|i: int, b: int|
                    0 <= i < nn && 0 <= b < nn && (#[trigger] sol[i][b]) implies init@[i]@[b] by {
                    if free@[i] {
                        assert(init@[i]@[b]);
                    } else {
                        assert(sol[i] == init@[i]@);
                    }
                }
            }
            assert forall|x: usize, dd: usize|
                m2.contains_key(x) && #[trigger] m2[x]@.contains(dd) implies m@[x]@.contains(
                dd) by {
                assert((x as int) < nn);
                assert((dd as int) < nn) by {
                    if x == 0 {
                        assert(m2[0]@.contains(dd) <==> dd == 0);
                    } else if !preds@.contains_key(x) {
                        assert(m2[x]@.contains(dd) <==> (dd as int) < nn);
                    } else {
                        assert(m2[x]@.contains(dd) <==> (dd == x || ((dd as int) < nn
                            && in_all_listed(preds@[x]@, nn, m2, dd))));
                    }
                }
                assert(sol[x as int][dd as int]);
                assert(rows@[x as int]@[dd as int]);
                assert(m@[x]@.contains(dd));
            }
        }
    }
    m
}


/// Solver inputs prepared for the post-dominator equations of the
/// first `i` blocks: exit rows pinned to themselves, other rows full
/// with their in-range successors as dependencies.
pub open spec fn pd_setup_ok(
    body: Body,
    n: int,
    i: int,
    init: Seq<Vec<bool>>,
    free: Seq<bool>,
    deps: Seq<Vec<usize>>,
) -> bool {
    &&& (forall|k: int|
        0 <= k < i && body.blocks@[k].terminator.successors_spec().len() == 0 ==> !(
        #[trigger] free[k]) && (forall|b: int| 0 <= b < n ==> ((#[trigger] init[k]@[b]) <==> b
            == k)))
    &&& (forall|k: int|
        0 <= k < i && body.blocks@[k].terminator.successors_spec().len() > 0 ==> (
        #[trigger] free[k]) && (forall|b: int| 0 <= b < n ==> (#[trigger] init[k]@[b])) && deps[k]@
            == kept_below(body.blocks@[k].terminator.successors_spec(), n))
}

/// The returned map solves the block post-dominator-set equations: an
/// exit block is post-dominated by itself alone; any other block by
/// itself and whatever post-dominates all of its in-range successors.
pub open spec fn block_postdominator_sets_ok(
    body: Body,
    doms: Map<usize, std::collections::HashSet<usize>>,
) -> bool {
    let n = body.blocks@.len() as int;
    &&& (forall|x: usize| #[trigger] doms.contains_key(x) <==> (x as int) < n)
    &&& (forall|x: usize, d: usize|
        (x as int) < n && body.blocks@[x as int].terminator.successors_spec().len() == 0 ==> ((
        #[trigger] doms[x]@.contains(d)) <==> d == x))
    &&& (forall|x: usize, d: usize|
        (x as int) < n && body.blocks@[x as int].terminator.successors_spec().len() > 0 ==> ((
        #[trigger] doms[x]@.contains(d)) <==> (d == x || ((d as int) < n && in_all_listed(
            body.blocks@[x as int].terminator.successors_spec(),
            n,
            doms,
            d,
        )))))
}

/// Computes the full post-dominator set of every block of a body by
/// fixed-point iteration backwards from its exit blocks.  The result
/// is the greatest solution of the equations: it contains every other
/// solution pointwise.
pub fn compute_postdominators(body: &Body) -> (m: std::collections::HashMap<
    usize,
    std::collections::HashSet<usize>,
>)
    ensures
        block_postdominator_sets_ok(*body, m@),
        forall|m2: Map<usize, std::collections::HashSet<usize>>| #[trigger]
            block_postdominator_sets_ok(*body, m2) ==> (forall|x: usize, dd: usize|
                m2.contains_key(x) && #[trigger] m2[x]@.contains(dd) ==> m@[x]@.contains(dd)),
{
    broadcast use vstd::std_specs::hash::group_hash_axioms;

    let n = body.blocks.len();
    let mut init: Vec<Vec<bool>> = Vec::new();
    let mut free: Vec<bool> = Vec::new();
    let mut deps: Vec<Vec<usize>> = Vec::new();
    let mut i: usize = 0;
    while i < n
        invariant
            n == body.blocks@.len(),
            i <= n,
            init@.len() == i,
            free@.len() == i,
            deps@.len() == i,
            forall|k: int| 0 <= k < i ==> (#[trigger] init@[k]@).len() == n,
            forall|k: int, j: int|
                0 <= k < i && 0 <= j < deps@[k]@.len() ==> (#[trigger] deps@[k]@[j]) < n,
            pd_setup_ok(*body, n as int, i as int, init@, free@, deps@),
        decreases n - i,
    {
        let ghost pre_init = init@;
        let ghost pre_free = free@;
        let ghost pre_deps = deps@;
        let succs = body.blocks[i].terminator.successors();
        if succs.len() == 0 {
            let row = onehot_row(n, i);
            let ghost rowv = row@;
            init.push(row);
            free.push(false);
            deps.push(Vec::new());
            proof {
                assert(init@[i as int]@ == rowv);
            }
        } else {
            let row = full_row(n);
            let ghost rowv = row@;
            init.push(row);
            proof {
                assert(init@[i as int]@ == rowv);
            }
            free.push(true);
            let mut dl: Vec<usize> = Vec::new();
            let mut q: usize = 0;
            while q < succs.len()
                invariant
                    n == body.blocks@.len(),
                    i < n,
                    succs@ == body.blocks@[i as int].terminator.successors_spec(),
                    q <= succs@.len(),
                    dl@ == kept_below(succs@.subrange(0, q as int), n as int),
                    forall|j: int| 0 <= j < dl@.len() ==> (#[trigger] dl@[j]) < n,
                decreases succs@.len() - q,
            {
                let p = succs[q];
                let ghost sub = succs@.subrange(0, q as int);
                let ghost sub1 = succs@.subrange(0, q as int + 1);
                proof {
                    assert(sub1.drop_last() =~= sub);
                    assert(sub1.last() == p);
                }
                if p < n {
                    dl.push(p);
                    proof {
                        assert(dl@ =~= kept_below(sub, n as int) + seq![p]);
                    }
                } else {
                    proof {
                        assert(kept_below(sub1, n as int) =~= kept_below(sub, n as int));
                    }
                }
                q = q + 1;
            }
            proof {
                assert(succs@.subrange(0, succs@.len() as int) =~= succs@);
                assert(dl@ == kept_below(
                    body.blocks@[i as int].terminator.successors_spec(),
                    n as int,
                ));
            }
            let ghost dlv = dl@;
            deps.push(dl);
            proof {
                assert(deps@[i as int]@ == dlv);
                assert(free@[i as int]);
            }
        }
        let ghost old_i = i as int;
        i = i + 1;
        proof {
            assert(init@.len() == i && free@.len() == i && deps@.len() == i);
            assert(forall|k: int|
                0 <= k < old_i ==> (#[trigger] init@[k]) == pre_init[k] && free@[k] == pre_free[k]
                    && deps@[k] == pre_deps[k]);
            assert(pd_setup_ok(*body, n as int, i as int, init@, free@, deps@)) by {
                assert forall|k: int|
                    0 <= k < i && body.blocks@[k].terminator.successors_spec().len() == 0
                    implies !(#[trigger] free@[k]) && (forall|b: int|
                    0 <= b < n ==> ((#[trigger] init@[k]@[b]) <==> b == k)) by {
                    if k == old_i {
                        assert(succs@ == body.blocks@[k].terminator.successors_spec());
                    }
                }
                assert forall|k: int|
                    0 <= k < i && body.blocks@[k].terminator.successors_spec().len() > 0 implies (
                #[trigger] free@[k]) && (forall|b: int|
                    0 <= b < n ==> (#[trigger] init@[k]@[b])) && deps@[k]@ == kept_below(
                    body.blocks@[k].terminator.successors_spec(),
                    n as int,
                ) by {
                    if k == old_i {
                        assert(succs@ == body.blocks@[k].terminator.successors_spec());
                        assert(succs@.len() > 0);
                        assert(free@[k]);
                        assert(forall|b: int| 0 <= b < n ==> (#[trigger] init@[k]@[b]));
                        assert(deps@[k]@ == kept_below(
                            body.blocks@[k].terminator.successors_spec(),
                            n as int,
                        ));
                    } else {
                        assert(free@[k] == pre_free[k]);
                        assert(init@[k] == pre_init[k]);
                        assert(deps@[k] == pre_deps[k]);
                    }
                }
            }
        }
    }
    proof {
        assert(pd_setup_ok(*body, n as int, n as int, init@, free@, deps@));
    }
    let rows = solve_fixpoint(n, init, &free, &deps, true);
    let m = rows_to_sets(n, &rows);
    proof {
        let nn = n as int;
        assert forall|x: usize, d: usize|
            (x as int) < nn && body.blocks@[x as int].terminator.successors_spec().len() > 0
            implies ((#[trigger] m@[x]@.contains(d)) <==> (d == x || ((d as int) < nn
            && in_all_listed(
            body.blocks@[x as int].terminator.successors_spec(),
            nn,
            m@,
            d,
        )))) by {
            let k = x as int;
            let ss = body.blocks@[k].terminator.successors_spec();
            // naming the slot instantiates the setup facts for this block
            let slot_free = free@[k];
            assert(pd_setup_ok(*body, nn, nn, init@, free@, deps@));
            assert(free@[k]);
            assert(deps@[k]@ == kept_below(ss, nn));
            lemma_kept_below(ss, nn);
            if m@[x]@.contains(d) {
                assert((d as int) < nn && rows@[k]@[d as int]);
                assert(f_val(rows@, deps@[k]@, true, k, d as int));
                if d != x {
                    assert(dep_meet(rows@, deps@[k]@, true, d as int));
                    assert forall|j: int|
                        0 <= j < ss.len() && ((#[trigger] ss[j]) as int) < nn implies m@[ss[j]]@
                        .contains(d) by {
                        let pb = ss[j];
                        assert(ss.contains(pb)) by {
                            assert(ss[j] == pb);
                        }
                        assert(kept_below(ss, nn).contains(pb));
                        let jj = choose|jj: int|
                            0 <= jj < deps@[k]@.len() && deps@[k]@[jj] == pb;
                        assert(rows@[deps@[k]@[jj] as int]@[d as int]);
                    }
                }
            }
            if d == x {
                assert(f_val(rows@, deps@[k]@, true, k, k) == rows@[k]@[k]);
                assert(rows@[k]@[k]);
                assert(m@[x]@.contains(d));
            } else if (d as int) < nn && in_all_listed(ss, nn, m@, d) {
                assert(dep_meet(rows@, deps@[k]@, true, d as int)) by {
                    assert forall|j: int|
                        0 <= j < deps@[k]@.len() implies rows@[#[trigger] deps@[k]@[j] as int]@[
                        d as int] by {
                        let pb = deps@[k]@[j];
                        assert(kept_below(ss, nn).contains(pb)) by {
                            assert(kept_below(ss, nn)[j] == pb);
                        }
                        assert(ss.contains(pb) && (pb as int) < nn);
                        let w = choose|w: int| 0 <= w < ss.len() && ss[w] == pb;
                        assert(m@[ss[w]]@.contains(d));
                        assert(m@[pb]@.contains(d));
                    }
                }
                assert(f_val(rows@, deps@[k]@, true, k, d as int));
                assert(rows@[k]@[d as int]);
                assert(m@[x]@.contains(d));
            }
        }
        assert forall|x: usize, d: usize|
            (x as int) < nn && body.blocks@[x as int].terminator.successors_spec().len() == 0
            implies ((#[trigger] m@[x]@.contains(d)) <==> d == x) by {
            let k = x as int;
            // naming the slot instantiates the setup facts for this block
            let slot_free = free@[k];
            assert(pd_setup_ok(*body, nn, nn, init@, free@, deps@));
            assert(!free@[k]);
            assert(rows@[k]@ == init@[k]@);
            if (d as int) < nn {
                assert((init@[k]@[d as int]) <==> d as int == k);
            }
        }
        // the iteration shrinks from full sets, so any other solution
        // of the equations lies inside the result
        assert forall|m2: Map<usize, std::collections::HashSet<usize>>| #[trigger]
            block_postdominator_sets_ok(*body, m2) implies (forall|x: usize, dd: usize|
            m2.contains_key(x) && #[trigger] m2[x]@.contains(dd) ==> m@[x]@.contains(dd)) by {
            let sol = Seq::new(
                nn as nat,
                |i: int| Seq::new(nn as nat, |b: int| m2[i as usize]@.contains(b as usize)),
            );
            assert(crate::directed_graph::is_solution(sol, init@, free@, deps@, true, nn)) by {
                assert(pd_setup_ok(*body, nn, nn, init@, free@, deps@));
                assert forall|i: int| 0 <= i < nn && !free@[i] implies (#[trigger] sol[i])
                    == init@[i]@ by {
                    assert(m2.contains_key(i as usize));
                    assert(body.blocks@[i].terminator.successors_spec().len() == 0) by {
                        if body.blocks@[i].terminator.successors_spec().len() > 0 {
                            assert(free@[i]);
                        }
                    }
                    assert(sol[i] =~= init@[i]@) by {
                        assert forall|b: int| 0 <= b < nn implies sol[i][b] == init@[i]@[b] by {
                            assert(sol[i][b] == m2[i as usize]@.contains(b as usize));
                            assert(m2[i as usize]@.contains(b as usize) <==> b as usize
                                == i as usize);
                            assert((init@[i]@[b]) <==> b == i);
                        }
                    }
                }
                assert forall|i: int, b: int|
                    0 <= i < nn && 0 <= b < nn && free@[i] implies ((#[trigger] sol[i][b])
                    == crate::directed_graph::f_val2(sol, deps@[i]@, true, i, b)) by {
                    let x = i as usize;
                    let dd = b as usize;
                    let ss = body.blocks@[i].terminator.successors_spec();
                    assert(ss.len() > 0) by {
                        if ss.len() == 0 {
                            assert(!free@[i]);
                        }
                    }
                    assert(deps@[i]@ == kept_below(ss, nn));
                    lemma_kept_below(ss, nn);
                    assert(m2[x]@.contains(dd) <==> (dd == x || ((dd as int) < nn
                        && in_all_listed(ss, nn, m2, dd))));
                    if crate::directed_graph::dep_meet2(sol, deps@[i]@, true, b) {
                        assert forall|j: int|
                            0 <= j < ss.len() && ((#[trigger] ss[j]) as int) < nn implies m2[
                            ss[j]]@.contains(dd) by {
                            let pb = ss[j];
                            assert(ss.contains(pb)) by {
                                assert(ss[j] == pb);
                            }
                            assert(kept_below(ss, nn).contains(pb));
                            let jj = choose|jj: int|
                                0 <= jj < deps@[i]@.len() && deps@[i]@[jj] == pb;
                            assert(sol[deps@[i]@[jj] as int][b]);
                            assert(sol[pb as int][b] == m2[pb]@.contains(dd));
                        }
                        assert(in_all_listed(ss, nn, m2, dd));
                    }
                    if b != i && (dd as int) < nn && in_all_listed(ss, nn, m2, dd) {
                        assert(crate::directed_graph::dep_meet2(sol, deps@[i]@, true, b)) by {
                            assert forall|j: int|
                                0 <= j < deps@[i]@.len() implies sol[#[trigger] deps@[i]@[j]
                                as int][b] by {
                                let pb = deps@[i]@[j];
                                assert(kept_below(ss, nn).contains(pb)) by {
                                    assert(kept_below(ss, nn)[j] == pb);
                                }
                                assert(ss.contains(pb) && (pb as int) < nn);
                                let w = choose|w: int| 0 <= w < ss.len() && ss[w] == pb;
                                assert(m2[ss[w]]@.contains(dd));
                                assert(sol[pb as int][b] == m2[pb]@.contains(dd));
                            }
                        }
                    }
                }
                assert forall|i: int, b: int|
                    0 <= i < nn && 0 <= b < nn && (#[trigger] sol[i][b]) implies init@[i]@[b] by {
                    if free@[i] {
                        assert(init@[i]@[b]);
                    } else {
                        assert(sol[i] == init@[i]@);
                    }
                }
            }
            assert forall|x: usize, dd: usize|
                m2.contains_key(x) && #[trigger] m2[x]@.contains(dd) implies m@[x]@.contains(
                dd) by {
                assert((x as int) < nn);
                assert((dd as int) < nn) by {
                    if body.blocks@[x as int].terminator.successors_spec().len() == 0 {
                        assert(m2[x]@.contains(dd) <==> dd == x);
                    } else {
                        assert(m2[x]@.contains(dd) <==> (dd == x || ((dd as int) < nn
                            && in_all_listed(
                            body.blocks@[x as int].terminator.successors_spec(),
                            nn,
                            m2,
                            dd,
                        ))));
                    }
                }
                assert(sol[x as int][dd as int]);
                assert(rows@[x as int]@[dd as int]);
                assert(m@[x]@.contains(dd));
            }
        }
    }
    m
}

} // verus!
