//! Directed graphs over `usize` node identifiers, with dominator and
//! post-dominator computation.
//!
//! The graph is stored as parallel adjacency lists: `nodes` holds every
//! registered node once, and `succs`/`preds` hold, for the node at the
//! same position in `nodes`, its successor and predecessor lists.

use vstd::prelude::*;

verus! {

/// Returns the position of `x` in `v`, or `None` when absent.
pub(crate) fn find_index(v: &Vec<usize>, x: usize) -> (r: Option<usize>)
    ensures
        match r {
            Some(i) => i < v@.len() && v@[i as int] == x,
            None => !v@.contains(x),
        },
{
    let mut i: usize = 0;
    while i < v.len()
        invariant
            i <= v@.len(),
            forall|j: int| 0 <= j < i ==> v@[j] != x,
        decreases v@.len() - i,
    {
        if v[i] == x {
            return Some(i);
        }
        i = i + 1;
    }
    None
}

/// Returns whether `v` holds `x`.
pub(crate) fn vec_contains(v: &Vec<usize>, x: usize) -> (b: bool)
    ensures
        b == v@.contains(x),
{
    let r = find_index(v, x);
    match r {
        Some(_) => true,
        None => false,
    }
}


/// `push` adds exactly one membership.
pub(crate) proof fn lemma_push_contains(s: Seq<usize>, v: usize, x: usize)
    ensures
        s.push(v).contains(x) <==> s.contains(x) || x == v,
{
    if x == v {
        assert(s.push(v)[s.len() as int] == x);
    }
    if s.contains(x) {
        let i = choose|i: int| 0 <= i < s.len() && s[i] == x;
        assert(s.push(v)[i] == x);
    }
    if s.push(v).contains(x) {
        let i = choose|i: int| 0 <= i < s.push(v).len() && s.push(v)[i] == x;
        if i < s.len() {
            assert(s[i] == x);
        }
    }
}

/// In a duplicate-free sequence the position of an element is unique.
pub(crate) proof fn lemma_index_of_unique(s: Seq<usize>, x: usize, i: int)
    requires
        s.no_duplicates(),
        0 <= i < s.len(),
        s[i] == x,
    ensures
        s.index_of(x) == i,
{
    assert(s.contains(x)) by {
        assert(s[i] == x);
    }
    let j = s.index_of(x);
    assert(s[j] == x);
}

/// A directed graph over `usize` node identifiers.
pub struct DirectedGraph {
    nodes: Vec<usize>,
    succs: Vec<Vec<usize>>,
    preds: Vec<Vec<usize>>,
}

impl DirectedGraph {
    /// The registered nodes, in registration order.
    pub closed spec fn node_seq(&self) -> Seq<usize> {
        self.nodes@
    }

    pub open spec fn has_node(&self, n: usize) -> bool {
        self.node_seq().contains(n)
    }

    /// Successor list of `n`; empty for an unknown node.
    pub closed spec fn succ_of(&self, n: usize) -> Seq<usize> {
        if self.has_node(n) {
            self.succs@[self.nodes@.index_of(n)]@
        } else {
            Seq::empty()
        }
    }

    /// Predecessor list of `n`; empty for an unknown node.
    pub closed spec fn pred_of(&self, n: usize) -> Seq<usize> {
        if self.has_node(n) {
            self.preds@[self.nodes@.index_of(n)]@
        } else {
            Seq::empty()
        }
    }

    pub open spec fn has_edge(&self, from: usize, to: usize) -> bool {
        self.succ_of(from).contains(to)
    }

    /// Structural well-formedness: parallel lists, no duplicates, edges
    /// registered on both endpoints symmetrically.
    pub closed spec fn wf(&self) -> bool {
        &&& self.succs@.len() == self.nodes@.len()
        &&& self.preds@.len() == self.nodes@.len()
        &&& self.nodes@.no_duplicates()
        &&& (forall|i: int| 0 <= i < self.nodes@.len() ==> (#[trigger] self.succs@[i]@).no_duplicates())
        &&& (forall|i: int| 0 <= i < self.nodes@.len() ==> (#[trigger] self.preds@[i]@).no_duplicates())
        &&& (forall|i: int, x: usize|
            0 <= i < self.nodes@.len() && #[trigger] self.succs@[i]@.contains(x)
                ==> self.nodes@.contains(x))
        &&& (forall|i: int, x: usize|
            0 <= i < self.nodes@.len() && #[trigger] self.preds@[i]@.contains(x)
                ==> self.nodes@.contains(x))
        &&& (forall|i: int, k: int|
            #![trigger self.succs@[i]@.contains(self.nodes@[k])]
            #![trigger self.preds@[k]@.contains(self.nodes@[i])]
            0 <= i < self.nodes@.len() && 0 <= k < self.nodes@.len()
                ==> (self.succs@[i]@.contains(self.nodes@[k]) <==> self.preds@[k]@.contains(
                    self.nodes@[i])))
    }

    /// An edge is present exactly when its reverse is registered on the
    /// target's predecessor list.
    pub proof fn lemma_edge_symmetry(&self, from: usize, to: usize)
        requires
            self.wf(),
        ensures
            self.has_edge(from, to) <==> self.pred_of(to).contains(from),
    {
        if self.has_node(from) && self.has_node(to) {
            let i = self.nodes@.index_of(from);
            let k = self.nodes@.index_of(to);
            assert(self.nodes@[i] == from);
            assert(self.nodes@[k] == to);
        } else {
            if self.has_edge(from, to) {
                assert(self.has_node(from));
                let i = self.nodes@.index_of(from);
                assert(self.succs@[i]@.contains(to));
            }
            if self.pred_of(to).contains(from) {
                assert(self.has_node(to));
                let k = self.nodes@.index_of(to);
                assert(self.preds@[k]@.contains(from));
            }
        }
    }

    pub fn new() -> (g: Self)
        ensures
            g.wf(),
            g.node_seq() == Seq::<usize>::empty(),
    {
        DirectedGraph { nodes: Vec::new(), succs: Vec::new(), preds: Vec::new() }
    }

    /// Registers `node`; registering a node twice changes nothing.
    pub fn add_node(&mut self, node: usize)
        requires
            old(self).wf(),
        ensures
            final(self).wf(),
            final(self).node_seq() == if old(self).has_node(node) {
                old(self).node_seq()
            } else {
                old(self).node_seq().push(node)
            },
            final(self).has_node(node),
            forall|n: usize| old(self).has_node(n) ==> final(self).has_node(n),
            forall|n: usize| final(self).has_node(n) ==> old(self).has_node(n) || n == node,
            forall|n: usize| final(self).succ_of(n) == old(self).succ_of(n),
            forall|n: usize| final(self).pred_of(n) == old(self).pred_of(n),
    {
        if !vec_contains(&self.nodes, node) {
            let ghost pre = *self;
            self.nodes.push(node);
            self.succs.push(Vec::new());
            self.preds.push(Vec::new());
            proof {
                let n = pre.nodes@.len() as int;
                assert(self.nodes@ == pre.nodes@.push(node));
                assert forall|m: usize| self.has_node(m) implies pre.has_node(m) || m == node by {
                    lemma_push_contains(pre.nodes@, node, m);
                }
                assert forall|m: usize| pre.has_node(m) implies self.has_node(m) by {
                    lemma_push_contains(pre.nodes@, node, m);
                }
                assert(self.has_node(node)) by {
                    lemma_push_contains(pre.nodes@, node, node);
                }
                assert(self.nodes@.no_duplicates());
                assert forall|m: usize| self.succ_of(m) == pre.succ_of(m) && self.pred_of(m)
                    == pre.pred_of(m) by {
                    if self.has_node(m) {
                        if m == node {
                            assert(self.nodes@.index_of(m) == n) by {
                                assert(self.nodes@[n] == m);
                                lemma_index_of_unique(self.nodes@, m, n);
                            }
                            assert(self.succs@[n]@ == Seq::<usize>::empty());
                            assert(self.preds@[n]@ == Seq::<usize>::empty());
                            assert(!pre.has_node(m));
                        } else {
                            lemma_push_contains(pre.nodes@, node, m);
                            assert(pre.has_node(m));
                            let i = pre.nodes@.index_of(m);
                            assert(pre.nodes@[i] == m);
                            assert(self.nodes@[i] == m);
                            lemma_index_of_unique(self.nodes@, m, i);
                            assert(self.succs@[i]@ == pre.succs@[i]@);
                            assert(self.preds@[i]@ == pre.preds@[i]@);
                        }
                    } else {
                        assert(!pre.has_node(m));
                    }
                }
                assert(self.wf()) by {
                    assert forall|i: int| 0 <= i < self.nodes@.len() implies (#[trigger] self.succs@[i]@).no_duplicates() by {
                        if i < n {
                            assert(self.succs@[i]@ == pre.succs@[i]@);
                        } else {
                            assert(self.succs@[i]@ == Seq::<usize>::empty());
                        }
                    }
                    assert forall|i: int| 0 <= i < self.nodes@.len() implies (#[trigger] self.preds@[i]@).no_duplicates() by {
                        if i < n {
                            assert(self.preds@[i]@ == pre.preds@[i]@);
                        } else {
                            assert(self.preds@[i]@ == Seq::<usize>::empty());
                        }
                    }
                    assert forall|i: int, x: usize|
                        0 <= i < self.nodes@.len() && #[trigger] self.succs@[i]@.contains(x)
                        implies self.nodes@.contains(x) by {
                        if i < n {
                            assert(self.succs@[i]@ == pre.succs@[i]@);
                            assert(pre.nodes@.contains(x));
                            lemma_push_contains(pre.nodes@, node, x);
                        } else {
                            assert(self.succs@[i]@ == Seq::<usize>::empty());
                        }
                    }
                    assert forall|i: int, x: usize|
                        0 <= i < self.nodes@.len() && #[trigger] self.preds@[i]@.contains(x)
                        implies self.nodes@.contains(x) by {
                        if i < n {
                            assert(self.preds@[i]@ == pre.preds@[i]@);
                            assert(pre.nodes@.contains(x));
                            lemma_push_contains(pre.nodes@, node, x);
                        } else {
                            assert(self.preds@[i]@ == Seq::<usize>::empty());
                        }
                    }
                    assert forall|i: int, k: int|
                        0 <= i < self.nodes@.len() && 0 <= k < self.nodes@.len() implies (
                    self.succs@[i]@.contains(self.nodes@[k]) <==> self.preds@[k]@.contains(
                        self.nodes@[i])) by {
                        if i < n && k < n {
                            assert(self.succs@[i]@ == pre.succs@[i]@);
                            assert(self.preds@[k]@ == pre.preds@[k]@);
                            assert(self.nodes@[i] == pre.nodes@[i]);
                            assert(self.nodes@[k] == pre.nodes@[k]);
                        } else if i == n {
                            assert(self.succs@[i]@ == Seq::<usize>::empty());
                            if k < n {
                                assert(self.preds@[k]@ == pre.preds@[k]@);
                                if self.preds@[k]@.contains(self.nodes@[i]) {
                                    assert(pre.nodes@.contains(node));
                                }
                            } else {
                                assert(self.preds@[k]@ == Seq::<usize>::empty());
                            }
                        } else {
                            assert(k == n);
                            assert(self.preds@[k]@ == Seq::<usize>::empty());
                            assert(self.succs@[i]@ == pre.succs@[i]@);
                            if self.succs@[i]@.contains(self.nodes@[k]) {
                                assert(pre.nodes@.contains(node));
                            }
                        }
                    }
                }
            }
        }
    }

    /// Adds the edge `from -> to`, registering both endpoints when
    /// needed.  Adding an existing edge changes nothing.
    pub fn add_edge(&mut self, from: usize, to: usize)
        requires
            old(self).wf(),
        ensures
            final(self).wf(),
            final(self).has_node(from),
            final(self).has_node(to),
            final(self).has_edge(from, to),
            forall|n: usize| old(self).has_node(n) ==> final(self).has_node(n),
            forall|n: usize|
                !old(self).has_node(n) && final(self).has_node(n) ==> n == from || n == to,
            forall|a: usize, b: usize|
                #[trigger] final(self).has_edge(a, b) <==> old(self).has_edge(a, b) || (a == from
                    && b == to),
            forall|n: usize|
                n != from ==> final(self).succ_of(n) == old(self).succ_of(n),
            forall|n: usize|
                n != to ==> final(self).pred_of(n) == old(self).pred_of(n),
            final(self).succ_of(from) == if old(self).has_edge(from, to) {
                old(self).succ_of(from)
            } else {
                old(self).succ_of(from).push(to)
            },
            final(self).pred_of(to) == if old(self).pred_of(to).contains(from) {
                old(self).pred_of(to)
            } else {
                old(self).pred_of(to).push(from)
            },
            final(self).node_seq().no_duplicates(),
            old(self).node_seq().len() <= final(self).node_seq().len(),
    {
        self.add_node(from);
        self.add_node(to);
        let ghost pre = *self;
        let fi = match find_index(&self.nodes, from) {
            Some(i) => i,
            None => {
                proof {
                    assert(false);  // `from` was just registered
                }
                0
            },
        };
        let ti = match find_index(&self.nodes, to) {
            Some(i) => i,
            None => {
                proof {
                    assert(false);  // `to` was just registered
                }
                0
            },
        };
        proof {
            assert(pre.nodes@.index_of(from) == fi as int) by {
                let j = pre.nodes@.index_of(from);
                assert(pre.nodes@[j] == from);
            }
            assert(pre.nodes@.index_of(to) == ti as int) by {
                let j = pre.nodes@.index_of(to);
                assert(pre.nodes@[j] == to);
            }
        }
        if !vec_contains(&self.succs[fi], to) {
            self.succs[fi].push(to);
        }
        if !vec_contains(&self.preds[ti], from) {
            self.preds[ti].push(from);
        }
        proof {
            self.lemma_add_edge_post(pre, from, to, fi as int, ti as int);
        }
    }

    proof fn lemma_add_edge_post(&self, pre: Self, from: usize, to: usize, fi: int, ti: int)
        requires
            pre.wf(),
            pre.has_node(from),
            pre.has_node(to),
            0 <= fi < pre.nodes@.len(),
            0 <= ti < pre.nodes@.len(),
            pre.nodes@[fi] == from,
            pre.nodes@[ti] == to,
            self.nodes@ == pre.nodes@,
            self.preds@.len() == pre.preds@.len(),
            self.succs@.len() == pre.succs@.len(),
            forall|i: int| 0 <= i < pre.succs@.len() && i != fi ==> self.succs@[i]@ == pre.succs@[i]@,
            self.succs@[fi]@ == if pre.succs@[fi]@.contains(to) {
                pre.succs@[fi]@
            } else {
                pre.succs@[fi]@.push(to)
            },
            forall|i: int| 0 <= i < pre.preds@.len() && i != ti ==> self.preds@[i]@ == pre.preds@[i]@,
            self.preds@[ti]@ == if pre.preds@[ti]@.contains(from) {
                pre.preds@[ti]@
            } else {
                pre.preds@[ti]@.push(from)
            },
        ensures
            self.wf(),
            self.has_edge(from, to),
            forall|a: usize, b: usize|
                #[trigger] self.has_edge(a, b) <==> pre.has_edge(a, b) || (a == from && b == to),
            forall|n: usize| n != from ==> self.succ_of(n) == pre.succ_of(n),
            forall|n: usize| n != to ==> self.pred_of(n) == pre.pred_of(n),
            self.succ_of(from) == if pre.has_edge(from, to) {
                pre.succ_of(from)
            } else {
                pre.succ_of(from).push(to)
            },
            self.pred_of(to) == if pre.pred_of(to).contains(from) {
                pre.pred_of(to)
            } else {
                pre.pred_of(to).push(from)
            },
    {
        let n = pre.nodes@.len() as int;
        let added_s = !pre.succs@[fi]@.contains(to);
        let added_p = !pre.preds@[ti]@.contains(from);
        lemma_index_of_unique(pre.nodes@, from, fi);
        lemma_index_of_unique(pre.nodes@, to, ti);
        // membership in each row, old versus new
        assert forall|i: int, x: usize|
            0 <= i < n implies (#[trigger] self.succs@[i]@.contains(x) <==> pre.succs@[i]@.contains(
            x) || (i == fi && added_s && x == to)) by {
            if i == fi && added_s {
                lemma_push_contains(pre.succs@[fi]@, to, x);
            } else {
                assert(self.succs@[i]@ == pre.succs@[i]@);
            }
        }
        assert forall|i: int, x: usize|
            0 <= i < n implies (#[trigger] self.preds@[i]@.contains(x) <==> pre.preds@[i]@.contains(
            x) || (i == ti && added_p && x == from)) by {
            if i == ti && added_p {
                lemma_push_contains(pre.preds@[ti]@, from, x);
            } else {
                assert(self.preds@[i]@ == pre.preds@[i]@);
            }
        }
        assert(self.wf()) by {
            assert forall|i: int| 0 <= i < n implies (#[trigger] self.succs@[i]@).no_duplicates() by {
                if i == fi && added_s {
                    assert(self.succs@[i]@ == pre.succs@[fi]@.push(to));
                    assert forall|p: int, q: int|
                        0 <= p < self.succs@[i]@.len() && 0 <= q < self.succs@[i]@.len() && p != q
                        implies self.succs@[i]@[p] != self.succs@[i]@[q] by {
                        if p < pre.succs@[fi]@.len() && q < pre.succs@[fi]@.len() {
                        } else if p == pre.succs@[fi]@.len() as int {
                            if self.succs@[i]@[p] == self.succs@[i]@[q] {
                                assert(pre.succs@[fi]@[q] == to);
                                assert(pre.succs@[fi]@.contains(to));
                            }
                        } else {
                            if self.succs@[i]@[p] == self.succs@[i]@[q] {
                                assert(pre.succs@[fi]@[p] == to);
                                assert(pre.succs@[fi]@.contains(to));
                            }
                        }
                    }
                } else {
                    assert(self.succs@[i]@ == pre.succs@[i]@);
                }
            }
            assert forall|i: int| 0 <= i < n implies (#[trigger] self.preds@[i]@).no_duplicates() by {
                if i == ti && added_p {
                    assert(self.preds@[i]@ == pre.preds@[ti]@.push(from));
                    assert forall|p: int, q: int|
                        0 <= p < self.preds@[i]@.len() && 0 <= q < self.preds@[i]@.len() && p != q
                        implies self.preds@[i]@[p] != self.preds@[i]@[q] by {
                        if p < pre.preds@[ti]@.len() && q < pre.preds@[ti]@.len() {
                        } else if p == pre.preds@[ti]@.len() as int {
                            if self.preds@[i]@[p] == self.preds@[i]@[q] {
                                assert(pre.preds@[ti]@[q] == from);
                                assert(pre.preds@[ti]@.contains(from));
                            }
                        } else {
                            if self.preds@[i]@[p] == self.preds@[i]@[q] {
                                assert(pre.preds@[ti]@[p] == from);
                                assert(pre.preds@[ti]@.contains(from));
                            }
                        }
                    }
                } else {
                    assert(self.preds@[i]@ == pre.preds@[i]@);
                }
            }
            assert forall|i: int, x: usize|
                0 <= i < n && #[trigger] self.succs@[i]@.contains(x) implies self.nodes@.contains(
                x) by {
                if pre.succs@[i]@.contains(x) {
                } else {
                    assert(x == to);
                }
            }
            assert forall|i: int, x: usize|
                0 <= i < n && #[trigger] self.preds@[i]@.contains(x) implies self.nodes@.contains(
                x) by {
                if pre.preds@[i]@.contains(x) {
                } else {
                    assert(x == from);
                }
            }
            assert forall|i: int, k: int|
                0 <= i < n && 0 <= k < n implies (self.succs@[i]@.contains(self.nodes@[k])
                <==> self.preds@[k]@.contains(self.nodes@[i])) by {
                assert(pre.succs@[i]@.contains(pre.nodes@[k]) <==> pre.preds@[k]@.contains(
                    pre.nodes@[i]));
                assert(pre.succs@[fi]@.contains(pre.nodes@[ti]) <==> pre.preds@[ti]@.contains(
                    pre.nodes@[fi]));
                // added_s <==> added_p, since `pre` is symmetric at (fi, ti)
                if self.succs@[i]@.contains(self.nodes@[k]) && !pre.succs@[i]@.contains(
                    pre.nodes@[k]) {
                    assert(i == fi && added_s && self.nodes@[k] == to);
                    lemma_index_of_unique(pre.nodes@, to, k);
                    assert(k == ti);
                }
                if self.preds@[k]@.contains(self.nodes@[i]) && !pre.preds@[k]@.contains(
                    pre.nodes@[i]) {
                    assert(k == ti && added_p && self.nodes@[i] == from);
                    lemma_index_of_unique(pre.nodes@, from, i);
                    assert(i == fi);
                }
            }
        }
        // row views by node
        assert forall|m: usize| m != from implies self.succ_of(m) == pre.succ_of(m) by {
            if pre.has_node(m) {
                let i = pre.nodes@.index_of(m);
                assert(pre.nodes@[i] == m);
                assert(i != fi);
                assert(self.succs@[i]@ == pre.succs@[i]@);
            }
        }
        assert forall|m: usize| m != to implies self.pred_of(m) == pre.pred_of(m) by {
            if pre.has_node(m) {
                let i = pre.nodes@.index_of(m);
                assert(pre.nodes@[i] == m);
                assert(i != ti);
                assert(self.preds@[i]@ == pre.preds@[i]@);
            }
        }
        assert(self.succ_of(from) == self.succs@[fi]@);
        assert(self.pred_of(to) == self.preds@[ti]@);
        assert(pre.succ_of(from) == pre.succs@[fi]@);
        assert(pre.pred_of(to) == pre.preds@[ti]@);
        assert(self.has_edge(from, to)) by {
            if added_s {
                lemma_push_contains(pre.succs@[fi]@, to, to);
            }
        }
        assert forall|a: usize, b: usize| #[trigger]
            self.has_edge(a, b) <==> pre.has_edge(a, b) || (a == from && b == to) by {
            if a == from {
                assert(self.succ_of(a) == self.succs@[fi]@);
                assert(pre.succ_of(a) == pre.succs@[fi]@);
                if added_s {
                    lemma_push_contains(pre.succs@[fi]@, to, b);
                }
            } else {
                assert(self.succ_of(a) == pre.succ_of(a));
                if a == from && b == to {
                }
            }
        }
    }

    /// The successors of `node`, in insertion order; empty for an
    /// unknown node.
    pub fn successors(&self, node: usize) -> (r: Vec<usize>)
        requires
            self.wf(),
        ensures
            r@ == self.succ_of(node),
    {
        match find_index(&self.nodes, node) {
            Some(i) => {
                let r = self.succs[i].clone();
                proof {
                    assert(self.nodes@.contains(node)) by {
                        assert(self.nodes@[i as int] == node);
                    }
                    let j = self.nodes@.index_of(node);
                    assert(self.nodes@[j] == node);
                    assert(j == i as int);
                }
                r
            },
            None => Vec::new(),
        }
    }

    /// The predecessors of `node`, in insertion order; empty for an
    /// unknown node.
    pub fn predecessors(&self, node: usize) -> (r: Vec<usize>)
        requires
            self.wf(),
        ensures
            r@ == self.pred_of(node),
    {
        match find_index(&self.nodes, node) {
            Some(i) => {
                let r = self.preds[i].clone();
                proof {
                    assert(self.nodes@.contains(node)) by {
                        assert(self.nodes@[i as int] == node);
                    }
                    let j = self.nodes@.index_of(node);
                    assert(self.nodes@[j] == node);
                    assert(j == i as int);
                }
                r
            },
            None => Vec::new(),
        }
    }

    /// All registered nodes, in registration order.
    pub fn nodes(&self) -> (r: Vec<usize>)
        ensures
            r@ == self.node_seq(),
    {
        self.nodes.clone()
    }
}

/// Association-list lookup: the value stored beside `k`, if any.
fn assoc_get(keys: &Vec<usize>, vals: &Vec<usize>, k: usize) -> (r: Option<usize>)
    requires
        keys@.no_duplicates(),
        vals@.len() == keys@.len(),
    ensures
        match r {
            Some(v) => keys@.contains(k) && v == vals@[keys@.index_of(k)],
            None => !keys@.contains(k),
        },
{
    match find_index(keys, k) {
        Some(i) => {
            proof {
                lemma_index_of_unique(keys@, k, i as int);
                assert(keys@.contains(k)) by {
                    assert(keys@[i as int] == k);
                }
            }
            Some(vals[i])
        },
        None => None,
    }
}

/// Position of `x` in the duplicate-free sequence behind `v`.
fn seq_position(v: &Vec<usize>, x: usize) -> (r: usize)
    requires
        v@.no_duplicates(),
        v@.contains(x),
    ensures
        r as int == v@.index_of(x),
        r < v@.len(),
        v@[r as int] == x,
{
    match find_index(v, x) {
        Some(i) => {
            proof {
                lemma_index_of_unique(v@, x, i as int);
            }
            i
        },
        None => {
            proof {
                assert(false);
            }
            0
        },
    }
}

/// A duplicate-free sequence can be no longer than one that holds all
/// its elements.
pub(crate) proof fn lemma_nodup_len_le(a: Seq<usize>, b: Seq<usize>)
    requires
        a.no_duplicates(),
        forall|x: usize| a.contains(x) ==> b.contains(x),
    ensures
        a.len() <= b.len(),
{
    broadcast use vstd::seq_lib::seq_to_set_is_finite;

    a.unique_seq_to_set();
    assert(a.to_set().subset_of(b.to_set())) by {
        assert forall|x: usize| a.to_set().contains(x) implies b.to_set().contains(x) by {
            assert(a.contains(x));
            assert(b.contains(x));
        }
    }
    vstd::set_lib::lemma_len_subset(a.to_set(), b.to_set());
    b.lemma_cardinality_of_set();
}

/// Prepending one element adds exactly one membership.
proof fn lemma_cons_contains(h: usize, s: Seq<usize>, x: usize)
    ensures
        (seq![h] + s).contains(x) <==> x == h || s.contains(x),
{
    let c = seq![h] + s;
    if x == h {
        assert(c[0] == x);
    }
    if s.contains(x) {
        let i = choose|i: int| 0 <= i < s.len() && s[i] == x;
        assert(c[i + 1] == x);
    }
    if c.contains(x) {
        let i = choose|i: int| 0 <= i < c.len() && c[i] == x;
        if i > 0 {
            assert(s[i - 1] == x);
        }
    }
}

/// The structural invariant shared by the dominator solver and the
/// finished [`Dominators`] result: the immediate-dominator table maps
/// the entry to itself and every other assigned node to an already
/// assigned node that stands strictly earlier in reverse postorder.
spec fn dom_inv(keys: Seq<usize>, vals: Seq<usize>, rpo: Seq<usize>, entry: usize) -> bool {
    &&& keys.no_duplicates()
    &&& vals.len() == keys.len()
    &&& rpo.no_duplicates()
    &&& rpo.len() >= 1
    &&& rpo[0] == entry
    &&& keys.len() >= 1
    &&& keys[0] == entry
    &&& vals[0] == entry
    &&& (forall|i: int| 0 <= i < keys.len() ==> rpo.contains(#[trigger] keys[i]))
    &&& (forall|i: int| 0 <= i < keys.len() ==> keys.contains(#[trigger] vals[i]))
    &&& (forall|i: int|
        1 <= i < keys.len() ==> rpo.index_of(#[trigger] vals[i]) < rpo.index_of(keys[i]))
}

/// Immediate dominators of the nodes reachable from a chosen entry,
/// computed by the iterative Cooper-Harvey-Kennedy scheme.
pub struct Dominators {
    idom_keys: Vec<usize>,
    idom_vals: Vec<usize>,
    reverse_postorder: Vec<usize>,
    entry: usize,
}

impl Dominators {
    /// The immediate-dominator map: every assigned node to its
    /// immediate dominator, the entry to itself.
    pub closed spec fn im(&self) -> Map<usize, usize> {
        Map::new(
            |k: usize| self.idom_keys@.contains(k),
            |k: usize| self.idom_vals@[self.idom_keys@.index_of(k)],
        )
    }

    /// The reverse-postorder numbering that the computation used.
    pub closed spec fn rpo_seq(&self) -> Seq<usize> {
        self.reverse_postorder@
    }

    /// `n` received a reverse-postorder number.
    pub open spec fn numbered(&self, n: usize) -> bool {
        self.rpo_seq().contains(n)
    }

    pub closed spec fn entry_spec(&self) -> usize {
        self.entry
    }

    /// Rank used to walk dominator chains: the reverse-postorder
    /// position, and zero for nodes outside the numbering.
    pub open spec fn chain_rank(&self, n: usize) -> int {
        if self.rpo_seq().contains(n) {
            self.rpo_seq().index_of(n)
        } else {
            0
        }
    }

    pub closed spec fn wf(&self) -> bool {
        dom_inv(self.idom_keys@, self.idom_vals@, self.reverse_postorder@, self.entry)
    }

    /// `d` stands on the immediate-dominator chain from `n` up to the
    /// entry; this is the dominance relation of the computed result.
    pub open spec fn in_dom_chain(&self, d: usize, n: usize) -> bool
        decreases self.chain_rank(n),
        when self.wf()
        via Self::in_dom_chain_decreases
    {
        d == n || (self.im().dom().contains(n) && n != self.entry_spec() && self.in_dom_chain(
            d,
            self.im()[n],
        ))
    }

    #[via_fn]
    proof fn in_dom_chain_decreases(&self, d: usize, n: usize) {
        if self.wf() && d != n && self.im().dom().contains(n) && n != self.entry_spec() {
            self.lemma_chain_step(n);
        }
    }

    /// The chain of dominators of `n`, from `n` itself up to the entry.
    pub open spec fn dom_chain(&self, n: usize) -> Seq<usize>
        decreases self.chain_rank(n),
        when self.wf()
        via Self::dom_chain_decreases
    {
        if self.im().dom().contains(n) && n != self.entry_spec() {
            seq![n] + self.dom_chain(self.im()[n])
        } else {
            seq![n]
        }
    }

    #[via_fn]
    proof fn dom_chain_decreases(&self, n: usize) {
        if self.wf() && self.im().dom().contains(n) && n != self.entry_spec() {
            self.lemma_chain_step(n);
        }
    }

    /// One step up an assigned chain strictly lowers the rank.
    proof fn lemma_chain_step(&self, n: usize)
        requires
            self.wf(),
            self.im().dom().contains(n),
            n != self.entry_spec(),
        ensures
            self.im().dom().contains(self.im()[n]),
            0 <= self.chain_rank(self.im()[n]) < self.chain_rank(n),
            self.im()[n] != n,
            self.rpo_seq().contains(n),
    {
        let keys = self.idom_keys@;
        let vals = self.idom_vals@;
        let rpo = self.reverse_postorder@;
        let i = keys.index_of(n);
        assert(keys[i] == n);
        assert(i != 0) by {
            if i == 0 {
                assert(keys[0] == self.entry);
            }
        }
        assert(keys.contains(vals[i]));
        assert(rpo.index_of(vals[i]) < rpo.index_of(keys[i]));
        assert(self.im()[n] == vals[i]);
        let j = keys.index_of(vals[i]);
        assert(keys[j] == vals[i]);
        assert(rpo.contains(keys[i]));
        assert(rpo.contains(vals[i]));
        assert(rpo[rpo.index_of(vals[i])] == vals[i]);
        assert(rpo[rpo.index_of(keys[i])] == keys[i]);
        assert(rpo.index_of(vals[i]) >= 0);
        assert(self.chain_rank(vals[i]) == rpo.index_of(vals[i]));
        assert(self.chain_rank(n) == rpo.index_of(n));
        assert(rpo.index_of(n) == rpo.index_of(keys[i]));
    }

    /// Entry facts: the entry is assigned, maps to itself, and has
    /// rank zero.
    proof fn lemma_entry_facts(&self)
        requires
            self.wf(),
        ensures
            self.im().dom().contains(self.entry_spec()),
            self.im()[self.entry_spec()] == self.entry_spec(),
            self.chain_rank(self.entry_spec()) == 0,
    {
        let keys = self.idom_keys@;
        let rpo = self.reverse_postorder@;
        assert(keys[0] == self.entry);
        assert(keys.contains(self.entry)) by {
            assert(keys[0] == self.entry);
        }
        lemma_index_of_unique(keys, self.entry, 0);
        assert(rpo.contains(self.entry)) by {
            assert(rpo[0] == self.entry);
        }
        lemma_index_of_unique(rpo, self.entry, 0);
    }

    /// A node on an assigned chain other than the entry never maps to
    /// itself.
    proof fn lemma_no_self_loop(&self, n: usize)
        requires
            self.wf(),
            self.im().dom().contains(n),
            self.im()[n] == n,
        ensures
            n == self.entry_spec(),
    {
        if n != self.entry_spec() {
            self.lemma_chain_step(n);
        }
    }
}

impl Dominators {
    /// Returns whether `dominator` dominates `node` in the computed
    /// result, by walking `node`'s immediate-dominator chain.
    pub fn dominates(&self, dominator: usize, node: usize) -> (r: bool)
        requires
            self.wf(),
        ensures
            r == self.in_dom_chain(dominator, node),
    {
        if dominator == node {
            return true;
        }
        let mut current: usize = node;
        loop
            invariant
                self.wf(),
                dominator != current,
                self.in_dom_chain(dominator, node) == self.in_dom_chain(dominator, current),
            decreases self.chain_rank(current),
        {
            match assoc_get(&self.idom_keys, &self.idom_vals, current) {
                None => {
                    proof {
                        assert(!self.im().dom().contains(current));
                    }
                    return false;
                },
                Some(idom) => {
                    proof {
                        assert(self.im().dom().contains(current));
                        assert(self.im()[current] == idom);
                    }
                    if idom == dominator {
                        proof {
                            self.lemma_entry_facts();
                            assert(current != self.entry_spec());
                            assert(self.in_dom_chain(dominator, dominator));
                            assert(self.in_dom_chain(dominator, current));
                        }
                        return true;
                    }
                    if idom == current {
                        proof {
                            self.lemma_no_self_loop(current);
                            assert(!self.in_dom_chain(dominator, current));
                        }
                        return false;
                    }
                    proof {
                        self.lemma_entry_facts();
                        assert(current != self.entry_spec());
                        self.lemma_chain_step(current);
                    }
                    current = idom;
                },
            }
        }
    }

    /// Returns whether `dominator` dominates `node` and differs from it.
    pub fn strictly_dominates(&self, dominator: usize, node: usize) -> (r: bool)
        requires
            self.wf(),
        ensures
            r == (dominator != node && self.in_dom_chain(dominator, node)),
    {
        dominator != node && self.dominates(dominator, node)
    }

    /// The dominators of `node`: its chain from `node` itself up to
    /// the entry.
    pub fn dominators_of(&self, node: usize) -> (r: Vec<usize>)
        requires
            self.wf(),
        ensures
            r@ == self.dom_chain(node),
            forall|d: usize| #[trigger] r@.contains(d) <==> self.in_dom_chain(d, node),
    {
        let mut r: Vec<usize> = Vec::new();
        let mut current: usize = node;
        loop
            invariant_except_break
                self.wf(),
                r@ + self.dom_chain(current) == self.dom_chain(node),
            ensures
                r@ == self.dom_chain(node),
            decreases self.chain_rank(current),
        {
            r.push(current);
            match assoc_get(&self.idom_keys, &self.idom_vals, current) {
                None => {
                    proof {
                        assert(!self.im().dom().contains(current));
                        assert(self.dom_chain(current) == seq![current]);
                        assert(r@ == self.dom_chain(node));
                    }
                    break;
                },
                Some(idom) => {
                    if idom == current {
                        proof {
                            self.lemma_no_self_loop(current);
                            assert(self.dom_chain(current) == seq![current]);
                            assert(r@ == self.dom_chain(node));
                        }
                        break;
                    }
                    proof {
                        assert(self.im().dom().contains(current));
                        assert(self.im()[current] == idom);
                        self.lemma_entry_facts();
                        assert(current != self.entry_spec());
                        self.lemma_chain_step(current);
                        assert(self.dom_chain(current) == seq![current] + self.dom_chain(idom));
                        assert(r@ + self.dom_chain(idom) == self.dom_chain(node)) by {
                            assert(r@ =~= r@.drop_last().push(current));
                            assert(r@.drop_last() + self.dom_chain(current) == self.dom_chain(
                                node,
                            ));
                            assert(r@.drop_last() + (seq![current] + self.dom_chain(idom)) =~= (
                            r@.drop_last().push(current)) + self.dom_chain(idom));
                        }
                    }
                    current = idom;
                },
            }
        }
        proof {
            self.lemma_dom_chain_contains(node);
        }
        r
    }

    /// Everything on a dominator chain dominates the node the chain
    /// belongs to, and nothing else does.
    proof fn lemma_dom_chain_contains(&self, n: usize)
        requires
            self.wf(),
        ensures
            forall|d: usize| #[trigger] self.dom_chain(n).contains(d) <==> self.in_dom_chain(d, n),
        decreases self.chain_rank(n),
    {
        if self.im().dom().contains(n) && n != self.entry_spec() {
            self.lemma_chain_step(n);
            self.lemma_dom_chain_contains(self.im()[n]);
            assert forall|d: usize| #[trigger]
                self.dom_chain(n).contains(d) <==> self.in_dom_chain(d, n) by {
                lemma_cons_contains(n, self.dom_chain(self.im()[n]), d);
            }
        } else {
            assert forall|d: usize| #[trigger]
                self.dom_chain(n).contains(d) <==> self.in_dom_chain(d, n) by {
                assert(self.dom_chain(n) == seq![n]);
                if self.dom_chain(n).contains(d) {
                    let i = choose|i: int|
                        0 <= i < self.dom_chain(n).len() && self.dom_chain(n)[i] == d;
                    assert(d == n);
                }
                if d == n {
                    assert(self.dom_chain(n)[0] == d);
                }
            }
        }
    }

    /// The immediate dominator of `node`; `None` for the entry and for
    /// nodes that were never assigned one.
    pub fn immediate_dominator(&self, node: usize) -> (r: Option<usize>)
        requires
            self.wf(),
        ensures
            r == if self.im().dom().contains(node) && self.im()[node] != node {
                Some(self.im()[node])
            } else {
                None::<usize>
            },
    {
        match assoc_get(&self.idom_keys, &self.idom_vals, node) {
            Some(idom) => {
                if idom == node {
                    None
                } else {
                    Some(idom)
                }
            },
            None => None,
        }
    }

    /// All assigned nodes that `dominator` dominates.
    pub fn dominated_by(&self, dominator: usize) -> (r: Vec<usize>)
        requires
            self.wf(),
        ensures
            r@.no_duplicates(),
            forall|x: usize| #[trigger]
                r@.contains(x) <==> self.im().dom().contains(x) && self.in_dom_chain(dominator, x),
    {
        let mut r: Vec<usize> = Vec::new();
        let mut i: usize = 0;
        while i < self.idom_keys.len()
            invariant
                self.wf(),
                i <= self.idom_keys@.len(),
                r@.no_duplicates(),
                forall|x: usize| #[trigger]
                    r@.contains(x) <==> self.idom_keys@.subrange(0, i as int).contains(x)
                        && self.in_dom_chain(dominator, x),
            decreases self.idom_keys@.len() - i,
        {
            let k = self.idom_keys[i];
            let ghost pre = r@;
            let ghost sub = self.idom_keys@.subrange(0, i as int);
            let ghost sub1 = self.idom_keys@.subrange(0, i as int + 1);
            proof {
                assert(sub1 =~= sub.push(k));
            }
            if self.dominates(dominator, k) {
                proof {
                    if r@.contains(k) {
                        assert(sub.contains(k));
                        let j = choose|j: int| 0 <= j < sub.len() && sub[j] == k;
                        assert(self.idom_keys@[j] == k);
                        assert(self.idom_keys@[i as int] == k);
                    }
                }
                r.push(k);
                proof {
                    assert forall|x: usize| #[trigger]
                        r@.contains(x) <==> sub1.contains(x) && self.in_dom_chain(
                        dominator,
                        x,
                    ) by {
                        lemma_push_contains(pre, k, x);
                        lemma_push_contains(sub, k, x);
                    }
                    assert(r@.no_duplicates()) by {
                        assert(r@ == pre.push(k));
                        assert(!pre.contains(k));
                    }
                }
            } else {
                proof {
                    assert forall|x: usize| #[trigger]
                        r@.contains(x) <==> sub1.contains(x) && self.in_dom_chain(
                        dominator,
                        x,
                    ) by {
                        lemma_push_contains(sub, k, x);
                        if x == k {
                            assert(!self.in_dom_chain(dominator, x));
                        }
                    }
                }
            }
            i = i + 1;
        }
        proof {
            assert(self.idom_keys@.subrange(0, self.idom_keys@.len() as int) =~= self.idom_keys@);
            assert forall|x: usize| #[trigger]
                r@.contains(x) <==> self.im().dom().contains(x) && self.in_dom_chain(
                dominator,
                x,
            ) by {
                assert(self.im().dom().contains(x) == self.idom_keys@.contains(x));
            }
        }
        r
    }

    /// The entry node the computation started from.
    pub fn entry(&self) -> (r: usize)
        ensures
            r == self.entry_spec(),
    {
        self.entry
    }
}

impl Dominators {
    /// The dominator tree: each assigned node maps to the list of
    /// nodes whose immediate dominator it is.
    pub fn dominator_tree(&self) -> (m: std::collections::HashMap<usize, Vec<usize>>)
        requires
            self.wf(),
        ensures
            forall|k: usize| #[trigger] m@.contains_key(k) <==> self.im().dom().contains(k),
            forall|p: usize, c: usize|
                m@.contains_key(p) ==> (#[trigger] m@[p]@.contains(c) <==> self.im().dom().contains(
                    c,
                ) && c != self.entry_spec() && self.im()[c] == p),
            forall|p: usize| #[trigger] m@.contains_key(p) ==> m@[p]@.no_duplicates(),
    {
        broadcast use vstd::std_specs::hash::group_hash_axioms;

        let mut tree: std::collections::HashMap<usize, Vec<usize>> =
            std::collections::HashMap::new();
        tree.insert(self.entry, Vec::new());
        proof {
            self.lemma_entry_facts();
        }
        let mut i: usize = 0;
        while i < self.idom_keys.len()
            invariant
                self.wf(),
                i <= self.idom_keys@.len(),
                tree@.contains_key(self.entry_spec()),
                forall|k: usize| #[trigger]
                    tree@.contains_key(k) ==> self.im().dom().contains(k),
                forall|j: int| 0 <= j < i ==> tree@.contains_key(#[trigger] self.idom_keys@[j]),
                forall|j: int| 0 <= j < i ==> tree@.contains_key(#[trigger] self.idom_vals@[j]),
                forall|p: usize, c: usize|
                    tree@.contains_key(p) ==> (#[trigger] tree@[p]@.contains(c)
                        <==> self.idom_keys@.subrange(0, i as int).contains(c) && c
                        != self.entry_spec() && self.im().dom().contains(c) && self.im()[c] == p),
                forall|p: usize| #[trigger] tree@.contains_key(p) ==> tree@[p]@.no_duplicates(),
            decreases self.idom_keys@.len() - i,
        {
            let node = self.idom_keys[i];
            let idom = self.idom_vals[i];
            let ghost sub = self.idom_keys@.subrange(0, i as int);
            let ghost sub1 = self.idom_keys@.subrange(0, i as int + 1);
            proof {
                self.lemma_entry_facts();
                assert(sub1 =~= sub.push(node));
                assert(self.idom_keys@.contains(node)) by {
                    assert(self.idom_keys@[i as int] == node);
                }
                lemma_index_of_unique(self.idom_keys@, node, i as int);
                assert(self.im().dom().contains(node));
                assert(self.im()[node] == idom);
                assert(self.im().dom().contains(idom)) by {
                    assert(self.idom_keys@.contains(self.idom_vals@[i as int]));
                }
                // node appears in no child list yet: it was not yet processed
                assert forall|p: usize|
                    tree@.contains_key(p) implies !tree@[p]@.contains(node) by {
                    if tree@[p]@.contains(node) {
                        assert(sub.contains(node));
                        let j = choose|j: int| 0 <= j < sub.len() && sub[j] == node;
                        assert(self.idom_keys@[j] == node);
                        assert(self.idom_keys@[i as int] == node);
                    }
                }
                // every processed child's parent already is a key, so a child
                // of an absent key cannot have been processed
                assert forall|c: usize|
                    sub.contains(c) && c != self.entry_spec() implies tree@.contains_key(
                    self.im()[c]) by {
                    let j = choose|j: int| 0 <= j < sub.len() && sub[j] == c;
                    assert(self.idom_keys@[j] == c);
                    lemma_index_of_unique(self.idom_keys@, c, j);
                    assert(self.im()[c] == self.idom_vals@[j]);
                    assert(tree@.contains_key(self.idom_vals@[j]));
                }
            }
            if idom != node {
                proof {
                    assert(node != self.entry_spec()) by {
                        if node == self.entry_spec() {
                            self.lemma_entry_facts();
                        }
                    }
                }
                let lst = match tree.get(&idom) {
                    Some(v) => {
                        let mut c = v.clone();
                        c.push(node);
                        c
                    },
                    None => {
                        let mut c = Vec::new();
                        c.push(node);
                        c
                    },
                };
                let ghost pre_tree = tree@;
                tree.insert(idom, lst);
                proof {
                    assert forall|p: usize, c: usize|
                        tree@.contains_key(p) implies (#[trigger] tree@[p]@.contains(c)
                        <==> sub1.contains(c) && c != self.entry_spec()
                        && self.im().dom().contains(c) && self.im()[c] == p) by {
                        lemma_push_contains(sub, node, c);
                        if p == idom {
                            if pre_tree.contains_key(idom) {
                                assert(tree@[p]@ == pre_tree[idom]@.push(node));
                                lemma_push_contains(pre_tree[idom]@, node, c);
                            } else {
                                assert(tree@[p]@ =~= Seq::<usize>::empty().push(node));
                                lemma_push_contains(Seq::<usize>::empty(), node, c);
                                // no processed child has the absent key as parent
                                if sub.contains(c) && c != self.entry_spec() && self.im().dom()
                                    .contains(c) && self.im()[c] == p {
                                    assert(pre_tree.contains_key(self.im()[c]));
                                }
                            }
                        } else {
                            assert(tree@[p]@ == pre_tree[p]@);
                            assert(pre_tree.contains_key(p));
                        }
                    }
                    assert forall|p: usize| #[trigger]
                        tree@.contains_key(p) implies tree@[p]@.no_duplicates() by {
                        if p == idom {
                            if pre_tree.contains_key(idom) {
                                assert(tree@[p]@ == pre_tree[idom]@.push(node));
                                assert(!pre_tree[idom]@.contains(node));
                            } else {
                                assert(tree@[p]@ =~= Seq::<usize>::empty().push(node));
                            }
                        } else {
                            assert(tree@[p]@ == pre_tree[p]@);
                        }
                    }
                }
            } else {
                proof {
                    assert(node == self.entry_spec()) by {
                        self.lemma_no_self_loop(node);
                    }
                    assert forall|p: usize, c: usize|
                        tree@.contains_key(p) implies (#[trigger] tree@[p]@.contains(c)
                        <==> sub1.contains(c) && c != self.entry_spec()
                        && self.im().dom().contains(c) && self.im()[c] == p) by {
                        lemma_push_contains(sub, node, c);
                    }
                }
            }
            if !tree.contains_key(&node) {
                let ghost pre_tree = tree@;
                tree.insert(node, Vec::new());
                proof {
                    assert forall|p: usize, c: usize|
                        tree@.contains_key(p) implies (#[trigger] tree@[p]@.contains(c)
                        <==> sub1.contains(c) && c != self.entry_spec()
                        && self.im().dom().contains(c) && self.im()[c] == p) by {
                        lemma_push_contains(sub, node, c);
                        if p == node {
                            assert(tree@[p]@ =~= Seq::<usize>::empty());
                            if sub1.contains(c) && c != self.entry_spec()
                                && self.im().dom().contains(c) && self.im()[c] == p {
                                if c == node {
                                    // its own parent: only the entry maps to itself
                                    self.lemma_no_self_loop(node);
                                    assert(false);
                                } else {
                                    assert(sub.contains(c));
                                    assert(pre_tree.contains_key(self.im()[c]));
                                    assert(false);
                                }
                            }
                        } else {
                            assert(tree@[p]@ == pre_tree[p]@);
                            assert(pre_tree.contains_key(p));
                        }
                    }
                }
            }
            i = i + 1;
        }
        proof {
            assert(self.idom_keys@.subrange(0, self.idom_keys@.len() as int) =~= self.idom_keys@);
            assert forall|k: usize| #[trigger]
                tree@.contains_key(k) <==> self.im().dom().contains(k) by {
                if self.im().dom().contains(k) {
                    let j = self.idom_keys@.index_of(k);
                    assert(self.idom_keys@[j] == k);
                    assert(tree@.contains_key(self.idom_keys@[j]));
                }
            }
        }
        tree
    }
}

impl Dominators {
    /// On a dominator chain the rank strictly decreases, so a proper
    /// dominator stands strictly earlier in reverse postorder.
    proof fn lemma_chain_rank_le(&self, a: usize, b: usize)
        requires
            self.wf(),
            self.in_dom_chain(a, b),
        ensures
            a == b || self.chain_rank(a) < self.chain_rank(b),
        decreases self.chain_rank(b),
    {
        if a != b {
            self.lemma_chain_step(b);
            self.lemma_chain_rank_le(a, self.im()[b]);
        }
    }
}

/// Dominance is reflexive: every node dominates itself.
pub proof fn lemma_dominates_reflexive(d: &Dominators, n: usize)
    requires
        d.wf(),
    ensures
        d.in_dom_chain(n, n),
{
}

/// The entry dominates every node that received an immediate
/// dominator.
pub proof fn lemma_entry_dominates_all(d: &Dominators, n: usize)
    requires
        d.wf(),
        d.im().dom().contains(n),
    ensures
        d.in_dom_chain(d.entry_spec(), n),
    decreases d.chain_rank(n),
{
    if n != d.entry_spec() {
        d.lemma_chain_step(n);
        lemma_entry_dominates_all(d, d.im()[n]);
    }
}

/// Dominance is antisymmetric: two nodes that dominate each other are
/// equal.
pub proof fn lemma_dominates_antisymmetric(d: &Dominators, a: usize, b: usize)
    requires
        d.wf(),
        d.in_dom_chain(a, b),
        d.in_dom_chain(b, a),
    ensures
        a == b,
{
    d.lemma_chain_rank_le(a, b);
    d.lemma_chain_rank_le(b, a);
}

/// Dominance is transitive along the chains.
pub proof fn lemma_dominates_transitive(d: &Dominators, a: usize, b: usize, c: usize)
    requires
        d.wf(),
        d.in_dom_chain(a, b),
        d.in_dom_chain(b, c),
    ensures
        d.in_dom_chain(a, c),
    decreases d.chain_rank(c),
{
    if b != c {
        d.lemma_chain_step(c);
        lemma_dominates_transitive(d, a, b, d.im()[c]);
    }
}

/// A node whose slot names itself is an exit and is post-dominated
/// by itself alone.
pub proof fn lemma_exit_post_dominates_only_itself(pd: &PostDominators, x: usize, d: usize)
    requires
        pd.wf(),
        pd.ipdom_of(x) == ExtNode::Real(Some(x)),
    ensures
        pd.pd_holds(x, d) <==> d == x,
{
}

/// Strict dominance is irreflexive and transitive.
pub proof fn lemma_strictly_dominates_order(d: &Dominators, a: usize, b: usize, c: usize)
    requires
        d.wf(),
        a != b,
        d.in_dom_chain(a, b),
        b != c,
        d.in_dom_chain(b, c),
    ensures
        a != c,
        d.in_dom_chain(a, c),
        !(c != c && d.in_dom_chain(c, c)),
{
    lemma_dominates_transitive(d, a, b, c);
    d.lemma_chain_rank_le(a, b);
    d.lemma_chain_rank_le(b, c);
}

impl DirectedGraph {
    /// Successor lists only name registered nodes.
    pub proof fn lemma_succ_closed(&self, n: usize, x: usize)
        requires
            self.wf(),
            self.succ_of(n).contains(x),
        ensures
            self.has_node(x),
            self.has_node(n),
    {
        assert(self.has_node(n));
        let i = self.nodes@.index_of(n);
        assert(self.nodes@[i] == n);
        assert(self.succs@[i]@.contains(x));
    }

    /// Predecessor lists only name registered nodes.
    pub proof fn lemma_pred_closed(&self, n: usize, x: usize)
        requires
            self.wf(),
            self.pred_of(n).contains(x),
        ensures
            self.has_node(x),
            self.has_node(n),
    {
        assert(self.has_node(n));
        let i = self.nodes@.index_of(n);
        assert(self.nodes@[i] == n);
        assert(self.preds@[i]@.contains(x));
    }
}

/// A walk from `entry` along successor edges, node by node.
pub open spec fn edge_path(g: DirectedGraph, entry: usize, path: Seq<usize>) -> bool {
    path.len() > 0 && path[0] == entry && (forall|i: int|
        0 <= i < path.len() - 1 ==> g.has_edge(#[trigger] path[i], path[i + 1]))
}

/// `n` is reachable from `entry` along successor edges.
pub open spec fn reachable_from(g: DirectedGraph, entry: usize, n: usize) -> bool {
    exists|path: Seq<usize>| edge_path(g, entry, path) && path.last() == n
}

proof fn lemma_reach_entry(g: DirectedGraph, entry: usize)
    ensures
        reachable_from(g, entry, entry),
{
    let path = seq![entry];
    assert(edge_path(g, entry, path) && path.last() == entry);
}

proof fn lemma_reach_step(g: DirectedGraph, entry: usize, a: usize, b: usize)
    requires
        reachable_from(g, entry, a),
        g.has_edge(a, b),
    ensures
        reachable_from(g, entry, b),
{
    let path = choose|path: Seq<usize>| edge_path(g, entry, path) && path.last() == a;
    let path2 = path.push(b);
    assert(edge_path(g, entry, path2)) by {
        assert(path2[0] == path[0]);
        assert forall|i: int| 0 <= i < path2.len() - 1 implies g.has_edge(
            #[trigger] path2[i],
            path2[i + 1],
        ) by {
            if i < path.len() - 1 {
                assert(path2[i] == path[i]);
                assert(path2[i + 1] == path[i + 1]);
            } else {
                assert(path2[i] == path.last());
                assert(path2[i + 1] == b);
            }
        }
    }
    assert(path2.last() == b);
}

/// Every node on a walk from `entry` lies in a set that holds the
/// entry and is closed under successor edges.
proof fn lemma_edge_path_closed(g: DirectedGraph, set: Seq<usize>, entry: usize, path: Seq<usize>)
    requires
        edge_path(g, entry, path),
        set.contains(entry),
        forall|x: usize, st: usize|
            #![trigger set.contains(x), g.succ_of(x).contains(st)]
            set.contains(x) && g.succ_of(x).contains(st) ==> set.contains(st),
    ensures
        set.contains(path.last()),
    decreases path.len(),
{
    if path.len() == 1 {
        assert(path.last() == path[0]);
    } else {
        let front = path.drop_last();
        assert(edge_path(g, entry, front)) by {
            assert(front[0] == path[0]);
            assert forall|i: int| 0 <= i < front.len() - 1 implies g.has_edge(
                #[trigger] front[i],
                front[i + 1],
            ) by {
                assert(front[i] == path[i]);
                assert(front[i + 1] == path[i + 1]);
            }
        }
        lemma_edge_path_closed(g, set, entry, front);
        assert(g.has_edge(path[path.len() - 2], path[path.len() - 1]));
        assert(front.last() == path[path.len() - 2]);
    }
}

/// Work remaining in a depth-first traversal stack: one unit per
/// frame plus one per successor not yet examined.
spec fn frames_measure(st: Seq<(usize, Vec<usize>, usize)>) -> int
    decreases st.len(),
{
    if st.len() == 0 {
        0
    } else {
        frames_measure(st.drop_last()) + 1 + st.last().1@.len() - st.last().2
    }
}

proof fn lemma_frames_measure_nonneg(st: Seq<(usize, Vec<usize>, usize)>)
    requires
        forall|i: int| 0 <= i < st.len() ==> (#[trigger] st[i]).2 <= st[i].1@.len(),
    ensures
        frames_measure(st) >= 0,
    decreases st.len(),
{
    if st.len() > 0 {
        assert(forall|i: int|
            0 <= i < st.drop_last().len() ==> (#[trigger] st.drop_last()[i]).2
                <= st.drop_last()[i].1@.len());
        lemma_frames_measure_nonneg(st.drop_last());
        assert(st.last().2 <= st.last().1@.len()) by {
            assert(st[st.len() - 1].2 <= st[st.len() - 1].1@.len());
        }
    }
}

/// Postorder of the nodes reachable from `entry` along successor
/// edges, by an explicit-stack depth-first traversal; `entry` comes
/// last.
/// Bookkeeping of the traversal: successors already examined are
/// visited, every visited node is finished or on the stack, and
/// finished nodes have all successors visited.
#[verifier::opaque]
spec fn dfs_books(
    g: DirectedGraph,
    visited: Seq<usize>,
    post: Seq<usize>,
    stack: Seq<(usize, Vec<usize>, usize)>,
) -> bool {
    &&& (forall|i: int, q: int|
        0 <= i < stack.len() && 0 <= q < stack[i].2 ==> visited.contains(
            #[trigger] stack[i].1@[q],
        ))
    &&& (forall|x: usize| #[trigger]
        visited.contains(x) ==> post.contains(x) || exists|i: int|
            0 <= i < stack.len() && (#[trigger] stack[i]).0 == x)
    &&& (forall|x: usize, st: usize|
        #![trigger post.contains(x), g.succ_of(x).contains(st)]
        post.contains(x) && g.succ_of(x).contains(st) ==> visited.contains(st))
}



/// Appending a fresh element leaves every earlier position intact.
proof fn lemma_index_of_push_stable(s: Seq<usize>, v: usize, x: usize)
    requires
        s.no_duplicates(),
        !s.contains(v),
        s.contains(x),
    ensures
        s.push(v).contains(x),
        s.push(v).index_of(x) == s.index_of(x),
        s.push(v).index_of(v) == s.len(),
        s.push(v).no_duplicates(),
{
    let i = s.index_of(x);
    assert(s[i] == x);
    assert(s.push(v)[i] == x);
    assert(s.push(v)[s.len() as int] == v);
    assert(s.push(v).no_duplicates());
    lemma_index_of_unique(s.push(v), x, i);
    lemma_index_of_unique(s.push(v), v, s.len() as int);
}

/// `p` is the node of some traversal stack frame.
spec fn on_stack(stack: Seq<(usize, Vec<usize>, usize)>, p: usize) -> bool {
    exists|i: int| 0 <= i < stack.len() && (#[trigger] stack[i]).0 == p
}

/// `x` has an in-edge from a node still being traversed or finished
/// after it.
spec fn has_discoverer(
    g: DirectedGraph,
    post: Seq<usize>,
    stack: Seq<(usize, Vec<usize>, usize)>,
    x: usize,
) -> bool {
    exists|p: usize|
        #[trigger] g.has_edge(p, x) && (on_stack(stack, p) || (post.contains(p) && post.index_of(
            p,
        ) > post.index_of(x)))
}

/// Discovery order of the traversal: each stack frame's node is an
/// edge-successor of the frame below it, and every finished node
/// other than the entry has an in-edge from a node still on the stack
/// or finished later.
#[verifier::opaque]
spec fn dfs_order(
    g: DirectedGraph,
    entry: usize,
    post: Seq<usize>,
    stack: Seq<(usize, Vec<usize>, usize)>,
) -> bool {
    &&& (forall|i: int|
        1 <= i < stack.len() ==> g.has_edge((#[trigger] stack[i - 1]).0, stack[i].0))
    &&& (forall|x: usize|
        #[trigger] post.contains(x) && x != entry ==> has_discoverer(g, post, stack, x))
}

/// Advancing or opening a frame preserves the discovery order: the
/// stack keeps its node spine, with at most a fresh edge-child on top.
proof fn lemma_dfs_order_advance(
    g: &DirectedGraph,
    entry: usize,
    post: Seq<usize>,
    pre_stack: Seq<(usize, Vec<usize>, usize)>,
    stack: Seq<(usize, Vec<usize>, usize)>,
    node: usize,
    child: usize,
    pushed_child: bool,
)
    requires
        dfs_order(*g, entry, post, pre_stack),
        pre_stack.len() >= 1,
        pre_stack[pre_stack.len() - 1].0 == node,
        g.has_edge(node, child),
        pushed_child ==> stack.len() == pre_stack.len() + 1 && stack[pre_stack.len() as int].0
            == child,
        !pushed_child ==> stack.len() == pre_stack.len(),
        forall|j: int| 0 <= j < pre_stack.len() ==> (#[trigger] stack[j]).0 == pre_stack[j].0,
    ensures
        dfs_order(*g, entry, post, stack),
{
    reveal(dfs_order);
    assert forall|i: int|
        1 <= i < stack.len() implies g.has_edge((#[trigger] stack[i - 1]).0, stack[i].0) by {
        if i < pre_stack.len() {
            assert(stack[i - 1].0 == pre_stack[i - 1].0);
            assert(stack[i].0 == pre_stack[i].0);
        } else {
            assert(stack[i - 1].0 == node);
            assert(stack[i].0 == child);
        }
    }
    assert forall|x: usize|
        #[trigger] post.contains(x) && x != entry implies has_discoverer(
        *g,
        post,
        stack,
        x,
    ) by {
        assert(has_discoverer(*g, post, pre_stack, x));
        let p = choose|p: usize|
            #[trigger] g.has_edge(p, x) && (on_stack(pre_stack, p) || (post.contains(p)
                && post.index_of(p) > post.index_of(x)));
        if on_stack(pre_stack, p) {
            let i = choose|i: int| 0 <= i < pre_stack.len() && (#[trigger] pre_stack[i]).0 == p;
            assert(stack[i].0 == p);
            assert(on_stack(stack, p));
        }
    }
}

/// Finishing the top frame preserves the discovery order: the
/// finished node's discoverer sits just below it, and witnesses that
/// pointed at the finished node now find it at the end of the list.
proof fn lemma_dfs_order_pop(
    g: &DirectedGraph,
    entry: usize,
    pre_post: Seq<usize>,
    post: Seq<usize>,
    pre_stack: Seq<(usize, Vec<usize>, usize)>,
    stack: Seq<(usize, Vec<usize>, usize)>,
    node: usize,
)
    requires
        dfs_order(*g, entry, pre_post, pre_stack),
        pre_stack.len() >= 1,
        pre_stack[pre_stack.len() - 1].0 == node,
        pre_stack[0].0 == entry,
        stack == pre_stack.drop_last(),
        post == pre_post.push(node),
        pre_post.no_duplicates(),
        !pre_post.contains(node),
    ensures
        dfs_order(*g, entry, post, stack),
{
    reveal(dfs_order);
    assert forall|i: int|
        1 <= i < stack.len() implies g.has_edge((#[trigger] stack[i - 1]).0, stack[i].0) by {
        assert(stack[i - 1] == pre_stack[i - 1]);
        assert(stack[i] == pre_stack[i]);
    }
    assert forall|x: usize|
        #[trigger] post.contains(x) && x != entry implies has_discoverer(*g, post, stack, x) by {
        lemma_push_contains(pre_post, node, x);
        if x == node {
            // the popped node's discoverer sits just below it
            assert(node != entry);
            assert(pre_stack.len() >= 2) by {
                if pre_stack.len() == 1 {
                    assert(pre_stack[0].0 == node);
                }
            }
            let p = pre_stack[pre_stack.len() - 2].0;
            assert(g.has_edge(p, node)) by {
                let li = pre_stack.len() - 1;
                assert(1 <= li < pre_stack.len());
                assert(g.has_edge((pre_stack[li - 1]).0, pre_stack[li].0));
                assert(pre_stack[li].0 == node);
            }
            assert(stack[stack.len() - 1].0 == p);
            assert(on_stack(stack, p));
        } else {
            assert(pre_post.contains(x));
            assert(has_discoverer(*g, pre_post, pre_stack, x));
            let p = choose|p: usize|
                #[trigger] g.has_edge(p, x) && (on_stack(pre_stack, p) || (pre_post.contains(p)
                    && pre_post.index_of(p) > pre_post.index_of(x)));
            lemma_index_of_push_stable(pre_post, node, x);
            if on_stack(pre_stack, p) {
                let i = choose|i: int|
                    0 <= i < pre_stack.len() && (#[trigger] pre_stack[i]).0 == p;
                if i < pre_stack.len() - 1 {
                    assert(stack[i].0 == p);
                    assert(on_stack(stack, p));
                } else {
                    // the old witness just finished: it now sits at the end
                    assert(p == node);
                    assert(post.index_of(node) == pre_post.len());
                    assert(post[pre_post.len() as int] == node);
                    assert(post.contains(node));
                    assert(pre_post[pre_post.index_of(x)] == x);
                    assert(post.index_of(x) < pre_post.len());
                    assert(post.contains(p) && post.index_of(p) > post.index_of(x));
                }
            } else {
                lemma_index_of_push_stable(pre_post, node, p);
                assert(post.contains(p) && post.index_of(p) > post.index_of(x));
            }
        }
    }
}

/// Opening a child frame preserves the traversal bookkeeping.
proof fn lemma_dfs_books_open(
    g: &DirectedGraph,
    pre_visited: Seq<usize>,
    visited: Seq<usize>,
    post: Seq<usize>,
    pre_stack: Seq<(usize, Vec<usize>, usize)>,
    stack: Seq<(usize, Vec<usize>, usize)>,
    node: usize,
    child: usize,
    succs_view: Seq<usize>,
    idx: usize,
)
    requires
        dfs_books(*g, pre_visited, post, pre_stack),
        pre_stack.len() >= 1,
        pre_stack[pre_stack.len() - 1].0 == node,
        pre_stack[pre_stack.len() - 1].1@ == succs_view,
        pre_stack[pre_stack.len() - 1].2 == idx,
        idx < succs_view.len(),
        succs_view[idx as int] == child,
        visited == pre_visited.push(child),
        stack.len() == pre_stack.len() + 1,
        forall|j: int| 0 <= j < pre_stack.len() - 1 ==> (#[trigger] stack[j]) == pre_stack[j],
        stack[pre_stack.len() - 1].0 == node,
        stack[pre_stack.len() - 1].1@ == succs_view,
        stack[pre_stack.len() - 1].2 == idx + 1,
        stack[pre_stack.len() as int].0 == child,
        stack[pre_stack.len() as int].2 == 0,
    ensures
        dfs_books(*g, visited, post, stack),
{
    reveal(dfs_books);
    assert forall|x: usize| #[trigger]
        visited.contains(x) implies post.contains(x) || exists|i: int|
        0 <= i < stack.len() && (#[trigger] stack[i]).0 == x by {
        lemma_push_contains(pre_visited, child, x);
        if x == child {
            assert(stack[stack.len() - 1].0 == x);
        } else if !post.contains(x) {
            let i = choose|i: int| 0 <= i < pre_stack.len() && (#[trigger] pre_stack[i]).0 == x;
            if i < pre_stack.len() - 1 {
                assert(stack[i] == pre_stack[i]);
            } else {
                assert(x == node);
                assert(stack[stack.len() - 2].0 == node);
            }
        }
    }
    assert forall|x: usize, st: usize|
        #![trigger post.contains(x), g.succ_of(x).contains(st)]
        post.contains(x) && g.succ_of(x).contains(st) implies visited.contains(st) by {
        lemma_push_contains(pre_visited, child, st);
    }
    assert forall|i: int, q: int|
        0 <= i < stack.len() && 0 <= q < stack[i].2 implies visited.contains(
        #[trigger] stack[i].1@[q]) by {
        if i < stack.len() - 2 {
            assert(stack[i] == pre_stack[i]);
            lemma_push_contains(pre_visited, child, pre_stack[i].1@[q]);
        } else if i == stack.len() - 2 {
            assert(stack[i].1@ == succs_view && stack[i].2 == idx + 1);
            if q < idx {
                assert(pre_stack[pre_stack.len() - 1].1@[q] == succs_view[q]);
                lemma_push_contains(pre_visited, child, succs_view[q]);
            } else {
                assert(succs_view[q] == child);
                assert(visited[visited.len() - 1] == child);
            }
        } else {
            assert(stack[i].2 == 0);
        }
    }
}

/// Stepping past an already-visited successor preserves the
/// traversal bookkeeping.
proof fn lemma_dfs_books_advance(
    g: &DirectedGraph,
    visited: Seq<usize>,
    post: Seq<usize>,
    pre_stack: Seq<(usize, Vec<usize>, usize)>,
    stack: Seq<(usize, Vec<usize>, usize)>,
    node: usize,
    child: usize,
    succs_view: Seq<usize>,
    idx: usize,
)
    requires
        dfs_books(*g, visited, post, pre_stack),
        pre_stack.len() >= 1,
        pre_stack[pre_stack.len() - 1].0 == node,
        pre_stack[pre_stack.len() - 1].1@ == succs_view,
        pre_stack[pre_stack.len() - 1].2 == idx,
        idx < succs_view.len(),
        succs_view[idx as int] == child,
        visited.contains(child),
        stack.len() == pre_stack.len(),
        forall|j: int| 0 <= j < pre_stack.len() - 1 ==> (#[trigger] stack[j]) == pre_stack[j],
        stack[pre_stack.len() - 1].0 == node,
        stack[pre_stack.len() - 1].1@ == succs_view,
        stack[pre_stack.len() - 1].2 == idx + 1,
    ensures
        dfs_books(*g, visited, post, stack),
{
    reveal(dfs_books);
    assert forall|x: usize| #[trigger]
        visited.contains(x) implies post.contains(x) || exists|i: int|
        0 <= i < stack.len() && (#[trigger] stack[i]).0 == x by {
        if !post.contains(x) {
            let i = choose|i: int| 0 <= i < pre_stack.len() && (#[trigger] pre_stack[i]).0 == x;
            if i < pre_stack.len() - 1 {
                assert(stack[i] == pre_stack[i]);
            } else {
                assert(x == node);
                assert(stack[stack.len() - 1].0 == node);
            }
        }
    }
    assert forall|i: int, q: int|
        0 <= i < stack.len() && 0 <= q < stack[i].2 implies visited.contains(
        #[trigger] stack[i].1@[q]) by {
        if i < stack.len() - 1 {
            assert(stack[i] == pre_stack[i]);
        } else {
            assert(stack[i].1@ == succs_view && stack[i].2 == idx + 1);
            if q < idx {
                assert(pre_stack[pre_stack.len() - 1].1@[q] == succs_view[q]);
            } else {
                assert(succs_view[q] == child);
            }
        }
    }
}

/// Finishing the exhausted top frame preserves the traversal
/// bookkeeping.
proof fn lemma_dfs_books_finish(
    g: &DirectedGraph,
    visited: Seq<usize>,
    pre_post: Seq<usize>,
    post: Seq<usize>,
    pre_stack: Seq<(usize, Vec<usize>, usize)>,
    stack: Seq<(usize, Vec<usize>, usize)>,
    node: usize,
)
    requires
        dfs_books(*g, visited, pre_post, pre_stack),
        pre_stack.len() >= 1,
        pre_stack[pre_stack.len() - 1].0 == node,
        pre_stack[pre_stack.len() - 1].1@ == g.succ_of(node),
        pre_stack[pre_stack.len() - 1].2 == pre_stack[pre_stack.len() - 1].1@.len(),
        stack == pre_stack.drop_last(),
        post == pre_post.push(node),
    ensures
        dfs_books(*g, visited, post, stack),
{
    reveal(dfs_books);
    assert forall|x: usize| #[trigger]
        visited.contains(x) implies post.contains(x) || exists|i: int|
        0 <= i < stack.len() && (#[trigger] stack[i]).0 == x by {
        lemma_push_contains(pre_post, node, x);
        if x != node && !post.contains(x) {
            let i = choose|i: int| 0 <= i < pre_stack.len() && (#[trigger] pre_stack[i]).0 == x;
            assert(i < pre_stack.len() - 1);
            assert(stack[i] == pre_stack[i]);
        }
    }
    assert forall|x: usize, st: usize|
        #![trigger post.contains(x), g.succ_of(x).contains(st)]
        post.contains(x) && g.succ_of(x).contains(st) implies visited.contains(st) by {
        lemma_push_contains(pre_post, node, x);
        if x == node {
            let q = choose|q: int|
                0 <= q < g.succ_of(node).len() && g.succ_of(node)[q] == st;
            assert(pre_stack[pre_stack.len() - 1].1@[q] == st);
            assert(visited.contains(pre_stack[pre_stack.len() - 1].1@[q]));
        }
    }
    assert forall|i: int, q: int|
        0 <= i < stack.len() && 0 <= q < stack[i].2 implies visited.contains(
        #[trigger] stack[i].1@[q]) by {
        assert(stack[i] == pre_stack[i]);
    }
}

#[verifier::rlimit(100)]
fn postorder_from(graph: &DirectedGraph, entry: usize) -> (post: Vec<usize>)
    requires
        graph.wf(),
    ensures
        post@.no_duplicates(),
        post@.len() >= 1,
        post@[post@.len() - 1] == entry,
        forall|x: usize| #[trigger] post@.contains(x) ==> reachable_from(*graph, entry, x),
        forall|x: usize| reachable_from(*graph, entry, x) ==> post@.contains(x),
        forall|x: usize|
            #[trigger] post@.contains(x) && x != entry ==> exists|p: usize|
                #[trigger] graph.has_edge(p, x) && post@.contains(p) && post@.index_of(p)
                    > post@.index_of(x),
{
    let mut visited: Vec<usize> = Vec::new();
    let mut post: Vec<usize> = Vec::new();
    let mut stack: Vec<(usize, Vec<usize>, usize)> = Vec::new();
    visited.push(entry);
    let entry_succs = graph.successors(entry);
    stack.push((entry, entry_succs, 0));
    proof {
        assert(visited@[0] == entry);
        assert(visited@.contains(entry));
        assert(stack@.len() == 1);
        assert(stack@[0].0 == entry);
        assert(stack@[0].1@ == graph.succ_of(entry));
        assert(stack@[0].2 == 0);
        lemma_reach_entry(*graph, entry);
        assert forall|x: usize| #[trigger] visited@.contains(x) implies reachable_from(
            *graph,
            entry,
            x,
        ) by {
            let q = choose|q: int| 0 <= q < visited@.len() && visited@[q] == x;
            assert(x == entry);
        }
        assert(dfs_books(*graph, visited@, post@, stack@)) by {
            reveal(dfs_books);
            assert forall|x: usize| #[trigger]
                visited@.contains(x) implies post@.contains(x) || exists|i: int|
                0 <= i < stack@.len() && (#[trigger] stack@[i]).0 == x by {
                let q = choose|q: int| 0 <= q < visited@.len() && visited@[q] == x;
                assert(stack@[0].0 == x);
            }
        }
        assert(dfs_order(*graph, entry, post@, stack@)) by {
            reveal(dfs_order);
        }
    }
    while stack.len() > 0
        invariant
            graph.wf(),
            visited@.no_duplicates(),
            post@.no_duplicates(),
            visited@.contains(entry),
            visited@.len() <= graph.node_seq().len() + 1,
            forall|x: usize| #[trigger] post@.contains(x) ==> visited@.contains(x),
            forall|x: usize| #[trigger]
                visited@.contains(x) ==> x == entry || graph.has_node(x),
            forall|x: usize| #[trigger]
                visited@.contains(x) ==> reachable_from(*graph, entry, x),
            forall|i: int| 0 <= i < stack@.len() ==> visited@.contains((#[trigger] stack@[i]).0),
            forall|i: int| 0 <= i < stack@.len() ==> !post@.contains((#[trigger] stack@[i]).0),
            forall|i: int, j: int| 0 <= i < j < stack@.len() ==> stack@[i].0 != stack@[j].0,
            forall|i: int|
                0 <= i < stack@.len() ==> ((#[trigger] stack@[i]).1@ == graph.succ_of(stack@[i].0)
                    && stack@[i].2 <= stack@[i].1@.len()),
            dfs_books(*graph, visited@, post@, stack@),
            dfs_order(*graph, entry, post@, stack@),
            stack@.len() > 0 ==> stack@[0].0 == entry,
            stack@.len() == 0 ==> post@.len() >= 1 && post@[post@.len() - 1] == entry,
        decreases
            graph.node_seq().len() + 1 - visited@.len(),
            frames_measure(stack@),
    {
        let ghost pre_stack = stack@;
        let ghost pre_visited = visited@;
        let frame = match stack.pop() {
            Some(f) => f,
            None => {
                proof {
                    assert(false);
                }
                (0usize, Vec::new(), 0usize)
            },
        };
        let node = frame.0;
        let succs = frame.1;
        let idx = frame.2;
        proof {
            assert(pre_stack.last() == frame);
            assert(stack@ == pre_stack.drop_last());
            lemma_frames_measure_nonneg(stack@);
        }
        if idx < succs.len() {
            let child = succs[idx];
            let ghost succs_view = succs@;
            stack.push((node, succs, idx + 1));
            proof {
                assert(stack@.drop_last() =~= pre_stack.drop_last());
                assert(stack@.last().0 == node);
                assert(stack@.last().1@ == succs_view);
                assert(stack@.last().2 == idx + 1);
                assert(frames_measure(stack@) == frames_measure(pre_stack.drop_last()) + 1
                    + succs_view.len() - (idx + 1));
                assert(frames_measure(pre_stack) == frames_measure(pre_stack.drop_last()) + 1
                    + succs_view.len() - idx);
                assert(graph.succ_of(node).contains(child)) by {
                    assert(graph.succ_of(node)[idx as int] == child);
                }
                graph.lemma_succ_closed(node, child);
            }
            let ghost mid_stack = stack@;
            if !vec_contains(&visited, child) {
                visited.push(child);
                let child_succs = graph.successors(child);
                stack.push((child, child_succs, 0));
                proof {
                    assert(stack@.drop_last() == mid_stack);
                    assert(stack@.last().0 == child);
                    assert(visited@.contains(entry)) by {
                        lemma_push_contains(pre_visited, child, entry);
                    }
                    assert(reachable_from(*graph, entry, child)) by {
                        assert(pre_visited.contains(node)) by {
                            assert(pre_stack[pre_stack.len() - 1].0 == node);
                        }
                        lemma_reach_step(*graph, entry, node, child);
                    }
                    assert forall|x: usize| #[trigger]
                        visited@.contains(x) implies reachable_from(*graph, entry, x) by {
                        lemma_push_contains(pre_visited, child, x);
                    }
                    assert forall|x: usize| #[trigger]
                        visited@.contains(x) implies x == entry || graph.has_node(x) by {
                        lemma_push_contains(pre_visited, child, x);
                    }
                    assert(visited@.no_duplicates()) by {
                        assert(visited@ == pre_visited.push(child));
                        assert(!pre_visited.contains(child));
                    }
                    assert forall|x: usize| #[trigger] post@.contains(x) implies visited@.contains(
                        x) by {
                        lemma_push_contains(pre_visited, child, x);
                    }
                    assert forall|i: int|
                        0 <= i < stack@.len() implies visited@.contains(
                        (#[trigger] stack@[i]).0) by {
                        lemma_push_contains(pre_visited, child, stack@[i].0);
                        if i < stack@.len() - 2 {
                            assert(stack@[i] == pre_stack[i]);
                        }
                    }
                    // visited stays within the node universe
                    let uni = graph.node_seq().push(entry);
                    assert forall|x: usize| visited@.contains(x) implies uni.contains(x) by {
                        if x == entry {
                            assert(uni[uni.len() - 1] == x);
                        } else {
                            assert(graph.has_node(x));
                            let k = graph.node_seq().index_of(x);
                            assert(uni[k] == x);
                        }
                    }
                    lemma_nodup_len_le(visited@, uni);
                    assert(forall|j: int|
                        0 <= j < pre_stack.len() - 1 ==> (#[trigger] stack@[j]) == pre_stack[j]);
                    lemma_dfs_books_open(
                        graph,
                        pre_visited,
                        visited@,
                        post@,
                        pre_stack,
                        stack@,
                        node,
                        child,
                        succs_view,
                        idx,
                    );
                    assert(forall|j: int|
                        0 <= j < pre_stack.len() ==> (#[trigger] stack@[j]).0 == pre_stack[j].0);
                    lemma_dfs_order_advance(
                        graph,
                        entry,
                        post@,
                        pre_stack,
                        stack@,
                        node,
                        child,
                        true,
                    );
                }
            } else {
                proof {
                    assert(forall|j: int|
                        0 <= j < pre_stack.len() - 1 ==> (#[trigger] stack@[j]) == pre_stack[j]);
                    lemma_dfs_books_advance(
                        graph,
                        visited@,
                        post@,
                        pre_stack,
                        stack@,
                        node,
                        child,
                        succs_view,
                        idx,
                    );
                    assert(forall|j: int|
                        0 <= j < pre_stack.len() ==> (#[trigger] stack@[j]).0 == pre_stack[j].0);
                    lemma_dfs_order_advance(
                        graph,
                        entry,
                        post@,
                        pre_stack,
                        stack@,
                        node,
                        child,
                        false,
                    );
                }
            }
        } else {
            let ghost pre_post = post@;
            post.push(node);
            proof {
                assert(post@ == pre_post.push(node));
                assert(!pre_post.contains(node)) by {
                    assert(!pre_post.contains(pre_stack[pre_stack.len() - 1].0));
                }
                assert forall|i: int|
                    0 <= i < stack@.len() implies !post@.contains((#[trigger] stack@[i]).0) by {
                    lemma_push_contains(pre_post, node, stack@[i].0);
                    assert(stack@[i] == pre_stack[i]);
                    assert(pre_stack[i].0 != pre_stack[pre_stack.len() - 1].0);
                }
                assert(post@.no_duplicates());
                assert forall|x: usize| #[trigger] post@.contains(x) implies visited@.contains(
                    x) by {
                    lemma_push_contains(pre_post, node, x);
                }
                if stack@.len() == 0 {
                    assert(pre_stack[0].0 == entry);
                    assert(node == entry);
                    assert(post@[post@.len() - 1] == entry);
                }
                lemma_dfs_books_finish(graph, visited@, pre_post, post@, pre_stack, stack@, node);
                lemma_dfs_order_pop(graph, entry, pre_post, post@, pre_stack, stack@, node);
            }
        }
    }
    proof {
        assert forall|x: usize| reachable_from(*graph, entry, x) implies post@.contains(x) by {
            reveal(dfs_books);
            assert(dfs_books(*graph, visited@, post@, stack@));
            assert(post@.contains(entry)) by {
                assert(post@[post@.len() - 1] == entry);
            }
            assert forall|y: usize, st: usize|
                #![trigger post@.contains(y), graph.succ_of(y).contains(st)]
                post@.contains(y) && graph.succ_of(y).contains(st) implies post@.contains(st) by {
                assert(visited@.contains(st));
            }
            let path = choose|path: Seq<usize>|
                edge_path(*graph, entry, path) && path.last() == x;
            lemma_edge_path_closed(*graph, post@, entry, path);
        }
        assert forall|x: usize|
            #[trigger] post@.contains(x) && x != entry implies exists|p: usize|
            #[trigger] graph.has_edge(p, x) && post@.contains(p) && post@.index_of(p)
                > post@.index_of(x) by {
            reveal(dfs_order);
            assert(dfs_order(*graph, entry, post@, stack@));
            assert(has_discoverer(*graph, post@, stack@, x));
            let p = choose|p: usize|
                #[trigger] graph.has_edge(p, x) && (on_stack(stack@, p) || (post@.contains(p)
                    && post@.index_of(p) > post@.index_of(x)));
            assert(stack@.len() == 0);
            assert(!on_stack(stack@, p));
        }
    }
    post
}

/// Reverses a vector.
fn reverse_vec(v: &Vec<usize>) -> (r: Vec<usize>)
    ensures
        r@.len() == v@.len(),
        forall|i: int| 0 <= i < v@.len() ==> r@[i] == v@[v@.len() - 1 - i],
{
    let mut r: Vec<usize> = Vec::new();
    let mut i: usize = v.len();
    while i > 0
        invariant
            i <= v@.len(),
            r@.len() == v@.len() - i,
            forall|j: int| 0 <= j < r@.len() ==> r@[j] == v@[v@.len() - 1 - j],
        decreases i,
    {
        i = i - 1;
        r.push(v[i]);
    }
    r
}

/// Reverse postorder from `entry`: the entry first, no node twice.
fn reverse_postorder(graph: &DirectedGraph, entry: usize) -> (r: Vec<usize>)
    requires
        graph.wf(),
    ensures
        r@.no_duplicates(),
        r@.len() >= 1,
        r@[0] == entry,
        forall|x: usize| #[trigger] r@.contains(x) ==> reachable_from(*graph, entry, x),
        forall|x: usize| reachable_from(*graph, entry, x) ==> r@.contains(x),
        forall|x: usize|
            #[trigger] r@.contains(x) && x != entry ==> exists|p: usize|
                #[trigger] graph.has_edge(p, x) && r@.contains(p) && r@.index_of(p) < r@.index_of(
                    x,
                ),
{
    let post = postorder_from(graph, entry);
    let r = reverse_vec(&post);
    proof {
        assert(r@[0] == post@[post@.len() - 1]);
        assert forall|x: usize| #[trigger] r@.contains(x) implies reachable_from(
            *graph,
            entry,
            x,
        ) by {
            let q = choose|q: int| 0 <= q < r@.len() && r@[q] == x;
            assert(post@[post@.len() - 1 - q] == x);
            assert(post@.contains(x));
        }
        assert forall|x: usize| reachable_from(*graph, entry, x) implies r@.contains(x) by {
            assert(post@.contains(x));
            let q = choose|q: int| 0 <= q < post@.len() && post@[q] == x;
            assert(r@[post@.len() - 1 - q] == x);
        }
        // reversing flips the order, so a later finisher comes earlier
        assert forall|x: usize|
            #[trigger] r@.contains(x) && x != entry implies exists|p: usize|
            #[trigger] graph.has_edge(p, x) && r@.contains(p) && r@.index_of(p) < r@.index_of(
                x,
            ) by {
            let qx = choose|q: int| 0 <= q < r@.len() && r@[q] == x;
            assert(post@[post@.len() - 1 - qx] == x);
            assert(post@.contains(x));
            let p = choose|p: usize|
                #[trigger] graph.has_edge(p, x) && post@.contains(p) && post@.index_of(p)
                    > post@.index_of(x);
            let ip = post@.index_of(p);
            let ix = post@.index_of(x);
            assert(post@[ip] == p);
            assert(post@[ix] == x);
            assert(r@[post@.len() - 1 - ip] == p);
            assert(r@[post@.len() - 1 - ix] == x);
            lemma_index_of_unique(r@, p, post@.len() - 1 - ip);
            lemma_index_of_unique(r@, x, post@.len() - 1 - ix);
            assert(r@.contains(p)) by {
                assert(r@[post@.len() - 1 - ip] == p);
            }
            assert(r@.index_of(p) < r@.index_of(x));
        }
        assert(r@.no_duplicates()) by {
            assert forall|i: int, j: int| 0 <= i < j < r@.len() implies r@[i] != r@[j] by {
                assert(r@[i] == post@[post@.len() - 1 - i]);
                assert(r@[j] == post@[post@.len() - 1 - j]);
            }
        }
    }
    r
}

/// Nearest processed common ancestor of two assigned nodes, walking
/// the immediate-dominator table by reverse-postorder position.
fn intersect(keys: &Vec<usize>, vals: &Vec<usize>, rpo: &Vec<usize>, finger1: usize, finger2: usize) -> (r: usize)
    requires
        dom_inv(keys@, vals@, rpo@, keys@[0]),
        keys@.contains(finger1),
        keys@.contains(finger2),
    ensures
        keys@.contains(r),
        rpo@.index_of(r) <= rpo@.index_of(finger1),
        rpo@.index_of(r) <= rpo@.index_of(finger2),
{
    proof {
        lemma_keys_in_rpo(keys@, vals@, rpo@, finger1);
        lemma_keys_in_rpo(keys@, vals@, rpo@, finger2);
    }
    let mut f1 = finger1;
    let mut f2 = finger2;
    let mut p1 = seq_position(rpo, f1);
    let mut p2 = seq_position(rpo, f2);
    while f1 != f2
        invariant
            dom_inv(keys@, vals@, rpo@, keys@[0]),
            keys@.contains(f1),
            keys@.contains(f2),
            rpo@.contains(f1),
            rpo@.contains(f2),
            p1 as int == rpo@.index_of(f1),
            p2 as int == rpo@.index_of(f2),
            p1 as int <= rpo@.index_of(finger1),
            p2 as int <= rpo@.index_of(finger2),
        decreases p1 + p2,
    {
        proof {
            if p1 == p2 {
                assert(rpo@[p1 as int] == f1);
                assert(rpo@[p2 as int] == f2);
            }
        }
        if p1 > p2 {
            let v = match assoc_get(keys, vals, f1) {
                Some(v) => v,
                None => {
                    proof {
                        assert(false);
                    }
                    0
                },
            };
            proof {
                lemma_climb_decreases(keys@, vals@, rpo@, f1, v, p1 as int);
            }
            f1 = v;
            p1 = seq_position(rpo, f1);
        } else {
            let v = match assoc_get(keys, vals, f2) {
                Some(v) => v,
                None => {
                    proof {
                        assert(false);
                    }
                    0
                },
            };
            proof {
                lemma_climb_decreases(keys@, vals@, rpo@, f2, v, p2 as int);
            }
            f2 = v;
            p2 = seq_position(rpo, f2);
        }
    }
    f1
}

/// Every assigned node has a reverse-postorder position.
proof fn lemma_keys_in_rpo(keys: Seq<usize>, vals: Seq<usize>, rpo: Seq<usize>, x: usize)
    requires
        dom_inv(keys, vals, rpo, keys[0]),
        keys.contains(x),
    ensures
        rpo.contains(x),
{
    let i = keys.index_of(x);
    assert(keys[i] == x);
    assert(rpo.contains(keys[i]));
}

/// A climb from a non-minimal position strictly lowers the position.
proof fn lemma_climb_decreases(
    keys: Seq<usize>,
    vals: Seq<usize>,
    rpo: Seq<usize>,
    f: usize,
    v: usize,
    p: int,
)
    requires
        dom_inv(keys, vals, rpo, keys[0]),
        keys.contains(f),
        p == rpo.index_of(f),
        p > 0,
        v == vals[keys.index_of(f)],
    ensures
        keys.contains(v),
        rpo.contains(v),
        rpo.index_of(v) < p,
{
    let i = keys.index_of(f);
    assert(keys[i] == f);
    assert(i != 0) by {
        if i == 0 {
            assert(f == keys[0]);
            assert(rpo[0] == keys[0]);
            lemma_index_of_unique(rpo, f, 0);
        }
    }
    assert(keys.contains(vals[i]));
    assert(rpo.index_of(vals[i]) < rpo.index_of(keys[i]));
    lemma_keys_in_rpo(keys, vals, rpo, vals[i]);
}

/// One full sweep of the iterative dominator computation: every node
/// of the numbering is re-examined in order against the current
/// table.  Returns whether any assignment changed.  After a sweep,
/// every numbered node holds an assignment, because each non-entry
/// node of a reverse postorder has a predecessor numbered before it.
fn dominator_pass(
    graph: &DirectedGraph,
    rpo: &Vec<usize>,
    entry: usize,
    keys: &mut Vec<usize>,
    vals: &mut Vec<usize>,
) -> (changed: bool)
    requires
        graph.wf(),
        dom_inv(old(keys)@, old(vals)@, rpo@, entry),
        forall|x: usize|
            #[trigger] rpo@.contains(x) && x != entry ==> exists|p: usize|
                #[trigger] graph.has_edge(p, x) && rpo@.contains(p) && rpo@.index_of(p)
                    < rpo@.index_of(x),
    ensures
        dom_inv(final(keys)@, final(vals)@, rpo@, entry),
        forall|x: usize| old(keys)@.contains(x) ==> final(keys)@.contains(x),
        forall|j: int| 0 <= j < rpo@.len() ==> final(keys)@.contains(#[trigger] rpo@[j]),
{
    let ghost keys0 = keys@;
    let mut changed = false;
    let mut i: usize = 0;
    while i < rpo.len()
        invariant
            graph.wf(),
            dom_inv(keys@, vals@, rpo@, entry),
            i <= rpo@.len(),
            forall|x: usize|
                #[trigger] rpo@.contains(x) && x != entry ==> exists|p: usize|
                    #[trigger] graph.has_edge(p, x) && rpo@.contains(p) && rpo@.index_of(p)
                        < rpo@.index_of(x),
            forall|x: usize| keys0.contains(x) ==> keys@.contains(x),
            forall|j: int| 0 <= j < i ==> keys@.contains(#[trigger] rpo@[j]),
        decreases rpo@.len() - i,
    {
        let node = rpo[i];
        proof {
            assert(rpo@.contains(node)) by {
                assert(rpo@[i as int] == node);
            }
            lemma_index_of_unique(rpo@, node, i as int);
        }
        if node != entry {
            let preds = graph.predecessors(node);
            let mut cand: Option<usize> = None;
            let mut j: usize = 0;
            while j < preds.len()
                invariant
                    graph.wf(),
                    dom_inv(keys@, vals@, rpo@, entry),
                    j <= preds@.len(),
                    preds@ == graph.pred_of(node),
                    match cand {
                        Some(v) => keys@.contains(v) && (forall|q: int|
                            0 <= q < j && keys@.contains(#[trigger] preds@[q]) ==> rpo@.index_of(
                                v,
                            ) <= rpo@.index_of(preds@[q])),
                        None => forall|q: int| 0 <= q < j ==> !keys@.contains(#[trigger] preds@[q]),
                    },
                decreases preds@.len() - j,
            {
                let p = preds[j];
                match cand {
                    None => {
                        if vec_contains(&keys, p) {
                            cand = Some(p);
                            proof {
                                assert forall|q: int|
                                    0 <= q < j + 1 && keys@.contains(#[trigger] preds@[q])
                                    implies rpo@.index_of(p) <= rpo@.index_of(preds@[q]) by {
                                    assert(q == j as int);
                                    assert(preds@[q] == p);
                                }
                            }
                        }
                    },
                    Some(cur) => {
                        if p != cur && vec_contains(&keys, p) {
                            proof {
                                assert(dom_inv(keys@, vals@, rpo@, keys@[0]));
                            }
                            let merged = intersect(&keys, &vals, &rpo, cur, p);
                            proof {
                                assert forall|q: int|
                                    0 <= q < j + 1 && keys@.contains(#[trigger] preds@[q])
                                    implies rpo@.index_of(merged) <= rpo@.index_of(
                                    preds@[q]) by {
                                    if q < j {
                                        assert(rpo@.index_of(cur) <= rpo@.index_of(preds@[q]));
                                    } else {
                                        assert(preds@[q] == p);
                                    }
                                }
                            }
                            cand = Some(merged);
                        } else {
                            proof {
                                if keys@.contains(p) {
                                    assert(p == cur);
                                    assert forall|q: int|
                                        0 <= q < j + 1 && keys@.contains(#[trigger] preds@[q])
                                        implies rpo@.index_of(cur) <= rpo@.index_of(
                                        preds@[q]) by {
                                        if q == j as int {
                                            assert(preds@[q] == cur);
                                        }
                                    }
                                }
                            }
                        }
                    },
                }
                j = j + 1;
            }
            // a node not yet assigned always finds an earlier-numbered
            // predecessor, so its candidate lands before it
            proof {
                if !keys@.contains(node) {
                    let p = choose|p: usize|
                        #[trigger] graph.has_edge(p, node) && rpo@.contains(p) && rpo@.index_of(
                            p,
                        ) < rpo@.index_of(node);
                    let jp = rpo@.index_of(p);
                    assert(rpo@[jp] == p);
                    assert(keys@.contains(p)) by {
                        assert(keys@.contains(rpo@[jp]));
                    }
                    graph.lemma_edge_symmetry(p, node);
                    assert(preds@.contains(p));
                    let q = choose|q: int| 0 <= q < preds@.len() && preds@[q] == p;
                    assert(keys@.contains(preds@[q]));
                    assert(cand is Some);
                    assert(rpo@.index_of(cand->Some_0) <= rpo@.index_of(preds@[q]));
                    assert(rpo@.index_of(cand->Some_0) < i);
                }
            }
            let ghost was_assigned = keys@.contains(node);
            match cand {
                Some(idom) => {
                    match find_index(&rpo, idom) {
                        Some(pi) => {
                            if pi < i {
                                proof {
                                    lemma_index_of_unique(rpo@, idom, pi as int);
                                }
                                let ghost pre_keys = keys@;
                                let ghost pre_vals = vals@;
                                match find_index(&keys, node) {
                                    Some(k) => {
                                        proof {
                                            lemma_index_of_unique(keys@, node, k as int);
                                            assert(k != 0) by {
                                                if k == 0 {
                                                    assert(keys@[0] == entry);
                                                }
                                            }
                                        }
                                        if vals[k] != idom {
                                            vals[k] = idom;
                                            changed = true;
                                            proof {
                                                assert(vals@ =~= pre_vals.update(k as int, idom));
                                                assert(dom_inv(keys@, vals@, rpo@, entry)) by {
                                                    assert forall|m: int|
                                                        0 <= m < keys@.len() implies keys@.contains(
                                                        #[trigger] vals@[m]) by {
                                                        if m != k as int {
                                                            assert(vals@[m] == pre_vals[m]);
                                                        }
                                                    }
                                                    assert forall|m: int|
                                                        1 <= m < keys@.len() implies rpo@.index_of(
                                                        #[trigger] vals@[m]) < rpo@.index_of(
                                                        keys@[m]) by {
                                                        if m != k as int {
                                                            assert(vals@[m] == pre_vals[m]);
                                                        } else {
                                                            assert(vals@[m] == idom);
                                                            assert(keys@[m] == node);
                                                        }
                                                    }
                                                }
                                            }
                                        }
                                    },
                                    None => {
                                        keys.push(node);
                                        vals.push(idom);
                                        changed = true;
                                        proof {
                                            assert(dom_inv(keys@, vals@, rpo@, entry)) by {
                                                assert(keys@ == pre_keys.push(node));
                                                assert(vals@ == pre_vals.push(idom));
                                                assert(keys@.no_duplicates()) by {
                                                    assert(!pre_keys.contains(node));
                                                }
                                                assert forall|m: int|
                                                    0 <= m < keys@.len() implies rpo@.contains(
                                                    #[trigger] keys@[m]) by {
                                                    if m < pre_keys.len() {
                                                        assert(keys@[m] == pre_keys[m]);
                                                    } else {
                                                        assert(keys@[m] == node);
                                                    }
                                                }
                                                assert forall|m: int|
                                                    0 <= m < keys@.len() implies keys@.contains(
                                                    #[trigger] vals@[m]) by {
                                                    if m < pre_keys.len() {
                                                        assert(vals@[m] == pre_vals[m]);
                                                        assert(pre_keys.contains(pre_vals[m]));
                                                        let q = choose|q: int|
                                                            0 <= q < pre_keys.len() && pre_keys[q]
                                                                == pre_vals[m];
                                                        assert(keys@[q] == vals@[m]);
                                                    } else {
                                                        assert(vals@[m] == idom);
                                                        assert(pre_keys.contains(idom));
                                                        let q = choose|q: int|
                                                            0 <= q < pre_keys.len() && pre_keys[q]
                                                                == idom;
                                                        assert(keys@[q] == idom);
                                                    }
                                                }
                                                assert forall|m: int|
                                                    1 <= m < keys@.len() implies rpo@.index_of(
                                                    #[trigger] vals@[m]) < rpo@.index_of(
                                                    keys@[m]) by {
                                                    if m < pre_keys.len() {
                                                        assert(vals@[m] == pre_vals[m]);
                                                        assert(keys@[m] == pre_keys[m]);
                                                    } else {
                                                        assert(vals@[m] == idom);
                                                        assert(keys@[m] == node);
                                                    }
                                                }
                                            }
                                            assert forall|x: usize|
                                                pre_keys.contains(x) implies keys@.contains(x) by {
                                                lemma_push_contains(pre_keys, node, x);
                                            }
                                            assert(keys@.contains(node)) by {
                                                lemma_push_contains(pre_keys, node, node);
                                            }
                                        }
                                    },
                                }
                            } else {
                                proof {
                                    // the candidate sits no earlier, so the
                                    // node was assigned before this sweep
                                    assert(keys@.contains(node)) by {
                                        if !was_assigned {
                                            lemma_index_of_unique(rpo@, idom, pi as int);
                                        }
                                    }
                                }
                            }
                        },
                        None => {
                            proof {
                                assert(keys@.contains(node)) by {
                                    if !was_assigned {
                                        lemma_keys_in_rpo(keys@, vals@, rpo@, idom);
                                    }
                                }
                            }
                        },
                    }
                },
                None => {
                    proof {
                        assert(keys@.contains(node));
                    }
                },
            }
        }
        proof {
            assert forall|j2: int| 0 <= j2 < i + 1 implies keys@.contains(
                #[trigger] rpo@[j2]) by {
                if j2 == i as int {
                    if rpo@[j2] == entry {
                        assert(keys@[0] == entry);
                        assert(keys@.contains(entry)) by {
                            assert(keys@[0] == entry);
                        }
                    }
                }
            }
        }
        i = i + 1;
    }
    changed
}

impl Dominators {
    /// Computes immediate dominators for the nodes reachable from
    /// `entry`, with the iterative Cooper-Harvey-Kennedy scheme:
    /// processing nodes in reverse postorder, each node's candidate is
    /// the intersection of its already-processed predecessors, until
    /// nothing changes.  Every reachable node receives an assignment,
    /// and only reachable nodes do.
    pub fn compute(graph: &DirectedGraph, entry: usize) -> (d: Dominators)
        requires
            graph.wf(),
        ensures
            d.wf(),
            d.entry_spec() == entry,
            d.im().dom().contains(entry),
            d.im()[d.entry_spec()] == d.entry_spec(),
            forall|n: usize| #[trigger]
                d.im().dom().contains(n) <==> reachable_from(*graph, entry, n),
            forall|n: usize|
                #[trigger] d.im().dom().contains(n) && n != entry ==> d.im()[n] != n,
            forall|n: usize|
                reachable_from(*graph, entry, n) ==> d.in_dom_chain(d.entry_spec(), n),
            forall|n: usize| #[trigger] d.numbered(n) <==> reachable_from(*graph, entry, n),
    {
        let rpo = reverse_postorder(graph, entry);
        let mut keys: Vec<usize> = Vec::new();
        let mut vals: Vec<usize> = Vec::new();
        keys.push(entry);
        vals.push(entry);
        proof {
            assert(keys@[0] == entry);
            assert(keys@ =~= seq![entry]);
            assert(vals@ =~= seq![entry]);
        }
        let n = rpo.len();
        let mut budget: u128 = (n as u128) * 2 + 4;
        let mut changed = dominator_pass(graph, &rpo, entry, &mut keys, &mut vals);
        while changed && budget > 0
            invariant
                graph.wf(),
                dom_inv(keys@, vals@, rpo@, entry),
                forall|x: usize|
                    #[trigger] rpo@.contains(x) && x != entry ==> exists|p: usize|
                        #[trigger] graph.has_edge(p, x) && rpo@.contains(p) && rpo@.index_of(p)
                            < rpo@.index_of(x),
                forall|j: int| 0 <= j < rpo@.len() ==> keys@.contains(#[trigger] rpo@[j]),
            decreases budget,
        {
            budget = budget - 1;
            changed = dominator_pass(graph, &rpo, entry, &mut keys, &mut vals);
        }
        let d = Dominators { idom_keys: keys, idom_vals: vals, reverse_postorder: rpo, entry };
        proof {
            d.lemma_entry_facts();
            assert forall|n2: usize| #[trigger] d.im().dom().contains(n2) <==> reachable_from(
                *graph,
                entry,
                n2,
            ) by {
                if d.im().dom().contains(n2) {
                    let i = keys@.index_of(n2);
                    assert(keys@[i] == n2);
                    assert(rpo@.contains(keys@[i]));
                }
                if reachable_from(*graph, entry, n2) {
                    assert(rpo@.contains(n2));
                    let j = rpo@.index_of(n2);
                    assert(rpo@[j] == n2);
                    assert(keys@.contains(rpo@[j]));
                }
            }
            assert forall|n2: usize|
                reachable_from(*graph, entry, n2) implies d.in_dom_chain(
                d.entry_spec(),
                n2,
            ) by {
                lemma_entry_dominates_all(&d, n2);
            }
            assert forall|n2: usize|
                #[trigger] d.im().dom().contains(n2) && n2 != entry implies d.im()[n2] != n2 by {
                if d.im()[n2] == n2 {
                    d.lemma_no_self_loop(n2);
                }
            }
        }
        d
    }
}

/// A graph that can name its exit nodes (nodes without successors).
pub trait WithExitNodes {
    spec fn exit_nodes_spec(&self) -> Seq<usize>;

    /// What the graph asks of itself before its exits can be listed.
    spec fn exit_wf(&self) -> bool;

    fn exit_nodes(&self) -> (r: Vec<usize>)
        requires
            self.exit_wf(),
        ensures
            r@ == self.exit_nodes_spec(),
    ;
}

impl WithExitNodes for DirectedGraph {
    open spec fn exit_nodes_spec(&self) -> Seq<usize> {
        self.node_seq().filter(|n: usize| self.succ_of(n).len() == 0)
    }

    open spec fn exit_wf(&self) -> bool {
        self.wf()
    }

    fn exit_nodes(&self) -> (r: Vec<usize>)
    {
        let nodes = self.nodes();
        let mut r: Vec<usize> = Vec::new();
        let mut i: usize = 0;
        let ghost pred = |n: usize| self.succ_of(n).len() == 0;
        while i < nodes.len()
            invariant
                self.wf(),
                i <= nodes@.len(),
                nodes@ == self.node_seq(),
                r@ == self.node_seq().subrange(0, i as int).filter(pred),
                pred == (|n: usize| self.succ_of(n).len() == 0),
            decreases nodes@.len() - i,
        {
            let ghost sub = self.node_seq().subrange(0, i as int);
            let ghost sub1 = self.node_seq().subrange(0, i as int + 1);
            let node = nodes[i];
            proof {
                assert(sub1 =~= sub.push(node));
                assert(sub1.drop_last() =~= sub);
                assert(sub1.last() == node);
            }
            let succs = self.successors(node);
            if succs.len() == 0 {
                r.push(node);
            }
            proof {
                reveal_with_fuel(Seq::filter, 2);
                assert(sub1.filter(pred) == sub.filter(pred) + if pred(node) {
                    seq![node]
                } else {
                    Seq::<usize>::empty()
                });
                if pred(node) {
                    assert(r@ =~= sub.filter(pred).push(node));
                    assert(sub.filter(pred) + seq![node] =~= sub.filter(pred).push(node));
                } else {
                    assert(sub.filter(pred) + Seq::<usize>::empty() =~= sub.filter(pred));
                }
            }
            i = i + 1;
        }
        proof {
            assert(self.node_seq().subrange(0, self.node_seq().len() as int) =~= self.node_seq());
        }
        r
    }
}

/// One slot of the immediate-post-dominator table: a concrete node, an
/// unassigned marker, or the "ambiguous" sentinel used when several
/// exits compete.
#[derive(Clone, Copy, Debug, PartialEq, Eq, Structural)]
pub enum ExtNode {
    Real(Option<usize>),
    Fake,
}

impl ExtNode {
    /// Returns whether this slot is the unassigned marker.
    pub fn is_none(&self) -> (r: bool)
        ensures
            r == (*self == ExtNode::Real(None::<usize>)),
    {
        matches!(self, ExtNode::Real(None))
    }
}

/// Association-list lookup for the post-dominator table.
fn assoc_get_ext(keys: &Vec<usize>, vals: &Vec<ExtNode>, k: usize) -> (r: Option<ExtNode>)
    requires
        keys@.no_duplicates(),
        vals@.len() == keys@.len(),
    ensures
        match r {
            Some(v) => keys@.contains(k) && v == vals@[keys@.index_of(k)],
            None => !keys@.contains(k),
        },
{
    match find_index(keys, k) {
        Some(i) => {
            proof {
                lemma_index_of_unique(keys@, k, i as int);
                assert(keys@.contains(k)) by {
                    assert(keys@[i as int] == k);
                }
            }
            Some(vals[i])
        },
        None => None,
    }
}

/// Rank used by the post-dominator tables: position in the postorder
/// numbering, with every exit above all of it.
spec fn pd_pos(postorder: Seq<usize>, exits: Seq<usize>, n: usize) -> int {
    if exits.contains(n) {
        postorder.len() as int
    } else if postorder.contains(n) {
        postorder.index_of(n)
    } else {
        0
    }
}

proof fn lemma_pd_pos_bounds(postorder: Seq<usize>, exits: Seq<usize>, n: usize)
    requires
        postorder.no_duplicates(),
    ensures
        0 <= pd_pos(postorder, exits, n) <= postorder.len(),
{
    if !exits.contains(n) && postorder.contains(n) {
        let i = postorder.index_of(n);
        assert(postorder[i] == n);
    }
}

/// The structural invariant of the post-dominator table: a slot that
/// names its own node marks an exit; any other concrete slot names a
/// tracked node of strictly higher rank.
spec fn pd_inv(keys: Seq<usize>, vals: Seq<ExtNode>, postorder: Seq<usize>, exits: Seq<usize>) -> bool {
    &&& keys.no_duplicates()
    &&& vals.len() == keys.len()
    &&& postorder.no_duplicates()
    &&& exits.no_duplicates()
    &&& (forall|x: usize| #[trigger] exits.contains(x) ==> keys.contains(x))
    &&& (forall|i: int|
        0 <= i < keys.len() ==> match #[trigger] vals[i] {
            ExtNode::Real(Some(p)) => {
                if p == keys[i] {
                    exits.contains(p)
                } else {
                    keys.contains(p) && pd_pos(postorder, exits, p) > pd_pos(
                        postorder,
                        exits,
                        keys[i],
                    )
                }
            },
            ExtNode::Real(None) => true,
            ExtNode::Fake => true,
        })
}

/// The table entry of `x` in seq form: unassigned when untracked.
spec fn pd_val(keys: Seq<usize>, vals: Seq<ExtNode>, x: usize) -> ExtNode {
    if keys.contains(x) {
        vals[keys.index_of(x)]
    } else {
        ExtNode::Real(None)
    }
}

/// `x` holds a concrete or ambiguous slot.
spec fn pd_assigned(keys: Seq<usize>, vals: Seq<ExtNode>, x: usize) -> bool {
    keys.contains(x) && vals[keys.index_of(x)] != ExtNode::Real(None::<usize>)
}

/// Immediate post-dominators of a graph's nodes, computed backwards
/// from its exit nodes.
pub struct PostDominators {
    ipdom_keys: Vec<usize>,
    ipdom_vals: Vec<ExtNode>,
    postorder: Vec<usize>,
    exit_nodes: Vec<usize>,
}

impl PostDominators {
    /// The table entry of `n`: unassigned when `n` is not tracked.
    pub closed spec fn ipdom_of(&self, n: usize) -> ExtNode {
        if self.ipdom_keys@.contains(n) {
            self.ipdom_vals@[self.ipdom_keys@.index_of(n)]
        } else {
            ExtNode::Real(None)
        }
    }

    /// The exit nodes the computation started from.
    pub closed spec fn exits_seq(&self) -> Seq<usize> {
        self.exit_nodes@
    }

    /// `n` has a slot in the table.
    pub closed spec fn is_tracked(&self, n: usize) -> bool {
        self.ipdom_keys@.contains(n)
    }

    pub closed spec fn wf(&self) -> bool {
        pd_inv(self.ipdom_keys@, self.ipdom_vals@, self.postorder@, self.exit_nodes@)
    }

    /// Rank that grows along post-dominator chains; walks terminate
    /// against the bound.
    pub open spec fn pd_rank(&self, n: usize) -> int {
        self.rank_bound() - self.pos_spec(n)
    }

    pub closed spec fn pos_spec(&self, n: usize) -> int {
        pd_pos(self.postorder@, self.exit_nodes@, n)
    }

    pub closed spec fn rank_bound(&self) -> int {
        self.postorder@.len() as int + 1
    }

    /// One step along a concrete slot strictly raises the position.
    proof fn lemma_pd_step(&self, n: usize, p: usize)
        requires
            self.wf(),
            self.ipdom_of(n) == ExtNode::Real(Some(p)),
            p != n,
        ensures
            self.ipdom_keys@.contains(n),
            self.ipdom_keys@.contains(p),
            self.pos_spec(p) > self.pos_spec(n),
            0 <= self.pd_rank(p) < self.pd_rank(n),
    {
        assert(self.ipdom_keys@.contains(n)) by {
            if !self.ipdom_keys@.contains(n) {
                assert(self.ipdom_of(n) == ExtNode::Real(None::<usize>));
            }
        }
        let i = self.ipdom_keys@.index_of(n);
        assert(self.ipdom_keys@[i] == n);
        assert(match self.ipdom_vals@[i] {
            ExtNode::Real(Some(q)) => q == p,
            _ => false,
        });
        lemma_pd_pos_bounds(self.postorder@, self.exit_nodes@, p);
        lemma_pd_pos_bounds(self.postorder@, self.exit_nodes@, n);
    }

    /// The chain of post-dominators of `n`, from `n` itself out to its
    /// exit, as far as the table reaches.
    pub open spec fn pd_chain(&self, n: usize) -> Seq<usize>
        decreases self.pd_rank(n),
        when self.wf()
        via Self::pd_chain_decreases
    {
        match self.ipdom_of(n) {
            ExtNode::Real(Some(p)) => {
                if p == n {
                    seq![n]
                } else {
                    seq![n] + self.pd_chain(p)
                }
            },
            ExtNode::Real(None) => seq![n],
            ExtNode::Fake => seq![n],
        }
    }

    #[via_fn]
    proof fn pd_chain_decreases(&self, n: usize) {
        if self.wf() {
            match self.ipdom_of(n) {
                ExtNode::Real(Some(p)) => {
                    if p != n {
                        self.lemma_pd_step(n, p);
                    }
                },
                _ => {},
            }
        }
    }

    /// `dom` stands on the post-dominator chain of `node`.
    pub open spec fn pd_holds(&self, node: usize, dom: usize) -> bool
        decreases self.pd_rank(node),
        when self.wf()
        via Self::pd_holds_decreases
    {
        node == dom || (match self.ipdom_of(node) {
            ExtNode::Real(Some(p)) => p == dom || (p != node && self.pd_holds(p, dom)),
            ExtNode::Real(None) => false,
            ExtNode::Fake => false,
        })
    }

    #[via_fn]
    proof fn pd_holds_decreases(&self, node: usize, dom: usize) {
        if self.wf() {
            match self.ipdom_of(node) {
                ExtNode::Real(Some(p)) => {
                    if p != node {
                        self.lemma_pd_step(node, p);
                    }
                },
                _ => {},
            }
        }
    }
}

impl PostDominators {
    /// Returns whether the traversal from the exits reached `node`.
    pub fn is_reachable(&self, node: usize) -> (r: bool)
        requires
            self.wf(),
        ensures
            r == (self.ipdom_of(node) != ExtNode::Real(None::<usize>)),
    {
        match assoc_get_ext(&self.ipdom_keys, &self.ipdom_vals, node) {
            Some(v) => !v.is_none(),
            None => false,
        }
    }

    /// The table entry of `node`: unassigned when `node` is unknown.
    pub fn immediate_post_dominator(&self, node: usize) -> (r: ExtNode)
        requires
            self.wf(),
        ensures
            r == self.ipdom_of(node),
    {
        match assoc_get_ext(&self.ipdom_keys, &self.ipdom_vals, node) {
            Some(v) => v,
            None => ExtNode::Real(None),
        }
    }

    /// Returns whether `dom` post-dominates `node`, walking `node`'s
    /// chain toward the exits.
    pub fn is_post_dominated_by(&self, node: usize, dom: usize) -> (r: bool)
        requires
            self.wf(),
        ensures
            r == self.pd_holds(node, dom),
    {
        if node == dom {
            return true;
        }
        let mut current: usize = node;
        loop
            invariant
                self.wf(),
                current != dom,
                self.pd_holds(node, dom) == self.pd_holds(current, dom),
            decreases self.pd_rank(current),
        {
            match self.immediate_post_dominator(current) {
                ExtNode::Real(Some(ipdom)) => {
                    if ipdom == dom {
                        proof {
                            assert(self.pd_holds(current, dom));
                        }
                        return true;
                    }
                    if ipdom == current {
                        proof {
                            assert(!self.pd_holds(current, dom));
                        }
                        return false;
                    }
                    proof {
                        self.lemma_pd_step(current, ipdom);
                        assert(self.pd_holds(current, dom) == self.pd_holds(ipdom, dom));
                    }
                    current = ipdom;
                },
                ExtNode::Real(None) => {
                    proof {
                        assert(!self.pd_holds(current, dom));
                    }
                    return false;
                },
                ExtNode::Fake => {
                    proof {
                        assert(!self.pd_holds(current, dom));
                    }
                    return false;
                },
            }
        }
    }

    /// The post-dominators of `node`, from `node` itself out to its
    /// exit.
    pub fn post_dominators_of(&self, node: usize) -> (r: Vec<usize>)
        requires
            self.wf(),
        ensures
            r@ == self.pd_chain(node),
            forall|d: usize| #[trigger] r@.contains(d) <==> self.pd_holds(node, d),
    {
        let mut r: Vec<usize> = Vec::new();
        let mut current: usize = node;
        loop
            invariant_except_break
                self.wf(),
                r@ + self.pd_chain(current) == self.pd_chain(node),
            ensures
                r@ == self.pd_chain(node),
            decreases self.pd_rank(current),
        {
            let ghost pre = r@;
            r.push(current);
            match self.immediate_post_dominator(current) {
                ExtNode::Real(Some(ipdom)) => {
                    if ipdom == current {
                        proof {
                            assert(self.pd_chain(current) == seq![current]);
                            assert(r@ =~= pre + seq![current]);
                        }
                        break;
                    }
                    proof {
                        self.lemma_pd_step(current, ipdom);
                        assert(self.pd_chain(current) == seq![current] + self.pd_chain(ipdom));
                        assert(r@ + self.pd_chain(ipdom) =~= pre + self.pd_chain(current));
                    }
                    current = ipdom;
                },
                ExtNode::Real(None) => {
                    proof {
                        assert(self.pd_chain(current) == seq![current]);
                        assert(r@ =~= pre + seq![current]);
                    }
                    break;
                },
                ExtNode::Fake => {
                    proof {
                        assert(self.pd_chain(current) == seq![current]);
                        assert(r@ =~= pre + seq![current]);
                    }
                    break;
                },
            }
        }
        proof {
            self.lemma_pd_chain_contains(node);
        }
        r
    }

    /// Everything on a post-dominator chain post-dominates the node
    /// the chain belongs to, and nothing else does.
    proof fn lemma_pd_chain_contains(&self, n: usize)
        requires
            self.wf(),
        ensures
            forall|d: usize| #[trigger] self.pd_chain(n).contains(d) <==> self.pd_holds(n, d),
        decreases self.pd_rank(n),
    {
        match self.ipdom_of(n) {
            ExtNode::Real(Some(p)) => {
                if p != n {
                    self.lemma_pd_step(n, p);
                    self.lemma_pd_chain_contains(p);
                    assert forall|d: usize| #[trigger]
                        self.pd_chain(n).contains(d) <==> self.pd_holds(n, d) by {
                        lemma_cons_contains(n, self.pd_chain(p), d);
                        if d == p {
                            assert(self.pd_chain(p).contains(d)) by {
                                assert(self.pd_chain(p)[0] == p);
                            }
                        }
                    }
                } else {
                    assert forall|d: usize| #[trigger]
                        self.pd_chain(n).contains(d) <==> self.pd_holds(n, d) by {
                        assert(self.pd_chain(n) == seq![n]);
                        if self.pd_chain(n).contains(d) {
                            let i = choose|i: int|
                                0 <= i < self.pd_chain(n).len() && self.pd_chain(n)[i] == d;
                            assert(d == n);
                        }
                        if d == n {
                            assert(self.pd_chain(n)[0] == d);
                        }
                    }
                }
            },
            _ => {
                assert forall|d: usize| #[trigger]
                    self.pd_chain(n).contains(d) <==> self.pd_holds(n, d) by {
                    assert(self.pd_chain(n) == seq![n]);
                    if self.pd_chain(n).contains(d) {
                        let i = choose|i: int|
                            0 <= i < self.pd_chain(n).len() && self.pd_chain(n)[i] == d;
                        assert(d == n);
                    }
                    if d == n {
                        assert(self.pd_chain(n)[0] == d);
                    }
                }
            },
        }
    }

    /// The exit nodes the computation started from, each exactly
    /// once.
    pub fn exit_nodes(&self) -> (r: Vec<usize>)
        requires
            self.wf(),
        ensures
            r@ == self.exits_seq(),
            r@.no_duplicates(),
    {
        self.exit_nodes.clone()
    }
}

/// The common element of two chains that stands closest to their exit
/// ends: the last element of `c1` that appears in `c2`.
pub open spec fn first_common_from_exit(c1: Seq<usize>, c2: Seq<usize>) -> Option<usize>
    decreases c1.len(),
{
    if c1.len() == 0 {
        None
    } else if c2.contains(c1.last()) {
        Some(c1.last())
    } else {
        first_common_from_exit(c1.drop_last(), c2)
    }
}

impl PostDominators {
    /// The nearest common post-dominator of two nodes: their chains
    /// are compared from the exit end inward.
    pub fn nearest_common_post_dominator(&self, node1: usize, node2: usize) -> (r: Option<usize>)
        requires
            self.wf(),
        ensures
            r == if node1 == node2 {
                Some(node1)
            } else {
                first_common_from_exit(self.pd_chain(node1), self.pd_chain(node2))
            },
    {
        if node1 == node2 {
            return Some(node1);
        }
        let pd1 = self.post_dominators_of(node1);
        let pd2 = self.post_dominators_of(node2);
        let mut i: usize = pd1.len();
        proof {
            assert(pd1@.subrange(0, i as int) =~= pd1@);
        }
        while i > 0
            invariant
                self.wf(),
                node1 != node2,
                i <= pd1@.len(),
                pd1@ == self.pd_chain(node1),
                pd2@ == self.pd_chain(node2),
                first_common_from_exit(pd1@.subrange(0, i as int), pd2@)
                    == first_common_from_exit(pd1@, pd2@),
            decreases i,
        {
            let ghost sub = pd1@.subrange(0, i as int);
            let candidate = pd1[i - 1];
            proof {
                assert(sub.last() == candidate);
                assert(sub.drop_last() =~= pd1@.subrange(0, i as int - 1));
            }
            if vec_contains(&pd2, candidate) {
                proof {
                    assert(first_common_from_exit(sub, pd2@) == Some(candidate));
                }
                return Some(candidate);
            }
            i = i - 1;
        }
        proof {
            assert(pd1@.subrange(0, 0) =~= Seq::<usize>::empty());
        }
        None
    }

    /// An iterator-like cursor over the post-dominators of a node.
    pub fn post_dominators_iter<'a>(&'a self, node: usize) -> (it: PostDominatorIter<'a>)
        requires
            self.wf(),
        ensures
            it.wf(),
            it.remaining() == self.pd_chain(node),
    {
        PostDominatorIter { post_dominators: self, current: Some(node) }
    }
}

/// Cursor over the post-dominators of a node, from the node itself
/// out to its exit.
pub struct PostDominatorIter<'a> {
    post_dominators: &'a PostDominators,
    current: Option<usize>,
}

impl<'a> PostDominatorIter<'a> {
    pub closed spec fn wf(&self) -> bool {
        self.post_dominators.wf()
    }

    /// The post-dominators not yet handed out.
    pub closed spec fn remaining(&self) -> Seq<usize> {
        match self.current {
            Some(n) => self.post_dominators.pd_chain(n),
            None => Seq::empty(),
        }
    }

    /// Hands out the next post-dominator on the chain, if any.
    pub fn next(&mut self) -> (r: Option<usize>)
        requires
            old(self).wf(),
        ensures
            final(self).wf(),
            match r {
                Some(x) => old(self).remaining().len() > 0 && x == old(self).remaining()[0]
                    && final(self).remaining() == old(self).remaining().drop_first(),
                None => old(self).remaining().len() == 0 && final(self).remaining()
                    == old(self).remaining(),
            },
    {
        match self.current {
            None => None,
            Some(current) => {
                match self.post_dominators.immediate_post_dominator(current) {
                    ExtNode::Real(Some(ipdom)) => {
                        if ipdom != current {
                            proof {
                                self.post_dominators.lemma_pd_step(current, ipdom);
                                assert(self.post_dominators.pd_chain(current) == seq![current]
                                    + self.post_dominators.pd_chain(ipdom));
                                assert((seq![current] + self.post_dominators.pd_chain(
                                    ipdom,
                                )).drop_first() =~= self.post_dominators.pd_chain(ipdom));
                            }
                            self.current = Some(ipdom);
                        } else {
                            proof {
                                assert(self.post_dominators.pd_chain(current) == seq![current]);
                                assert(seq![current].drop_first() =~= Seq::<usize>::empty());
                            }
                            self.current = None;
                        }
                    },
                    _ => {
                        proof {
                            assert(self.post_dominators.pd_chain(current) == seq![current]);
                            assert(seq![current].drop_first() =~= Seq::<usize>::empty());
                        }
                        self.current = None;
                    },
                }
                Some(current)
            },
        }
    }
}

/// A filtered duplicate-free sequence stays duplicate-free.
proof fn lemma_filter_nodup(s: Seq<usize>, p: spec_fn(usize) -> bool)
    requires
        s.no_duplicates(),
    ensures
        s.filter(p).no_duplicates(),
    decreases s.len(),
{
    reveal_with_fuel(Seq::filter, 2);
    broadcast use vstd::seq_lib::group_filter_ensures;

    if s.len() > 0 {
        lemma_filter_nodup(s.drop_last(), p);
        if p(s.last()) {
            assert(s.filter(p) == s.drop_last().filter(p).push(s.last()));
            assert(!s.drop_last().filter(p).contains(s.last())) by {
                if s.drop_last().filter(p).contains(s.last()) {
                    s.drop_last().lemma_filter_contains_rev(p, s.last());
                    assert(s.drop_last().contains(s.last()));
                    let i = choose|i: int|
                        0 <= i < s.drop_last().len() && s.drop_last()[i] == s.last();
                    assert(s[i] == s[s.len() - 1]);
                }
            }
        } else {
            assert(s.filter(p) == s.drop_last().filter(p));
        }
    }
}

/// Postorder of the nodes backward-reachable from the given roots
/// along predecessor edges, by explicit-stack traversals.

/// A walk along successor edges, node by node, from any start.
pub open spec fn linked_path(g: DirectedGraph, path: Seq<usize>) -> bool {
    path.len() > 0 && (forall|i: int|
        0 <= i < path.len() - 1 ==> g.has_edge(#[trigger] path[i], path[i + 1]))
}

/// Some member of `roots` is reachable from `x` along successor
/// edges.
pub open spec fn reaches_root(g: DirectedGraph, roots: Seq<usize>, x: usize) -> bool {
    exists|path: Seq<usize>| linked_path(g, path) && path[0] == x && roots.contains(path.last())
}

/// Some exit node (one without successors) is reachable from `n`.
pub open spec fn exit_reachable(g: DirectedGraph, n: usize) -> bool {
    exists|path: Seq<usize>|
        linked_path(g, path) && path[0] == n && g.succ_of(path.last()).len() == 0
}

proof fn lemma_reaches_root_self(g: DirectedGraph, roots: Seq<usize>, x: usize)
    requires
        roots.contains(x),
    ensures
        reaches_root(g, roots, x),
{
    let path = seq![x];
    assert(linked_path(g, path) && path[0] == x && roots.contains(path.last()));
}

proof fn lemma_reaches_root_step(g: DirectedGraph, roots: Seq<usize>, p: usize, s: usize)
    requires
        g.has_edge(p, s),
        reaches_root(g, roots, s),
    ensures
        reaches_root(g, roots, p),
{
    let path = choose|path: Seq<usize>|
        linked_path(g, path) && path[0] == s && roots.contains(path.last());
    let path2 = seq![p] + path;
    assert(linked_path(g, path2)) by {
        assert forall|i: int|
            0 <= i < path2.len() - 1 implies g.has_edge(#[trigger] path2[i], path2[i + 1]) by {
            if i == 0 {
                assert(path2[0] == p);
                assert(path2[1] == path[0]);
            } else {
                assert(path2[i] == path[i - 1]);
                assert(path2[i + 1] == path[i]);
            }
        }
    }
    assert(path2[0] == p);
    assert(path2.last() == path.last());
}

/// The start of a walk lies in any set that holds the walk's end and
/// is closed under taking in-edges of members.
proof fn lemma_linked_path_closed(g: DirectedGraph, set: Seq<usize>, path: Seq<usize>)
    requires
        linked_path(g, path),
        set.contains(path.last()),
        forall|x: usize, p: usize|
            #![trigger set.contains(x), g.has_edge(p, x)]
            set.contains(x) && g.has_edge(p, x) ==> set.contains(p),
    ensures
        set.contains(path[0]),
    decreases path.len(),
{
    if path.len() > 1 {
        let rest = path.drop_first();
        assert(linked_path(g, rest)) by {
            assert forall|i: int|
                0 <= i < rest.len() - 1 implies g.has_edge(#[trigger] rest[i], rest[i + 1]) by {
                assert(rest[i] == path[i + 1]);
                assert(rest[i + 1] == path[i + 2]);
            }
        }
        assert(rest.last() == path.last());
        lemma_linked_path_closed(g, set, rest);
        assert(set.contains(rest[0]));
        assert(g.has_edge(path[0], path[1]));
        assert(rest[0] == path[1]);
    }
}

/// Bookkeeping of the backward traversal: predecessors already
/// examined are visited, every visited node is finished or on the
/// stack, and finished nodes have all predecessors visited.
#[verifier::opaque]
spec fn bdfs_books(
    g: DirectedGraph,
    visited: Seq<usize>,
    post: Seq<usize>,
    stack: Seq<(usize, Vec<usize>, usize)>,
) -> bool {
    &&& (forall|i: int, q: int|
        0 <= i < stack.len() && 0 <= q < stack[i].2 ==> visited.contains(
            #[trigger] stack[i].1@[q],
        ))
    &&& (forall|x: usize| #[trigger]
        visited.contains(x) ==> post.contains(x) || exists|i: int|
            0 <= i < stack.len() && (#[trigger] stack[i]).0 == x)
    &&& (forall|x: usize, p: usize|
        #![trigger post.contains(x), g.pred_of(x).contains(p)]
        post.contains(x) && g.pred_of(x).contains(p) ==> visited.contains(p))
}

/// Discovery order of the backward traversal: each stack frame's node
/// is an edge-predecessor of the frame below it, and every finished
/// node that is not a root has an out-edge to a node still on the
/// stack or finished later.
#[verifier::opaque]
spec fn bdfs_order(
    g: DirectedGraph,
    roots: Seq<usize>,
    post: Seq<usize>,
    stack: Seq<(usize, Vec<usize>, usize)>,
) -> bool {
    &&& (forall|i: int|
        1 <= i < stack.len() ==> g.has_edge((#[trigger] stack[i]).0, stack[i - 1].0))
    &&& (forall|x: usize|
        #[trigger] post.contains(x) && !roots.contains(x) ==> has_bdiscoverer(
            g,
            post,
            stack,
            x,
        ))
}

/// `x` has an out-edge to a node still being traversed or finished
/// after it.
spec fn has_bdiscoverer(
    g: DirectedGraph,
    post: Seq<usize>,
    stack: Seq<(usize, Vec<usize>, usize)>,
    x: usize,
) -> bool {
    exists|s: usize|
        #[trigger] g.has_edge(x, s) && (on_stack(stack, s) || (post.contains(s) && post.index_of(
            s,
        ) > post.index_of(x)))
}

/// Opening a child frame preserves the backward bookkeeping.
proof fn lemma_bdfs_books_open(
    g: &DirectedGraph,
    pre_visited: Seq<usize>,
    visited: Seq<usize>,
    post: Seq<usize>,
    pre_stack: Seq<(usize, Vec<usize>, usize)>,
    stack: Seq<(usize, Vec<usize>, usize)>,
    node: usize,
    child: usize,
    preds_view: Seq<usize>,
    idx: usize,
)
    requires
        bdfs_books(*g, pre_visited, post, pre_stack),
        pre_stack.len() >= 1,
        pre_stack[pre_stack.len() - 1].0 == node,
        pre_stack[pre_stack.len() - 1].1@ == preds_view,
        pre_stack[pre_stack.len() - 1].2 == idx,
        idx < preds_view.len(),
        preds_view[idx as int] == child,
        visited == pre_visited.push(child),
        stack.len() == pre_stack.len() + 1,
        forall|j: int| 0 <= j < pre_stack.len() - 1 ==> (#[trigger] stack[j]) == pre_stack[j],
        stack[pre_stack.len() - 1].0 == node,
        stack[pre_stack.len() - 1].1@ == preds_view,
        stack[pre_stack.len() - 1].2 == idx + 1,
        stack[pre_stack.len() as int].0 == child,
        stack[pre_stack.len() as int].2 == 0,
    ensures
        bdfs_books(*g, visited, post, stack),
{
    reveal(bdfs_books);
    assert forall|x: usize| #[trigger]
        visited.contains(x) implies post.contains(x) || exists|i: int|
        0 <= i < stack.len() && (#[trigger] stack[i]).0 == x by {
        lemma_push_contains(pre_visited, child, x);
        if x == child {
            assert(stack[stack.len() - 1].0 == x);
        } else if !post.contains(x) {
            let i = choose|i: int| 0 <= i < pre_stack.len() && (#[trigger] pre_stack[i]).0 == x;
            if i < pre_stack.len() - 1 {
                assert(stack[i] == pre_stack[i]);
            } else {
                assert(x == node);
                assert(stack[stack.len() - 2].0 == node);
            }
        }
    }
    assert forall|x: usize, p: usize|
        #![trigger post.contains(x), g.pred_of(x).contains(p)]
        post.contains(x) && g.pred_of(x).contains(p) implies visited.contains(p) by {
        lemma_push_contains(pre_visited, child, p);
    }
    assert forall|i: int, q: int|
        0 <= i < stack.len() && 0 <= q < stack[i].2 implies visited.contains(
        #[trigger] stack[i].1@[q]) by {
        if i < stack.len() - 2 {
            assert(stack[i] == pre_stack[i]);
            lemma_push_contains(pre_visited, child, pre_stack[i].1@[q]);
        } else if i == stack.len() - 2 {
            assert(stack[i].1@ == preds_view && stack[i].2 == idx + 1);
            if q < idx {
                assert(pre_stack[pre_stack.len() - 1].1@[q] == preds_view[q]);
                lemma_push_contains(pre_visited, child, preds_view[q]);
            } else {
                assert(preds_view[q] == child);
                assert(visited[visited.len() - 1] == child);
            }
        } else {
            assert(stack[i].2 == 0);
        }
    }
}

/// Stepping past an already-visited predecessor preserves the
/// backward bookkeeping.
proof fn lemma_bdfs_books_advance(
    g: &DirectedGraph,
    visited: Seq<usize>,
    post: Seq<usize>,
    pre_stack: Seq<(usize, Vec<usize>, usize)>,
    stack: Seq<(usize, Vec<usize>, usize)>,
    node: usize,
    child: usize,
    preds_view: Seq<usize>,
    idx: usize,
)
    requires
        bdfs_books(*g, visited, post, pre_stack),
        pre_stack.len() >= 1,
        pre_stack[pre_stack.len() - 1].0 == node,
        pre_stack[pre_stack.len() - 1].1@ == preds_view,
        pre_stack[pre_stack.len() - 1].2 == idx,
        idx < preds_view.len(),
        preds_view[idx as int] == child,
        visited.contains(child),
        stack.len() == pre_stack.len(),
        forall|j: int| 0 <= j < pre_stack.len() - 1 ==> (#[trigger] stack[j]) == pre_stack[j],
        stack[pre_stack.len() - 1].0 == node,
        stack[pre_stack.len() - 1].1@ == preds_view,
        stack[pre_stack.len() - 1].2 == idx + 1,
    ensures
        bdfs_books(*g, visited, post, stack),
{
    reveal(bdfs_books);
    assert forall|x: usize| #[trigger]
        visited.contains(x) implies post.contains(x) || exists|i: int|
        0 <= i < stack.len() && (#[trigger] stack[i]).0 == x by {
        if !post.contains(x) {
            let i = choose|i: int| 0 <= i < pre_stack.len() && (#[trigger] pre_stack[i]).0 == x;
            if i < pre_stack.len() - 1 {
                assert(stack[i] == pre_stack[i]);
            } else {
                assert(x == node);
                assert(stack[stack.len() - 1].0 == node);
            }
        }
    }
    assert forall|i: int, q: int|
        0 <= i < stack.len() && 0 <= q < stack[i].2 implies visited.contains(
        #[trigger] stack[i].1@[q]) by {
        if i < stack.len() - 1 {
            assert(stack[i] == pre_stack[i]);
        } else {
            assert(stack[i].1@ == preds_view && stack[i].2 == idx + 1);
            if q < idx {
                assert(pre_stack[pre_stack.len() - 1].1@[q] == preds_view[q]);
            } else {
                assert(preds_view[q] == child);
            }
        }
    }
}

/// Finishing the exhausted top frame preserves the backward
/// bookkeeping.
proof fn lemma_bdfs_books_finish(
    g: &DirectedGraph,
    visited: Seq<usize>,
    pre_post: Seq<usize>,
    post: Seq<usize>,
    pre_stack: Seq<(usize, Vec<usize>, usize)>,
    stack: Seq<(usize, Vec<usize>, usize)>,
    node: usize,
)
    requires
        bdfs_books(*g, visited, pre_post, pre_stack),
        pre_stack.len() >= 1,
        pre_stack[pre_stack.len() - 1].0 == node,
        pre_stack[pre_stack.len() - 1].1@ == g.pred_of(node),
        pre_stack[pre_stack.len() - 1].2 == pre_stack[pre_stack.len() - 1].1@.len(),
        stack == pre_stack.drop_last(),
        post == pre_post.push(node),
    ensures
        bdfs_books(*g, visited, post, stack),
{
    reveal(bdfs_books);
    assert forall|x: usize| #[trigger]
        visited.contains(x) implies post.contains(x) || exists|i: int|
        0 <= i < stack.len() && (#[trigger] stack[i]).0 == x by {
        lemma_push_contains(pre_post, node, x);
        if x != node && !post.contains(x) {
            let i = choose|i: int| 0 <= i < pre_stack.len() && (#[trigger] pre_stack[i]).0 == x;
            assert(i < pre_stack.len() - 1);
            assert(stack[i] == pre_stack[i]);
        }
    }
    assert forall|x: usize, p: usize|
        #![trigger post.contains(x), g.pred_of(x).contains(p)]
        post.contains(x) && g.pred_of(x).contains(p) implies visited.contains(p) by {
        lemma_push_contains(pre_post, node, x);
        if x == node {
            let q = choose|q: int| 0 <= q < g.pred_of(node).len() && g.pred_of(node)[q] == p;
            assert(pre_stack[pre_stack.len() - 1].1@[q] == p);
            assert(visited.contains(pre_stack[pre_stack.len() - 1].1@[q]));
        }
    }
    assert forall|i: int, q: int|
        0 <= i < stack.len() && 0 <= q < stack[i].2 implies visited.contains(
        #[trigger] stack[i].1@[q]) by {
        assert(stack[i] == pre_stack[i]);
    }
}

/// Advancing or opening a frame preserves the backward discovery
/// order.
proof fn lemma_bdfs_order_advance(
    g: &DirectedGraph,
    roots: Seq<usize>,
    post: Seq<usize>,
    pre_stack: Seq<(usize, Vec<usize>, usize)>,
    stack: Seq<(usize, Vec<usize>, usize)>,
    node: usize,
    child: usize,
    pushed_child: bool,
)
    requires
        bdfs_order(*g, roots, post, pre_stack),
        pre_stack.len() >= 1,
        pre_stack[pre_stack.len() - 1].0 == node,
        g.has_edge(child, node),
        pushed_child ==> stack.len() == pre_stack.len() + 1 && stack[pre_stack.len() as int].0
            == child,
        !pushed_child ==> stack.len() == pre_stack.len(),
        forall|j: int| 0 <= j < pre_stack.len() ==> (#[trigger] stack[j]).0 == pre_stack[j].0,
    ensures
        bdfs_order(*g, roots, post, stack),
{
    reveal(bdfs_order);
    assert forall|i: int|
        1 <= i < stack.len() implies g.has_edge((#[trigger] stack[i]).0, stack[i - 1].0) by {
        if i < pre_stack.len() {
            assert(stack[i - 1].0 == pre_stack[i - 1].0);
            assert(stack[i].0 == pre_stack[i].0);
        } else {
            assert(stack[i - 1].0 == node);
            assert(stack[i].0 == child);
        }
    }
    assert forall|x: usize|
        #[trigger] post.contains(x) && !roots.contains(x) implies has_bdiscoverer(
        *g,
        post,
        stack,
        x,
    ) by {
        assert(has_bdiscoverer(*g, post, pre_stack, x));
        let s = choose|s: usize|
            #[trigger] g.has_edge(x, s) && (on_stack(pre_stack, s) || (post.contains(s)
                && post.index_of(s) > post.index_of(x)));
        if on_stack(pre_stack, s) {
            let i = choose|i: int| 0 <= i < pre_stack.len() && (#[trigger] pre_stack[i]).0 == s;
            assert(stack[i].0 == s);
            assert(on_stack(stack, s));
        }
    }
}

/// Finishing the top frame preserves the backward discovery order.
proof fn lemma_bdfs_order_pop(
    g: &DirectedGraph,
    roots: Seq<usize>,
    pre_post: Seq<usize>,
    post: Seq<usize>,
    pre_stack: Seq<(usize, Vec<usize>, usize)>,
    stack: Seq<(usize, Vec<usize>, usize)>,
    node: usize,
)
    requires
        bdfs_order(*g, roots, pre_post, pre_stack),
        pre_stack.len() >= 1,
        pre_stack[pre_stack.len() - 1].0 == node,
        roots.contains(pre_stack[0].0),
        stack == pre_stack.drop_last(),
        post == pre_post.push(node),
        pre_post.no_duplicates(),
        !pre_post.contains(node),
    ensures
        bdfs_order(*g, roots, post, stack),
{
    reveal(bdfs_order);
    assert forall|i: int|
        1 <= i < stack.len() implies g.has_edge((#[trigger] stack[i]).0, stack[i - 1].0) by {
        assert(stack[i - 1] == pre_stack[i - 1]);
        assert(stack[i] == pre_stack[i]);
    }
    assert forall|x: usize|
        #[trigger] post.contains(x) && !roots.contains(x) implies has_bdiscoverer(
        *g,
        post,
        stack,
        x,
    ) by {
        lemma_push_contains(pre_post, node, x);
        if x == node {
            // the popped node is not a root, so it sits above its
            // discoverer
            assert(pre_stack.len() >= 2) by {
                if pre_stack.len() == 1 {
                    assert(pre_stack[0].0 == node);
                }
            }
            let s = pre_stack[pre_stack.len() - 2].0;
            assert(g.has_edge(node, s)) by {
                let li = pre_stack.len() - 1;
                assert(1 <= li < pre_stack.len());
                assert(g.has_edge((pre_stack[li]).0, pre_stack[li - 1].0));
                assert(pre_stack[li].0 == node);
            }
            assert(stack[stack.len() - 1].0 == s);
            assert(on_stack(stack, s));
        } else {
            assert(pre_post.contains(x));
            assert(has_bdiscoverer(*g, pre_post, pre_stack, x));
            let s = choose|s: usize|
                #[trigger] g.has_edge(x, s) && (on_stack(pre_stack, s) || (pre_post.contains(s)
                    && pre_post.index_of(s) > pre_post.index_of(x)));
            lemma_index_of_push_stable(pre_post, node, x);
            if on_stack(pre_stack, s) {
                let i = choose|i: int|
                    0 <= i < pre_stack.len() && (#[trigger] pre_stack[i]).0 == s;
                if i < pre_stack.len() - 1 {
                    assert(stack[i].0 == s);
                    assert(on_stack(stack, s));
                } else {
                    assert(s == node);
                    assert(post.index_of(node) == pre_post.len());
                    assert(post[pre_post.len() as int] == node);
                    assert(post.contains(node));
                    assert(pre_post[pre_post.index_of(x)] == x);
                    assert(post.index_of(x) < pre_post.len());
                    assert(post.contains(s) && post.index_of(s) > post.index_of(x));
                }
            } else {
                lemma_index_of_push_stable(pre_post, node, s);
                assert(post.contains(s) && post.index_of(s) > post.index_of(x));
            }
        }
    }
}

#[verifier::rlimit(100)]
fn postorder_from_roots(graph: &DirectedGraph, roots: &Vec<usize>) -> (post: Vec<usize>)
    requires
        graph.wf(),
        forall|i: int| 0 <= i < roots@.len() ==> graph.has_node(#[trigger] roots@[i]),
    ensures
        post@.no_duplicates(),
        forall|x: usize| #[trigger] post@.contains(x) ==> graph.has_node(x),
        forall|x: usize| #[trigger] post@.contains(x) ==> reaches_root(*graph, roots@, x),
        forall|x: usize| reaches_root(*graph, roots@, x) ==> post@.contains(x),
        forall|x: usize|
            #[trigger] post@.contains(x) && !roots@.contains(x) ==> exists|s: usize|
                #[trigger] graph.has_edge(x, s) && post@.contains(s) && post@.index_of(s)
                    > post@.index_of(x),
{
    let mut visited: Vec<usize> = Vec::new();
    let mut post: Vec<usize> = Vec::new();
    proof {
        assert(bdfs_books(*graph, visited@, post@, Seq::empty())) by {
            reveal(bdfs_books);
        }
        assert(bdfs_order(*graph, roots@, post@, Seq::empty())) by {
            reveal(bdfs_order);
        }
    }
    let mut r: usize = 0;
    while r < roots.len()
        invariant
            graph.wf(),
            r <= roots@.len(),
            forall|i: int| 0 <= i < roots@.len() ==> graph.has_node(#[trigger] roots@[i]),
            visited@.no_duplicates(),
            post@.no_duplicates(),
            visited@.len() <= graph.node_seq().len(),
            forall|x: usize| #[trigger] visited@.contains(x) ==> graph.has_node(x),
            forall|x: usize| #[trigger] post@.contains(x) ==> visited@.contains(x),
            forall|x: usize| #[trigger]
                visited@.contains(x) ==> reaches_root(*graph, roots@, x),
            forall|i: int| 0 <= i < r ==> visited@.contains(#[trigger] roots@[i]),
            bdfs_books(*graph, visited@, post@, Seq::empty()),
            bdfs_order(*graph, roots@, post@, Seq::empty()),
        decreases roots@.len() - r,
    {
        let root = roots[r];
        proof {
            assert(roots@.contains(root)) by {
                assert(roots@[r as int] == root);
            }
            lemma_reaches_root_self(*graph, roots@, root);
        }
        if !vec_contains(&visited, root) {
            let ghost pre_visited = visited@;
            visited.push(root);
            proof {
                assert forall|x: usize| #[trigger] visited@.contains(x) implies graph.has_node(
                    x) by {
                    lemma_push_contains(pre_visited, root, x);
                }
                assert(visited@.no_duplicates());
                assert forall|x: usize| #[trigger] post@.contains(x) implies visited@.contains(
                    x) by {
                    lemma_push_contains(pre_visited, root, x);
                }
                assert forall|x: usize| #[trigger]
                    visited@.contains(x) implies reaches_root(*graph, roots@, x) by {
                    lemma_push_contains(pre_visited, root, x);
                }
                assert forall|i: int|
                    0 <= i < r implies visited@.contains(#[trigger] roots@[i]) by {
                    lemma_push_contains(pre_visited, root, roots@[i]);
                }
                lemma_nodup_len_le(visited@, graph.node_seq());
            }
            let mut stack: Vec<(usize, Vec<usize>, usize)> = Vec::new();
            let root_preds = graph.predecessors(root);
            stack.push((root, root_preds, 0));
            proof {
                assert(stack@[0].0 == root);
                assert(visited@.contains(root)) by {
                    assert(visited@[visited@.len() - 1] == root);
                }
                assert(bdfs_books(*graph, visited@, post@, stack@)) by {
                    reveal(bdfs_books);
                    assert(bdfs_books(*graph, pre_visited, post@, Seq::empty()));
                    assert forall|x: usize| #[trigger]
                        visited@.contains(x) implies post@.contains(x) || exists|i: int|
                        0 <= i < stack@.len() && (#[trigger] stack@[i]).0 == x by {
                        lemma_push_contains(pre_visited, root, x);
                        if x == root {
                            assert(stack@[0].0 == x);
                        }
                    }
                }
                assert(bdfs_order(*graph, roots@, post@, stack@)) by {
                    reveal(bdfs_order);
                    assert(bdfs_order(*graph, roots@, post@, Seq::empty()));
                    assert forall|x: usize|
                        #[trigger] post@.contains(x) && !roots@.contains(x)
                        implies has_bdiscoverer(*graph, post@, stack@, x) by {
                        assert(has_bdiscoverer(*graph, post@, Seq::empty(), x));
                        let s = choose|s: usize|
                            #[trigger] graph.has_edge(x, s) && (on_stack(Seq::empty(), s) || (
                            post@.contains(s) && post@.index_of(s) > post@.index_of(x)));
                        assert(!on_stack(Seq::empty(), s));
                    }
                }
            }
            while stack.len() > 0
                invariant
                    graph.wf(),
                    roots@.contains(root),
                    r < roots@.len(),
                    visited@.contains(root),
                    forall|i: int| 0 <= i < r ==> visited@.contains(#[trigger] roots@[i]),
                    forall|i: int| 0 <= i < roots@.len() ==> graph.has_node(#[trigger] roots@[i]),
                    visited@.no_duplicates(),
                    post@.no_duplicates(),
                    visited@.len() <= graph.node_seq().len(),
                    forall|x: usize| #[trigger] visited@.contains(x) ==> graph.has_node(x),
                    forall|x: usize| #[trigger] post@.contains(x) ==> visited@.contains(x),
                    forall|x: usize| #[trigger]
                        visited@.contains(x) ==> reaches_root(*graph, roots@, x),
                    forall|i: int|
                        0 <= i < stack@.len() ==> visited@.contains((#[trigger] stack@[i]).0),
                    forall|i: int| 0 <= i < stack@.len() ==> !post@.contains((#[trigger] stack@[i]).0),
                    forall|i: int, j: int| 0 <= i < j < stack@.len() ==> stack@[i].0 != stack@[j].0,
                    forall|i: int|
                        0 <= i < stack@.len() ==> ((#[trigger] stack@[i]).1@ == graph.pred_of(
                            stack@[i].0,
                        ) && stack@[i].2 <= stack@[i].1@.len()),
                    bdfs_books(*graph, visited@, post@, stack@),
                    bdfs_order(*graph, roots@, post@, stack@),
                    stack@.len() > 0 ==> stack@[0].0 == root,
                decreases
                    graph.node_seq().len() - visited@.len(),
                    frames_measure(stack@),
            {
                let ghost pre_stack = stack@;
                let ghost pre_visited2 = visited@;
                let frame = match stack.pop() {
                    Some(f) => f,
                    None => {
                        proof {
                            assert(false);
                        }
                        (0usize, Vec::new(), 0usize)
                    },
                };
                let node = frame.0;
                let preds = frame.1;
                let idx = frame.2;
                proof {
                    assert(pre_stack.last() == frame);
                    assert(stack@ == pre_stack.drop_last());
                    lemma_frames_measure_nonneg(stack@);
                }
                if idx < preds.len() {
                    let child = preds[idx];
                    let ghost preds_view = preds@;
                    stack.push((node, preds, idx + 1));
                    proof {
                        assert(stack@.drop_last() =~= pre_stack.drop_last());
                        assert(stack@.last().0 == node);
                        assert(stack@.last().1@ == preds_view);
                        assert(stack@.last().2 == idx + 1);
                        assert(frames_measure(stack@) == frames_measure(pre_stack.drop_last()) + 1
                            + preds_view.len() - (idx + 1));
                        assert(frames_measure(pre_stack) == frames_measure(pre_stack.drop_last())
                            + 1 + preds_view.len() - idx);
                        assert(graph.pred_of(node).contains(child)) by {
                            assert(graph.pred_of(node)[idx as int] == child);
                        }
                        graph.lemma_pred_closed(node, child);
                        graph.lemma_edge_symmetry(child, node);
                    }
                    if !vec_contains(&visited, child) {
                        visited.push(child);
                        let child_preds = graph.predecessors(child);
                        stack.push((child, child_preds, 0));
                        proof {
                            assert(stack@.drop_last().drop_last() =~= pre_stack.drop_last());
                            assert(stack@.last().0 == child);
                            assert forall|x: usize| #[trigger]
                                visited@.contains(x) implies graph.has_node(x) by {
                                lemma_push_contains(pre_visited2, child, x);
                            }
                            assert(visited@.no_duplicates()) by {
                                assert(visited@ == pre_visited2.push(child));
                                assert(!pre_visited2.contains(child));
                            }
                            assert(reaches_root(*graph, roots@, child)) by {
                                assert(pre_visited2.contains(node)) by {
                                    assert(pre_stack[pre_stack.len() - 1].0 == node);
                                }
                                lemma_reaches_root_step(*graph, roots@, child, node);
                            }
                            assert forall|x: usize| #[trigger]
                                visited@.contains(x) implies reaches_root(*graph, roots@, x) by {
                                lemma_push_contains(pre_visited2, child, x);
                            }
                            assert forall|x: usize| #[trigger]
                                post@.contains(x) implies visited@.contains(x) by {
                                lemma_push_contains(pre_visited2, child, x);
                            }
                            assert(visited@.contains(root)) by {
                                lemma_push_contains(pre_visited2, child, root);
                            }
                            assert forall|i: int|
                                0 <= i < r implies visited@.contains(#[trigger] roots@[i]) by {
                                lemma_push_contains(pre_visited2, child, roots@[i]);
                            }
                            assert forall|i: int|
                                0 <= i < stack@.len() implies visited@.contains(
                                (#[trigger] stack@[i]).0) by {
                                lemma_push_contains(pre_visited2, child, stack@[i].0);
                                if i < stack@.len() - 2 {
                                    assert(stack@[i] == pre_stack[i]);
                                }
                            }
                            lemma_nodup_len_le(visited@, graph.node_seq());
                            assert(forall|j: int|
                                0 <= j < pre_stack.len() - 1 ==> (#[trigger] stack@[j])
                                    == pre_stack[j]);
                            lemma_bdfs_books_open(
                                graph,
                                pre_visited2,
                                visited@,
                                post@,
                                pre_stack,
                                stack@,
                                node,
                                child,
                                preds_view,
                                idx,
                            );
                            assert(forall|j: int|
                                0 <= j < pre_stack.len() ==> (#[trigger] stack@[j]).0
                                    == pre_stack[j].0);
                            lemma_bdfs_order_advance(
                                graph,
                                roots@,
                                post@,
                                pre_stack,
                                stack@,
                                node,
                                child,
                                true,
                            );
                        }
                    } else {
                        proof {
                            assert(forall|j: int|
                                0 <= j < pre_stack.len() - 1 ==> (#[trigger] stack@[j])
                                    == pre_stack[j]);
                            lemma_bdfs_books_advance(
                                graph,
                                visited@,
                                post@,
                                pre_stack,
                                stack@,
                                node,
                                child,
                                preds_view,
                                idx,
                            );
                            assert(forall|j: int|
                                0 <= j < pre_stack.len() ==> (#[trigger] stack@[j]).0
                                    == pre_stack[j].0);
                            lemma_bdfs_order_advance(
                                graph,
                                roots@,
                                post@,
                                pre_stack,
                                stack@,
                                node,
                                child,
                                false,
                            );
                        }
                    }
                } else {
                    let ghost pre_post = post@;
                    post.push(node);
                    proof {
                        assert(post@ == pre_post.push(node));
                        assert(!pre_post.contains(node)) by {
                            assert(!pre_post.contains(pre_stack[pre_stack.len() - 1].0));
                        }
                        assert forall|i: int|
                            0 <= i < stack@.len() implies !post@.contains(
                            (#[trigger] stack@[i]).0) by {
                            lemma_push_contains(pre_post, node, stack@[i].0);
                            assert(stack@[i] == pre_stack[i]);
                            assert(pre_stack[i].0 != pre_stack[pre_stack.len() - 1].0);
                        }
                        assert(post@.no_duplicates());
                        assert forall|x: usize| #[trigger]
                            post@.contains(x) implies visited@.contains(x) by {
                            lemma_push_contains(pre_post, node, x);
                        }
                        lemma_bdfs_books_finish(
                            graph,
                            visited@,
                            pre_post,
                            post@,
                            pre_stack,
                            stack@,
                            node,
                        );
                        lemma_bdfs_order_pop(
                            graph,
                            roots@,
                            pre_post,
                            post@,
                            pre_stack,
                            stack@,
                            node,
                        );
                    }
                }
            }
            proof {
                assert(stack@ =~= Seq::<(usize, Vec<usize>, usize)>::empty());
            }
        }
        r = r + 1;
    }
    proof {
        // with no frame left, every visited node is finished, finished
        // nodes are closed under in-edges, and all roots are finished
        reveal(bdfs_books);
        assert(bdfs_books(*graph, visited@, post@, Seq::empty()));
        assert forall|x: usize| #[trigger] post@.contains(x) implies reaches_root(
            *graph,
            roots@,
            x,
        ) by {
            assert(visited@.contains(x));
        }
        assert forall|x: usize| reaches_root(*graph, roots@, x) implies post@.contains(x) by {
            assert forall|y: usize, p: usize|
                #![trigger post@.contains(y), graph.has_edge(p, y)]
                post@.contains(y) && graph.has_edge(p, y) implies post@.contains(p) by {
                graph.lemma_edge_symmetry(p, y);
                assert(graph.pred_of(y).contains(p));
                assert(visited@.contains(p));
            }
            let path = choose|path: Seq<usize>|
                linked_path(*graph, path) && path[0] == x && roots@.contains(path.last());
            assert(post@.contains(path.last())) by {
                let i = choose|i: int| 0 <= i < roots@.len() && roots@[i] == path.last();
                assert(visited@.contains(roots@[i]));
            }
            lemma_linked_path_closed(*graph, post@, path);
        }
        assert forall|x: usize|
            #[trigger] post@.contains(x) && !roots@.contains(x) implies exists|s: usize|
            #[trigger] graph.has_edge(x, s) && post@.contains(s) && post@.index_of(s)
                > post@.index_of(x) by {
            reveal(bdfs_order);
            assert(bdfs_order(*graph, roots@, post@, Seq::empty()));
            assert(has_bdiscoverer(*graph, post@, Seq::empty(), x));
            let s = choose|s: usize|
                #[trigger] graph.has_edge(x, s) && (on_stack(Seq::empty(), s) || (post@.contains(
                    s,
                ) && post@.index_of(s) > post@.index_of(x)));
            assert(!on_stack(Seq::empty(), s));
        }
    }
    post
}

/// Rank lookup used by the post-dominator computation.
fn pd_position(postorder: &Vec<usize>, exits: &Vec<usize>, n: usize) -> (r: usize)
    requires
        postorder@.no_duplicates(),
    ensures
        r as int == pd_pos(postorder@, exits@, n),
        r <= postorder@.len(),
{
    if vec_contains(exits, n) {
        postorder.len()
    } else {
        match find_index(postorder, n) {
            Some(i) => {
                proof {
                    lemma_index_of_unique(postorder@, n, i as int);
                    assert(postorder@.contains(n)) by {
                        assert(postorder@[i as int] == n);
                    }
                }
                i
            },
            None => 0,
        }
    }
}

/// Nearest common post-dominator candidate of two tracked nodes: the
/// fingers climb by rank until they meet; when the chains end apart,
/// or in two different exits, the result is the ambiguous sentinel.
fn pd_intersect(
    keys: &Vec<usize>,
    vals: &Vec<ExtNode>,
    postorder: &Vec<usize>,
    exits: &Vec<usize>,
    finger1: usize,
    finger2: usize,
) -> (r: ExtNode)
    requires
        pd_inv(keys@, vals@, postorder@, exits@),
        keys@.contains(finger1),
        keys@.contains(finger2),
    ensures
        match r {
            ExtNode::Real(Some(x)) => keys@.contains(x) && pd_pos(postorder@, exits@, x) >= pd_pos(
                postorder@,
                exits@,
                finger1,
            ) && pd_pos(postorder@, exits@, x) >= pd_pos(postorder@, exits@, finger2),
            ExtNode::Real(None) => false,
            ExtNode::Fake => true,
        },
{
    let mut f1 = finger1;
    let mut f2 = finger2;
    while f1 != f2
        invariant
            pd_inv(keys@, vals@, postorder@, exits@),
            keys@.contains(f1),
            keys@.contains(f2),
            pd_pos(postorder@, exits@, f1) >= pd_pos(postorder@, exits@, finger1),
            pd_pos(postorder@, exits@, f2) >= pd_pos(postorder@, exits@, finger2),
        decreases 2 * postorder@.len() + 2 - pd_pos(postorder@, exits@, f1) - pd_pos(
            postorder@,
            exits@,
            f2,
        ),
    {
        proof {
            lemma_pd_pos_bounds(postorder@, exits@, f1);
            lemma_pd_pos_bounds(postorder@, exits@, f2);
        }
        if vec_contains(exits, f1) && vec_contains(exits, f2) {
            return ExtNode::Fake;
        }
        let p1 = pd_position(postorder, exits, f1);
        let p2 = pd_position(postorder, exits, f2);
        if p1 < p2 {
            let i = seq_position(keys, f1);
            match vals[i] {
                ExtNode::Real(Some(x)) => {
                    if x == f1 {
                        return ExtNode::Fake;
                    }
                    proof {
                        assert(keys@.contains(x) && pd_pos(postorder@, exits@, x) > pd_pos(
                            postorder@,
                            exits@,
                            f1,
                        ));
                    }
                    f1 = x;
                },
                _ => {
                    return ExtNode::Fake;
                },
            }
        } else {
            let i = seq_position(keys, f2);
            match vals[i] {
                ExtNode::Real(Some(x)) => {
                    if x == f2 {
                        return ExtNode::Fake;
                    }
                    proof {
                        assert(keys@.contains(x) && pd_pos(postorder@, exits@, x) > pd_pos(
                            postorder@,
                            exits@,
                            f2,
                        ));
                    }
                    f2 = x;
                },
                _ => {
                    return ExtNode::Fake;
                },
            }
        }
    }
    ExtNode::Real(Some(f1))
}

/// What a finished successor fold yields for a numbered non-exit
/// node: never the unassigned marker, and any concrete slot points
/// strictly above the node.
proof fn lemma_pd_fold_result(
    g: &DirectedGraph,
    keys: Seq<usize>,
    vals: Seq<ExtNode>,
    postord: Seq<usize>,
    exits: Seq<usize>,
    node: usize,
    succs: Seq<usize>,
    acc: ExtNode,
)
    requires
        g.wf(),
        keys == g.node_seq(),
        pd_inv(keys, vals, postord, exits),
        succs == g.succ_of(node),
        postord.contains(node),
        !exits.contains(node),
        match acc {
            ExtNode::Real(Some(v)) => keys.contains(v) && (forall|q: int|
                0 <= q < succs.len() ==> pd_val(keys, vals, #[trigger] succs[q]) != ExtNode::Fake)
                && (forall|q: int|
                0 <= q < succs.len() && pd_val(keys, vals, #[trigger] succs[q]) is Real && pd_val(
                    keys,
                    vals,
                    succs[q],
                )->Real_0 is Some ==> pd_pos(postord, exits, v) >= pd_pos(
                    postord,
                    exits,
                    succs[q],
                )),
            ExtNode::Real(None) => forall|q: int|
                0 <= q < succs.len() ==> pd_val(keys, vals, #[trigger] succs[q]) == ExtNode::Real(
                    None::<usize>,
                ),
            ExtNode::Fake => true,
        },
        exists|s: usize|
            #[trigger] g.has_edge(node, s) && postord.contains(s) && postord.index_of(s)
                > postord.index_of(node),
        forall|s2: usize|
            postord.contains(s2) && postord.index_of(s2) > postord.index_of(node)
                ==> pd_assigned(keys, vals, s2),
    ensures
        acc != ExtNode::Real(None::<usize>),
        match acc {
            ExtNode::Real(Some(v)) => pd_pos(postord, exits, v) > pd_pos(postord, exits, node),
            _ => true,
        },
{
    let s = choose|s: usize|
        #[trigger] g.has_edge(node, s) && postord.contains(s) && postord.index_of(s)
            > postord.index_of(node);
    assert(pd_assigned(keys, vals, s));
    assert(g.succ_of(node).contains(s));
    let q = choose|q: int| 0 <= q < succs.len() && succs[q] == s;
    assert(pd_val(keys, vals, succs[q]) != ExtNode::Real(None::<usize>));
    assert(pd_pos(postord, exits, s) > pd_pos(postord, exits, node)) by {
        lemma_pd_pos_bounds(postord, exits, s);
        if !exits.contains(s) {
            assert(pd_pos(postord, exits, s) == postord.index_of(s));
        }
        assert(pd_pos(postord, exits, node) == postord.index_of(node));
    }
    match acc {
        ExtNode::Real(Some(v)) => {
            assert(pd_val(keys, vals, succs[q]) != ExtNode::Fake);
            assert(pd_val(keys, vals, s) is Real && pd_val(keys, vals, s)->Real_0 is Some);
            assert(pd_pos(postord, exits, v) >= pd_pos(postord, exits, succs[q]));
        },
        _ => {},
    }
}

/// One full sweep of the iterative post-dominator computation: every
/// numbered node is re-examined in processing order against the
/// current table.  Returns whether any slot changed.  After a sweep,
/// every numbered node holds a concrete or ambiguous slot, because
/// each non-exit numbered node has a successor finished after it.
#[verifier::rlimit(100)]
fn postdominator_pass(
    graph: &DirectedGraph,
    rpo: &Vec<usize>,
    postord: &Vec<usize>,
    exits: &Vec<usize>,
    keys: &Vec<usize>,
    vals: &mut Vec<ExtNode>,
) -> (changed: bool)
    requires
        graph.wf(),
        keys@ == graph.node_seq(),
        exits@ == graph.exit_nodes_spec(),
        old(vals)@.len() == keys@.len(),
        pd_inv(keys@, old(vals)@, postord@, exits@),
        rpo@.len() == postord@.len(),
        forall|i: int| 0 <= i < rpo@.len() ==> (#[trigger] rpo@[i]) == postord@[postord@.len() - 1
            - i],
        forall|i: int| 0 <= i < rpo@.len() ==> graph.has_node(#[trigger] rpo@[i]),
        forall|q: int|
            0 <= q < exits@.len() && keys@.contains(#[trigger] exits@[q]) ==> old(vals)@[
            keys@.index_of(exits@[q])] == ExtNode::Real(Some(exits@[q])),
        exits@.len() == 0 ==> forall|m: int|
            0 <= m < old(vals)@.len() ==> (#[trigger] old(vals)@[m]) == ExtNode::Real(
                None::<usize>,
            ),
        forall|x: usize|
            #[trigger] postord@.contains(x) && !exits@.contains(x) ==> exists|s: usize|
                #[trigger] graph.has_edge(x, s) && postord@.contains(s) && postord@.index_of(s)
                    > postord@.index_of(x),
        forall|x: usize| pd_assigned(keys@, old(vals)@, x) ==> postord@.contains(x),
    ensures
        final(vals)@.len() == keys@.len(),
        pd_inv(keys@, final(vals)@, postord@, exits@),
        forall|q: int|
            0 <= q < exits@.len() && keys@.contains(#[trigger] exits@[q]) ==> final(vals)@[
            keys@.index_of(exits@[q])] == ExtNode::Real(Some(exits@[q])),
        exits@.len() == 0 ==> forall|m: int|
            0 <= m < final(vals)@.len() ==> (#[trigger] final(vals)@[m]) == ExtNode::Real(
                None::<usize>,
            ),
        forall|x: usize| pd_assigned(keys@, final(vals)@, x) ==> postord@.contains(x),
        forall|j: int| 0 <= j < rpo@.len() ==> pd_assigned(keys@, final(vals)@, #[trigger] rpo@[j]),
{
    let mut changed = false;
    let mut idx: usize = 0;
    while idx < rpo.len()
        invariant
            graph.wf(),
            idx <= rpo@.len(),
            keys@ == graph.node_seq(),
            exits@ == graph.exit_nodes_spec(),
            vals@.len() == keys@.len(),
            pd_inv(keys@, vals@, postord@, exits@),
            rpo@.len() == postord@.len(),
            forall|i: int| 0 <= i < rpo@.len() ==> (#[trigger] rpo@[i]) == postord@[postord@.len()
                - 1 - i],
            forall|i: int| 0 <= i < rpo@.len() ==> graph.has_node(#[trigger] rpo@[i]),
            forall|q: int|
                0 <= q < exits@.len() && keys@.contains(#[trigger] exits@[q]) ==> vals@[
                keys@.index_of(exits@[q])] == ExtNode::Real(Some(exits@[q])),
            exits@.len() == 0 ==> forall|m: int|
                0 <= m < vals@.len() ==> (#[trigger] vals@[m]) == ExtNode::Real(None::<usize>),
            forall|x: usize|
                #[trigger] postord@.contains(x) && !exits@.contains(x) ==> exists|s: usize|
                    #[trigger] graph.has_edge(x, s) && postord@.contains(s) && postord@.index_of(
                        s,
                    ) > postord@.index_of(x),
            forall|x: usize| pd_assigned(keys@, vals@, x) ==> postord@.contains(x),
            forall|j: int| 0 <= j < idx ==> pd_assigned(keys@, vals@, #[trigger] rpo@[j]),
        decreases rpo@.len() - idx,
    {
        let node = rpo[idx];
        proof {
            assert(graph.has_node(node)) by {
                assert(rpo@[idx as int] == node);
            }
            assert(postord@.contains(node)) by {
                assert(rpo@[idx as int] == node);
                assert(postord@[postord@.len() - 1 - idx as int] == node);
            }
            lemma_index_of_unique(postord@, node, postord@.len() - 1 - idx as int);
        }
        if !vec_contains(&exits, node) {
            // a numbered non-exit node has a successor finished after
            // it; that successor was handled earlier in this order
            proof {
                let s = choose|s: usize|
                    #[trigger] graph.has_edge(node, s) && postord@.contains(s)
                        && postord@.index_of(s) > postord@.index_of(node);
                let js = postord@.len() - 1 - postord@.index_of(s);
                assert(postord@[postord@.index_of(s)] == s);
                assert(rpo@[js] == s);
                assert(0 <= js < idx);
                assert(pd_assigned(keys@, vals@, s)) by {
                    assert(pd_assigned(keys@, vals@, rpo@[js]));
                }
                assert(pd_pos(postord@, exits@, s) > pd_pos(postord@, exits@, node)) by {
                    lemma_pd_pos_bounds(postord@, exits@, s);
                    if !exits@.contains(s) {
                        assert(pd_pos(postord@, exits@, s) == postord@.index_of(s));
                    }
                }
            }
            let succs = graph.successors(node);
            if succs.len() > 0 {
                let mut acc: ExtNode = ExtNode::Real(None);
                let mut j: usize = 0;
                while j < succs.len()
                    invariant
                        graph.wf(),
                        j <= succs@.len(),
                        succs@ == graph.succ_of(node),
                        graph.has_node(node),
                        keys@ == graph.node_seq(),
                        exits@ == graph.exit_nodes_spec(),
                        vals@.len() == keys@.len(),
                        pd_inv(keys@, vals@, postord@, exits@),
                        match acc {
                            ExtNode::Real(Some(v)) => keys@.contains(v) && (forall|q: int|
                                0 <= q < j ==> pd_val(keys@, vals@, #[trigger] succs@[q])
                                    != ExtNode::Fake) && (forall|q: int|
                                0 <= q < j && pd_val(keys@, vals@, #[trigger] succs@[q])
                                    is Real && pd_val(keys@, vals@, succs@[q])->Real_0 is Some
                                    ==> pd_pos(postord@, exits@, v) >= pd_pos(
                                    postord@,
                                    exits@,
                                    succs@[q],
                                )),
                            ExtNode::Real(None) => forall|q: int|
                                0 <= q < j ==> pd_val(keys@, vals@, #[trigger] succs@[q])
                                    == ExtNode::Real(None::<usize>),
                            ExtNode::Fake => true,
                        },
                        exits@.len() == 0 ==> forall|m: int|
                            0 <= m < vals@.len() ==> (#[trigger] vals@[m]) == ExtNode::Real(
                                None::<usize>,
                            ),
                        exits@.len() == 0 ==> acc == ExtNode::Real(None::<usize>),
                    decreases succs@.len() - j,
                {
                    let sn = succs[j];
                    proof {
                        assert(graph.succ_of(node).contains(sn)) by {
                            assert(graph.succ_of(node)[j as int] == sn);
                        }
                        graph.lemma_succ_closed(node, sn);
                    }
                    let si = seq_position(&keys, sn);
                    let sval = vals[si];
                    proof {
                        assert(pd_val(keys@, vals@, sn) == sval);
                    }
                    match sval {
                        ExtNode::Real(Some(_)) => {
                            acc = match acc {
                                ExtNode::Real(Some(cur)) => pd_intersect(
                                    &keys,
                                    &vals,
                                    &postord,
                                    &exits,
                                    cur,
                                    sn,
                                ),
                                ExtNode::Real(None) => ExtNode::Real(Some(sn)),
                                ExtNode::Fake => ExtNode::Fake,
                            };
                            proof {
                                match acc {
                                    ExtNode::Real(Some(v)) => {
                                        assert forall|q: int|
                                            0 <= q < j + 1 implies pd_val(
                                            keys@,
                                            vals@,
                                            #[trigger] succs@[q],
                                        ) != ExtNode::Fake by {
                                            if q == j as int {
                                                assert(succs@[q] == sn);
                                            }
                                        }
                                        assert forall|q: int|
                                            0 <= q < j + 1 && pd_val(
                                                keys@,
                                                vals@,
                                                #[trigger] succs@[q],
                                            ) is Real && pd_val(keys@, vals@, succs@[q])->Real_0
                                                is Some implies pd_pos(postord@, exits@, v)
                                            >= pd_pos(postord@, exits@, succs@[q]) by {
                                            if q == j as int {
                                                assert(succs@[q] == sn);
                                                lemma_pd_step_pos(
                                                    keys@,
                                                    vals@,
                                                    postord@,
                                                    exits@,
                                                    sn,
                                                );
                                            }
                                        }
                                    },
                                    _ => {},
                                }
                            }
                        },
                        ExtNode::Real(None) => {
                            proof {
                                match acc {
                                    ExtNode::Real(None) => {
                                        assert forall|q: int|
                                            0 <= q < j + 1 implies pd_val(
                                            keys@,
                                            vals@,
                                            #[trigger] succs@[q],
                                        ) == ExtNode::Real(None::<usize>) by {
                                            if q == j as int {
                                                assert(succs@[q] == sn);
                                            }
                                        }
                                    },
                                    _ => {},
                                }
                            }
                        },
                        ExtNode::Fake => {
                            acc = ExtNode::Fake;
                        },
                    }
                    j = j + 1;
                }
                let ki = seq_position(&keys, node);
                let curval = vals[ki];
                proof {
                    assert forall|s2: usize|
                        postord@.contains(s2) && postord@.index_of(s2) > postord@.index_of(
                            node,
                        ) implies pd_assigned(keys@, vals@, s2) by {
                        let js = postord@.len() - 1 - postord@.index_of(s2);
                        assert(postord@[postord@.index_of(s2)] == s2);
                        assert(rpo@[js] == s2);
                        assert(0 <= js < idx);
                        assert(pd_assigned(keys@, vals@, rpo@[js]));
                    }
                    lemma_pd_fold_result(
                        graph,
                        keys@,
                        vals@,
                        postord@,
                        exits@,
                        node,
                        succs@,
                        acc,
                    );
                }
                if acc != curval {
                    proof {
                        assert(exits@.len() > 0) by {
                            if exits@.len() == 0 {
                                assert(acc == ExtNode::Real(None::<usize>));
                            }
                        }
                    }
                    match acc {
                        ExtNode::Real(Some(x)) => {
                            let px = pd_position(&postord, &exits, x);
                            let pn = pd_position(&postord, &exits, node);
                            if px > pn {
                                let ghost pre_vals = vals@;
                                vals[ki] = acc;
                                changed = true;
                                proof {
                                    assert(vals@ =~= pre_vals.update(ki as int, acc));
                                    lemma_pd_store(
                                        keys@,
                                        pre_vals,
                                        vals@,
                                        postord@,
                                        exits@,
                                        node,
                                        ki as int,
                                        acc,
                                    );
                                }
                            } else {
                                proof {
                                    assert(false);
                                }
                            }
                        },
                        ExtNode::Real(None) => {
                            proof {
                                assert(false);
                            }
                        },
                        ExtNode::Fake => {
                            let ghost pre_vals = vals@;
                            vals[ki] = acc;
                            changed = true;
                            proof {
                                assert(vals@ =~= pre_vals.update(ki as int, acc));
                                lemma_pd_store(
                                    keys@,
                                    pre_vals,
                                    vals@,
                                    postord@,
                                    exits@,
                                    node,
                                    ki as int,
                                    acc,
                                );
                            }
                        },
                    }
                }
                proof {
                    assert(pd_assigned(keys@, vals@, node)) by {
                        assert(keys@[ki as int] == node);
                        lemma_index_of_unique(keys@, node, ki as int);
                        assert(vals@[ki as int] != ExtNode::Real(None::<usize>));
                    }
                    assert forall|j2: int| 0 <= j2 < idx + 1 implies pd_assigned(
                        keys@,
                        vals@,
                        #[trigger] rpo@[j2],
                    ) by {}
                }
            } else {
                proof {
                    // a node without successors is an exit, which this
                    // branch excludes
                    broadcast use vstd::seq_lib::group_filter_ensures;

                    assert(graph.node_seq().contains(node));
                    assert(exits@.contains(node)) by {
                        let w = choose|w: int|
                            0 <= w < graph.node_seq().len() && graph.node_seq()[w] == node;
                        graph.node_seq().lemma_filter_contains(
                            |n2: usize| graph.succ_of(n2).len() == 0,
                            w,
                        );
                    }
                    assert(false);
                }
            }
        } else {
            proof {
                assert(exits@.contains(node));
                let qe = choose|qe: int| 0 <= qe < exits@.len() && exits@[qe] == node;
                assert(keys@.contains(exits@[qe])) by {
                    assert(graph.has_node(node));
                }
                assert(pd_assigned(keys@, vals@, node)) by {
                    assert(vals@[keys@.index_of(exits@[qe])] == ExtNode::Real(Some(exits@[qe])));
                }
                assert forall|j2: int| 0 <= j2 < idx + 1 implies pd_assigned(
                    keys@,
                    vals@,
                    #[trigger] rpo@[j2],
                ) by {}
            }
        }
        idx = idx + 1;
    }
    changed
}

/// A concrete slot of an assigned node sits at or above the node's
/// own rank bound.
proof fn lemma_pd_step_pos(
    keys: Seq<usize>,
    vals: Seq<ExtNode>,
    postord: Seq<usize>,
    exits: Seq<usize>,
    s: usize,
)
    requires
        pd_inv(keys, vals, postord, exits),
        keys.contains(s),
    ensures
        match pd_val(keys, vals, s) {
            ExtNode::Real(Some(p)) => pd_pos(postord, exits, p) >= pd_pos(postord, exits, s),
            _ => true,
        },
{
    let i = keys.index_of(s);
    assert(keys[i] == s);
    match vals[i] {
        ExtNode::Real(Some(p)) => {
            if p == s {
                assert(exits.contains(s));
            }
        },
        _ => {},
    }
}

/// Writing a slot that points strictly above its node, or the
/// ambiguous sentinel, preserves the table invariant and every other
/// slot.
proof fn lemma_pd_store(
    keys: Seq<usize>,
    pre_vals: Seq<ExtNode>,
    vals: Seq<ExtNode>,
    postord: Seq<usize>,
    exits: Seq<usize>,
    node: usize,
    ki: int,
    acc: ExtNode,
)
    requires
        pd_inv(keys, pre_vals, postord, exits),
        0 <= ki < keys.len(),
        keys[ki] == node,
        !exits.contains(node),
        vals == pre_vals.update(ki, acc),
        match acc {
            ExtNode::Real(Some(x)) => keys.contains(x) && pd_pos(postord, exits, x) > pd_pos(
                postord,
                exits,
                node,
            ),
            ExtNode::Real(None) => false,
            ExtNode::Fake => true,
        },
    ensures
        pd_inv(keys, vals, postord, exits),
        forall|q: int|
            0 <= q < exits.len() && keys.contains(#[trigger] exits[q]) ==> vals[keys.index_of(
                exits[q],
            )] == pre_vals[keys.index_of(exits[q])],
        forall|x: usize| pd_assigned(keys, pre_vals, x) ==> pd_assigned(keys, vals, x),
        forall|x: usize| pd_assigned(keys, vals, x) ==> pd_assigned(keys, pre_vals, x) || x == node,
        vals.len() == pre_vals.len(),
{
    assert forall|m: int| 0 <= m < keys.len() implies match #[trigger] vals[m] {
        ExtNode::Real(Some(p)) => {
            if p == keys[m] {
                exits.contains(p)
            } else {
                keys.contains(p) && pd_pos(postord, exits, p) > pd_pos(postord, exits, keys[m])
            }
        },
        ExtNode::Real(None) => true,
        ExtNode::Fake => true,
    } by {
        if m != ki {
            assert(vals[m] == pre_vals[m]);
        } else {
            assert(keys[m] == node);
            match acc {
                ExtNode::Real(Some(x)) => {
                    assert(x != node);
                },
                _ => {},
            }
        }
    }
    assert forall|q: int|
        0 <= q < exits.len() && keys.contains(#[trigger] exits[q]) implies vals[keys.index_of(
        exits[q])] == pre_vals[keys.index_of(exits[q])] by {
        let qi = keys.index_of(exits[q]);
        assert(keys[qi] == exits[q]);
        if qi == ki {
            assert(exits.contains(exits[q])) by {
                assert(exits[q] == exits[q]);
            }
        }
        assert(qi != ki);
        assert(vals[qi] == pre_vals[qi]);
    }
    assert forall|x: usize| pd_assigned(keys, pre_vals, x) implies pd_assigned(keys, vals, x) by {
        let xi = keys.index_of(x);
        if xi != ki {
            assert(vals[xi] == pre_vals[xi]);
        }
    }
    assert forall|x: usize|
        pd_assigned(keys, vals, x) implies pd_assigned(keys, pre_vals, x) || x == node by {
        let xi = keys.index_of(x);
        assert(keys[xi] == x);
        if xi != ki {
            assert(vals[xi] == pre_vals[xi]);
        }
    }
}

impl PostDominators {
    /// Computes immediate post-dominators by the same iterative scheme
    /// as [`Dominators::compute`], walking predecessor edges from the
    /// graph's exit nodes; nodes where several exits compete receive
    /// the ambiguous sentinel.  A node is left unassigned exactly when
    /// no exit can be reached from it.
    pub fn compute(graph: &DirectedGraph) -> (pd: PostDominators)
        requires
            graph.wf(),
        ensures
            pd.wf(),
            pd.exits_seq() == graph.exit_nodes_spec(),
            pd.exits_seq().no_duplicates(),
            forall|n: usize| #[trigger] pd.is_tracked(n) <==> graph.has_node(n),
            forall|x: usize|
                graph.exit_nodes_spec().contains(x) ==> #[trigger] pd.ipdom_of(x)
                    == ExtNode::Real(Some(x)),
            forall|n: usize|
                (#[trigger] pd.ipdom_of(n) != ExtNode::Real(None::<usize>)) <==> (graph.has_node(
                    n,
                ) && exit_reachable(*graph, n)),
            graph.exit_nodes_spec().len() == 0 ==> forall|n: usize| #[trigger]
                pd.ipdom_of(n) == ExtNode::Real(None::<usize>),
    {
        broadcast use vstd::seq_lib::group_filter_ensures;

        let ghost exit_pred = |n2: usize| graph.succ_of(n2).len() == 0;
        let exits = graph.exit_nodes();
        proof {
            lemma_filter_nodup(graph.node_seq(), exit_pred);
            assert forall|x: usize| #[trigger] exits@.contains(x) implies graph.has_node(x)
                && graph.succ_of(x).len() == 0 by {
                graph.node_seq().lemma_filter_contains_rev(exit_pred, x);
                assert(graph.node_seq().contains(x));
                let w = choose|w: int| 0 <= w < exits@.len() && exits@[w] == x;
                graph.node_seq().lemma_filter_pred(exit_pred, w);
            }
            assert forall|i: int| 0 <= i < exits@.len() implies graph.has_node(
                #[trigger] exits@[i]) by {
                assert(exits@.contains(exits@[i]));
            }
        }
        let postord = postorder_from_roots(graph, &exits);
        let keys = graph.nodes();
        let mut vals: Vec<ExtNode> = Vec::new();
        while vals.len() < keys.len()
            invariant
                vals@.len() <= keys@.len(),
                forall|i: int| 0 <= i < vals@.len() ==> vals@[i] == ExtNode::Real(None::<usize>),
            decreases keys@.len() - vals@.len(),
        {
            vals.push(ExtNode::Real(None));
        }
        proof {
            assert(pd_inv(keys@, vals@, postord@, exits@));
        }
        let mut e: usize = 0;
        while e < exits.len()
            invariant
                graph.wf(),
                e <= exits@.len(),
                keys@ == graph.node_seq(),
                exits@ == graph.exit_nodes_spec(),
                vals@.len() == keys@.len(),
                pd_inv(keys@, vals@, postord@, exits@),
                forall|q: int|
                    0 <= q < e && keys@.contains(#[trigger] exits@[q]) ==> vals@[keys@.index_of(
                        exits@[q],
                    )] == ExtNode::Real(Some(exits@[q])),
                exits@.len() == 0 ==> forall|m: int|
                    0 <= m < vals@.len() ==> (#[trigger] vals@[m]) == ExtNode::Real(None::<usize>),
                forall|x: usize| pd_assigned(keys@, vals@, x) ==> exits@.contains(x),
            decreases exits@.len() - e,
        {
            let x = exits[e];
            proof {
                assert(exits@.contains(x)) by {
                    assert(exits@[e as int] == x);
                }
                assert(graph.node_seq().contains(x));
            }
            let i = seq_position(&keys, x);
            let ghost pre_vals = vals@;
            vals[i] = ExtNode::Real(Some(x));
            proof {
                assert(vals@ =~= pre_vals.update(i as int, ExtNode::Real(Some(x))));
                assert(pd_inv(keys@, vals@, postord@, exits@)) by {
                    assert forall|m: int| 0 <= m < keys@.len() implies match #[trigger] vals@[m] {
                        ExtNode::Real(Some(p)) => {
                            if p == keys@[m] {
                                exits@.contains(p)
                            } else {
                                keys@.contains(p) && pd_pos(postord@, exits@, p) > pd_pos(
                                    postord@,
                                    exits@,
                                    keys@[m],
                                )
                            }
                        },
                        ExtNode::Real(None) => true,
                        ExtNode::Fake => true,
                    } by {
                        if m != i as int {
                            assert(vals@[m] == pre_vals[m]);
                        } else {
                            assert(keys@[m] == x);
                        }
                    }
                }
                assert forall|q: int|
                    0 <= q < e + 1 && keys@.contains(#[trigger] exits@[q]) implies vals@[
                keys@.index_of(exits@[q])] == ExtNode::Real(Some(exits@[q])) by {
                    let qi = keys@.index_of(exits@[q]);
                    assert(keys@[qi] == exits@[q]);
                    if q == e as int {
                        assert(qi == i as int);
                    } else {
                        if qi == i as int {
                            assert(exits@[q] == x);
                            assert(exits@[e as int] == x);
                        } else {
                            assert(vals@[qi] == pre_vals[qi]);
                        }
                    }
                }
                assert forall|y: usize|
                    pd_assigned(keys@, vals@, y) implies exits@.contains(y) by {
                    let yi = keys@.index_of(y);
                    assert(keys@[yi] == y);
                    if yi != i as int {
                        assert(vals@[yi] == pre_vals[yi]);
                    } else {
                        assert(y == x);
                    }
                }
            }
            e = e + 1;
        }
        let n = keys.len();
        let rpo = reverse_vec(&postord);
        proof {
            assert forall|i: int| 0 <= i < rpo@.len() implies graph.has_node(
                #[trigger] rpo@[i]) by {
                assert(rpo@[i] == postord@[postord@.len() - 1 - i]);
                assert(postord@.contains(postord@[postord@.len() - 1 - i]));
            }
            // seeded exits lie in the traversal, so assignment stays
            // within it
            assert forall|x: usize|
                pd_assigned(keys@, vals@, x) implies postord@.contains(x) by {
                assert(exits@.contains(x));
                lemma_reaches_root_self(*graph, exits@, x);
            }
            // the traversal's finish order yields the later-finished
            // successor of every numbered non-exit node
            assert forall|x: usize|
                #[trigger] postord@.contains(x) && !exits@.contains(x) implies exists|s: usize|
                #[trigger] graph.has_edge(x, s) && postord@.contains(s) && postord@.index_of(s)
                    > postord@.index_of(x) by {
                assert(postord@.contains(x) && !exits@.contains(x));
            }
        }
        let mut budget: u128 = (n as u128) * 2 + 4;
        let mut changed = postdominator_pass(graph, &rpo, &postord, &exits, &keys, &mut vals);
        while changed && budget > 0
            invariant
                graph.wf(),
                keys@ == graph.node_seq(),
                exits@ == graph.exit_nodes_spec(),
                vals@.len() == keys@.len(),
                pd_inv(keys@, vals@, postord@, exits@),
                rpo@.len() == postord@.len(),
                forall|i: int| 0 <= i < rpo@.len() ==> (#[trigger] rpo@[i]) == postord@[
                    postord@.len() - 1 - i],
                forall|i: int| 0 <= i < rpo@.len() ==> graph.has_node(#[trigger] rpo@[i]),
                forall|q: int|
                    0 <= q < exits@.len() && keys@.contains(#[trigger] exits@[q]) ==> vals@[
                    keys@.index_of(exits@[q])] == ExtNode::Real(Some(exits@[q])),
                exits@.len() == 0 ==> forall|m: int|
                    0 <= m < vals@.len() ==> (#[trigger] vals@[m]) == ExtNode::Real(None::<usize>),
                forall|x: usize|
                    #[trigger] postord@.contains(x) && !exits@.contains(x) ==> exists|s: usize|
                        #[trigger] graph.has_edge(x, s) && postord@.contains(s)
                            && postord@.index_of(s) > postord@.index_of(x),
                forall|x: usize| pd_assigned(keys@, vals@, x) ==> postord@.contains(x),
                forall|j: int|
                    0 <= j < rpo@.len() ==> pd_assigned(keys@, vals@, #[trigger] rpo@[j]),
            decreases budget,
        {
            budget = budget - 1;
            changed = postdominator_pass(graph, &rpo, &postord, &exits, &keys, &mut vals);
        }
        let pd = PostDominators {
            ipdom_keys: keys,
            ipdom_vals: vals,
            postorder: postord,
            exit_nodes: exits,
        };
        proof {
            assert forall|n2: usize|
                (#[trigger] pd.ipdom_of(n2) != ExtNode::Real(None::<usize>)) <==> (
            graph.has_node(n2) && exit_reachable(*graph, n2)) by {
                if pd.ipdom_of(n2) != ExtNode::Real(None::<usize>) {
                    // an assigned node lies in the traversal, which
                    // only holds nodes with a path to an exit
                    assert(keys@.contains(n2));
                    assert(pd_assigned(keys@, vals@, n2));
                    assert(postord@.contains(n2));
                    let path = choose|path: Seq<usize>|
                        linked_path(*graph, path) && path[0] == n2 && exits@.contains(path.last());
                    assert(graph.succ_of(path.last()).len() == 0);
                    assert(exit_reachable(*graph, n2));
                }
                if graph.has_node(n2) && exit_reachable(*graph, n2) {
                    // the path's end is an exit node, so the traversal
                    // numbered this node and the sweep assigned it
                    let path = choose|path: Seq<usize>|
                        linked_path(*graph, path) && path[0] == n2 && graph.succ_of(
                            path.last(),
                        ).len() == 0;
                    assert(graph.has_node(path.last())) by {
                        if path.len() == 1 {
                            assert(path.last() == n2);
                        } else {
                            assert(graph.has_edge(path[path.len() - 2], path[path.len() - 1]));
                            graph.lemma_succ_closed(path[path.len() - 2], path.last());
                        }
                    }
                    assert(exits@.contains(path.last())) by {
                        let w = choose|w: int|
                            0 <= w < graph.node_seq().len() && graph.node_seq()[w] == path.last();
                        graph.node_seq().lemma_filter_contains(exit_pred, w);
                    }
                    assert(reaches_root(*graph, exits@, n2));
                    assert(postord@.contains(n2));
                    let jn = postord@.index_of(n2);
                    assert(postord@[jn] == n2);
                    assert(rpo@[postord@.len() - 1 - jn] == n2);
                    assert(pd_assigned(keys@, vals@, rpo@[postord@.len() - 1 - jn]));
                    assert(keys@.index_of(n2) == keys@.index_of(n2));
                }
            }
        }
        pd
    }
}

} // verus!
