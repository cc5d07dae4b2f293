//! Whole-program call-graph reachability over resolved instances.
//!
//! The seed set holds every function item that needs no further
//! substitution; the worklist then closes it under resolved call
//! targets.  The result is exactly the set of instances reachable from
//! the seeds, whatever order the worklist is drained in.

use crate::ir::{ItemKind, Operand, Program, Terminator, TerminatorKind, TyKind};
use vstd::prelude::*;

verus! {

/// The call target of a terminator: the instance index its callee
/// operand resolves to, when the callee is a constant of
/// function-definition type that the front end could resolve.
pub open spec fn term_callee(t: Terminator) -> Option<usize> {
    match t.kind {
        TerminatorKind::Call { func, .. } => match func {
            Operand::Constant(c) => match c.ty.kind {
                TyKind::FnDef(f) => f.resolved,
                _ => None,
            },
            _ => None,
        },
        _ => None,
    }
}

/// `id` is a seed: the resolved instance of a function item that
/// requires no monomorphization.
pub open spec fn is_seed(p: Program, id: usize) -> bool {
    id < p.instances@.len() && exists|i: int|
        0 <= i < p.items@.len() && (#[trigger] p.items@[i]).kind == ItemKind::Fn
            && !p.items@[i].requires_monomorphization && p.items@[i].instance == Some(id)
}

/// Instance `a` calls instance `b`: some block of `a`'s body ends in a
/// call whose callee resolves to `b`.
pub open spec fn instance_calls(p: Program, a: usize, b: usize) -> bool {
    a < p.instances@.len() && b < p.instances@.len() && match p.instances@[a as int].body {
        Some(body) => exists|k: int|
            0 <= k < body.blocks@.len() && term_callee(#[trigger] body.blocks@[k].terminator)
                == Some(b),
        None => false,
    }
}

/// A call path: it starts at a seed and each step follows a resolved
/// call.
pub open spec fn call_path(p: Program, path: Seq<usize>) -> bool {
    path.len() > 0 && is_seed(p, path[0]) && (forall|i: int|
        0 <= i < path.len() - 1 ==> instance_calls(p, #[trigger] path[i], path[i + 1]))
}

/// `id` is reachable from the seed set along resolved calls.
pub open spec fn reachable_instance(p: Program, id: usize) -> bool {
    exists|path: Seq<usize>| call_path(p, path) && path.last() == id
}

proof fn lemma_seed_reachable(p: Program, id: usize)
    requires
        is_seed(p, id),
    ensures
        reachable_instance(p, id),
{
    let path = seq![id];
    assert(call_path(p, path) && path.last() == id);
}

proof fn lemma_reachable_step(p: Program, a: usize, b: usize)
    requires
        reachable_instance(p, a),
        instance_calls(p, a, b),
    ensures
        reachable_instance(p, b),
{
    let path = choose|path: Seq<usize>| call_path(p, path) && path.last() == a;
    let path2 = path.push(b);
    assert(call_path(p, path2)) by {
        assert(path2[0] == path[0]);
        assert forall|i: int|
            0 <= i < path2.len() - 1 implies instance_calls(p, #[trigger] path2[i], path2[i + 1]) by {
            if i < path.len() - 1 {
                assert(path2[i] == path[i]);
                assert(path2[i + 1] == path[i + 1]);
            } else {
                assert(path2[i] == path.last());
                assert(path2[i + 1] == b);
            }
        }
    }
    assert(path2.last() == b);
}

/// Every element of a call path lands in a set that holds the seeds
/// and is closed under resolved calls.
proof fn lemma_path_closed(p: Program, visited: Seq<usize>, path: Seq<usize>)
    requires
        call_path(p, path),
        forall|id: usize| is_seed(p, id) ==> visited.contains(id),
        forall|a: usize, b: usize|
            visited.contains(a) && #[trigger] instance_calls(p, a, b) ==> visited.contains(b),
    ensures
        visited.contains(path.last()),
    decreases path.len(),
{
    if path.len() == 1 {
        assert(path.last() == path[0]);
    } else {
        let front = path.drop_last();
        assert(call_path(p, front)) by {
            assert(front[0] == path[0]);
            assert forall|i: int|
                0 <= i < front.len() - 1 implies instance_calls(
                p,
                #[trigger] front[i],
                front[i + 1],
            ) by {
                assert(front[i] == path[i]);
                assert(front[i + 1] == path[i + 1]);
            }
        }
        lemma_path_closed(p, visited, front);
        assert(instance_calls(p, path[path.len() - 2], path[path.len() - 1]));
        assert(front.last() == path[path.len() - 2]);
    }
}

/// A duplicate-free sequence of indices below `n` has at most `n`
/// elements.
proof fn lemma_ids_len_le(s: Seq<usize>, n: int)
    requires
        s.no_duplicates(),
        0 <= n,
        forall|x: usize| s.contains(x) ==> (x as int) < n,
    ensures
        s.len() <= n,
{
    let uni = Seq::<usize>::new(n as nat, |i: int| i as usize);
    assert forall|x: usize| s.contains(x) implies uni.contains(x) by {
        assert(uni[x as int] == x);
    }
    crate::graph::lemma_nodup_len_le(s, uni);
}

/// The exact call target of a block terminator.
fn block_callee(t: &Terminator) -> (r: Option<usize>)
    ensures
        r == term_callee(*t),
{
    match &t.kind {
        TerminatorKind::Call { func, .. } => {
            match func {
                Operand::Constant(c) => {
                    match &c.ty.kind {
                        TyKind::FnDef(f) => f.resolved,
                        _ => None,
                    }
                },
                _ => None,
            }
        },
        _ => None,
    }
}

/// Computes the set of instances reachable from the seed set: all
/// function items needing no substitution, closed under resolved call
/// targets.  Each reachable instance appears exactly once; the
/// result does not depend on the order the worklist is drained in.
pub fn compute_instances(program: &Program) -> (r: Vec<usize>)
    ensures
        r@.no_duplicates(),
        forall|id: usize| #[trigger] r@.contains(id) <==> reachable_instance(*program, id),
{
    let ghost p = *program;
    let mut visited: Vec<usize> = Vec::new();
    let mut worklist: Vec<usize> = Vec::new();
    let n_inst = program.instances.len();
    let mut i: usize = 0;
    while i < program.items.len()
        invariant
            p == *program,
            n_inst == p.instances@.len(),
            i <= p.items@.len(),
            visited@.no_duplicates(),
            worklist@ == visited@,
            forall|x: usize| #[trigger] visited@.contains(x) ==> (x as int) < n_inst,
            forall|x: usize| #[trigger] visited@.contains(x) ==> is_seed(p, x),
            forall|j: int|
                0 <= j < i && (#[trigger] p.items@[j]).kind == ItemKind::Fn
                    && !p.items@[j].requires_monomorphization && p.items@[j].instance is Some && (
                p.items@[j].instance->Some_0 as int) < n_inst ==> visited@.contains(
                    p.items@[j].instance->Some_0,
                ),
        decreases p.items@.len() - i,
    {
        let it = &program.items[i];
        if it.kind == ItemKind::Fn && !it.requires_monomorphization {
            match it.instance {
                Some(id) => {
                    if id < n_inst && !crate::graph::vec_contains(&visited, id) {
                        let ghost pre = visited@;
                        visited.push(id);
                        worklist.push(id);
                        proof {
                            assert(visited@.no_duplicates());
                            assert(is_seed(p, id)) by {
                                assert(p.items@[i as int].instance == Some(id));
                            }
                            assert forall|x: usize| #[trigger]
                                visited@.contains(x) implies (x as int) < n_inst && is_seed(
                                p,
                                x,
                            ) by {
                                crate::graph::lemma_push_contains(pre, id, x);
                            }
                            assert forall|j: int|
                                0 <= j < i + 1 && (#[trigger] p.items@[j]).kind == ItemKind::Fn
                                    && !p.items@[j].requires_monomorphization && p.items@[j].instance
                                    is Some && (p.items@[j].instance->Some_0 as int) < n_inst
                                implies visited@.contains(p.items@[j].instance->Some_0) by {
                                crate::graph::lemma_push_contains(
                                    pre,
                                    id,
                                    p.items@[j].instance->Some_0,
                                );
                            }
                        }
                    }
                },
                None => {},
            }
        }
        i = i + 1;
    }
    proof {
        assert forall|x: usize| #[trigger] visited@.contains(x) implies reachable_instance(
            p,
            x,
        ) by {
            lemma_seed_reachable(p, x);
        }
    }
    // drain the worklist, closing the visited set under calls
    while worklist.len() > 0
        invariant
            p == *program,
            n_inst == p.instances@.len(),
            visited@.no_duplicates(),
            worklist@.no_duplicates(),
            forall|x: usize| #[trigger] worklist@.contains(x) ==> visited@.contains(x),
            forall|x: usize| #[trigger] visited@.contains(x) ==> (x as int) < n_inst,
            forall|x: usize| #[trigger] visited@.contains(x) ==> reachable_instance(p, x),
            forall|id: usize| is_seed(p, id) ==> visited@.contains(id),
            forall|a: usize, b: usize|
                visited@.contains(a) && !worklist@.contains(a) && #[trigger] instance_calls(p, a, b)
                    ==> visited@.contains(b),
        decreases (n_inst - visited@.len()), worklist@.len(),
    {
        proof {
            lemma_ids_len_le(visited@, n_inst as int);
        }
        let ghost pre_work = worklist@;
        let curr = match worklist.pop() {
            Some(c) => c,
            None => {
                proof {
                    assert(false);
                }
                0
            },
        };
        proof {
            assert(visited@.contains(curr)) by {
                assert(pre_work.contains(curr)) by {
                    assert(pre_work[pre_work.len() - 1] == curr);
                }
            }
            assert(worklist@ == pre_work.drop_last());
            assert forall|x: usize| #[trigger] worklist@.contains(x) implies pre_work.contains(
                x,
            ) by {
                let ix = choose|ix: int| 0 <= ix < worklist@.len() && worklist@[ix] == x;
                assert(pre_work[ix] == x);
            }
            assert(!worklist@.contains(curr)) by {
                if worklist@.contains(curr) {
                    let ix = choose|ix: int|
                        0 <= ix < worklist@.len() && worklist@[ix] == curr;
                    assert(pre_work[ix] == curr);
                    assert(pre_work[pre_work.len() - 1] == curr);
                }
            }
            assert forall|a: usize, b: usize|
                visited@.contains(a) && a != curr && !worklist@.contains(a)
                    && #[trigger] instance_calls(p, a, b) implies visited@.contains(b) by {
                if pre_work.contains(a) {
                    let ix = choose|ix: int| 0 <= ix < pre_work.len() && pre_work[ix] == a;
                    if ix < pre_work.len() - 1 {
                        assert(worklist@[ix] == a);
                    }
                    assert(false);
                }
            }
        }
        match &program.instances[curr].body {
            Some(body) => {
                let ghost pre_visited_outer = visited@;
                let mut k: usize = 0;
                while k < body.blocks.len()
                    invariant
                        p == *program,
                        n_inst == p.instances@.len(),
                        (curr as int) < n_inst,
                        p.instances@[curr as int].body == Some(*body),
                        k <= body.blocks@.len(),
                        visited@.no_duplicates(),
                        worklist@.no_duplicates(),
                        visited@.contains(curr),
                        !worklist@.contains(curr),
                        pre_visited_outer.len() <= visited@.len(),
                        forall|x: usize| #[trigger] worklist@.contains(x) ==> visited@.contains(x),
                        forall|x: usize| #[trigger] visited@.contains(x) ==> (x as int) < n_inst,
                        forall|x: usize| #[trigger]
                            visited@.contains(x) ==> reachable_instance(p, x),
                        forall|id: usize| is_seed(p, id) ==> visited@.contains(id),
                        forall|a: usize, b: usize|
                            visited@.contains(a) && a != curr && !worklist@.contains(a)
                                && #[trigger] instance_calls(p, a, b) ==> visited@.contains(b),
                        forall|kk: int|
                            0 <= kk < k && term_callee(#[trigger] body.blocks@[kk].terminator)
                                is Some && (term_callee(body.blocks@[kk].terminator)->Some_0
                                as int) < n_inst ==> visited@.contains(
                                term_callee(body.blocks@[kk].terminator)->Some_0,
                            ),
                        visited@.len() > pre_visited_outer.len() || worklist@.len()
                            < pre_work.len(),
                    decreases body.blocks@.len() - k,
                {
                    match block_callee(&body.blocks[k].terminator) {
                        Some(b) => {
                            if b < n_inst && !crate::graph::vec_contains(&visited, b) {
                                let ghost pre = visited@;
                                let ghost pre_w = worklist@;
                                visited.push(b);
                                worklist.push(b);
                                proof {
                                    assert(instance_calls(p, curr, b)) by {
                                        assert(term_callee(body.blocks@[k as int].terminator)
                                            == Some(b));
                                    }
                                    lemma_reachable_step(p, curr, b);
                                    assert(visited@.contains(curr)) by {
                                        crate::graph::lemma_push_contains(pre, b, curr);
                                    }
                                    assert(worklist@.no_duplicates()) by {
                                        assert(worklist@ == pre_w.push(b));
                                        assert(!pre_w.contains(b));
                                    }
                                    assert(!worklist@.contains(curr)) by {
                                        crate::graph::lemma_push_contains(pre_w, b, curr);
                                    }
                                    assert(visited@.no_duplicates()) by {
                                        assert(visited@ == pre.push(b));
                                        assert(!pre.contains(b));
                                    }
                                    assert forall|x: usize| #[trigger]
                                        visited@.contains(x) implies (x as int) < n_inst
                                        && reachable_instance(p, x) by {
                                        crate::graph::lemma_push_contains(pre, b, x);
                                    }
                                    assert forall|x: usize| #[trigger]
                                        worklist@.contains(x) implies visited@.contains(x) by {
                                        crate::graph::lemma_push_contains(pre_w, b, x);
                                        crate::graph::lemma_push_contains(pre, b, x);
                                    }
                                    assert forall|id: usize|
                                        is_seed(p, id) implies visited@.contains(id) by {
                                        crate::graph::lemma_push_contains(pre, b, id);
                                    }
                                    assert forall|a: usize, b2: usize|
                                        visited@.contains(a) && a != curr && !worklist@.contains(a)
                                            && #[trigger] instance_calls(p, a, b2)
                                        implies visited@.contains(b2) by {
                                        crate::graph::lemma_push_contains(pre, b, a);
                                        crate::graph::lemma_push_contains(pre_w, b, a);
                                        crate::graph::lemma_push_contains(pre, b, b2);
                                    }
                                    assert forall|kk: int|
                                        0 <= kk < k + 1 && term_callee(
                                            #[trigger] body.blocks@[kk].terminator,
                                        ) is Some && (term_callee(
                                            body.blocks@[kk].terminator,
                                        )->Some_0 as int) < n_inst implies visited@.contains(
                                        term_callee(body.blocks@[kk].terminator)->Some_0,
                                    ) by {
                                        crate::graph::lemma_push_contains(
                                            pre,
                                            b,
                                            term_callee(body.blocks@[kk].terminator)->Some_0,
                                        );
                                    }
                                }
                            }
                        },
                        None => {},
                    }
                    k = k + 1;
                }
                proof {
                    assert forall|a: usize, b: usize|
                        visited@.contains(a) && !worklist@.contains(a) && #[trigger] instance_calls(
                            p,
                            a,
                            b,
                        ) implies visited@.contains(b) by {
                        if a == curr {
                            let kk = choose|kk: int|
                                0 <= kk < body.blocks@.len() && term_callee(
                                    #[trigger] body.blocks@[kk].terminator,
                                ) == Some(b);
                        }
                    }
                }
            },
            None => {
                proof {
                    assert forall|a: usize, b: usize|
                        visited@.contains(a) && !worklist@.contains(a) && #[trigger] instance_calls(
                            p,
                            a,
                            b,
                        ) implies visited@.contains(b) by {
                        if a == curr {
                            assert(!instance_calls(p, curr, b));
                        }
                    }
                }
            },
        }
        proof {
            lemma_ids_len_le(visited@, n_inst as int);
        }
    }
    proof {
        assert forall|id: usize| #[trigger] visited@.contains(id) <==> reachable_instance(
            p,
            id,
        ) by {
            if reachable_instance(p, id) {
                let path = choose|path: Seq<usize>| call_path(p, path) && path.last() == id;
                lemma_path_closed(p, visited@, path);
            }
        }
    }
    visited
}

} // verus!
