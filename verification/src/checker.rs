//! The duplicate-mutable-account detector.
//!
//! For every account context, each field is joined with the
//! mutability facts of the same struct name by field position; a
//! finding is emitted for every unordered pair of fields that are
//! both recorded mutable and both classified as accounts of the same
//! inner type.

use crate::anchor_info::{
    facts_list_view, facts_of, find_to_account_metas, local_anchor_accounts, AnchorAccountKind,
    AnchorAccounts, MetaMutability,
};
use crate::ir::Program;
use crate::text::str_eq;
use vstd::prelude::*;

verus! {

/// One reported pair: the enclosing context, the two field names, and
/// the shared inner account type.
#[derive(Clone, Debug)]
pub struct Finding {
    pub context: String,
    pub field_a: String,
    pub field_b: String,
    pub inner_type: String,
}

impl Finding {
    /// Abstract value of a finding.
    pub open spec fn view_finding(self) -> (Seq<char>, Seq<char>, Seq<char>, Seq<char>) {
        (self.context@, self.field_a@, self.field_b@, self.inner_type@)
    }
}

/// Abstract value of a finding list.
pub open spec fn findings_view(s: Seq<Finding>) -> Seq<(Seq<char>, Seq<char>, Seq<char>, Seq<char>)> {
    s.map_values(|f: Finding| f.view_finding())
}

/// The first fact recorded for the given struct name and field
/// index, if any.
pub open spec fn fact_for(
    facts: Seq<(Seq<char>, MetaMutability, usize)>,
    name: Seq<char>,
    idx: int,
) -> Option<MetaMutability>
    decreases facts.len(),
{
    if facts.len() == 0 {
        None
    } else if facts[0].0 == name && facts[0].2 == idx {
        Some(facts[0].1)
    } else {
        fact_for(facts.drop_first(), name, idx)
    }
}

/// An abstract account context: its name and classified fields.
pub type CtxView = (Seq<char>, Seq<(Seq<char>, (int, Seq<char>))>);

/// The finding for the field pair `(i, j)`, if any: both fields carry
/// a mutable fact, both classify as accounts, and the inner type
/// names agree.
pub open spec fn pair_finding(
    ctx: CtxView,
    facts: Seq<(Seq<char>, MetaMutability, usize)>,
    i: int,
    j: int,
) -> Option<(Seq<char>, Seq<char>, Seq<char>, Seq<char>)> {
    if 0 <= i < j < ctx.1.len() && fact_for(facts, ctx.0, i) == Some(MetaMutability::Mutable)
        && fact_for(facts, ctx.0, j) == Some(MetaMutability::Mutable) && ctx.1[i].1.0 == 0
        && ctx.1[j].1.0 == 0 && ctx.1[i].1.1 == ctx.1[j].1.1 {
        Some((ctx.0, ctx.1[i].0, ctx.1[j].0, ctx.1[i].1.1))
    } else {
        None
    }
}

/// The findings of field `i` paired with the fields before `j`.
pub open spec fn findings_with_first(
    ctx: CtxView,
    facts: Seq<(Seq<char>, MetaMutability, usize)>,
    i: int,
    j: int,
) -> Seq<(Seq<char>, Seq<char>, Seq<char>, Seq<char>)>
    decreases (if j >= i + 1 { j - i } else { 0 }),
{
    if j <= i + 1 {
        Seq::empty()
    } else {
        findings_with_first(ctx, facts, i, j - 1) + match pair_finding(ctx, facts, i, j - 1) {
            Some(f) => seq![f],
            None => Seq::empty(),
        }
    }
}

/// The findings of all pairs whose first field lies before `i`.
pub open spec fn findings_upto(
    ctx: CtxView,
    facts: Seq<(Seq<char>, MetaMutability, usize)>,
    i: int,
) -> Seq<(Seq<char>, Seq<char>, Seq<char>, Seq<char>)>
    decreases (if i >= 0 { i } else { 0 }),
{
    if i <= 0 {
        Seq::empty()
    } else {
        findings_upto(ctx, facts, i - 1) + findings_with_first(
            ctx,
            facts,
            i - 1,
            ctx.1.len() as int,
        )
    }
}

/// All findings of one context: every unordered pair checked, in
/// discovery order.
pub open spec fn context_findings(
    ctx: CtxView,
    facts: Seq<(Seq<char>, MetaMutability, usize)>,
) -> Seq<(Seq<char>, Seq<char>, Seq<char>, Seq<char>)> {
    findings_upto(ctx, facts, ctx.1.len() as int)
}

/// The findings of the first `k` contexts.
pub open spec fn findings_prefix(
    ctxs: Seq<CtxView>,
    facts: Seq<(Seq<char>, MetaMutability, usize)>,
    k: int,
) -> Seq<(Seq<char>, Seq<char>, Seq<char>, Seq<char>)>
    decreases (if k >= 0 { k } else { 0 }),
{
    if k <= 0 {
        Seq::empty()
    } else {
        findings_prefix(ctxs, facts, k - 1) + context_findings(ctxs[k - 1], facts)
    }
}

/// All findings over every context, in context order.
pub open spec fn all_findings(
    ctxs: Seq<CtxView>,
    facts: Seq<(Seq<char>, MetaMutability, usize)>,
) -> Seq<(Seq<char>, Seq<char>, Seq<char>, Seq<char>)> {
    findings_prefix(ctxs, facts, ctxs.len() as int)
}

/// The first fact recorded for the struct and field index, if any.
fn lookup_fact(
    facts: &Vec<(String, MetaMutability, usize)>,
    name: &String,
    idx: usize,
) -> (r: Option<MetaMutability>)
    ensures
        r == fact_for(facts_list_view(facts@), name@, idx as int),
{
    let ghost fv = facts_list_view(facts@);
    proof {
        assert(fv.subrange(0, fv.len() as int) =~= fv);
    }
    let mut i: usize = 0;
    while i < facts.len()
        invariant
            fv == facts_list_view(facts@),
            fv.len() == facts@.len(),
            i <= facts@.len(),
            fact_for(fv, name@, idx as int) == fact_for(
                fv.subrange(i as int, fv.len() as int),
                name@,
                idx as int,
            ),
        decreases facts@.len() - i,
    {
        let ghost tail = fv.subrange(i as int, fv.len() as int);
        proof {
            assert(tail[0] == fv[i as int]);
            assert(tail.drop_first() =~= fv.subrange(i as int + 1, fv.len() as int));
        }
        let f = &facts[i];
        if f.2 == idx && str_eq(f.0.as_str(), name.as_str()) {
            proof {
                assert(fv[i as int].0 == name@ && fv[i as int].2 == idx);
            }
            return Some(f.1);
        }
        proof {
            assert(!(fv[i as int].0 == name@ && fv[i as int].2 == idx as int));
        }
        i = i + 1;
    }
    proof {
        assert(fv.subrange(fv.len() as int, fv.len() as int) =~= Seq::<
            (Seq<char>, MetaMutability, usize),
        >::empty());
    }
    None
}

/// Joins each context's classified fields with the mutability facts
/// of the same struct name by field position, and reports every
/// unordered pair of same-typed mutable account fields.
pub fn find_duplicate_mutable_accounts(
    contexts: &Vec<AnchorAccounts>,
    facts: &Vec<(String, MetaMutability, usize)>,
) -> (r: Vec<Finding>)
    ensures
        findings_view(r@) == all_findings(
            crate::anchor_info::contexts_view(contexts@),
            facts_list_view(facts@),
        ),
{
    let ghost cv = crate::anchor_info::contexts_view(contexts@);
    let ghost fv = facts_list_view(facts@);
    let mut out: Vec<Finding> = Vec::new();
    let mut c: usize = 0;
    while c < contexts.len()
        invariant
            cv == crate::anchor_info::contexts_view(contexts@),
            fv == facts_list_view(facts@),
            cv.len() == contexts@.len(),
            c <= contexts@.len(),
            findings_view(out@) == findings_prefix(cv, fv, c as int),
        decreases contexts@.len() - c,
    {
        let ctx = &contexts[c];
        let ghost ctxv = cv[c as int];
        proof {
            assert(ctxv == ctx.view_accounts());
            assert(ctxv.1.len() == ctx.anchor_accounts@.len());
        }
        let n = ctx.anchor_accounts.len();
        let mut i: usize = 0;
        while i < n
            invariant
                cv == crate::anchor_info::contexts_view(contexts@),
                fv == facts_list_view(facts@),
                cv.len() == contexts@.len(),
                c < contexts@.len(),
                ctxv == cv[c as int],
                ctxv == contexts@[c as int].view_accounts(),
                *ctx == contexts@[c as int],
                n == contexts@[c as int].anchor_accounts@.len(),
                ctxv.1.len() == n,
                i <= n,
                findings_view(out@) == findings_prefix(cv, fv, c as int) + findings_upto(
                    ctxv,
                    fv,
                    i as int,
                ),
            decreases n - i,
        {
            let mut j: usize = i + 1;
            while j < n
                invariant
                    cv == crate::anchor_info::contexts_view(contexts@),
                    fv == facts_list_view(facts@),
                    cv.len() == contexts@.len(),
                    c < contexts@.len(),
                    ctxv == cv[c as int],
                    ctxv == contexts@[c as int].view_accounts(),
                    *ctx == contexts@[c as int],
                    n == contexts@[c as int].anchor_accounts@.len(),
                    ctxv.1.len() == n,
                    i < n,
                    i + 1 <= j <= n,
                    findings_view(out@) == findings_prefix(cv, fv, c as int) + findings_upto(
                        ctxv,
                        fv,
                        i as int,
                    ) + findings_with_first(ctxv, fv, i as int, j as int),
                decreases n - j,
            {
                let ghost pre = out@;
                let mut pushed = false;
                let mi = lookup_fact(facts, &ctx.name, i);
                let mj = lookup_fact(facts, &ctx.name, j);
                proof {
                    assert(ctx.name@ == ctxv.0);
                    assert(ctxv.1[i as int] == ctx.anchor_accounts@[i as int].view_account());
                    assert(ctxv.1[j as int] == ctx.anchor_accounts@[j as int].view_account());
                }
                if matches!(mi, Some(MetaMutability::Mutable)) && matches!(
                    mj,
                    Some(MetaMutability::Mutable),
                ) {
                    match (&ctx.anchor_accounts[i].kind, &ctx.anchor_accounts[j].kind) {
                        (AnchorAccountKind::Account(a), AnchorAccountKind::Account(b)) => {
                            if str_eq(a.as_str(), b.as_str()) {
                                let finding = Finding {
                                    context: ctx.name.clone(),
                                    field_a: ctx.anchor_accounts[i].name.clone(),
                                    field_b: ctx.anchor_accounts[j].name.clone(),
                                    inner_type: a.clone(),
                                };
                                let ghost fvw = finding.view_finding();
                                out.push(finding);
                                pushed = true;
                                proof {
                                    assert(pair_finding(ctxv, fv, i as int, j as int) == Some(
                                        fvw,
                                    ));
                                    assert(findings_view(out@) =~= findings_view(pre).push(fvw));
                                    assert(findings_with_first(ctxv, fv, i as int, j as int + 1)
                                        =~= findings_with_first(ctxv, fv, i as int, j as int).push(
                                        fvw,
                                    ));
                                    assert(findings_view(out@) =~= findings_prefix(cv, fv, c as int)
                                        + findings_upto(ctxv, fv, i as int) + findings_with_first(
                                        ctxv,
                                        fv,
                                        i as int,
                                        j as int + 1,
                                    ));
                                }
                            }
                        },
                        _ => {},
                    }
                }
                proof {
                    if !pushed {
                        assert(pair_finding(ctxv, fv, i as int, j as int) is None);
                        assert(findings_with_first(ctxv, fv, i as int, j as int + 1)
                            =~= findings_with_first(ctxv, fv, i as int, j as int));
                    }
                }
                j = j + 1;
            }
            proof {
                assert(findings_upto(ctxv, fv, i as int + 1) =~= findings_upto(ctxv, fv, i as int)
                    + findings_with_first(ctxv, fv, i as int, n as int));
                assert(findings_view(out@) =~= findings_prefix(cv, fv, c as int) + findings_upto(
                    ctxv,
                    fv,
                    i as int + 1,
                ));
            }
            i = i + 1;
        }
        proof {
            assert(context_findings(ctxv, fv) == findings_upto(ctxv, fv, n as int));
            assert(findings_view(out@) =~= findings_prefix(cv, fv, c as int + 1));
        }
        c = c + 1;
    }
    out
}

/// Runs both extraction passes over the snapshot and reports every
/// duplicate-mutable-account pair.
pub fn detect_duplicate_mutable_account(program: &Program) -> (r: Vec<Finding>)
    ensures
        findings_view(r@) == all_findings(
            crate::anchor_info::contexts_of(program.trait_impls@),
            facts_of(*program),
        ),
{
    let facts = find_to_account_metas(program);
    let contexts = local_anchor_accounts(program);
    find_duplicate_mutable_accounts(&contexts, &facts)
}

} // verus!
