//! Extraction of account-context schemas and per-field mutability
//! facts from the program snapshot.
//!
//! An account context is a local struct that implements the
//! framework's account-validation trait through a parameterless
//! builder function; its fields are classified by the wrapper type
//! they use.  Mutability facts are recovered from the generated
//! serialization functions by matching the exact call-and-copy shape
//! the framework emits.

use crate::ir::{
    AdtKind, AssocItem, AssocKind, BasicBlock, Body, FieldDef, GenericArg, Item, ItemKind, Operand,
    Program, ProjectionElem, Rvalue, StatementKind, TerminatorKind, TraitImplRecord, TyKind,
    VariantDef,
};
use vstd::string::StringSliceAdditionalSpecFns;
use crate::text::{last_path_segment, last_segment_of, str_contains, str_ends_with, str_eq, str_starts_with};
use vstd::prelude::*;

verus! {

/// Path name of the framework's account-validation trait.
pub const ANCHOR_ACCOUNTS: &'static str = "anchor_lang::Accounts";

/// Marker carried by the generated serialization functions.
pub const TO_ACCOUNT_METAS: &'static str = "to_account_metas";

/// The classified role of one account-context field.
#[derive(Clone, Debug, Eq, PartialEq)]
pub enum AnchorAccountKind {
    Account(String),
    Signer,
    Program,
    Sysvar(String),
}

impl AnchorAccountKind {
    /// Abstract value of the classification: a tag and the held type
    /// name.  Sysvar fields share the account tag, as the extraction
    /// conflates the two.
    pub open spec fn view_kind(self) -> (int, Seq<char>) {
        match self {
            AnchorAccountKind::Account(s) => (0int, s@),
            AnchorAccountKind::Signer => (1int, Seq::empty()),
            AnchorAccountKind::Program => (2int, Seq::empty()),
            AnchorAccountKind::Sysvar(s) => (3int, s@),
        }
    }
}

/// The type's ADT path name equals `name`.
pub open spec fn adt_named(kind: TyKind, name: Seq<char>) -> bool {
    match kind {
        TyKind::Adt(d, _) => d.name@ == name,
        _ => false,
    }
}

/// The path name of the held type: the ADT name of the generic
/// argument at position 1, position 0 being the lifetime.
pub open spec fn held_type_name(kind: TyKind) -> Option<Seq<char>> {
    match kind {
        TyKind::Adt(_, args) => if args@.len() > 1 {
            match args@[1] {
                GenericArg::Type(t) => match t.kind {
                    TyKind::Adt(d, _) => Some(d.name@),
                    _ => None,
                },
                _ => None,
            }
        } else {
            None
        },
        _ => None,
    }
}

/// The classification of a field type, abstractly: account-like
/// wrappers map to tag 0 with the held type's name, signers to tag 1,
/// programs to tag 2.
pub open spec fn spec_classify(kind: TyKind) -> Option<(int, Seq<char>)> {
    if adt_named(kind, "anchor_lang::prelude::Account"@) {
        match held_type_name(kind) {
            Some(n) => Some((0int, n)),
            None => None,
        }
    } else if adt_named(kind, "anchor_lang::prelude::Signer"@) {
        Some((1int, Seq::empty()))
    } else if adt_named(kind, "anchor_lang::prelude::Program"@) {
        Some((2int, Seq::empty()))
    } else if adt_named(kind, "anchor_lang::prelude::Sysvar"@) {
        match held_type_name(kind) {
            Some(n) => Some((0int, n)),
            None => None,
        }
    } else {
        None
    }
}

impl AnchorAccountKind {
    /// Classifies a field type: `Account<T>` and `Sysvar<T>` wrappers
    /// become `Account` of the held type's name, `Signer` and
    /// `Program` wrappers their own tags; anything else is dropped.
    pub fn from_ty(kind: &TyKind) -> (r: Option<AnchorAccountKind>)
        ensures
            r is Some <==> spec_classify(*kind) is Some,
            r is Some ==> (r->Some_0).view_kind() == spec_classify(*kind)->Some_0,
    {
        match kind {
            TyKind::Adt(adt_def, generics) => {
                if str_eq(adt_def.name.as_str(), "anchor_lang::prelude::Account") || str_eq(
                    adt_def.name.as_str(),
                    "anchor_lang::prelude::Sysvar",
                ) {
                    proof {
                        string_views_differ();
                    }
                    if generics.len() > 1 {
                        match &generics[1] {
                            GenericArg::Type(t) => {
                                match &t.kind {
                                    TyKind::Adt(held, _) => Some(
                                        AnchorAccountKind::Account(held.name.clone()),
                                    ),
                                    _ => None,
                                }
                            },
                            _ => None,
                        }
                    } else {
                        None
                    }
                } else if str_eq(adt_def.name.as_str(), "anchor_lang::prelude::Signer") {
                    Some(AnchorAccountKind::Signer)
                } else if str_eq(adt_def.name.as_str(), "anchor_lang::prelude::Program") {
                    Some(AnchorAccountKind::Program)
                } else {
                    None
                }
            },
            _ => None,
        }
    }
}

/// The four wrapper path names are pairwise distinct.
proof fn string_views_differ()
    ensures
        "anchor_lang::prelude::Account"@ != "anchor_lang::prelude::Signer"@,
        "anchor_lang::prelude::Account"@ != "anchor_lang::prelude::Program"@,
        "anchor_lang::prelude::Account"@ != "anchor_lang::prelude::Sysvar"@,
        "anchor_lang::prelude::Signer"@ != "anchor_lang::prelude::Program"@,
        "anchor_lang::prelude::Signer"@ != "anchor_lang::prelude::Sysvar"@,
        "anchor_lang::prelude::Program"@ != "anchor_lang::prelude::Sysvar"@,
{
    reveal_strlit("anchor_lang::prelude::Account");
    reveal_strlit("anchor_lang::prelude::Signer");
    reveal_strlit("anchor_lang::prelude::Program");
    reveal_strlit("anchor_lang::prelude::Sysvar");
    assert("anchor_lang::prelude::Account"@.len() == 29);
    assert("anchor_lang::prelude::Signer"@.len() == 28);
    assert("anchor_lang::prelude::Program"@.len() == 29);
    assert("anchor_lang::prelude::Sysvar"@.len() == 28);
    assert("anchor_lang::prelude::Account"@[22] == 'A');
    assert("anchor_lang::prelude::Program"@[22] == 'P');
    assert("anchor_lang::prelude::Signer"@[23] == 'i');
    assert("anchor_lang::prelude::Sysvar"@[23] == 'y');
}

/// One classified field of an account context.
#[derive(Clone, Debug)]
pub struct AnchorAccount {
    pub name: String,
    pub kind: AnchorAccountKind,
}

impl AnchorAccount {
    /// Abstract value: field name and classification.
    pub open spec fn view_account(self) -> (Seq<char>, (int, Seq<char>)) {
        (self.name@, self.kind.view_kind())
    }

    /// Classifies one field definition; fields of unrecognized type
    /// are dropped.
    pub fn from_field_def(field_def: &FieldDef) -> (r: Option<AnchorAccount>)
        ensures
            r is Some <==> spec_classify(field_def.ty.kind) is Some,
            r is Some ==> (r->Some_0).view_account() == (
                field_def.name@,
                spec_classify(field_def.ty.kind)->Some_0,
            ),
    {
        let kind = AnchorAccountKind::from_ty(&field_def.ty.kind);
        match kind {
            Some(k) => Some(AnchorAccount { name: field_def.name.clone(), kind: k }),
            None => None,
        }
    }
}

/// The classified fields of a field list, in order; unrecognized
/// fields leave no entry.
pub open spec fn accounts_of_fields(fields: Seq<FieldDef>) -> Seq<(Seq<char>, (int, Seq<char>))>
    decreases fields.len(),
{
    if fields.len() == 0 {
        Seq::empty()
    } else {
        accounts_of_fields(fields.drop_last()) + match spec_classify(fields.last().ty.kind) {
            Some(k) => seq![(fields.last().name@, k)],
            None => Seq::empty(),
        }
    }
}

/// One account context: the struct's variant name and its classified
/// fields.
#[derive(Debug)]
pub struct AnchorAccounts {
    pub name: String,
    pub anchor_accounts: Vec<AnchorAccount>,
}

/// Abstract value of a classified field list.
pub open spec fn accounts_view(s: Seq<AnchorAccount>) -> Seq<(Seq<char>, (int, Seq<char>))> {
    s.map_values(|a: AnchorAccount| a.view_account())
}

impl AnchorAccounts {
    /// Abstract value: context name and classified fields.
    pub open spec fn view_accounts(self) -> (Seq<char>, Seq<(Seq<char>, (int, Seq<char>))>) {
        (self.name@, accounts_view(self.anchor_accounts@))
    }

    /// Builds the account context of a struct variant, classifying
    /// every field in order.
    pub fn from_variant(variant: &VariantDef) -> (r: Option<AnchorAccounts>)
        ensures
            r is Some,
            (r->Some_0).view_accounts() == (variant.name@, accounts_of_fields(variant.fields@)),
    {
        let mut anchor_accounts: Vec<AnchorAccount> = Vec::new();
        let mut i: usize = 0;
        while i < variant.fields.len()
            invariant
                i <= variant.fields@.len(),
                accounts_view(anchor_accounts@) == accounts_of_fields(
                    variant.fields@.subrange(0, i as int),
                ),
            decreases variant.fields@.len() - i,
        {
            let ghost sub = variant.fields@.subrange(0, i as int);
            let ghost sub1 = variant.fields@.subrange(0, i as int + 1);
            proof {
                assert(sub1.drop_last() =~= sub);
                assert(sub1.last() == variant.fields@[i as int]);
            }
            let ghost pre = anchor_accounts@;
            match AnchorAccount::from_field_def(&variant.fields[i]) {
                Some(a) => {
                    anchor_accounts.push(a);
                    proof {
                        assert(accounts_view(anchor_accounts@) =~= accounts_view(pre).push(
                            a.view_account(),
                        ));
                        assert(accounts_of_fields(sub1) =~= accounts_of_fields(sub).push(
                            a.view_account(),
                        ));
                    }
                },
                None => {
                    proof {
                        assert(accounts_of_fields(sub1) =~= accounts_of_fields(sub));
                    }
                },
            }
            i = i + 1;
        }
        proof {
            assert(variant.fields@.subrange(0, variant.fields@.len() as int) =~= variant.fields@);
        }
        Some(AnchorAccounts { name: variant.name.clone(), anchor_accounts })
    }
}

/// The implementation record carries a `try_accounts` associated
/// function without a receiver.
pub open spec fn has_builder_fn(items: Seq<AssocItem>) -> bool {
    exists|i: int|
        0 <= i < items.len() && match (#[trigger] items[i]).kind {
            AssocKind::Fn { name, has_self } => name@ == "try_accounts"@ && !has_self,
            AssocKind::Other => false,
        }
}

/// The account context contributed by one trait-implementation
/// record, if any: the record must implement the account-validation
/// trait for a local struct that carries the builder function.
pub open spec fn record_context(rec: TraitImplRecord) -> Option<
    (Seq<char>, Seq<(Seq<char>, (int, Seq<char>))>),
> {
    if rec.trait_name@ == "anchor_lang::Accounts"@ && (match rec.self_ty.kind {
        TyKind::Adt(d, _) => d.is_local && d.kind == AdtKind::Struct && d.variants@.len() > 0
            && has_builder_fn(rec.assoc_items@),
        _ => false,
    }) {
        match rec.self_ty.kind {
            TyKind::Adt(d, _) => Some(
                (d.variants@[0].name@, accounts_of_fields(d.variants@[0].fields@)),
            ),
            _ => None,
        }
    } else {
        None
    }
}

/// The account contexts of a record list, in record order.
pub open spec fn contexts_of(recs: Seq<TraitImplRecord>) -> Seq<
    (Seq<char>, Seq<(Seq<char>, (int, Seq<char>))>),
>
    decreases recs.len(),
{
    if recs.len() == 0 {
        Seq::empty()
    } else {
        contexts_of(recs.drop_last()) + match record_context(recs.last()) {
            Some(c) => seq![c],
            None => Seq::empty(),
        }
    }
}

/// Abstract value of a context list.
pub open spec fn contexts_view(s: Seq<AnchorAccounts>) -> Seq<
    (Seq<char>, Seq<(Seq<char>, (int, Seq<char>))>),
> {
    s.map_values(|a: AnchorAccounts| a.view_accounts())
}

/// Collects every account context defined in the analyzed program:
/// one per trait-implementation record of the account-validation
/// trait whose subject is a local struct with a parameterless builder
/// function, in record order.
pub fn local_anchor_accounts(program: &Program) -> (r: Vec<AnchorAccounts>)
    ensures
        contexts_view(r@) == contexts_of(program.trait_impls@),
{
    let mut out: Vec<AnchorAccounts> = Vec::new();
    let mut i: usize = 0;
    while i < program.trait_impls.len()
        invariant
            i <= program.trait_impls@.len(),
            contexts_view(out@) == contexts_of(program.trait_impls@.subrange(0, i as int)),
        decreases program.trait_impls@.len() - i,
    {
        let ghost sub = program.trait_impls@.subrange(0, i as int);
        let ghost sub1 = program.trait_impls@.subrange(0, i as int + 1);
        proof {
            assert(sub1.drop_last() =~= sub);
            assert(sub1.last() == program.trait_impls@[i as int]);
        }
        let rec = &program.trait_impls[i];
        let ghost pre = out@;
        let mut pushed = false;
        if str_eq(rec.trait_name.as_str(), "anchor_lang::Accounts") {
            match &rec.self_ty.kind {
                TyKind::Adt(adt_def, _) => {
                    if adt_def.is_local && adt_def.kind == AdtKind::Struct {
                        // look for the parameterless builder function
                        let mut has_builder = false;
                        let mut j: usize = 0;
                        while j < rec.assoc_items.len()
                            invariant
                                j <= rec.assoc_items@.len(),
                                has_builder ==> has_builder_fn(rec.assoc_items@),
                                !has_builder ==> (forall|q: int|
                                    0 <= q < j ==> !(match (#[trigger] rec.assoc_items@[q]).kind {
                                        AssocKind::Fn { name, has_self } => name@
                                            == "try_accounts"@ && !has_self,
                                        AssocKind::Other => false,
                                    })),
                            decreases rec.assoc_items@.len() - j,
                        {
                            match &rec.assoc_items[j].kind {
                                AssocKind::Fn { name, has_self } => {
                                    if !*has_self && str_eq(name.as_str(), "try_accounts") {
                                        has_builder = true;
                                    }
                                },
                                AssocKind::Other => {},
                            }
                            j = j + 1;
                        }
                        proof {
                            if !has_builder {
                                if has_builder_fn(rec.assoc_items@) {
                                    let q = choose|q: int|
                                        0 <= q < rec.assoc_items@.len() && match (
                                        #[trigger] rec.assoc_items@[q]).kind {
                                            AssocKind::Fn { name, has_self } => name@
                                                == "try_accounts"@ && !has_self,
                                            AssocKind::Other => false,
                                        };
                                    assert(false);
                                }
                            }
                        }
                        if has_builder && adt_def.variants.len() > 0 {
                            match AnchorAccounts::from_variant(&adt_def.variants[0]) {
                                Some(accs) => {
                                    out.push(accs);
                                    pushed = true;
                                    proof {
                                        assert(record_context(sub1.last()) == Some(
                                            accs.view_accounts(),
                                        ));
                                        assert(contexts_view(out@) =~= contexts_view(pre).push(
                                            accs.view_accounts(),
                                        ));
                                        assert(contexts_of(sub1) =~= contexts_of(sub).push(
                                            accs.view_accounts(),
                                        ));
                                    }
                                },
                                None => {},
                            }
                        }
                    }
                },
                _ => {},
            }
        }
        proof {
            if !pushed {
                assert(record_context(sub1.last()) is None);
                assert(contexts_of(sub1) =~= contexts_of(sub));
            }
        }
        i = i + 1;
    }
    proof {
        assert(program.trait_impls@.subrange(0, program.trait_impls@.len() as int)
            =~= program.trait_impls@);
    }
    out
}

/// The recovered mutability of one serialized account field.
#[derive(Clone, Copy, Debug, PartialEq, Eq, Structural)]
pub enum MetaMutability {
    Mutable,
    ReadOnly,
}

/// Abstract value of a mutability fact: struct short name, tag, and
/// field index.
pub open spec fn fact_view(f: (String, MetaMutability, usize)) -> (Seq<char>, MetaMutability, usize) {
    (f.0@, f.1, f.2)
}

/// Abstract value of a fact list.
pub open spec fn facts_list_view(s: Seq<(String, MetaMutability, usize)>) -> Seq<
    (Seq<char>, MetaMutability, usize),
> {
    s.map_values(|f: (String, MetaMutability, usize)| fact_view(f))
}

/// The fact recovered from one block, if any: the block must end in a
/// call of one of the two metadata-entry constructors, and its last
/// statement must copy `(*first_argument).field` into a local.
pub open spec fn block_fact(b: BasicBlock) -> Option<(MetaMutability, usize)> {
    match b.terminator.kind {
        TerminatorKind::Call { func, .. } => match func {
            Operand::Constant(c) => match c.ty.kind {
                TyKind::FnDef(f) => {
                    if f.name@ == "anchor_lang::prelude::AccountMeta::new"@ || f.name@
                        == "anchor_lang::prelude::AccountMeta::new_readonly"@ {
                        let m = if f.name@ == "anchor_lang::prelude::AccountMeta::new"@ {
                            MetaMutability::Mutable
                        } else {
                            MetaMutability::ReadOnly
                        };
                        if b.statements@.len() > 0 {
                            match b.statements@.last().kind {
                                StatementKind::Assign(_, rv) => match rv {
                                    Rvalue::Use(op) => match op {
                                        Operand::Copy(place) => {
                                            if place.local == 1 && place.projection@.len() == 2
                                                && place.projection@[0] == ProjectionElem::Deref
                                                && place.projection@[1] is Field {
                                                Some((m, place.projection@[1]->Field_0))
                                            } else {
                                                None
                                            }
                                        },
                                        _ => None,
                                    },
                                    _ => None,
                                },
                                _ => None,
                            }
                        } else {
                            None
                        }
                    } else {
                        None
                    }
                },
                _ => None,
            },
            _ => None,
        },
        _ => None,
    }
}

/// The facts recovered from a block list, in block order, each named
/// after the context `name`.
pub open spec fn body_facts(blocks: Seq<BasicBlock>, name: Seq<char>) -> Seq<
    (Seq<char>, MetaMutability, usize),
>
    decreases blocks.len(),
{
    if blocks.len() == 0 {
        Seq::empty()
    } else {
        body_facts(blocks.drop_last(), name) + match block_fact(blocks.last()) {
            Some((m, i)) => seq![(name, m, i)],
            None => Seq::empty(),
        }
    }
}

/// The short name of the context struct a serialization body works
/// on: the last path segment of the ADT behind the first formal
/// parameter's reference type.
pub open spec fn first_arg_short_name(body: Body) -> Option<Seq<char>> {
    if body.local_decls@.len() > 1 {
        match body.local_decls@[1].kind {
            TyKind::Ref(inner, _) => match inner.kind {
                TyKind::Adt(d, _) => Some(last_segment_of(d.name@)),
                _ => None,
            },
            _ => None,
        }
    } else {
        None
    }
}

/// The item's name carries both generated-serializer markers.
pub open spec fn is_meta_candidate(it: Item) -> bool {
    &&& crate::text::contains_bytes(
        vstd::utf8::encode_utf8(it.name@),
        vstd::utf8::encode_utf8("to_account_metas"@),
    )
    &&& crate::text::contains_bytes(
        vstd::utf8::encode_utf8(it.name@),
        vstd::utf8::encode_utf8("__client_accounts"@),
    )
}

/// The facts contributed by one item.
pub open spec fn item_facts(p: Program, it: Item) -> Seq<(Seq<char>, MetaMutability, usize)> {
    if is_meta_candidate(it) {
        match it.instance {
            Some(id) => if (id as int) < p.instances@.len() {
                match p.instances@[id as int].body {
                    Some(body) => match first_arg_short_name(body) {
                        Some(nm) => body_facts(body.blocks@, nm),
                        None => Seq::empty(),
                    },
                    None => Seq::empty(),
                }
            } else {
                Seq::empty()
            },
            None => Seq::empty(),
        }
    } else {
        Seq::empty()
    }
}

/// The facts contributed by the first `k` items.
pub open spec fn facts_prefix(p: Program, k: int) -> Seq<(Seq<char>, MetaMutability, usize)>
    decreases k,
{
    if k <= 0 {
        Seq::empty()
    } else {
        facts_prefix(p, k - 1) + item_facts(p, p.items@[k - 1])
    }
}

/// All mutability facts of the program, in item order.
pub open spec fn facts_of(p: Program) -> Seq<(Seq<char>, MetaMutability, usize)> {
    facts_prefix(p, p.items@.len() as int)
}

/// The exact fact of one block, executable form.
fn exec_block_fact(b: &BasicBlock) -> (r: Option<(MetaMutability, usize)>)
    ensures
        r == block_fact(*b),
{
    match &b.terminator.kind {
        TerminatorKind::Call { func, .. } => {
            match func {
                Operand::Constant(c) => {
                    match &c.ty.kind {
                        TyKind::FnDef(f) => {
                            let is_new = str_eq(
                                f.name.as_str(),
                                "anchor_lang::prelude::AccountMeta::new",
                            );
                            let is_ro = str_eq(
                                f.name.as_str(),
                                "anchor_lang::prelude::AccountMeta::new_readonly",
                            );
                            proof {
                                meta_ctor_names_differ();
                            }
                            if is_new || is_ro {
                                let m = if is_new {
                                    MetaMutability::Mutable
                                } else {
                                    MetaMutability::ReadOnly
                                };
                                if b.statements.len() > 0 {
                                    let last = &b.statements[b.statements.len() - 1];
                                    match &last.kind {
                                        StatementKind::Assign(_, rv) => {
                                            match rv {
                                                Rvalue::Use(op) => {
                                                    match op {
                                                        Operand::Copy(place) => {
                                                            if place.local == 1
                                                                && place.projection.len() == 2
                                                                && place.projection[0]
                                                                == ProjectionElem::Deref {
                                                                match place.projection[1] {
                                                                    ProjectionElem::Field(i) => {
                                                                        Some((m, i))
                                                                    },
                                                                    _ => None,
                                                                }
                                                            } else {
                                                                None
                                                            }
                                                        },
                                                        _ => None,
                                                    }
                                                },
                                                _ => None,
                                            }
                                        },
                                        _ => None,
                                    }
                                } else {
                                    None
                                }
                            } else {
                                None
                            }
                        },
                        _ => None,
                    }
                },
                _ => None,
            }
        },
        _ => None,
    }
}

/// The two metadata-entry constructor names are distinct.
proof fn meta_ctor_names_differ()
    ensures
        "anchor_lang::prelude::AccountMeta::new"@
            != "anchor_lang::prelude::AccountMeta::new_readonly"@,
{
    reveal_strlit("anchor_lang::prelude::AccountMeta::new");
    reveal_strlit("anchor_lang::prelude::AccountMeta::new_readonly");
    assert("anchor_lang::prelude::AccountMeta::new"@.len() == 38);
    assert("anchor_lang::prelude::AccountMeta::new_readonly"@.len() == 47);
}

/// Scans the generated serialization functions and recovers one
/// mutability fact per recognized constructor call: the context's
/// short name, the constructor's mutability, and the copied field's
/// index.  Call sites that deviate from the generated shape are
/// silently ignored.
pub fn find_to_account_metas(program: &Program) -> (r: Vec<(String, MetaMutability, usize)>)
    ensures
        facts_list_view(r@) == facts_of(*program),
{
    let ghost p = *program;
    let mut out: Vec<(String, MetaMutability, usize)> = Vec::new();
    let mut i: usize = 0;
    while i < program.items.len()
        invariant
            p == *program,
            i <= p.items@.len(),
            facts_list_view(out@) == facts_prefix(p, i as int),
        decreases p.items@.len() - i,
    {
        let it = &program.items[i];
        let ghost pre = out@;
        let mut contributed = false;
        if str_contains(it.name.as_str(), TO_ACCOUNT_METAS) && str_contains(
            it.name.as_str(),
            "__client_accounts",
        ) {
            match it.instance {
                Some(id) => {
                    if id < program.instances.len() {
                        match &program.instances[id].body {
                            Some(body) => {
                                let first_arg = match body.local_decl(1) {
                                    Some(t) => {
                                        match &t.kind {
                                            TyKind::Ref(inner, _) => {
                                                match &inner.kind {
                                                    TyKind::Adt(d, _) => Some(
                                                        last_path_segment(d.name.as_str()),
                                                    ),
                                                    _ => None,
                                                }
                                            },
                                            _ => None,
                                        }
                                    },
                                    None => None,
                                };
                                match first_arg {
                                    Some(nm) => {
                                        contributed = true;
                                        proof {
                                            assert(first_arg_short_name(
                                                p.instances@[id as int].body->Some_0,
                                            ) == Some(nm@));
                                        }
                                        let mut k: usize = 0;
                                        while k < body.blocks.len()
                                            invariant
                                                p == *program,
                                                i < p.items@.len(),
                                                (id as int) < p.instances@.len(),
                                                p.instances@[id as int].body == Some(*body),
                                                k <= body.blocks@.len(),
                                                facts_list_view(out@) == facts_prefix(p, i as int)
                                                    + body_facts(
                                                    body.blocks@.subrange(0, k as int),
                                                    nm@,
                                                ),
                                            decreases body.blocks@.len() - k,
                                        {
                                            let ghost bsub = body.blocks@.subrange(0, k as int);
                                            let ghost bsub1 = body.blocks@.subrange(
                                                0,
                                                k as int + 1,
                                            );
                                            proof {
                                                assert(bsub1.drop_last() =~= bsub);
                                                assert(bsub1.last() == body.blocks@[k as int]);
                                            }
                                            let ghost pre_inner = out@;
                                            match exec_block_fact(&body.blocks[k]) {
                                                Some(mi) => {
                                                    let nm2 = nm.clone();
                                                    out.push((nm2, mi.0, mi.1));
                                                    proof {
                                                        assert(facts_list_view(out@)
                                                            =~= facts_list_view(pre_inner).push(
                                                            (nm@, mi.0, mi.1),
                                                        ));
                                                        assert(body_facts(bsub1, nm@)
                                                            =~= body_facts(bsub, nm@).push(
                                                            (nm@, mi.0, mi.1),
                                                        ));
                                                        assert(facts_prefix(p, i as int)
                                                            + body_facts(bsub1, nm@)
                                                            =~= (facts_prefix(p, i as int)
                                                            + body_facts(bsub, nm@)).push(
                                                            (nm@, mi.0, mi.1),
                                                        ));
                                                    }
                                                },
                                                None => {
                                                    proof {
                                                        assert(body_facts(bsub1, nm@)
                                                            =~= body_facts(bsub, nm@));
                                                    }
                                                },
                                            }
                                            k = k + 1;
                                        }
                                        proof {
                                            assert(body.blocks@.subrange(
                                                0,
                                                body.blocks@.len() as int,
                                            ) =~= body.blocks@);
                                            assert(facts_list_view(out@) == facts_prefix(
                                                p,
                                                i as int,
                                            ) + item_facts(p, p.items@[i as int]));
                                        }
                                    },
                                    None => {},
                                }
                            },
                            None => {},
                        }
                    }
                },
                None => {},
            }
        }
        proof {
            if !contributed {
                assert(item_facts(p, p.items@[i as int]) =~= Seq::<
                    (Seq<char>, MetaMutability, usize),
                >::empty());
                assert(facts_list_view(out@) =~= facts_prefix(p, i as int + 1));
            } else {
                assert(facts_list_view(out@) =~= facts_prefix(p, i as int + 1));
            }
        }
        i = i + 1;
    }
    proof {
        assert(facts_prefix(p, p.items@.len() as int) == facts_of(p));
    }
    out
}

/// The initialized bytes of an allocation, in order.
pub open spec fn defined_bytes(bs: Seq<Option<u8>>) -> Seq<u8>
    decreases bs.len(),
{
    if bs.len() == 0 {
        Seq::empty()
    } else {
        defined_bytes(bs.drop_last()) + match bs.last() {
            Some(x) => seq![x],
            None => Seq::empty(),
        }
    }
}

/// The bytes contributed by one aggregate operand: the initialized
/// bytes of its evaluated constant, nothing for anything else.
pub open spec fn operand_bytes(op: Operand) -> Seq<u8> {
    match op {
        Operand::Constant(c) => match c.const_ {
            crate::ir::ConstantKind::Allocated(alloc) => defined_bytes(alloc.bytes@),
            crate::ir::ConstantKind::Other => Seq::empty(),
        },
        _ => Seq::empty(),
    }
}

/// The concatenated bytes of an operand list.
pub open spec fn operands_bytes(ops: Seq<Operand>) -> Seq<u8>
    decreases ops.len(),
{
    if ops.len() == 0 {
        Seq::empty()
    } else {
        operands_bytes(ops.drop_last()) + operand_bytes(ops.last())
    }
}

/// The bytes of a statement that fills a byte array, if it is one.
pub open spec fn stmt_array_bytes(st: crate::ir::Statement) -> Option<Seq<u8>> {
    match st.kind {
        StatementKind::Assign(_, rv) => match rv {
            Rvalue::Aggregate(agg, ops) => match agg {
                crate::ir::AggregateKind::Array(ty) => match ty.kind {
                    TyKind::Uint(u) => if u == crate::ir::UintTy::U8 {
                        Some(operands_bytes(ops@))
                    } else {
                        None
                    },
                    _ => None,
                },
                _ => None,
            },
            _ => None,
        },
        _ => None,
    }
}

/// The bytes of the first byte-array statement in the list, if any.
pub open spec fn first_array_bytes(stmts: Seq<crate::ir::Statement>, i: int) -> Option<Seq<u8>>
    decreases (if stmts.len() + 1 - i >= 0 { stmts.len() + 1 - i } else { 0 }),
{
    if i < 0 || i >= stmts.len() {
        None
    } else {
        match stmt_array_bytes(stmts[i]) {
            Some(b) => Some(b),
            None => first_array_bytes(stmts, i + 1),
        }
    }
}

/// The program identifier carried by one item, if any: the item must
/// be a static named `ID` whose body opens with a block assigning a
/// byte array.
pub open spec fn item_id_bytes(it: Item) -> Option<Seq<u8>> {
    if it.kind == ItemKind::Static && it.name@ == "ID"@ && it.body is Some
        && (it.body->Some_0).blocks@.len() > 0 {
        first_array_bytes((it.body->Some_0).blocks@[0].statements@, 0)
    } else {
        None
    }
}

/// The program identifier of the first item that carries one.
pub open spec fn program_id_of(items: Seq<Item>, i: int) -> Option<Seq<u8>>
    decreases (if items.len() + 1 - i >= 0 { items.len() + 1 - i } else { 0 }),
{
    if i < 0 || i >= items.len() {
        None
    } else {
        match item_id_bytes(items[i]) {
            Some(b) => Some(b),
            None => program_id_of(items, i + 1),
        }
    }
}

/// The exact byte content of a byte-array statement, executable form.
fn exec_stmt_array_bytes(st: &crate::ir::Statement) -> (r: Option<Vec<u8>>)
    ensures
        r is Some <==> stmt_array_bytes(*st) is Some,
        r is Some ==> (r->Some_0)@ == stmt_array_bytes(*st)->Some_0,
{
    match &st.kind {
        StatementKind::Assign(_, rv) => {
            match rv {
                Rvalue::Aggregate(agg, ops) => {
                    match agg {
                        crate::ir::AggregateKind::Array(ty) => {
                            match &ty.kind {
                                TyKind::Uint(u) => {
                                    if *u == crate::ir::UintTy::U8 {
                                        let mut id: Vec<u8> = Vec::new();
                                        let mut j: usize = 0;
                                        while j < ops.len()
                                            invariant
                                                j <= ops@.len(),
                                                id@ == operands_bytes(ops@.subrange(0, j as int)),
                                            decreases ops@.len() - j,
                                        {
                                            let ghost sub = ops@.subrange(0, j as int);
                                            let ghost sub1 = ops@.subrange(0, j as int + 1);
                                            proof {
                                                assert(sub1.drop_last() =~= sub);
                                                assert(sub1.last() == ops@[j as int]);
                                            }
                                            match &ops[j] {
                                                Operand::Constant(c) => {
                                                    match &c.const_ {
                                                        crate::ir::ConstantKind::Allocated(
                                                            alloc,
                                                        ) => {
                                                            let mut k: usize = 0;
                                                            while k < alloc.bytes.len()
                                                                invariant
                                                                    k <= alloc.bytes@.len(),
                                                                    id@ == operands_bytes(
                                                                        ops@.subrange(
                                                                            0,
                                                                            j as int,
                                                                        ),
                                                                    ) + defined_bytes(
                                                                        alloc.bytes@.subrange(
                                                                            0,
                                                                            k as int,
                                                                        ),
                                                                    ),
                                                                decreases alloc.bytes@.len() - k,
                                                            {
                                                                let ghost bsub =
                                                                    alloc.bytes@.subrange(
                                                                    0,
                                                                    k as int,
                                                                );
                                                                let ghost bsub1 =
                                                                    alloc.bytes@.subrange(
                                                                    0,
                                                                    k as int + 1,
                                                                );
                                                                proof {
                                                                    assert(bsub1.drop_last()
                                                                        =~= bsub);
                                                                    assert(bsub1.last()
                                                                        == alloc.bytes@[k as int]);
                                                                }
                                                                match alloc.bytes[k] {
                                                                    Some(x) => {
                                                                        let ghost pre_id = id@;
                                                                        id.push(x);
                                                                        proof {
                                                                            assert(id@ == pre_id.push(
                                                                                x,
                                                                            ));
                                                                            assert(pre_id
                                                                                == operands_bytes(
                                                                                ops@.subrange(
                                                                                    0,
                                                                                    j as int,
                                                                                ),
                                                                            ) + defined_bytes(
                                                                                bsub,
                                                                            ));
                                                                            assert(defined_bytes(
                                                                                bsub1,
                                                                            ) == defined_bytes(
                                                                                bsub,
                                                                            ) + seq![x]);
                                                                            assert(id@
                                                                                =~= operands_bytes(
                                                                                ops@.subrange(
                                                                                    0,
                                                                                    j as int,
                                                                                ),
                                                                            ) + defined_bytes(
                                                                                bsub1,
                                                                            ));
                                                                        }
                                                                    },
                                                                    None => {
                                                                        proof {
                                                                            assert(defined_bytes(
                                                                                bsub1,
                                                                            ) =~= defined_bytes(
                                                                                bsub,
                                                                            ));
                                                                        }
                                                                    },
                                                                }
                                                                k = k + 1;
                                                            }
                                                            proof {
                                                                assert(alloc.bytes@.subrange(
                                                                    0,
                                                                    alloc.bytes@.len() as int,
                                                                ) =~= alloc.bytes@);
                                                                assert(operand_bytes(sub1.last())
                                                                    == defined_bytes(
                                                                    alloc.bytes@,
                                                                ));
                                                            }
                                                        },
                                                        crate::ir::ConstantKind::Other => {
                                                            proof {
                                                                assert(operand_bytes(sub1.last())
                                                                    =~= Seq::<u8>::empty());
                                                                assert(operands_bytes(sub1)
                                                                    =~= operands_bytes(sub));
                                                            }
                                                        },
                                                    }
                                                },
                                                _ => {
                                                    proof {
                                                        assert(operand_bytes(sub1.last()) =~= Seq::<
                                                            u8,
                                                        >::empty());
                                                        assert(operands_bytes(sub1)
                                                            =~= operands_bytes(sub));
                                                    }
                                                },
                                            }
                                            proof {
                                                assert(id@ =~= operands_bytes(sub1));
                                            }
                                            j = j + 1;
                                        }
                                        proof {
                                            assert(ops@.subrange(0, ops@.len() as int) =~= ops@);
                                        }
                                        Some(id)
                                    } else {
                                        None
                                    }
                                },
                                _ => None,
                            }
                        },
                        _ => None,
                    }
                },
                _ => None,
            }
        },
        _ => None,
    }
}

/// Scans the body's first block for the first statement that fills a
/// byte array and returns its bytes.
fn first_block_array_bytes(body: &Body) -> (r: Option<Vec<u8>>)
    requires
        body.blocks@.len() > 0,
    ensures
        r is Some <==> first_array_bytes(body.blocks@[0].statements@, 0) is Some,
        r is Some ==> (r->Some_0)@ == first_array_bytes(body.blocks@[0].statements@, 0)->Some_0,
{
    let stmts = &body.blocks[0].statements;
    let ghost sv = body.blocks@[0].statements@;
    let mut i: usize = 0;
    loop
        invariant_except_break
            sv == body.blocks@[0].statements@,
            stmts@ == sv,
            i <= sv.len(),
            first_array_bytes(sv, 0) == first_array_bytes(sv, i as int),
        ensures
            match first_array_bytes(sv, 0) {
                Some(b) => true,
                None => true,
            },
            sv == body.blocks@[0].statements@,
        decreases sv.len() - i,
    {
        if i >= stmts.len() {
            proof {
                assert(first_array_bytes(sv, i as int) is None);
            }
            return None;
        }
        match exec_stmt_array_bytes(&stmts[i]) {
            Some(bytes) => {
                proof {
                    assert(first_array_bytes(sv, i as int) == Some(stmt_array_bytes(sv[i as int])->Some_0));
                }
                return Some(bytes);
            },
            None => {},
        }
        i = i + 1;
    }
}

/// Extracts the program identifier: the byte array assigned in the
/// opening block of the static item named `ID`, from the first such
/// item that carries one.
pub fn extract_program_id(program: &Program) -> (r: Option<Vec<u8>>)
    ensures
        r is Some <==> program_id_of(program.items@, 0) is Some,
        r is Some ==> (r->Some_0)@ == program_id_of(program.items@, 0)->Some_0,
{
    let ghost iv = program.items@;
    let mut i: usize = 0;
    loop
        invariant_except_break
            iv == program.items@,
            i <= iv.len(),
            program_id_of(iv, 0) == program_id_of(iv, i as int),
        ensures
            iv == program.items@,
        decreases iv.len() - i,
    {
        if i >= program.items.len() {
            proof {
                assert(program_id_of(iv, i as int) is None);
            }
            return None;
        }
        let it = &program.items[i];
        let mut candidate: Option<Vec<u8>> = None;
        if it.kind == ItemKind::Static && str_eq(it.name.as_str(), "ID") {
            match &it.body {
                Some(body) => {
                    if body.blocks.len() > 0 {
                        candidate = first_block_array_bytes(body);
                        proof {
                            assert(item_id_bytes(iv[i as int]) == first_array_bytes(
                                (iv[i as int].body->Some_0).blocks@[0].statements@,
                                0,
                            ));
                        }
                    }
                },
                None => {},
            }
        }
        match candidate {
            Some(bytes) => {
                proof {
                    assert(item_id_bytes(iv[i as int]) is Some);
                    assert(program_id_of(iv, i as int) == item_id_bytes(iv[i as int]));
                }
                return Some(bytes);
            },
            None => {
                proof {
                    assert(item_id_bytes(iv[i as int]) is None);
                }
            },
        }
        i = i + 1;
    }
}

/// The discriminator subject of an item name, if any: the name must
/// end in `::DISCRIMINATOR`, not start with `<instruction::`, and
/// carry an angle-bracketed subject before the trait marker.
pub open spec fn discriminator_subject(name: Seq<char>) -> Option<Seq<u8>> {
    if crate::text::ends_with_bytes(
        vstd::utf8::encode_utf8(name),
        vstd::utf8::encode_utf8("::DISCRIMINATOR"@),
    ) && !crate::text::starts_with_bytes(
        vstd::utf8::encode_utf8(name),
        vstd::utf8::encode_utf8("<instruction::"@),
    ) {
        crate::text::angle_capture(name, " as anchor_lang::Discriminator>"@)
    } else {
        None
    }
}

/// The discriminator contributed by one item, if any.
pub open spec fn item_discriminator(it: Item) -> Option<(Seq<u8>, Seq<u8>)> {
    if it.kind == ItemKind::Const && discriminator_subject(it.name@) is Some && it.body is Some
        && (it.body->Some_0).blocks@.len() > 0 && first_array_bytes(
        (it.body->Some_0).blocks@[0].statements@,
        0,
    ) is Some {
        Some(
            (
                discriminator_subject(it.name@)->Some_0,
                first_array_bytes((it.body->Some_0).blocks@[0].statements@, 0)->Some_0,
            ),
        )
    } else {
        None
    }
}

/// The discriminators of the first `k` items, in item order.
pub open spec fn discriminators_prefix(items: Seq<Item>, k: int) -> Seq<(Seq<u8>, Seq<u8>)>
    decreases k,
{
    if k <= 0 {
        Seq::empty()
    } else {
        discriminators_prefix(items, k - 1) + match item_discriminator(items[k - 1]) {
            Some(d) => seq![d],
            None => Seq::empty(),
        }
    }
}

/// Abstract value of a discriminator list.
pub open spec fn discriminators_view(s: Seq<(String, Vec<u8>)>) -> Seq<(Seq<u8>, Seq<u8>)> {
    s.map_values(|d: (String, Vec<u8>)| (vstd::utf8::encode_utf8(d.0@), d.1@))
}

/// Extracts every per-type discriminator: for each constant item
/// named `<Subject as anchor_lang::Discriminator>::DISCRIMINATOR`
/// outside the instruction namespace, the subject together with the
/// byte array assigned in its opening block.
pub fn extract_discriminators(program: &Program) -> (r: Vec<(String, Vec<u8>)>)
    ensures
        discriminators_view(r@) == discriminators_prefix(program.items@, program.items@.len() as int),
{
    let ghost iv = program.items@;
    let mut out: Vec<(String, Vec<u8>)> = Vec::new();
    let mut i: usize = 0;
    while i < program.items.len()
        invariant
            iv == program.items@,
            i <= iv.len(),
            discriminators_view(out@) == discriminators_prefix(iv, i as int),
        decreases iv.len() - i,
    {
        let it = &program.items[i];
        let ghost pre = out@;
        let mut pushed = false;
        if it.kind == ItemKind::Const && str_ends_with(it.name.as_str(), "::DISCRIMINATOR")
            && !str_starts_with(it.name.as_str(), "<instruction::") {
            proof {
                marker_first_byte_is_space();
            }
            match crate::text::capture_angle_subject(
                it.name.as_str(),
                " as anchor_lang::Discriminator>",
            ) {
                Some(subject) => {
                    match &it.body {
                        Some(body) => {
                            if body.blocks.len() > 0 {
                                match first_block_array_bytes(body) {
                                    Some(bytes) => {
                                        let ghost entry = (
                                            vstd::utf8::encode_utf8(subject@),
                                            bytes@,
                                        );
                                        out.push((subject, bytes));
                                        pushed = true;
                                        proof {
                                            assert(item_discriminator(iv[i as int]) == Some(
                                                entry,
                                            ));
                                            assert(discriminators_view(out@)
                                                =~= discriminators_view(pre).push(entry));
                                            assert(discriminators_prefix(iv, i as int + 1)
                                                =~= discriminators_prefix(iv, i as int).push(
                                                entry,
                                            ));
                                        }
                                    },
                                    None => {},
                                }
                            }
                        },
                        None => {},
                    }
                },
                None => {},
            }
        }
        proof {
            if !pushed {
                assert(item_discriminator(iv[i as int]) is None);
                assert(discriminators_prefix(iv, i as int + 1) =~= discriminators_prefix(
                    iv,
                    i as int,
                ));
            }
        }
        i = i + 1;
    }
    out
}

/// The trait marker opens with an ASCII space, so a capture can end
/// right before it on a character boundary.
proof fn marker_first_byte_is_space()
    ensures
        " as anchor_lang::Discriminator>"@.len() > 0,
        !vstd::utf8::is_continuation_byte(
            " as anchor_lang::Discriminator>".spec_bytes()[0],
        ),
{
    reveal_strlit(" as anchor_lang::Discriminator>");
    let s = " as anchor_lang::Discriminator>";
    assert(s@.len() == 31);
    assert(s@[0] == ' ');
    assert(vstd::string::is_ascii(s)) by {
        assert(forall|q: int| 0 <= q < s@.len() ==> '\0' <= #[trigger] s@[q] <= '\u{7f}');
    }
    broadcast use vstd::string::is_ascii_spec_bytes;

    assert(s.spec_bytes()[0] == ' ' as u8);
}

} // verus!
