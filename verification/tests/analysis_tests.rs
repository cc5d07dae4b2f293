//! Tests of the call-graph builder, the extraction passes, the
//! detector, and the manifest classification.

use solana_program_analyzer::anchor_info::{
    find_to_account_metas, local_anchor_accounts, AnchorAccount, AnchorAccountKind, AnchorAccounts,
    MetaMutability,
};
use solana_program_analyzer::callgraph::compute_instances;
use solana_program_analyzer::checker::{
    detect_duplicate_mutable_account, find_duplicate_mutable_accounts,
};
use solana_program_analyzer::anchor_info::{extract_discriminators, extract_program_id};
use solana_program_analyzer::ir::{
    AdtDef, AdtKind, AggregateKind, Allocation, AssocItem, AssocKind, BasicBlock, Body,
    ConstOperand, ConstantKind, FieldDef, FnDefInfo, GenericArg, InstanceData, Item, ItemKind,
    Mutability, Operand, Place, Program, ProjectionElem, Rvalue, Statement, StatementKind,
    Terminator, TerminatorKind, TraitImplRecord, Ty, TyKind, UintTy, VariantDef,
};
use solana_program_analyzer::metadata::{check_program_type, ParsedDependency, ProgramType};
use solana_program_analyzer::text::{last_path_segment, str_contains, str_ends_with, str_eq};

fn fn_call_body(callee_name: &str, callee_id: Option<usize>) -> Body {
    Body {
        blocks: vec![
            BasicBlock {
                statements: Vec::new(),
                terminator: Terminator {
                    kind: TerminatorKind::Call {
                        func: Operand::Constant(ConstOperand {
                            ty: Ty {
                                kind: TyKind::FnDef(FnDefInfo {
                                    name: callee_name.to_string(),
                                    resolved: callee_id,
                                }),
                            },
                            const_: ConstantKind::Other,
                        }),
                        args: Vec::new(),
                        destination: Place { local: 0, projection: Vec::new() },
                        target: Some(1),
                    },
                },
            },
            BasicBlock {
                statements: Vec::new(),
                terminator: Terminator { kind: TerminatorKind::Return },
            },
        ],
        local_decls: Vec::new(),
    }
}

fn leaf_body() -> Body {
    Body {
        blocks: vec![BasicBlock {
            statements: Vec::new(),
            terminator: Terminator { kind: TerminatorKind::Return },
        }],
        local_decls: Vec::new(),
    }
}

fn fn_item(name: &str, instance: Option<usize>) -> Item {
    Item {
        name: name.to_string(),
        kind: ItemKind::Fn,
        requires_monomorphization: false,
        instance,
        body: None,
    }
}

#[test]
fn test_callgraph_closure() {
    // seed f (0) calls g (1), which calls h (2)
    let program = Program {
        items: vec![fn_item("f", Some(0))],
        trait_impls: Vec::new(),
        instances: vec![
            InstanceData { body: Some(fn_call_body("g", Some(1))) },
            InstanceData { body: Some(fn_call_body("h", Some(2))) },
            InstanceData { body: Some(leaf_body()) },
        ],
    };
    let mut reachable = compute_instances(&program);
    reachable.sort();
    assert_eq!(reachable, vec![0, 1, 2]);
}

#[test]
fn test_callgraph_cycle_terminates() {
    // f (0) calls g (1), which calls f back; each appears exactly once
    let program = Program {
        items: vec![fn_item("f", Some(0))],
        trait_impls: Vec::new(),
        instances: vec![
            InstanceData { body: Some(fn_call_body("g", Some(1))) },
            InstanceData { body: Some(fn_call_body("f", Some(0))) },
        ],
    };
    let mut reachable = compute_instances(&program);
    reachable.sort();
    assert_eq!(reachable, vec![0, 1]);
}

#[test]
fn test_callgraph_unresolved_calls_skipped() {
    let program = Program {
        items: vec![fn_item("f", Some(0))],
        trait_impls: Vec::new(),
        instances: vec![InstanceData { body: Some(fn_call_body("mystery", None)) }],
    };
    let reachable = compute_instances(&program);
    assert_eq!(reachable, vec![0]);
}

fn wrapper_ty(wrapper: &str, held: Option<&str>) -> Ty {
    let mut args = vec![GenericArg::Lifetime];
    if let Some(h) = held {
        args.push(GenericArg::Type(Ty {
            kind: TyKind::Adt(
                AdtDef {
                    name: h.to_string(),
                    is_local: true,
                    kind: AdtKind::Struct,
                    variants: Vec::new(),
                },
                Vec::new(),
            ),
        }));
    }
    Ty {
        kind: TyKind::Adt(
            AdtDef {
                name: wrapper.to_string(),
                is_local: false,
                kind: AdtKind::Struct,
                variants: Vec::new(),
            },
            args,
        ),
    }
}

fn account_field(name: &str, inner: &str) -> FieldDef {
    FieldDef { name: name.to_string(), ty: wrapper_ty("anchor_lang::prelude::Account", Some(inner)) }
}

fn ctx(name: &str, fields: Vec<FieldDef>) -> TraitImplRecord {
    TraitImplRecord {
        trait_name: "anchor_lang::Accounts".to_string(),
        self_ty: Ty {
            kind: TyKind::Adt(
                AdtDef {
                    name: format!("mypkg::{}", name),
                    is_local: true,
                    kind: AdtKind::Struct,
                    variants: vec![VariantDef { name: name.to_string(), fields }],
                },
                Vec::new(),
            ),
        },
        assoc_items: vec![AssocItem {
            kind: AssocKind::Fn { name: "try_accounts".to_string(), has_self: false },
        }],
    }
}

#[test]
fn test_local_anchor_accounts_classifies_fields() {
    let program = Program {
        items: Vec::new(),
        trait_impls: vec![ctx(
            "Transfer",
            vec![
                account_field("from", "Vault"),
                FieldDef {
                    name: "authority".to_string(),
                    ty: wrapper_ty("anchor_lang::prelude::Signer", None),
                },
                FieldDef {
                    name: "system_program".to_string(),
                    ty: wrapper_ty("anchor_lang::prelude::Program", Some("System")),
                },
                FieldDef {
                    name: "rent".to_string(),
                    ty: wrapper_ty("anchor_lang::prelude::Sysvar", Some("Rent")),
                },
                FieldDef {
                    name: "ignored".to_string(),
                    ty: Ty { kind: TyKind::Other },
                },
            ],
        )],
        instances: Vec::new(),
    };
    let contexts = local_anchor_accounts(&program);
    assert_eq!(contexts.len(), 1);
    assert_eq!(contexts[0].name, "Transfer");
    let kinds: Vec<&AnchorAccountKind> =
        contexts[0].anchor_accounts.iter().map(|a| &a.kind).collect();
    assert_eq!(contexts[0].anchor_accounts.len(), 4);
    assert_eq!(kinds[0], &AnchorAccountKind::Account("Vault".to_string()));
    assert_eq!(kinds[1], &AnchorAccountKind::Signer);
    assert_eq!(kinds[2], &AnchorAccountKind::Program);
    // the extraction deliberately conflates sysvars with accounts
    assert_eq!(kinds[3], &AnchorAccountKind::Account("Rent".to_string()));
    assert_eq!(contexts[0].anchor_accounts[0].name, "from");
}

#[test]
fn test_non_local_struct_is_skipped() {
    let mut rec = ctx("Foreign", vec![account_field("a", "Vault")]);
    match &mut rec.self_ty.kind {
        TyKind::Adt(d, _) => d.is_local = false,
        _ => unreachable!(),
    }
    let program = Program { items: Vec::new(), trait_impls: vec![rec], instances: Vec::new() };
    assert_eq!(local_anchor_accounts(&program).len(), 0);
}

fn meta_copy_block(ctor: &str, field: usize, target: Option<usize>) -> BasicBlock {
    BasicBlock {
        statements: vec![Statement {
            kind: StatementKind::Assign(
                Place { local: 7, projection: Vec::new() },
                Rvalue::Use(Operand::Copy(Place {
                    local: 1,
                    projection: vec![ProjectionElem::Deref, ProjectionElem::Field(field)],
                })),
            ),
        }],
        terminator: Terminator {
            kind: TerminatorKind::Call {
                func: Operand::Constant(ConstOperand {
                    ty: Ty {
                        kind: TyKind::FnDef(FnDefInfo { name: ctor.to_string(), resolved: None }),
                    },
                    const_: ConstantKind::Other,
                }),
                args: Vec::new(),
                destination: Place { local: 8, projection: Vec::new() },
                target,
            },
        },
    }
}

fn serializer_program(ctor0: &str, ctor1: &str) -> Program {
    let serializer_body = Body {
        blocks: vec![
            meta_copy_block(ctor0, 0, Some(1)),
            meta_copy_block(ctor1, 1, Some(2)),
            BasicBlock {
                statements: Vec::new(),
                terminator: Terminator { kind: TerminatorKind::Return },
            },
        ],
        local_decls: vec![
            Ty { kind: TyKind::Other },
            Ty {
                kind: TyKind::Ref(
                    Box::new(Ty {
                        kind: TyKind::Adt(
                            AdtDef {
                                name: "mypkg::__client_accounts_transfer::Transfer".to_string(),
                                is_local: true,
                                kind: AdtKind::Struct,
                                variants: Vec::new(),
                            },
                            Vec::new(),
                        ),
                    }),
                    Mutability::Not,
                ),
            },
        ],
    };
    Program {
        items: vec![Item {
            name: "mypkg::__client_accounts_transfer::Transfer::to_account_metas".to_string(),
            kind: ItemKind::Fn,
            requires_monomorphization: false,
            instance: Some(0),
            body: None,
        }],
        trait_impls: vec![ctx(
            "Transfer",
            vec![account_field("from", "Vault"), account_field("to", "Vault")],
        )],
        instances: vec![InstanceData { body: Some(serializer_body) }],
    }
}

#[test]
fn test_find_to_account_metas_recovers_facts() {
    let program = serializer_program(
        "anchor_lang::prelude::AccountMeta::new",
        "anchor_lang::prelude::AccountMeta::new_readonly",
    );
    let facts = find_to_account_metas(&program);
    assert_eq!(facts.len(), 2);
    assert_eq!(facts[0].0, "Transfer");
    assert_eq!(facts[0].1, MetaMutability::Mutable);
    assert_eq!(facts[0].2, 0);
    assert_eq!(facts[1].0, "Transfer");
    assert_eq!(facts[1].1, MetaMutability::ReadOnly);
    assert_eq!(facts[1].2, 1);
}

#[test]
fn test_end_to_end_finding_positive() {
    // both fields mutable accounts of the same inner type
    let program = serializer_program(
        "anchor_lang::prelude::AccountMeta::new",
        "anchor_lang::prelude::AccountMeta::new",
    );
    let findings = detect_duplicate_mutable_account(&program);
    assert_eq!(findings.len(), 1);
    assert_eq!(findings[0].context, "Transfer");
    assert_eq!(findings[0].field_a, "from");
    assert_eq!(findings[0].field_b, "to");
    assert_eq!(findings[0].inner_type, "Vault");
}

#[test]
fn test_end_to_end_finding_negative_mutability() {
    // the second field is only read
    let program = serializer_program(
        "anchor_lang::prelude::AccountMeta::new",
        "anchor_lang::prelude::AccountMeta::new_readonly",
    );
    let findings = detect_duplicate_mutable_account(&program);
    assert_eq!(findings.len(), 0);
}

fn acc(name: &str, kind: AnchorAccountKind) -> AnchorAccount {
    AnchorAccount { name: name.to_string(), kind }
}

fn fact(ctx_name: &str, m: MetaMutability, idx: usize) -> (String, MetaMutability, usize) {
    (ctx_name.to_string(), m, idx)
}

#[test]
fn test_detector_positive_pair() {
    let contexts = vec![AnchorAccounts {
        name: "Ctx".to_string(),
        anchor_accounts: vec![
            acc("a", AnchorAccountKind::Account("Vault".to_string())),
            acc("b", AnchorAccountKind::Account("Vault".to_string())),
        ],
    }];
    let facts = vec![
        fact("Ctx", MetaMutability::Mutable, 0),
        fact("Ctx", MetaMutability::Mutable, 1),
    ];
    let findings = find_duplicate_mutable_accounts(&contexts, &facts);
    assert_eq!(findings.len(), 1);
    assert_eq!(findings[0].context, "Ctx");
    assert_eq!(findings[0].field_a, "a");
    assert_eq!(findings[0].field_b, "b");
    assert_eq!(findings[0].inner_type, "Vault");
}

#[test]
fn test_detector_negative_mutability_mismatch() {
    let contexts = vec![AnchorAccounts {
        name: "Ctx".to_string(),
        anchor_accounts: vec![
            acc("a", AnchorAccountKind::Account("Vault".to_string())),
            acc("b", AnchorAccountKind::Account("Vault".to_string())),
        ],
    }];
    let facts = vec![
        fact("Ctx", MetaMutability::Mutable, 0),
        fact("Ctx", MetaMutability::ReadOnly, 1),
    ];
    assert_eq!(find_duplicate_mutable_accounts(&contexts, &facts).len(), 0);
}

#[test]
fn test_detector_negative_type_mismatch() {
    let contexts = vec![AnchorAccounts {
        name: "Ctx".to_string(),
        anchor_accounts: vec![
            acc("a", AnchorAccountKind::Account("Vault".to_string())),
            acc("b", AnchorAccountKind::Account("Pool".to_string())),
        ],
    }];
    let facts = vec![
        fact("Ctx", MetaMutability::Mutable, 0),
        fact("Ctx", MetaMutability::Mutable, 1),
    ];
    assert_eq!(find_duplicate_mutable_accounts(&contexts, &facts).len(), 0);
}

#[test]
fn test_detector_negative_kind_mismatch() {
    // the signer slot is (incorrectly, but per the call-site shape)
    // recorded mutable; signers never classify as accounts
    let contexts = vec![AnchorAccounts {
        name: "Ctx".to_string(),
        anchor_accounts: vec![
            acc("s", AnchorAccountKind::Signer),
            acc("b", AnchorAccountKind::Account("Vault".to_string())),
        ],
    }];
    let facts = vec![
        fact("Ctx", MetaMutability::Mutable, 0),
        fact("Ctx", MetaMutability::Mutable, 1),
    ];
    assert_eq!(find_duplicate_mutable_accounts(&contexts, &facts).len(), 0);
}

#[test]
fn test_detector_three_mutable_fields_all_pairs() {
    let contexts = vec![AnchorAccounts {
        name: "Ctx".to_string(),
        anchor_accounts: vec![
            acc("a", AnchorAccountKind::Account("Vault".to_string())),
            acc("b", AnchorAccountKind::Account("Vault".to_string())),
            acc("c", AnchorAccountKind::Account("Vault".to_string())),
        ],
    }];
    let facts = vec![
        fact("Ctx", MetaMutability::Mutable, 0),
        fact("Ctx", MetaMutability::Mutable, 1),
        fact("Ctx", MetaMutability::Mutable, 2),
    ];
    // three qualifying fields give all three unordered pairs
    assert_eq!(find_duplicate_mutable_accounts(&contexts, &facts).len(), 3);
}

#[test]
fn test_detector_unknown_mutability_never_flagged() {
    let contexts = vec![AnchorAccounts {
        name: "Ctx".to_string(),
        anchor_accounts: vec![
            acc("a", AnchorAccountKind::Account("Vault".to_string())),
            acc("b", AnchorAccountKind::Account("Vault".to_string())),
        ],
    }];
    // a fact index outside the field count is a no-op
    let facts = vec![
        fact("Ctx", MetaMutability::Mutable, 0),
        fact("Ctx", MetaMutability::Mutable, 9),
    ];
    assert_eq!(find_duplicate_mutable_accounts(&contexts, &facts).len(), 0);
}

fn dep(name: &str) -> ParsedDependency {
    ParsedDependency { name: name.to_string(), version: None }
}

#[test]
fn test_check_program_type_anchor() {
    let deps = vec![dep("serde"), dep("anchor-lang")];
    assert_eq!(check_program_type(&deps), ProgramType::Anchor);
}

#[test]
fn test_check_program_type_native() {
    let deps = vec![dep("solana-sdk"), dep("serde")];
    assert_eq!(check_program_type(&deps), ProgramType::SolanaNative);
    let deps = vec![dep("solana-program")];
    assert_eq!(check_program_type(&deps), ProgramType::SolanaNative);
}

#[test]
fn test_check_program_type_anchor_wins_over_native() {
    let deps = vec![dep("solana-sdk"), dep("anchor-lang")];
    assert_eq!(check_program_type(&deps), ProgramType::Anchor);
}

#[test]
fn test_check_program_type_other() {
    let deps = vec![dep("serde"), dep("tokio")];
    assert_eq!(check_program_type(&deps), ProgramType::Other);
    let deps: Vec<ParsedDependency> = Vec::new();
    assert_eq!(check_program_type(&deps), ProgramType::Other);
}

#[test]
fn test_text_scans() {
    assert!(str_contains("mypkg::__client_accounts_x::to_account_metas", "to_account_metas"));
    assert!(!str_contains("short", "to_account_metas"));
    assert!(str_ends_with("Foo::DISCRIMINATOR", "::DISCRIMINATOR"));
    assert!(!str_ends_with("Foo::DISCRIMINATOR2", "::DISCRIMINATOR"));
    assert!(str_eq("abc", "abc"));
    assert!(!str_eq("abc", "abd"));
    assert_eq!(last_path_segment("a::b::Transfer"), "Transfer");
    assert_eq!(last_path_segment("Plain"), "Plain");
    assert_eq!(last_path_segment("trailing::"), "");
}

fn byte_array_body(bytes: Vec<Option<u8>>) -> Body {
    Body {
        blocks: vec![BasicBlock {
            statements: vec![
                Statement { kind: StatementKind::Other },
                Statement {
                    kind: StatementKind::Assign(
                        Place { local: 0, projection: Vec::new() },
                        Rvalue::Aggregate(
                            AggregateKind::Array(Ty { kind: TyKind::Uint(UintTy::U8) }),
                            vec![Operand::Constant(ConstOperand {
                                ty: Ty { kind: TyKind::Other },
                                const_: ConstantKind::Allocated(Allocation { bytes }),
                            })],
                        ),
                    ),
                },
            ],
            terminator: Terminator { kind: TerminatorKind::Return },
        }],
        local_decls: Vec::new(),
    }
}

#[test]
fn test_extract_program_id() {
    let program = Program {
        items: vec![
            fn_item("unrelated", None),
            Item {
                name: "ID".to_string(),
                kind: ItemKind::Static,
                requires_monomorphization: false,
                instance: None,
                body: Some(byte_array_body(vec![Some(1), Some(2), None, Some(3)])),
            },
        ],
        trait_impls: Vec::new(),
        instances: Vec::new(),
    };
    // uninitialized slots are skipped
    assert_eq!(extract_program_id(&program), Some(vec![1, 2, 3]));

    let empty = Program { items: Vec::new(), trait_impls: Vec::new(), instances: Vec::new() };
    assert_eq!(extract_program_id(&empty), None);
}

#[test]
fn test_extract_discriminators() {
    let mk = |name: &str| Item {
        name: name.to_string(),
        kind: ItemKind::Const,
        requires_monomorphization: false,
        instance: None,
        body: Some(byte_array_body(vec![Some(9), Some(8)])),
    };
    let program = Program {
        items: vec![
            mk("<Vault as anchor_lang::Discriminator>::DISCRIMINATOR"),
            mk("<instruction::Init as anchor_lang::Discriminator>::DISCRIMINATOR"),
            mk("mypkg::OTHER_CONST"),
        ],
        trait_impls: Vec::new(),
        instances: Vec::new(),
    };
    let discs = extract_discriminators(&program);
    assert_eq!(discs.len(), 1);
    assert_eq!(discs[0].0, "Vault");
    assert_eq!(discs[0].1, vec![9, 8]);
}
