//! Classification of an analyzed package from its parsed dependency
//! list.

use crate::text::str_eq;
use vstd::prelude::*;

verus! {

/// One dependency parsed out of a package manifest; the version is
/// absent when the entry does not carry one directly.
#[derive(Debug)]
pub struct ParsedDependency {
    pub name: String,
    pub version: Option<String>,
}

/// Errors of the manifest reader.
#[derive(Clone, Copy, Debug, PartialEq, Eq, Structural)]
pub enum SolanaMetadataError {
    CargoTomlNotFound,
    CargoTomlParseFailure,
}

impl SolanaMetadataError {
    /// A short description of the error.
    pub fn message(&self) -> (r: &'static str)
        ensures
            *self == SolanaMetadataError::CargoTomlNotFound ==> r@ == "Cargo.toml not found"@,
            *self == SolanaMetadataError::CargoTomlParseFailure ==> r@
                == "Cargo.toml fails to parse"@,
    {
        match self {
            SolanaMetadataError::CargoTomlNotFound => "Cargo.toml not found",
            SolanaMetadataError::CargoTomlParseFailure => "Cargo.toml fails to parse",
        }
    }
}

/// The classification of an analyzed package.
#[derive(PartialEq, Eq, Debug, Copy, Clone, Structural)]
pub enum ProgramType {
    Anchor,
    SolanaNative,
    Other,
}

/// Some dependency in the list has the given name.
pub open spec fn has_dep(deps: Seq<ParsedDependency>, name: Seq<char>) -> bool {
    exists|i: int| 0 <= i < deps.len() && (#[trigger] deps[i]).name@ == name
}

/// Classifies a package from its dependencies: it targets the
/// account framework when it depends on `anchor-lang`; otherwise the
/// bare runtime when it depends on `solana-sdk` or `solana-program`;
/// otherwise it is out of scope.
pub fn check_program_type(deps: &[ParsedDependency]) -> (r: ProgramType)
    ensures
        r == ProgramType::Anchor <==> has_dep(deps@, "anchor-lang"@),
        r == ProgramType::SolanaNative <==> !has_dep(deps@, "anchor-lang"@) && (has_dep(
            deps@,
            "solana-sdk"@,
        ) || has_dep(deps@, "solana-program"@)),
        r == ProgramType::Other <==> !has_dep(deps@, "anchor-lang"@) && !has_dep(
            deps@,
            "solana-sdk"@,
        ) && !has_dep(deps@, "solana-program"@),
{
    let mut anchor = false;
    let mut native = false;
    let mut i: usize = 0;
    while i < deps.len()
        invariant
            i <= deps@.len(),
            anchor == has_dep(deps@.subrange(0, i as int), "anchor-lang"@),
            native == (has_dep(deps@.subrange(0, i as int), "solana-sdk"@) || has_dep(
                deps@.subrange(0, i as int),
                "solana-program"@,
            )),
        decreases deps@.len() - i,
    {
        let ghost sub = deps@.subrange(0, i as int);
        let ghost sub1 = deps@.subrange(0, i as int + 1);
        proof {
            assert(sub1 =~= sub.push(deps@[i as int]));
        }
        let d = &deps[i];
        if str_eq(d.name.as_str(), "anchor-lang") {
            anchor = true;
        }
        if str_eq(d.name.as_str(), "solana-sdk") || str_eq(d.name.as_str(), "solana-program") {
            native = true;
        }
        proof {
            assert forall|nm: Seq<char>| has_dep(sub1, nm) == (has_dep(sub, nm) || deps@[
                i as int].name@ == nm) by {
                if has_dep(sub, nm) {
                    let q = choose|q: int| 0 <= q < sub.len() && (#[trigger] sub[q]).name@ == nm;
                    assert(sub1[q].name@ == nm);
                }
                if deps@[i as int].name@ == nm {
                    assert(sub1[i as int].name@ == nm);
                }
                if has_dep(sub1, nm) {
                    let q = choose|q: int| 0 <= q < sub1.len() && (#[trigger] sub1[q]).name@ == nm;
                    if q < i {
                        assert(sub[q].name@ == nm);
                    }
                }
            }
        }
        i = i + 1;
    }
    proof {
        assert(deps@.subrange(0, deps@.len() as int) =~= deps@);
    }
    if anchor {
        ProgramType::Anchor
    } else if native {
        ProgramType::SolanaNative
    } else {
        ProgramType::Other
    }
}

} // verus!
