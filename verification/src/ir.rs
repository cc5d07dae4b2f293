//! A read-only snapshot of a program's typed intermediate
//! representation.
//!
//! The analysis consumes this model instead of reaching into any
//! ambient compiler state: a front end builds one [`Program`] value
//! per analyzed crate, with every call target pre-resolved to an index
//! into the instance table.  Identity of a callable is its index;
//! names are not unique and are never used as identities.

use vstd::prelude::*;

verus! {

/// Whether a reference is mutable.
#[derive(Clone, Copy, Debug, PartialEq, Eq, Structural)]
pub enum Mutability {
    Not,
    Mut,
}

/// Width of an unsigned-integer primitive.
#[derive(Clone, Copy, Debug, PartialEq, Eq, Structural)]
pub enum UintTy {
    U8,
    U16,
    U32,
    U64,
    U128,
    Usize,
}

/// Kind of an algebraic data type.
#[derive(Clone, Copy, Debug, PartialEq, Eq, Structural)]
pub enum AdtKind {
    Struct,
    Enum,
    Union,
}

/// An algebraic data type, carried by value inside the snapshot: its
/// path name, where it was defined, and its variants.
pub struct AdtDef {
    pub name: String,
    pub is_local: bool,
    pub kind: AdtKind,
    pub variants: Vec<VariantDef>,
}

/// One variant of an algebraic data type.
pub struct VariantDef {
    pub name: String,
    pub fields: Vec<FieldDef>,
}

/// One field of a variant.
pub struct FieldDef {
    pub name: String,
    pub ty: Ty,
}

/// A function definition named by a constant operand; the front end
/// resolves it, together with its generic arguments, to an instance
/// index where that is possible.
#[derive(Clone, Debug)]
pub struct FnDefInfo {
    pub name: String,
    pub resolved: Option<usize>,
}

/// A structural type.
pub struct Ty {
    pub kind: TyKind,
}

/// The kind of a structural type.
pub enum TyKind {
    Adt(AdtDef, Vec<GenericArg>),
    Ref(Box<Ty>, Mutability),
    FnDef(FnDefInfo),
    Uint(UintTy),
    Other,
}

/// A positional generic argument.
pub enum GenericArg {
    Lifetime,
    Type(Ty),
    Other,
}

/// A storage location: a local index and a projection path.
#[derive(Clone, Debug)]
pub struct Place {
    pub local: usize,
    pub projection: Vec<ProjectionElem>,
}

/// One step of a projection path.
#[derive(Clone, Copy, Debug, PartialEq, Eq, Structural)]
pub enum ProjectionElem {
    Deref,
    Field(usize),
    Other,
}

/// Raw bytes of an evaluated constant; a slot is `None` when it holds
/// no initialized byte.
#[derive(Clone, Debug)]
pub struct Allocation {
    pub bytes: Vec<Option<u8>>,
}

/// The evaluated form of a constant.
pub enum ConstantKind {
    Allocated(Allocation),
    Other,
}

/// A constant operand: its type and its evaluated form.
pub struct ConstOperand {
    pub ty: Ty,
    pub const_: ConstantKind,
}

/// An operand of a statement or call.
pub enum Operand {
    Copy(Place),
    Move(Place),
    Constant(ConstOperand),
}

/// The aggregate form built by an `Aggregate` right-hand side.
pub enum AggregateKind {
    Array(Ty),
    Other,
}

/// A right-hand side of an assignment.
pub enum Rvalue {
    Use(Operand),
    Aggregate(AggregateKind, Vec<Operand>),
    Other,
}

/// One statement of a basic block.
pub enum StatementKind {
    Assign(Place, Rvalue),
    Other,
}

/// A statement.
pub struct Statement {
    pub kind: StatementKind,
}

/// The closing instruction of a basic block.  Successor entries are
/// indices of blocks within the same body.
pub enum TerminatorKind {
    Goto { target: usize },
    SwitchInt { targets: Vec<usize> },
    Call { func: Operand, args: Vec<Operand>, destination: Place, target: Option<usize> },
    Return,
    Unreachable,
}

/// A terminator.
pub struct Terminator {
    pub kind: TerminatorKind,
}

impl Terminator {
    /// The block indices control can flow to.
    pub open spec fn successors_spec(&self) -> Seq<usize> {
        match self.kind {
            TerminatorKind::Goto { target } => seq![target],
            TerminatorKind::SwitchInt { targets } => targets@,
            TerminatorKind::Call { target, .. } => match target {
                Some(t) => seq![t],
                None => Seq::empty(),
            },
            TerminatorKind::Return => Seq::empty(),
            TerminatorKind::Unreachable => Seq::empty(),
        }
    }

    /// The block indices control can flow to.
    pub fn successors(&self) -> (r: Vec<usize>)
        ensures
            r@ == self.successors_spec(),
    {
        match &self.kind {
            TerminatorKind::Goto { target } => {
                let mut v: Vec<usize> = Vec::new();
                v.push(*target);
                proof {
                    assert(v@ =~= seq![*target]);
                }
                v
            },
            TerminatorKind::SwitchInt { targets } => targets.clone(),
            TerminatorKind::Call { target, .. } => {
                match target {
                    Some(t) => {
                        let mut v: Vec<usize> = Vec::new();
                        v.push(*t);
                        proof {
                            assert(v@ =~= seq![*t]);
                        }
                        v
                    },
                    None => Vec::new(),
                }
            },
            TerminatorKind::Return => Vec::new(),
            TerminatorKind::Unreachable => Vec::new(),
        }
    }
}

/// One basic block: statements in order and one terminator.
pub struct BasicBlock {
    pub statements: Vec<Statement>,
    pub terminator: Terminator,
}

/// An ordered block list plus the types of the body's locals; local 1
/// is the first formal parameter.
pub struct Body {
    pub blocks: Vec<BasicBlock>,
    pub local_decls: Vec<Ty>,
}

impl Body {
    /// The declared type of the local with the given index, if any.
    pub fn local_decl(&self, local: usize) -> (r: Option<&Ty>)
        ensures
            match r {
                Some(t) => local < self.local_decls@.len() && *t == self.local_decls@[local as int],
                None => local >= self.local_decls@.len(),
            },
    {
        if local < self.local_decls.len() {
            Some(&self.local_decls[local])
        } else {
            None
        }
    }
}

/// The kind of a top-level item.
#[derive(Clone, Copy, Debug, PartialEq, Eq, Structural)]
pub enum ItemKind {
    Fn,
    Static,
    Const,
    Other,
}

/// One top-level item of the analyzed crate.  `instance` holds the
/// index of the item's resolved instance when it needs no further
/// substitution.
pub struct Item {
    pub name: String,
    pub kind: ItemKind,
    pub requires_monomorphization: bool,
    pub instance: Option<usize>,
    pub body: Option<Body>,
}

/// A fully resolved callable: its body when one is available to the
/// analysis.
pub struct InstanceData {
    pub body: Option<Body>,
}

/// One trait-implementation record: the implemented trait's path
/// name, the subject type, and the associated items of the impl.
pub struct TraitImplRecord {
    pub trait_name: String,
    pub self_ty: Ty,
    pub assoc_items: Vec<AssocItem>,
}

/// The kind of an associated item of a trait implementation.
pub enum AssocKind {
    Fn { name: String, has_self: bool },
    Other,
}

/// An associated item of a trait implementation.
pub struct AssocItem {
    pub kind: AssocKind,
}

/// A read-only program snapshot: all items, all trait-implementation
/// records, and the table of resolved instances that item and call
/// indices point into.
pub struct Program {
    pub items: Vec<Item>,
    pub trait_impls: Vec<TraitImplRecord>,
    pub instances: Vec<InstanceData>,
}

} // verus!
