//! The item model: one node of a crate description's index.

use vstd::prelude::*;

verus! {

/// An item identifier, unique within one crate description's index.
pub type Id = u64;

/// Where a traversal step should enter a crate: at a concrete item, or at
/// the crate's root module.  An explicit sum type replaces any reserved
/// sentinel value in the identifier space.
#[derive(Clone, Copy, PartialEq, Eq, Structural, Debug, Hash)]
pub enum ResolveTarget {
    ById(Id),
    CrateRoot,
}

/// The shape of a struct's field list.
#[derive(Clone, PartialEq, Eq, Debug)]
pub enum StructKind {
    Unit,
    Tuple,
    /// Field identifiers, in declaration order, resolvable within the same
    /// crate as the struct itself.
    Plain { fields: Vec<Id> },
}

/// The kind tag of an item.  The variant set is fixed by the external
/// schema; the walker dispatches on it exhaustively.
#[derive(Clone, PartialEq, Eq, Debug)]
pub enum ItemKind {
    /// A module: child item identifiers in declaration order.
    Module { children: Vec<Id> },
    /// A re-export: the source path as written, and the resolved target
    /// identifier when the tool could resolve it.
    Use { source: String, id: Option<Id> },
    /// A struct definition.
    Struct { kind: StructKind },
    /// An enum: variant item identifiers in declaration order.
    Enum { variants: Vec<Id> },
    // Leaf kinds: traversal ends at these nodes.
    StructField,
    Variant,
    Function,
    Trait,
    Impl,
    TypeAlias,
    Constant,
    Static,
    Macro,
    ProcMacro,
    AssocType,
    // Unsupported kinds: reaching one is reported as a typed error.
    Union,
    TraitAlias,
    ExternCrate,
    ExternType,
    Primitive,
    AssocConst,
}

/// One node of a crate description's index.
#[derive(Clone, PartialEq, Eq, Debug)]
pub struct Item {
    /// The display name; mandatory for structs and fields that are to be
    /// documented.
    pub name: Option<String>,
    /// The documentation string, when present.
    pub docs: Option<String>,
    pub kind: ItemKind,
}

impl ItemKind {
    /// A kind at which the traversal simply stops.
    pub open spec fn is_leaf(self) -> bool {
        match self {
            ItemKind::StructField
            | ItemKind::Variant
            | ItemKind::Function
            | ItemKind::Trait
            | ItemKind::Impl
            | ItemKind::TypeAlias
            | ItemKind::Constant
            | ItemKind::Static
            | ItemKind::Macro
            | ItemKind::ProcMacro
            | ItemKind::AssocType => true,
            _ => false,
        }
    }

    /// A schema variant the walker does not handle; reaching one aborts the
    /// traversal with a typed error.
    pub open spec fn is_unsupported(self) -> bool {
        match self {
            ItemKind::Union
            | ItemKind::TraitAlias
            | ItemKind::ExternCrate
            | ItemKind::ExternType
            | ItemKind::Primitive
            | ItemKind::AssocConst => true,
            _ => false,
        }
    }
}

/// The variant set is closed: every kind is a module, a re-export, a
/// struct, an enum, a leaf, or an unsupported variant — and never a leaf
/// and unsupported at once.  Exhaustive dispatch over these six groups is
/// the defense against silently mishandling a kind.
pub proof fn lemma_kind_dispatch_total(k: ItemKind)
    ensures
        (k matches ItemKind::Module { .. }) || (k matches ItemKind::Use { .. }) || (k
            matches ItemKind::Struct { .. }) || (k matches ItemKind::Enum { .. }) || k.is_leaf()
            || k.is_unsupported(),
        !(k.is_leaf() && k.is_unsupported()),
{
}

/// Every identifier an item can ask the walker to visit next: module
/// children, enum variants, and a re-export's own resolved target.
pub open spec fn item_ids(item: Item) -> Seq<Id> {
    match item.kind {
        ItemKind::Module { children } => children@,
        ItemKind::Use { source: _, id } => match id {
            Some(i) => seq![i],
            None => Seq::empty(),
        },
        ItemKind::Enum { variants } => variants@,
        _ => Seq::empty(),
    }
}

} // verus!
