//! A verified documentation-graph walker.
//!
//! The library loads nothing itself: callers hand it a catalog of crate
//! descriptions (plain values mirroring a compiler's serialized API
//! description), and it resolves identifiers, traverses the item graph with
//! cycle protection, and renders one textual document per struct it reaches.

pub mod catalog;
pub mod document;
pub mod items;
pub mod paths;
pub mod universe;
pub mod walker;

pub use catalog::Catalog;
pub use catalog::CrateDesc;
pub use catalog::build_catalog;
pub use catalog::excluded_crate;
pub use document::FieldDoc;
pub use document::StructDocument;
pub use document::document_struct;
pub use document::has_name_collision;
pub use items::Id;
pub use items::Item;
pub use items::ItemKind;
pub use items::ResolveTarget;
pub use items::StructKind;
pub use paths::path_first_segment;
pub use paths::str_eq;
pub use walker::WalkError;
pub use walker::walk;
