//! The type system: type representation, interning, subtyping, unification,
//! resolution of named types, and variance.

pub mod representation;
pub mod interner;

pub use representation::{ObjectType, PrimitiveType, PropertyMap, Type, TypeId, TypeParameter};
pub use interner::TypeInterner;
pub mod unify;
pub mod variance;
pub mod resolver;
