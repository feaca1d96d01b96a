//! A type-variable substitution store together with the deep-copy engine used
//! to instantiate a generalized (polymorphic) type, and the paired expression
//! rewriter that keeps a syntax tree consistent with the copied type graph.
//!
//! The store is an append-only arena of descriptors addressed by opaque
//! integer handles; variable-length children (argument lists, record fields,
//! tag payloads) are interned as index ranges into shared backing arrays.
//! The deep-copy engine walks the graph reachable from a root variable and
//! clones exactly the part of it that leads to a generic-parameter variable,
//! sharing all closed substructure and terminating on cyclic (recursive)
//! types.

pub mod subs;
pub mod graph;
pub mod walk;
pub mod copy;
pub mod expr;
pub mod util;
