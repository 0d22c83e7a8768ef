//! A membership set over externally owned items.
//!
//! An `ExternalSet` tracks which items currently exist without deciding their
//! lifetime: every insertion hands back an `ItemOwner`, a single-owner
//! capability that alone can read the item and alone ends its membership,
//! either by `take` (the value is returned) or by `discard` (the value is
//! dropped). A read guard obtained from `lock` gives a consistent snapshot
//! for traversal, optionally excluding one handle's item.

pub mod laws;
pub mod model;
pub mod set;

pub use crate::set::ExternalSet;
pub use crate::set::ExternalSetIter;
pub use crate::set::ExternalSetReadGuard;
pub use crate::set::ItemOwner;
