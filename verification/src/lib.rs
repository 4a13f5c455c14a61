//! A disjoint-set (union-find) structure with path compression and union by
//! rank, together with the mathematical model its contracts are stated over.
//!
//! * [`forest`] is the model: a rank and an optional parent for every
//!   registered element, and the three operations as functions on it.
//! * [`lemmas`] proves how single steps on the model behave.
//! * [`laws`] states and proves what callers may rely on.
//! * [`union_find`] is the executable structure, [`DisjointSet`].
//!
//! Elements can be of any type whose equality, hashing and cloning behave
//! as those of a lookup key must; [`element_type`] says so precisely, and
//! [`DisjointSet::new`] asks for it.

pub mod forest;
pub mod laws;
pub mod lemmas;
pub mod union_find;

pub use crate::forest::{Call, Entry, Forest};
pub use crate::union_find::{element_type, DisjointSet};
