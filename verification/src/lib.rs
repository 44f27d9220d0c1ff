//! A small generic graph and tree toolkit.
//!
//! Two independent structures are offered: an owned, append-only rooted
//! tree ([`directed_graph::Node`]) with depth-first and breadth-first
//! listings, and a directed, labeled multigraph ([`graph::Graph`]) keyed
//! by a caller-chosen identifier type.
//!
//! Both structures are generic, so their contracts speak of the caller's
//! `PartialEq` and `Clone` impls through the predicates of [`conform`]:
//! a type whose `==` decides equality and whose `clone` returns its
//! input's value, as every primitive type does, gets the exact contracts.

pub mod conform;
pub mod directed_graph;
pub mod graph;
