//! A scalar reverse-mode automatic-differentiation engine.
//!
//! Arithmetic expressions over scalars are recorded eagerly as a directed
//! acyclic computation graph; a single backward traversal then accumulates the
//! exact partial derivative of a chosen output with respect to every node it
//! depends on.  A small gradient-descent update consumes those gradients.
//!
//! All nodes live in an arena ([`var::Graph`]); a [`var::Var`] is a stable
//! index into it, so node identity is index identity and every parent edge
//! points at a strictly earlier node, which makes the graph acyclic by
//! construction.  Scalars are `i64` values under two's-complement wrapping
//! arithmetic, modelled by [`scalar::wrap`].

pub mod backward;
pub mod ops;
pub mod opt;
pub mod scalar;
pub mod var;
