//! Dependency-aware service resolution with memoised results.
//!
//! A [`Service`] is a named computation over the results of the services it
//! depends on; a computation is anything that implements [`Compute`], such
//! as the text computations of [`Computation`]. A [`Resolver`] owns a registry of services and resolves a name
//! by first resolving its dependencies depth-first, in declaration order, and
//! caching every result so that each computation runs at most once. A name
//! that is not registered, a cycle among dependencies, or a failed
//! computation ends resolution with a [`ResolveError`].
//!
//! [`graph`] gives the meaning of resolution over the registry, and [`laws`]
//! states the properties that follow for callers.

pub mod graph;
pub mod laws;
mod resolver;
mod service;

pub use resolver::{names_view, resolve_outcome, ResolveError, Resolver};
pub use service::{join, outcome_view, Compute, Computation, Service};
