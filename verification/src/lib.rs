//! Core of a lazy clause generation (LCG) constraint solver: a propagation
//! engine with typed integer variables layered over a CDCL SAT oracle.
//!
//! Oracle literals are plain non-zero `i32` values whose sign selects the
//! polarity. The engine allocates them through [`int_var::VarFactory`] in
//! the same order as the oracle, translates assigned literals into integer
//! bound changes, journals every reversible change on the [`trail::Trail`],
//! and wakes subscribed propagators through a strict [`queue`]. The oracle
//! itself is an external collaborator: it calls the notification entry
//! points of [`engine::State`] and receives clauses and propagated
//! literals back as plain values.

pub mod helpers;
pub mod meaning;
pub mod value;
pub mod transform;
pub mod opt_field;
pub mod config;
pub mod stats;
pub mod queue;
pub mod trail;
pub mod domain;
pub mod view;
pub mod int_var;
pub mod bool_to_int;
pub mod activation;
pub mod propagator;
pub mod engine;
pub mod search;
