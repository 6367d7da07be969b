//! A small fine-grained reactive engine: state cells, tracked computations,
//! batched effects, keyed-list reconciliation and scoped context lookup.

pub mod context;
pub mod error;
pub mod expr;
pub mod ordered_run;
pub mod reconcile;
pub mod runtime;
