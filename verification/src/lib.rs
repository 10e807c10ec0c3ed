//! An in-memory store for RDF-style labeled graphs and datasets.
//!
//! The crate is built from four pieces:
//! - a term dictionary (`term_index::TermIndexU`) that interns term values
//!   into compact integer handles with reference counting and slot reuse;
//! - indexed tuple stores (`graph::HashGraph` for triples,
//!   `dataset::HashDataset` for quads) built on those handles, with an
//!   optimistic insert/rollback protocol;
//! - a pattern-matching layer (`matcher`) that answers queries with up to
//!   four optional constant bindings;
//! - a push-based fallible streaming protocol (`stream`) connecting
//!   producers to consumers.

pub mod dataset;
pub mod fixtures;
pub mod graph;
pub mod matcher;
pub mod seq_lemmas;
pub mod stream;
pub mod term;
pub mod term_index;
