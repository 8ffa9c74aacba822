//! Extraction of annotated statements and proofs from LaTeX-style blueprint
//! documents, and their resolution into a cross-referenced graph of stubs.
//!
//! A document is read in two steps. `comments` strips its `%` comments,
//! `document` finds the environments that declare statements and proofs,
//! with `macros` and `nesting` reading what each block declares. `graph`
//! then puts the statements of all documents together: `registry` keeps the
//! labels unique and synthesizes the missing ones, back-referenced proofs
//! are merged, and every dependency is resolved. `project` does both steps
//! for a list of documents.
//!
//! The grammar of the annotations is small, and every scanner is proved
//! against its statement as a specification function on `Seq<char>`; the
//! tests hold the scanners against the same grammar written as regular
//! expressions. The laws that hold of every result stand beside the
//! functions as proof functions, and in `graph_laws`; `graph_success` says
//! when a graph is owed.
pub mod comments;
pub mod config;
pub mod document;
pub mod graph;
pub mod graph_laws;
pub mod graph_success;
pub mod labels;
pub mod macros;
pub mod model;
pub mod nesting;
pub mod project;
pub mod registry;
pub mod reports;
pub mod text;
